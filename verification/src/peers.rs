//! The table of known peers: who they are, where to send them audio, when
//! they were last heard from, and how they are shown.

use vstd::prelude::*;

use crate::clock::elapsed;
use crate::clock::elapsed_ms;
use crate::discovery::decode_hello;
use crate::discovery::AUDIO_PORT;
use crate::discovery::port_or_default;
use crate::discovery::lemma_hello_roundtrip;
use crate::discovery::spec_decode_hello;
use crate::discovery::spec_hello_text;
use crate::discovery::spec_port_or_default;
use crate::discovery::Announcement;
use crate::net::endpoint_of;
use crate::net::ip_of;
use crate::net::port_of;
use crate::net::endpoint_text;
use crate::net::ip_text;
use crate::net::spec_endpoint_text;
use crate::net::spec_ip_text;
use crate::net::Endpoint;
use crate::net::IpAddress;
use crate::text::decimal_digits;
use crate::text::is_digit;
use crate::text::lemma_decimal_digits;
use crate::text::lemma_parse_decimal_roundtrip;
use crate::text::spec_parse_u16;
use crate::text::no_white_space;
use vstd::utf8::encode_utf8;
use crate::text::push_char;
use crate::text::push_decimal;

verus! {

/// Seconds of silence after which a peer is dropped.
pub const PEER_TIMEOUT_SECS: u64 = 5;

/// Seconds of silence within which a peer counts as fresh.
pub const FRESH_SECS: u64 = 2;

/// How recently a peer was heard from, as the widget shows it.
#[derive(Clone, Copy, Debug, PartialEq, Eq, Structural)]
pub enum PeerStatus {
    Fresh,
    Stale,
    Expired,
}

/// Whole seconds from `last_seen` to `now` (milliseconds).
pub open spec fn age_secs(now: u64, last_seen: u64) -> nat {
    elapsed(now, last_seen) / 1000
}

/// The status of a peer last heard from at `last_seen`.
pub open spec fn spec_status(now: u64, last_seen: u64) -> PeerStatus {
    let a = age_secs(now, last_seen);
    if a < FRESH_SECS {
        PeerStatus::Fresh
    } else if a < PEER_TIMEOUT_SECS {
        PeerStatus::Stale
    } else {
        PeerStatus::Expired
    }
}

/// Executable status of a peer.
pub fn status_at(now: u64, last_seen: u64) -> (r: PeerStatus)
    ensures
        r == spec_status(now, last_seen),
{
    let a = elapsed_ms(now, last_seen) / 1000;
    if a < FRESH_SECS {
        PeerStatus::Fresh
    } else if a < PEER_TIMEOUT_SECS {
        PeerStatus::Stale
    } else {
        PeerStatus::Expired
    }
}

/// What the table knows of one peer; `manual` marks a peer added by hand.
pub struct PeerRecord {
    pub id: Seq<char>,
    pub endpoint: Endpoint,
    pub last_seen: u64,
    pub label: Seq<char>,
    pub manual: bool,
}

/// One peer: its key, its audio address, when it was last heard from
/// (milliseconds), the text shown for it, and whether it was added by hand
/// (such a peer stays until it is removed).
pub struct Peer {
    pub id: String,
    pub endpoint: Endpoint,
    pub last_seen_ms: u64,
    pub label: String,
    pub manual: bool,
}

impl View for Peer {
    type V = PeerRecord;

    open spec fn view(&self) -> PeerRecord {
        PeerRecord {
            id: self.id@,
            endpoint: self.endpoint,
            last_seen: self.last_seen_ms,
            label: self.label@,
            manual: self.manual,
        }
    }
}

impl Peer {
    /// An equal copy.
    pub fn duplicate(&self) -> (r: Peer)
        ensures
            r@ == self@,
    {
        Peer {
            id: self.id.clone(),
            endpoint: self.endpoint,
            last_seen_ms: self.last_seen_ms,
            label: self.label.clone(),
            manual: self.manual,
        }
    }
}

/// No two records share an id.
pub open spec fn ids_distinct(s: Seq<PeerRecord>) -> bool {
    forall|i: int, j: int| 0 <= i < s.len() && 0 <= j < s.len() && i != j ==> s[i].id != s[j].id
}

/// Some record has key `id`.
pub open spec fn has_id(s: Seq<PeerRecord>, id: Seq<char>) -> bool {
    exists|i: int| 0 <= i < s.len() && s[i].id == id
}

/// Where the record with key `id` stands, or -1.
pub open spec fn index_of(s: Seq<PeerRecord>, id: Seq<char>) -> int {
    if has_id(s, id) {
        choose|i: int| 0 <= i < s.len() && s[i].id == id
    } else {
        -1
    }
}

/// The record with key `id`, if any.
pub open spec fn lookup(s: Seq<PeerRecord>, id: Seq<char>) -> Option<PeerRecord> {
    if has_id(s, id) {
        Some(s[index_of(s, id)])
    } else {
        None
    }
}

/// With distinct ids, the record with a given id is the one at its index.
pub proof fn lemma_index_of(s: Seq<PeerRecord>, id: Seq<char>, i: int)
    requires
        ids_distinct(s),
        0 <= i < s.len(),
        s[i].id == id,
    ensures
        has_id(s, id),
        index_of(s, id) == i,
        lookup(s, id) == Some(s[i]),
{
}

/// The text shown for a peer at `ip` and `port`: `ip:port`, the address as
/// `IpAddr` displays it.
pub open spec fn spec_label(ip: IpAddress, port: u16) -> Seq<char> {
    spec_ip_text(ip) + seq![':'] + decimal_digits(port as nat)
}

/// Executable label.
pub fn endpoint_label(ip: IpAddress, port: u16) -> (r: String)
    ensures
        r@ == spec_label(ip, port),
{
    let mut s = ip_text(ip);
    push_char(&mut s, ':');
    push_decimal(&mut s, port);
    assert(s@ =~= spec_label(ip, port));
    s
}

/// The table after hearing from `id` at `endpoint` at time `now`: a known
/// peer gets the new address and time and keeps its label and how it was
/// added; a new one is added at the end with `label`, as a discovered peer.
pub open spec fn spec_touch(
    s: Seq<PeerRecord>,
    id: Seq<char>,
    endpoint: Endpoint,
    now: u64,
    label: Seq<char>,
) -> Seq<PeerRecord> {
    if has_id(s, id) {
        let i = index_of(s, id);
        s.update(i, PeerRecord { id, endpoint, last_seen: now, label: s[i].label, manual: s[i].manual })
    } else {
        s.push(PeerRecord { id, endpoint, last_seen: now, label, manual: false })
    }
}

/// The table after an announcement `(id, port)` from `src_ip`, heard by the
/// node `my_id`: its own announcements change nothing.
pub open spec fn spec_observe(
    s: Seq<PeerRecord>,
    my_id: Seq<char>,
    ann: (Seq<char>, u16),
    src_ip: IpAddress,
    now: u64,
) -> Seq<PeerRecord> {
    if ann.0 == my_id {
        s
    } else {
        spec_touch(s, ann.0, endpoint_of(src_ip, ann.1), now, spec_label(src_ip, ann.1))
    }
}

/// The table after a discovery packet: anything but an announcement changes
/// nothing.
pub open spec fn spec_receive_hello(
    s: Seq<PeerRecord>,
    my_id: Seq<char>,
    packet: Seq<u8>,
    src_ip: IpAddress,
    now: u64,
) -> Seq<PeerRecord> {
    match spec_decode_hello(packet) {
        Some(ann) => spec_observe(s, my_id, ann, src_ip, now),
        None => s,
    }
}

/// The table after adding by hand the peer at `ip` and `port`: its key and
/// label are `ip:port`, it is marked as added by hand, and an existing entry
/// under that key is kept as it is.
pub open spec fn spec_add_manual(
    s: Seq<PeerRecord>,
    ip: IpAddress,
    port: u16,
    now: u64,
) -> Seq<PeerRecord> {
    let key = spec_label(ip, port);
    if has_id(s, key) {
        s
    } else {
        s.push(
            PeerRecord {
                id: key,
                endpoint: endpoint_of(ip, port),
                last_seen: now,
                label: key,
                manual: true,
            },
        )
    }
}

/// The table without the peer `id`.
pub open spec fn spec_remove(s: Seq<PeerRecord>, id: Seq<char>) -> Seq<PeerRecord> {
    if has_id(s, id) {
        s.remove(index_of(s, id))
    } else {
        s
    }
}

/// A peer is kept at `now`: it was added by hand, or it was heard from less
/// than the timeout ago.
pub open spec fn is_live(now: u64) -> spec_fn(PeerRecord) -> bool {
    |p: PeerRecord| p.manual || age_secs(now, p.last_seen) < PEER_TIMEOUT_SECS
}

/// The table without the discovered peers that have timed out, order kept;
/// peers added by hand stay until they are removed.
pub open spec fn spec_prune(s: Seq<PeerRecord>, now: u64) -> Seq<PeerRecord> {
    s.filter(is_live(now))
}

/// Keeping a subsequence keeps ids distinct.
pub proof fn lemma_filter_distinct(s: Seq<PeerRecord>, p: spec_fn(PeerRecord) -> bool)
    requires
        ids_distinct(s),
    ensures
        ids_distinct(s.filter(p)),
    decreases s.len(),
{
    reveal(Seq::filter);
    if s.len() > 0 {
        let d = s.drop_last();
        assert(ids_distinct(d)) by {
            assert forall|i: int, j: int|
                0 <= i < d.len() && 0 <= j < d.len() && i != j implies d[i].id != d[j].id by {
                assert(d[i] == s[i] && d[j] == s[j]);
            }
        }
        lemma_filter_distinct(d, p);
        let f = d.filter(p);
        if p(s.last()) {
            let g = f.push(s.last());
            assert forall|i: int, j: int|
                0 <= i < g.len() && 0 <= j < g.len() && i != j implies g[i].id != g[j].id by {
                if i < f.len() && j < f.len() {
                    assert(g[i] == f[i] && g[j] == f[j]);
                } else {
                    let k = if i < f.len() { i } else { j };
                    assert(f.contains(f[k]));
                    d.lemma_filter_contains_rev(p, f[k]);
                    let m = choose|m: int| 0 <= m < d.len() && d[m] == f[k];
                    assert(s[m] == d[m]);
                    assert(s[s.len() - 1] == s.last());
                }
            }
        }
    }
}

/// Audio from `src` is queued under `key`: the key of the first peer at that
/// address, or the address's own text (as `SocketAddr` displays it) where no
/// peer is at it.
pub open spec fn routes_to(s: Seq<PeerRecord>, src: Endpoint, key: Seq<char>) -> bool {
    if exists|i: int| 0 <= i < s.len() && s[i].endpoint == src {
        exists|i: int|
            0 <= i < s.len() && s[i].endpoint == src && s[i].id == key && forall|j: int|
                0 <= j < i ==> s[j].endpoint != src
    } else {
        key == spec_endpoint_text(src)
    }
}

/// What the widget lists for one peer.
pub struct PeerRow {
    pub id: String,
    pub label: String,
    pub status: PeerStatus,
}

impl PeerRow {
    /// Id, label and status.
    pub open spec fn view(&self) -> (Seq<char>, Seq<char>, PeerStatus) {
        (self.id@, self.label@, self.status)
    }
}

/// What a run of peers holds.
pub open spec fn view_of(v: Seq<Peer>) -> Seq<PeerRecord> {
    v.map_values(|p: Peer| p@)
}

/// The known peers, each under a distinct key.
pub struct PeerTable {
    peers: Vec<Peer>,
}

impl View for PeerTable {
    type V = Seq<PeerRecord>;

    closed spec fn view(&self) -> Seq<PeerRecord> {
        view_of(self.peers@)
    }
}

impl PeerTable {
    /// The table's invariant: keys are distinct.
    #[verifier::type_invariant]
    pub open spec fn wf(&self) -> bool {
        ids_distinct(self@)
    }

    /// An empty table.
    pub fn new() -> (t: PeerTable)
        ensures
            t@ == Seq::<PeerRecord>::empty(),
    {
        let t = PeerTable { peers: Vec::new() };
        assert(t@ =~= Seq::<PeerRecord>::empty());
        t
    }

    /// The number of peers.
    pub fn len(&self) -> (n: usize)
        ensures
            n == self@.len(),
    {
        self.peers.len()
    }

    /// There are no peers.
    pub fn is_empty(&self) -> (b: bool)
        ensures
            b == (self@.len() == 0),
    {
        self.peers.len() == 0
    }

    /// Where the peer `id` stands, if it is known.
    pub fn find(&self, id: &String) -> (r: Option<usize>)
        ensures
            r is Some <==> has_id(self@, id@),
            r matches Some(i) ==> i == index_of(self@, id@) && i < self@.len(),
    {
        proof {
            use_type_invariant(self);
        }
        let mut i: usize = 0;
        while i < self.peers.len()
            invariant
                self.wf(),
                i <= self.peers.len(),
                forall|k: int| 0 <= k < i ==> self@[k].id != id@,
            decreases self.peers.len() - i,
        {
            if self.peers[i].id == *id {
                proof {
                    assert(self@[i as int] == self.peers@[i as int]@);
                    lemma_index_of(self@, id@, i as int);
                }
                return Some(i);
            }
            assert(self@[i as int] == self.peers@[i as int]@);
            i = i + 1;
        }
        None
    }

    /// Records that `id` was heard from at `endpoint` at `now`.
    fn touch(&mut self, id: &String, endpoint: Endpoint, now: u64, label: String)
        ensures
            final(self)@ == spec_touch(old(self)@, id@, endpoint, now, label@),
    {
        proof {
            use_type_invariant(&*self);
        }
        match self.find(id) {
            Some(i) => {
                let ghost s = self@;
                let p = Peer {
                    id: self.peers[i].id.clone(),
                    endpoint,
                    last_seen_ms: now,
                    label: self.peers[i].label.clone(),
                    manual: self.peers[i].manual,
                };
                assert(s[i as int] == self.peers@[i as int]@);
                let mut peers: Vec<Peer> = Vec::new();
                std::mem::swap(&mut peers, &mut self.peers);
                peers.set(i, p);
                assert(view_of(peers@) =~= spec_touch(s, id@, endpoint, now, label@));
                proof {
                    lemma_touch_then_lookup(s, id@, endpoint, now, label@);
                }
                self.peers = peers;
            },
            None => {
                let ghost s = self@;
                let p = Peer { id: id.clone(), endpoint, last_seen_ms: now, label, manual: false };
                let mut peers: Vec<Peer> = Vec::new();
                std::mem::swap(&mut peers, &mut self.peers);
                peers.push(p);
                assert(view_of(peers@) =~= spec_touch(s, id@, endpoint, now, label@));
                proof {
                    lemma_touch_then_lookup(s, id@, endpoint, now, label@);
                }
                self.peers = peers;
            },
        }
    }

    /// Takes in an announcement from `src_ip`, heard by the node `my_id`.
    pub fn observe(
        &mut self,
        my_id: &String,
        ann: &Announcement,
        src_ip: IpAddress,
        now: u64,
    )
        ensures
            final(self)@ == spec_observe(old(self)@, my_id@, ann.view(), src_ip, now),
    {
        if ann.id == *my_id {
            return ;
        }
        let endpoint = Endpoint::new(src_ip, ann.port);
        let label = endpoint_label(src_ip, ann.port);
        self.touch(&ann.id, endpoint, now, label);
    }

    /// Takes in a packet that came in on the discovery port from `src_ip`.
    pub fn receive_hello(
        &mut self,
        my_id: &String,
        packet: &[u8],
        src_ip: IpAddress,
        now: u64,
    )
        ensures
            final(self)@ == spec_receive_hello(old(self)@, my_id@, packet@, src_ip, now),
    {
        match decode_hello(packet) {
            Some(ann) => self.observe(my_id, &ann, src_ip, now),
            None => {},
        }
    }

    /// Adds by hand the peer at `ip`, on the port that `port_text` names (the
    /// audio port where it names none).
    pub fn add_manual(&mut self, ip: IpAddress, port_text: &str, now: u64)
        ensures
            final(self)@ == spec_add_manual(
                old(self)@,
                ip,
                spec_port_or_default(port_text@),
                now,
            ),
    {
        proof {
            use_type_invariant(&*self);
        }
        let port = port_or_default(port_text);
        let key = endpoint_label(ip, port);
        if self.find(&key).is_none() {
            let ghost s = self@;
            let p = Peer {
                id: key.clone(),
                endpoint: Endpoint::new(ip, port),
                last_seen_ms: now,
                label: key,
                manual: true,
            };
            let mut peers: Vec<Peer> = Vec::new();
            std::mem::swap(&mut peers, &mut self.peers);
            peers.push(p);
            assert(view_of(peers@) =~= s.push(p@));
            assert forall|a: int, b: int|
                0 <= a < view_of(peers@).len() && 0 <= b < view_of(peers@).len() && a != b implies view_of(peers@)[a].id
                != view_of(peers@)[b].id by {
                if a < s.len() && b < s.len() {
                    assert(view_of(peers@)[a] == s[a] && view_of(peers@)[b] == s[b]);
                } else if a < s.len() {
                    assert(view_of(peers@)[a] == s[a]);
                } else {
                    assert(view_of(peers@)[b] == s[b]);
                }
            }
            self.peers = peers;
        }
    }

    /// Forgets the peer `id`.
    pub fn remove(&mut self, id: &String)
        ensures
            final(self)@ == spec_remove(old(self)@, id@),
    {
        proof {
            use_type_invariant(&*self);
        }
        match self.find(id) {
            Some(i) => {
                let ghost s = self@;
                let mut peers: Vec<Peer> = Vec::new();
                std::mem::swap(&mut peers, &mut self.peers);
                peers.remove(i);
                let ghost t = view_of(peers@);
                assert(t =~= s.remove(i as int));
                assert forall|a: int, b: int|
                    0 <= a < t.len() && 0 <= b < t.len() && a != b implies t[a].id != t[b].id by {
                    let a2 = if a < i { a } else { a + 1 };
                    let b2 = if b < i { b } else { b + 1 };
                    assert(t[a] == s[a2] && t[b] == s[b2]);
                }
                self.peers = peers;
            },
            None => {},
        }
    }

    /// Forgets every discovered peer that has timed out at `now`.
    pub fn prune(&mut self, now: u64)
        ensures
            final(self)@ == spec_prune(old(self)@, now),
    {
        proof {
            use_type_invariant(&*self);
        }
        let ghost s = self@;
        let mut kept: Vec<Peer> = Vec::new();
        let n = self.peers.len();
        let mut i: usize = 0;
        while i < n
            invariant
                i <= n,
                n == self.peers.len(),
                s == self@,
                kept@.map_values(|p: Peer| p@) == s.take(i as int).filter(is_live(now)),
            decreases n - i,
        {
            let p = &self.peers[i];
            let ghost old_kept = kept@.map_values(|p: Peer| p@);
            proof {
                reveal(Seq::filter);
                assert(s.take(i + 1).drop_last() =~= s.take(i as int));
                assert(s.take(i + 1).last() == p@);
            }
            if p.manual || elapsed_ms(now, p.last_seen_ms) / 1000 < PEER_TIMEOUT_SECS {
                kept.push(p.duplicate());
                assert(kept@.map_values(|p: Peer| p@) =~= old_kept.push(p@));
            }
            i = i + 1;
        }
        assert(s.take(n as int) =~= s);
        proof {
            lemma_filter_distinct(s, is_live(now));
        }
        self.peers = kept;
    }

    /// Every peer with its label and status at `now`, in table order.
    pub fn listing(&self, now: u64) -> (r: Vec<PeerRow>)
        ensures
            r.len() == self@.len(),
            forall|i: int|
                0 <= i < r.len() ==> #[trigger] r[i].view() == (
                    self@[i].id,
                    self@[i].label,
                    spec_status(now, self@[i].last_seen),
                ),
    {
        let mut r: Vec<PeerRow> = Vec::new();
        let mut i: usize = 0;
        while i < self.peers.len()
            invariant
                i <= self.peers.len(),
                r.len() == i,
                forall|k: int|
                    0 <= k < i ==> #[trigger] r[k].view() == (
                        self@[k].id,
                        self@[k].label,
                        spec_status(now, self@[k].last_seen),
                    ),
            decreases self.peers.len() - i,
        {
            let p = &self.peers[i];
            assert(self@[i as int] == p@);
            r.push(
                PeerRow {
                    id: p.id.clone(),
                    label: p.label.clone(),
                    status: status_at(now, p.last_seen_ms),
                },
            );
            i = i + 1;
        }
        r
    }

    /// The addresses that captured audio goes to: none while muted or alone,
    /// else every peer's, in table order.
    pub fn send_targets(&self, muted: bool) -> (r: Vec<Endpoint>)
        ensures
            r@ == (if muted || self@.len() == 0 {
                Seq::<Endpoint>::empty()
            } else {
                self@.map_values(|p: PeerRecord| p.endpoint)
            }),
    {
        let mut r: Vec<Endpoint> = Vec::new();
        if muted || self.peers.len() == 0 {
            return r;
        }
        let mut i: usize = 0;
        while i < self.peers.len()
            invariant
                i <= self.peers.len(),
                r@ == self@.take(i as int).map_values(|p: PeerRecord| p.endpoint),
            decreases self.peers.len() - i,
        {
            assert(self@[i as int] == self.peers@[i as int]@);
            r.push(self.peers[i].endpoint);
            assert(self@.take(i + 1).map_values(|p: PeerRecord| p.endpoint) =~= self@.take(
                i as int,
            ).map_values(|p: PeerRecord| p.endpoint).push(self@[i as int].endpoint));
            i = i + 1;
        }
        assert(self@.take(self@.len() as int) =~= self@);
        r
    }

    /// The key under which audio from `src` is queued: see `routes_to`; none
    /// while there are no peers.
    pub fn route(&self, src: Endpoint) -> (r: Option<String>)
        ensures
            r is None <==> self@.len() == 0,
            r matches Some(k) ==> routes_to(self@, src, k@),
    {
        let mut i: usize = 0;
        while i < self.peers.len()
            invariant
                i <= self.peers.len(),
                forall|j: int| 0 <= j < i ==> self@[j].endpoint != src,
            decreases self.peers.len() - i,
        {
            assert(self@[i as int] == self.peers@[i as int]@);
            if self.peers[i].endpoint == src {
                let k = self.peers[i].id.clone();
                assert(routes_to(self@, src, k@)) by {
                    assert(self@[i as int].endpoint == src);
                }
                return Some(k);
            }
            i = i + 1;
        }
        if self.peers.len() == 0 {
            None
        } else {
            Some(endpoint_text(src))
        }
    }
}


/// Hearing from a peer records its address and time under its id, keeps the
/// label it had and how it was added (or, when new, gives it `label` as a
/// discovered peer), and leaves every other peer as
/// it was; ids stay distinct.
pub proof fn lemma_touch_then_lookup(
    s: Seq<PeerRecord>,
    id: Seq<char>,
    endpoint: Endpoint,
    now: u64,
    label: Seq<char>,
)
    requires
        ids_distinct(s),
    ensures
        ({
            let t = spec_touch(s, id, endpoint, now, label);
            &&& ids_distinct(t)
            &&& lookup(t, id) == Some(
                PeerRecord {
                    id,
                    endpoint,
                    last_seen: now,
                    label: if has_id(s, id) {
                        s[index_of(s, id)].label
                    } else {
                        label
                    },
                    manual: has_id(s, id) && s[index_of(s, id)].manual,
                },
            )
            &&& forall|k: Seq<char>| k != id ==> lookup(t, k) == lookup(s, k)
        }),
{
    let t = spec_touch(s, id, endpoint, now, label);
    let i = if has_id(s, id) { index_of(s, id) } else { s.len() as int };
    assert(t[i].id == id);
    assert forall|a: int, b: int| 0 <= a < t.len() && 0 <= b < t.len() && a != b implies t[a].id
        != t[b].id by {
        if a != i && b != i {
            assert(t[a] == s[a] && t[b] == s[b]);
        } else if a != i {
            assert(t[a] == s[a]);
        } else {
            assert(t[b] == s[b]);
        }
    }
    lemma_index_of(t, id, i);
    assert forall|k: Seq<char>| k != id implies lookup(t, k) == lookup(s, k) by {
        if has_id(s, k) {
            let j = index_of(s, k);
            assert(t[j] == s[j]);
            lemma_index_of(t, k, j);
        }
        if has_id(t, k) {
            let j = index_of(t, k);
            assert(j != i);
            assert(s[j] == t[j]);
            lemma_index_of(s, k, j);
        }
    }
}

/// A node never lists itself: its own announcement, heard back, leaves the
/// table as it was.
pub proof fn lemma_own_announcement_ignored(
    s: Seq<PeerRecord>,
    my_id: Seq<char>,
    port: u16,
    src_ip: IpAddress,
    now: u64,
)
    requires
        my_id.len() > 0,
        no_white_space(my_id),
    ensures
        spec_receive_hello(
            s,
            my_id,
            encode_utf8(spec_hello_text(my_id, port)),
            src_ip,
            now,
        ) == s,
{
    lemma_hello_roundtrip(my_id, port);
}

/// Another node's announcement makes it known at the sender's address and the
/// announced port, as heard from now.
pub proof fn lemma_announcement_learned(
    s: Seq<PeerRecord>,
    my_id: Seq<char>,
    id: Seq<char>,
    port: u16,
    src_ip: IpAddress,
    now: u64,
)
    requires
        ids_distinct(s),
        id.len() > 0,
        no_white_space(id),
        id != my_id,
    ensures
        ({
            let t = spec_receive_hello(
                s,
                my_id,
                encode_utf8(spec_hello_text(id, port)),
                src_ip,
                now,
            );
            &&& ids_distinct(t)
            &&& lookup(t, id) matches Some(p) && p.endpoint == endpoint_of(src_ip, port)
                && p.last_seen == now
            &&& forall|k: Seq<char>| k != id ==> lookup(t, k) == lookup(s, k)
        }),
{
    lemma_hello_roundtrip(id, port);
    lemma_touch_then_lookup(s, id, endpoint_of(src_ip, port), now, spec_label(src_ip, port));
}

/// Pruning drops exactly the discovered peers whose status is expired: what
/// remains was added by hand or is not expired, every such peer remains, and
/// nothing new appears.
pub proof fn lemma_prune_drops_expired(s: Seq<PeerRecord>, now: u64)
    ensures
        ({
            let t = spec_prune(s, now);
            &&& forall|i: int|
                0 <= i < t.len() ==> #[trigger] t[i].manual || spec_status(now, t[i].last_seen)
                    != PeerStatus::Expired
            &&& forall|i: int|
                0 <= i < s.len() && (s[i].manual || spec_status(now, s[i].last_seen)
                    != PeerStatus::Expired) ==> t.contains(#[trigger] s[i])
            &&& forall|p: PeerRecord| t.contains(p) ==> s.contains(p)
        }),
{
    let t = spec_prune(s, now);
    let pred = is_live(now);
    assert forall|i: int| 0 <= i < t.len() implies #[trigger] t[i].manual || spec_status(
        now,
        t[i].last_seen,
    ) != PeerStatus::Expired by {
        s.lemma_filter_pred(pred, i);
    }
    assert forall|i: int|
        0 <= i < s.len() && (s[i].manual || spec_status(now, s[i].last_seen)
            != PeerStatus::Expired) implies t.contains(#[trigger] s[i]) by {
        assert(pred(s[i]));
        s.lemma_filter_contains(pred, i);
    }
    assert forall|p: PeerRecord| t.contains(p) implies s.contains(p) by {
        s.lemma_filter_contains_rev(pred, p);
    }
}

/// A peer added by hand stays through any pruning, at any time.
pub proof fn lemma_manual_peer_survives_prune(s: Seq<PeerRecord>, id: Seq<char>, now: u64)
    requires
        ids_distinct(s),
        lookup(s, id) matches Some(p) && p.manual,
    ensures
        lookup(spec_prune(s, now), id) == lookup(s, id),
{
    lemma_kept_peer_survives_prune(s, id, now);
}

/// A peer heard from less than the timeout ago stays through pruning.
pub proof fn lemma_recent_peer_survives_prune(s: Seq<PeerRecord>, id: Seq<char>, now: u64)
    requires
        ids_distinct(s),
        lookup(s, id) matches Some(p) && age_secs(now, p.last_seen) < PEER_TIMEOUT_SECS,
    ensures
        lookup(spec_prune(s, now), id) == lookup(s, id),
{
    lemma_kept_peer_survives_prune(s, id, now);
}

/// A peer that pruning keeps is found under its id, unchanged, afterwards.
proof fn lemma_kept_peer_survives_prune(s: Seq<PeerRecord>, id: Seq<char>, now: u64)
    requires
        ids_distinct(s),
        lookup(s, id) matches Some(p) && is_live(now)(p),
    ensures
        lookup(spec_prune(s, now), id) == lookup(s, id),
{
    let i = index_of(s, id);
    let t = spec_prune(s, now);
    s.lemma_filter_contains(is_live(now), i);
    lemma_filter_distinct(s, is_live(now));
    let j = choose|j: int| 0 <= j < t.len() && t[j] == s[i];
    lemma_index_of(t, id, j);
}

/// Adding the same peer by hand twice is adding it once.
pub proof fn lemma_add_manual_idempotent(
    s: Seq<PeerRecord>,
    ip: IpAddress,
    port: u16,
    now: u64,
    later: u64,
)
    ensures
        spec_add_manual(spec_add_manual(s, ip, port, now), ip, port, later) == spec_add_manual(
            s,
            ip,
            port,
            now,
        ),
{
    let key = spec_label(ip, port);
    let t = spec_add_manual(s, ip, port, now);
    if !has_id(s, key) {
        assert(t[s.len() as int].id == key);
    }
}

/// A removed peer is gone, and every other peer stays as it was.
pub proof fn lemma_remove_then_lookup(s: Seq<PeerRecord>, id: Seq<char>)
    requires
        ids_distinct(s),
    ensures
        ({
            let t = spec_remove(s, id);
            &&& ids_distinct(t)
            &&& lookup(t, id) is None
            &&& forall|k: Seq<char>| k != id ==> lookup(t, k) == lookup(s, k)
        }),
{
    let t = spec_remove(s, id);
    if has_id(s, id) {
        let i = index_of(s, id);
        assert forall|a: int| 0 <= a < t.len() implies #[trigger] t[a] == s[if a < i { a } else { a + 1 }] by {}
        assert forall|a: int, b: int| 0 <= a < t.len() && 0 <= b < t.len() && a != b implies t[a].id
            != t[b].id by {
            assert(t[a] == s[if a < i { a } else { a + 1 }]);
            assert(t[b] == s[if b < i { b } else { b + 1 }]);
        }
        assert(!has_id(t, id)) by {
            if has_id(t, id) {
                let j = index_of(t, id);
                assert(t[j] == s[if j < i { j } else { j + 1 }]);
            }
        }
        assert forall|k: Seq<char>| k != id implies lookup(t, k) == lookup(s, k) by {
            if has_id(s, k) {
                let j = index_of(s, k);
                assert(j != i);
                let j2 = if j < i { j } else { j - 1 };
                assert(t[j2] == s[j]);
                lemma_index_of(t, k, j2);
            }
            if has_id(t, k) {
                let j = index_of(t, k);
                let j2 = if j < i { j } else { j + 1 };
                assert(t[j] == s[j2]);
                lemma_index_of(s, k, j2);
            }
        }
    }
}

/// Something that happens to the table: a packet heard on the discovery
/// port, a pass that forgets timed-out peers, a peer added by hand (on the
/// port its text named), or a peer removed.
pub enum TableEvent {
    Hello { packet: Seq<u8>, src_ip: IpAddress, at: u64 },
    Prune { at: u64 },
    AddManual { ip: IpAddress, port: u16, at: u64 },
    Remove { id: Seq<char> },
}

/// The table after one event, heard by the node `my_id`.
pub open spec fn apply_event(s: Seq<PeerRecord>, my_id: Seq<char>, e: TableEvent) -> Seq<
    PeerRecord,
> {
    match e {
        TableEvent::Hello { packet, src_ip, at } => spec_receive_hello(
            s,
            my_id,
            packet,
            src_ip,
            at,
        ),
        TableEvent::Prune { at } => spec_prune(s, at),
        TableEvent::AddManual { ip, port, at } => spec_add_manual(s, ip, port, at),
        TableEvent::Remove { id } => spec_remove(s, id),
    }
}

/// The table after a run of events, in order.
pub open spec fn run_events(s: Seq<PeerRecord>, my_id: Seq<char>, es: Seq<TableEvent>) -> Seq<
    PeerRecord,
>
    decreases es.len(),
{
    if es.len() == 0 {
        s
    } else {
        apply_event(run_events(s, my_id, es.drop_last()), my_id, es.last())
    }
}

/// When and at which address `id` was last heard announcing itself over a run
/// of events, starting from `heard`.
pub open spec fn last_heard(heard: (u64, Endpoint), id: Seq<char>, es: Seq<TableEvent>) -> (
    u64,
    Endpoint,
)
    decreases es.len(),
{
    if es.len() == 0 {
        heard
    } else {
        let h = last_heard(heard, id, es.drop_last());
        match es.last() {
            TableEvent::Hello { packet, src_ip, at, .. } => match spec_decode_hello(packet) {
                Some(ann) => if ann.0 == id {
                    (at, endpoint_of(src_ip, ann.1))
                } else {
                    h
                },
                None => h,
            },
            _ => h,
        }
    }
}

/// No event of the run removes `id`.
pub open spec fn never_removed(id: Seq<char>, es: Seq<TableEvent>) -> bool {
    forall|k: int| 0 <= k < es.len() ==> !(#[trigger] es[k] matches TableEvent::Remove { id: r } && r == id)
}

/// Every pruning pass in the run comes less than the timeout after `id`'s
/// latest announcement before it.
pub open spec fn prunes_within_timeout(
    heard: (u64, Endpoint),
    id: Seq<char>,
    es: Seq<TableEvent>,
) -> bool {
    forall|k: int|
        0 <= k < es.len() ==> (#[trigger] es[k] matches TableEvent::Prune { at } ==> age_secs(
            at,
            last_heard(heard, id, es.take(k)).0,
        ) < PEER_TIMEOUT_SECS)
}

/// A listed peer that keeps announcing itself within the timeout, and is not
/// removed, stays listed through any run of events, at the address and time
/// of its latest announcement.
pub proof fn lemma_announcing_peer_stays(
    s: Seq<PeerRecord>,
    my_id: Seq<char>,
    id: Seq<char>,
    es: Seq<TableEvent>,
)
    requires
        ids_distinct(s),
        id != my_id,
        lookup(s, id) is Some,
        prunes_within_timeout((lookup(s, id)->0.last_seen, lookup(s, id)->0.endpoint), id, es),
        never_removed(id, es),
    ensures
        ({
            let t = run_events(s, my_id, es);
            let h = last_heard((lookup(s, id)->0.last_seen, lookup(s, id)->0.endpoint), id, es);
            &&& ids_distinct(t)
            &&& lookup(t, id) matches Some(q) && q.last_seen == h.0 && q.endpoint == h.1
        }),
    decreases es.len(),
{
    let heard = (lookup(s, id)->0.last_seen, lookup(s, id)->0.endpoint);
    if es.len() > 0 {
        let d = es.drop_last();
        assert forall|k: int| 0 <= k < d.len() implies (#[trigger] d[k] matches TableEvent::Prune {
            at,
        } ==> age_secs(at, last_heard(heard, id, d.take(k)).0) < PEER_TIMEOUT_SECS) by {
            assert(d[k] == es[k]);
            assert(d.take(k) =~= es.take(k));
        }
        assert forall|k: int| 0 <= k < d.len() implies !(#[trigger] d[k] matches TableEvent::Remove {
            id: r,
        } && r == id) by {
            assert(d[k] == es[k]);
        }
        lemma_announcing_peer_stays(s, my_id, id, d);
        let u = run_events(s, my_id, d);
        let h = last_heard(heard, id, d);
        assert(es.take(es.len() - 1) =~= d);
        match es.last() {
            TableEvent::Prune { at } => {
                assert(es[es.len() - 1] == es.last());
                lemma_recent_peer_survives_prune(u, id, at);
                lemma_filter_distinct(u, is_live(at));
            },
            TableEvent::Hello { packet, src_ip, at } => {
                match spec_decode_hello(packet) {
                    Some(ann) => {
                        if ann.0 != my_id {
                            lemma_touch_then_lookup(
                                u,
                                ann.0,
                                endpoint_of(src_ip, ann.1),
                                at,
                                spec_label(src_ip, ann.1),
                            );
                        }
                    },
                    None => {},
                }
            },
            TableEvent::AddManual { ip, port, at } => {
                let key = spec_label(ip, port);
                if !has_id(u, key) {
                    lemma_push_new_key(
                        u,
                        PeerRecord {
                            id: key,
                            endpoint: endpoint_of(ip, port),
                            last_seen: at,
                            label: key,
                            manual: true,
                        },
                    );
                }
            },
            TableEvent::Remove { id: r } => {
                assert(es[es.len() - 1] == es.last());
                lemma_remove_then_lookup(u, r);
            },
        }
    }
}

/// The same peer is listed after every step of such a run, not only at its end.
pub proof fn lemma_announcing_peer_listed_throughout(
    s: Seq<PeerRecord>,
    my_id: Seq<char>,
    id: Seq<char>,
    es: Seq<TableEvent>,
)
    requires
        ids_distinct(s),
        id != my_id,
        lookup(s, id) is Some,
        prunes_within_timeout((lookup(s, id)->0.last_seen, lookup(s, id)->0.endpoint), id, es),
        never_removed(id, es),
    ensures
        forall|k: int| 0 <= k <= es.len() ==> #[trigger] lookup(run_events(s, my_id, es.take(k)), id) is Some,
{
    let heard = (lookup(s, id)->0.last_seen, lookup(s, id)->0.endpoint);
    assert forall|k: int| 0 <= k <= es.len() implies #[trigger] lookup(
        run_events(s, my_id, es.take(k)),
        id,
    ) is Some by {
        let p = es.take(k);
        assert forall|j: int| 0 <= j < p.len() implies (#[trigger] p[j] matches TableEvent::Prune {
            at,
        } ==> age_secs(at, last_heard(heard, id, p.take(j)).0) < PEER_TIMEOUT_SECS) by {
            assert(p[j] == es[j]);
            assert(p.take(j) =~= es.take(j));
        }
        assert forall|j: int| 0 <= j < p.len() implies !(#[trigger] p[j] matches TableEvent::Remove {
            id: r,
        } && r == id) by {
            assert(p[j] == es[j]);
        }
        lemma_announcing_peer_stays(s, my_id, id, p);
    }
}

/// Adding a record under a new key keeps keys distinct, finds the record
/// under its key, and leaves every other key as it was.
pub proof fn lemma_push_new_key(s: Seq<PeerRecord>, r: PeerRecord)
    requires
        ids_distinct(s),
        !has_id(s, r.id),
    ensures
        ids_distinct(s.push(r)),
        lookup(s.push(r), r.id) == Some(r),
        forall|k: Seq<char>| k != r.id ==> lookup(s.push(r), k) == lookup(s, k),
{
    let t = s.push(r);
    let n = s.len() as int;
    assert forall|a: int, b: int| 0 <= a < t.len() && 0 <= b < t.len() && a != b implies t[a].id
        != t[b].id by {
        if a < n && b < n {
            assert(t[a] == s[a] && t[b] == s[b]);
        } else if a < n {
            assert(t[a] == s[a]);
        } else {
            assert(t[b] == s[b]);
        }
    }
    lemma_index_of(t, r.id, n);
    assert forall|k: Seq<char>| k != r.id implies lookup(t, k) == lookup(s, k) by {
        if has_id(s, k) {
            let j = index_of(s, k);
            assert(t[j] == s[j]);
            lemma_index_of(t, k, j);
        }
        if has_id(t, k) {
            let j = index_of(t, k);
            assert(j < n);
            assert(s[j] == t[j]);
            lemma_index_of(s, k, j);
        }
    }
}

/// A key of a peer added by hand holds a `:`.
pub proof fn lemma_label_has_colon(ip: IpAddress, port: u16)
    ensures
        spec_label(ip, port).contains(':'),
{
    let l = spec_label(ip, port);
    assert(l[spec_ip_text(ip).len() as int] == ':');
}

/// A node never lists itself: where its id holds no `:` and the table starts
/// without it, no run of announcements (its own included), pruning passes,
/// peers added by hand and removals ever puts it in the table.
pub proof fn lemma_own_id_never_listed(s: Seq<PeerRecord>, my_id: Seq<char>, es: Seq<TableEvent>)
    requires
        ids_distinct(s),
        !my_id.contains(':'),
        !has_id(s, my_id),
    ensures
        ids_distinct(run_events(s, my_id, es)),
        !has_id(run_events(s, my_id, es), my_id),
    decreases es.len(),
{
    if es.len() > 0 {
        let d = es.drop_last();
        lemma_own_id_never_listed(s, my_id, d);
        let u = run_events(s, my_id, d);
        match es.last() {
            TableEvent::Prune { at } => {
                lemma_filter_distinct(u, is_live(at));
                let t = spec_prune(u, at);
                if has_id(t, my_id) {
                    let j = index_of(t, my_id);
                    assert(t.contains(t[j]));
                    u.lemma_filter_contains_rev(is_live(at), t[j]);
                }
            },
            TableEvent::Hello { packet, src_ip, at } => {
                match spec_decode_hello(packet) {
                    Some(ann) => {
                        if ann.0 != my_id {
                            lemma_touch_then_lookup(
                                u,
                                ann.0,
                                endpoint_of(src_ip, ann.1),
                                at,
                                spec_label(src_ip, ann.1),
                            );
                        }
                    },
                    None => {},
                }
            },
            TableEvent::AddManual { ip, port, at } => {
                let key = spec_label(ip, port);
                lemma_label_has_colon(ip, port);
                assert(key != my_id);
                if !has_id(u, key) {
                    lemma_push_new_key(
                        u,
                        PeerRecord {
                            id: key,
                            endpoint: endpoint_of(ip, port),
                            last_seen: at,
                            label: key,
                            manual: true,
                        },
                    );
                }
            },
            TableEvent::Remove { id: r } => {
                lemma_remove_then_lookup(u, r);
            },
        }
    }
}

/// Adding by hand the peer at `ip`, with a port text that names port `p`
/// (or names none, and then the audio port), lists it under the key `ip:p`
/// with audio going to `ip` at that port, heard from now and marked as added
/// by hand; a key that was listed already is kept as it was. No other peer
/// changes, and keys stay distinct.
pub proof fn lemma_add_manual_then_lookup(
    s: Seq<PeerRecord>,
    ip: IpAddress,
    port_text: Seq<char>,
    now: u64,
)
    requires
        ids_distinct(s),
    ensures
        ({
            let port = match spec_parse_u16(port_text) {
                Some(p) => p,
                None => AUDIO_PORT,
            };
            let key = spec_ip_text(ip) + seq![':'] + decimal_digits(port as nat);
            let t = spec_add_manual(s, ip, spec_port_or_default(port_text), now);
            &&& ids_distinct(t)
            &&& has_id(s, key) ==> t == s
            &&& !has_id(s, key) ==> (lookup(t, key) matches Some(p) && ip_of(p.endpoint) == ip
                && port_of(p.endpoint) == port && p.last_seen == now && p.manual && p.label == key)
            &&& forall|k: Seq<char>| k != key ==> lookup(t, k) == lookup(s, k)
        }),
{
    let port = spec_port_or_default(port_text);
    let key = spec_label(ip, port);
    if !has_id(s, key) {
        lemma_push_new_key(
            s,
            PeerRecord {
                id: key,
                endpoint: endpoint_of(ip, port),
                last_seen: now,
                label: key,
                manual: true,
            },
        );
    }
}

/// A hand-added peer's key names its port: the text after the key's last `:`
/// is the port's decimal text, and parses back to the port.
pub proof fn lemma_label_names_port(ip: IpAddress, port: u16)
    ensures
        exists|head: Seq<char>, d: Seq<char>|
            spec_label(ip, port) == head + seq![':'] + d && !d.contains(':') && spec_parse_u16(d)
                == Some(port),
{
    let d = decimal_digits(port as nat);
    lemma_decimal_digits(port as nat);
    lemma_parse_decimal_roundtrip(port);
    assert(!d.contains(':')) by {
        if d.contains(':') {
            let j = choose|j: int| 0 <= j < d.len() && d[j] == ':';
            assert(is_digit(d[j]));
        }
    }
    assert(spec_label(ip, port) == spec_ip_text(ip) + seq![':'] + d);
}

/// Audio from an address that no listed peer is at, while some peer is
/// listed, is queued under that address's own text: the sender's IP (in
/// brackets, with its scope, for v6), a `:`, and the sender's port, which is
/// what the text after its last `:` parses to.
pub proof fn lemma_route_fallback_names_sender(s: Seq<PeerRecord>, src: Endpoint, key: Seq<char>)
    requires
        routes_to(s, src, key),
        forall|i: int| 0 <= i < s.len() ==> s[i].endpoint != src,
    ensures
        key == (match src {
            Endpoint::V4 { .. } => spec_ip_text(ip_of(src)),
            Endpoint::V6 { scope_id, .. } => seq!['['] + spec_ip_text(ip_of(src)) + (if scope_id
                == 0 {
                Seq::<char>::empty()
            } else {
                seq!['%'] + decimal_digits(scope_id as nat)
            }) + seq![']'],
        }) + seq![':'] + decimal_digits(port_of(src) as nat),
        exists|head: Seq<char>, d: Seq<char>|
            key == head + seq![':'] + d && !d.contains(':') && spec_parse_u16(d) == Some(
                port_of(src),
            ),
{
    let port = port_of(src);
    let d = decimal_digits(port as nat);
    lemma_decimal_digits(port as nat);
    lemma_parse_decimal_roundtrip(port);
    assert(!d.contains(':')) by {
        if d.contains(':') {
            let j = choose|j: int| 0 <= j < d.len() && d[j] == ':';
            assert(is_digit(d[j]));
        }
    }
    let head = match src {
        Endpoint::V4 { .. } => spec_ip_text(ip_of(src)),
        Endpoint::V6 { scope_id, .. } => seq!['['] + spec_ip_text(ip_of(src)) + (if scope_id == 0 {
            Seq::<char>::empty()
        } else {
            seq!['%'] + decimal_digits(scope_id as nat)
        }) + seq![']'],
    };
    assert(key =~= head + seq![':'] + d);
}

} // verus!
