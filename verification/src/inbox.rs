//! Received audio, queued per sender: packets go to the back of their
//! sender's queue, playback takes two bytes at a time from each front.

use std::collections::VecDeque;
use vstd::prelude::*;

use crate::audio::decode_sample;
use crate::audio::sample_of;
use crate::net::Endpoint;
use crate::peers::routes_to;
use crate::peers::PeerTable;

verus! {

/// Chunks kept per sender; older ones are dropped first.
pub const MAX_QUEUED_CHUNKS: usize = 20;

/// One sender's queue as a sequence of byte chunks, oldest first.
pub type Queue = Seq<Seq<u8>>;

/// The queue of one sender.
struct Stream {
    key: String,
    chunks: VecDeque<Vec<u8>>,
}

/// The chunks of a deque, as byte sequences.
pub open spec fn chunks_view(d: Seq<Vec<u8>>) -> Queue {
    d.map_values(|c: Vec<u8>| c@)
}

impl View for Stream {
    type V = (Seq<char>, Queue);

    closed spec fn view(&self) -> (Seq<char>, Queue) {
        (self.key@, chunks_view(self.chunks@))
    }
}

/// The queues of all senders, each under a distinct key.
pub struct Inbox {
    streams: Vec<Stream>,
}

impl View for Inbox {
    type V = Seq<(Seq<char>, Queue)>;

    closed spec fn view(&self) -> Seq<(Seq<char>, Queue)> {
        streams_view(self.streams@)
    }
}

/// No two queues share a key.
pub open spec fn keys_distinct(s: Seq<(Seq<char>, Queue)>) -> bool {
    forall|i: int, j: int| 0 <= i < s.len() && 0 <= j < s.len() && i != j ==> s[i].0 != s[j].0
}

/// Some queue has key `key`.
pub open spec fn has_key(s: Seq<(Seq<char>, Queue)>, key: Seq<char>) -> bool {
    exists|i: int| 0 <= i < s.len() && s[i].0 == key
}

/// Where the queue with key `key` stands, or -1.
pub open spec fn key_index(s: Seq<(Seq<char>, Queue)>, key: Seq<char>) -> int {
    if has_key(s, key) {
        choose|i: int| 0 <= i < s.len() && s[i].0 == key
    } else {
        -1
    }
}

/// The queues after `packet` arrives for `key`: it goes to the back of that
/// queue, which is created after the others where there is none.
pub open spec fn spec_deliver(s: Seq<(Seq<char>, Queue)>, key: Seq<char>, packet: Seq<u8>) -> Seq<
    (Seq<char>, Queue),
> {
    if has_key(s, key) {
        let i = key_index(s, key);
        s.update(i, (key, s[i].1.push(packet)))
    } else {
        s.push((key, seq![packet]))
    }
}

/// A queue cut to its newest `max` chunks.
pub open spec fn keep_newest(q: Queue, max: nat) -> Queue {
    if q.len() > max {
        q.skip(q.len() - max)
    } else {
        q
    }
}

/// The queues after each is cut to its newest `max` chunks.
pub open spec fn spec_trim(s: Seq<(Seq<char>, Queue)>, max: nat) -> Seq<(Seq<char>, Queue)> {
    s.map_values(|e: (Seq<char>, Queue)| (e.0, keep_newest(e.1, max)))
}

/// A queue can give a sample: its front chunk holds at least two bytes.
pub open spec fn ready(q: Queue) -> bool {
    q.len() > 0 && q[0].len() >= 2
}

/// The sample a ready queue gives.
pub open spec fn front_sample(q: Queue) -> i16 {
    sample_of(q[0][0], q[0][1])
}

/// A queue after giving a sample: its front chunk loses two bytes and goes
/// once empty. A queue that is not ready stays as it is.
pub open spec fn after_take(q: Queue) -> Queue {
    if ready(q) {
        if q[0].len() == 2 {
            q.drop_first()
        } else {
            q.update(0, q[0].skip(2))
        }
    } else {
        q
    }
}

/// The samples one output instant takes: one from each ready queue, in order.
pub open spec fn frame_samples(s: Seq<(Seq<char>, Queue)>) -> Seq<i16>
    decreases s.len(),
{
    if s.len() == 0 {
        Seq::empty()
    } else if ready(s.last().1) {
        frame_samples(s.drop_last()).push(front_sample(s.last().1))
    } else {
        frame_samples(s.drop_last())
    }
}

/// The queues after one output instant.
pub open spec fn spec_after_frame(s: Seq<(Seq<char>, Queue)>) -> Seq<(Seq<char>, Queue)> {
    s.map_values(|e: (Seq<char>, Queue)| (e.0, after_take(e.1)))
}

/// Gives one sample from a deque of chunks, if it is ready.
fn take_sample(chunks: &mut VecDeque<Vec<u8>>) -> (r: Option<i16>)
    ensures
        chunks_view(final(chunks)@) == after_take(chunks_view(old(chunks)@)),
        r == (if ready(chunks_view(old(chunks)@)) {
            Some(front_sample(chunks_view(old(chunks)@)))
        } else {
            None
        }),
{
    let ghost q = chunks_view(chunks@);
    if chunks.len() == 0 {
        return None;
    }
    assert(q[0] == chunks@[0]@);
    if chunks[0].len() < 2 {
        return None;
    }
    let mut c = match chunks.pop_front() {
        Some(c) => c,
        None => { return None; },
    };
    let s = decode_sample(c[0], c[1]);
    let ghost rest = chunks@;
    assert(chunks_view(rest) =~= q.drop_first());
    c.remove(0);
    c.remove(0);
    assert(c@ =~= q[0].skip(2));
    if c.len() > 0 {
        chunks.push_front(c);
        assert(chunks_view(chunks@) =~= q.update(0, q[0].skip(2)));
    }
    Some(s)
}

/// What a run of streams holds.
spec fn streams_view(v: Seq<Stream>) -> Seq<(Seq<char>, Queue)> {
    v.map_values(|s: Stream| s@)
}

impl Inbox {
    /// The inbox's invariant: keys are distinct.
    #[verifier::type_invariant]
    pub open spec fn wf(&self) -> bool {
        keys_distinct(self@)
    }

    /// No queues.
    pub fn new() -> (r: Inbox)
        ensures
            r@ == Seq::<(Seq<char>, Queue)>::empty(),
    {
        let r = Inbox { streams: Vec::new() };
        assert(r@ =~= Seq::<(Seq<char>, Queue)>::empty());
        r
    }

    /// The number of queues.
    pub fn len(&self) -> (n: usize)
        ensures
            n == self@.len(),
    {
        self.streams.len()
    }

    /// Where the queue `key` stands, if there is one.
    fn find(&self, key: &String) -> (r: Option<usize>)
        ensures
            r is Some <==> has_key(self@, key@),
            r matches Some(i) ==> i == key_index(self@, key@) && i < self@.len(),
    {
        proof {
            use_type_invariant(self);
        }
        let mut i: usize = 0;
        while i < self.streams.len()
            invariant
                self.wf(),
                i <= self.streams.len(),
                forall|k: int| 0 <= k < i ==> self@[k].0 != key@,
            decreases self.streams.len() - i,
        {
            assert(self@[i as int] == self.streams@[i as int]@);
            if self.streams[i].key == *key {
                let ghost j = key_index(self@, key@);
                assert(self@[j].0 == key@);
                return Some(i);
            }
            i = i + 1;
        }
        None
    }

    /// Queues `packet` for `key`.
    pub fn deliver(&mut self, key: String, packet: Vec<u8>)
        ensures
            final(self)@ == spec_deliver(old(self)@, key@, packet@),
    {
        proof {
            use_type_invariant(&*self);
        }
        let ghost s = self@;
        let ghost kv = key@;
        let ghost pv = packet@;
        let found = self.find(&key);
        let mut streams: Vec<Stream> = Vec::new();
        std::mem::swap(&mut streams, &mut self.streams);
        match found {
            Some(i) => {
                let mut st = streams.remove(i);
                assert(st@ == s[i as int]);
                st.chunks.push_back(packet);
                assert(chunks_view(st.chunks@) =~= s[i as int].1.push(pv));
                streams.insert(i, st);
            },
            None => {
                let mut chunks: VecDeque<Vec<u8>> = VecDeque::new();
                chunks.push_back(packet);
                let st = Stream { key, chunks };
                assert(st@.1 =~= seq![pv]);
                streams.push(st);
            },
        }
        assert(streams_view(streams@) =~= spec_deliver(s, kv, pv));
        proof {
            lemma_deliver_appends(s, kv, pv);
        }
        self.streams = streams;
    }

    /// Cuts every queue to its newest `max` chunks.
    pub fn trim(&mut self, max: usize)
        ensures
            final(self)@ == spec_trim(old(self)@, max as nat),
    {
        proof {
            use_type_invariant(&*self);
        }
        let ghost s = self@;
        let mut streams: Vec<Stream> = Vec::new();
        std::mem::swap(&mut streams, &mut self.streams);
        let n = streams.len();
        let mut i: usize = 0;
        while i < n
            invariant
                i <= n,
                n == streams.len(),
                s.len() == n,
                forall|k: int|
                    0 <= k < i ==> #[trigger] streams_view(streams@)[k] == spec_trim(s, max as nat)[k],
                forall|k: int| i <= k < n ==> #[trigger] streams_view(streams@)[k] == s[k],
            decreases n - i,
        {
            let ghost cur = streams_view(streams@);
            let mut st = streams.remove(i);
            let ghost q0 = st@.1;
            assert(st@ == cur[i as int]);
            while st.chunks.len() > max
                invariant
                    st@.0 == s[i as int].0,
                    q0.len() >= st@.1.len(),
                    st@.1 == q0.skip(q0.len() - st@.1.len()),
                    st@.1.len() >= max || q0.len() <= max,
                    q0.len() <= max ==> st@.1 == q0,
                decreases st.chunks.len(),
            {
                let ghost before = st@.1;
                let _ = st.chunks.pop_front();
                assert(st@.1 =~= before.drop_first());
                assert(st@.1 =~= q0.skip(q0.len() - st@.1.len()));
            }
            assert(st@.1 =~= keep_newest(q0, max as nat));
            streams.insert(i, st);
            assert(streams_view(streams@) =~= cur.update(i as int, st@));
            i = i + 1;
        }
        let ghost t = streams_view(streams@);
        assert(t =~= spec_trim(s, max as nat));
        assert forall|a: int, b: int|
            0 <= a < t.len() && 0 <= b < t.len() && a != b implies t[a].0 != t[b].0 by {
            assert(t[a].0 == s[a].0 && t[b].0 == s[b].0);
        }
        self.streams = streams;
    }

    /// Takes the samples of one output instant: one from the front of every
    /// ready queue, in order.
    pub fn take_frame(&mut self) -> (r: Vec<i16>)
        ensures
            final(self)@ == spec_after_frame(old(self)@),
            r@ == frame_samples(old(self)@),
    {
        proof {
            use_type_invariant(&*self);
        }
        let ghost s = self@;
        let mut streams: Vec<Stream> = Vec::new();
        std::mem::swap(&mut streams, &mut self.streams);
        let n = streams.len();
        let mut r: Vec<i16> = Vec::new();
        let mut i: usize = 0;
        while i < n
            invariant
                i <= n,
                n == streams.len(),
                s.len() == n,
                forall|k: int|
                    0 <= k < i ==> #[trigger] streams_view(streams@)[k] == spec_after_frame(s)[k],
                forall|k: int| i <= k < n ==> #[trigger] streams_view(streams@)[k] == s[k],
                r@ == frame_samples(s.take(i as int)),
            decreases n - i,
        {
            let ghost cur = streams_view(streams@);
            let mut st = streams.remove(i);
            assert(st@ == cur[i as int]);
            assert(st@ == s[i as int]);
            let got = take_sample(&mut st.chunks);
            proof {
                assert(s.take(i + 1).drop_last() =~= s.take(i as int));
                assert(s.take(i + 1).last() == s[i as int]);
            }
            match got {
                Some(x) => {
                    r.push(x);
                },
                None => {},
            }
            streams.insert(i, st);
            assert(streams_view(streams@) =~= cur.update(i as int, st@));
            i = i + 1;
        }
        assert(s.take(n as int) =~= s);
        let ghost t = streams_view(streams@);
        assert(t =~= spec_after_frame(s));
        assert forall|a: int, b: int|
            0 <= a < t.len() && 0 <= b < t.len() && a != b implies t[a].0 != t[b].0 by {
            assert(t[a].0 == s[a].0 && t[b].0 == s[b].0);
        }
        self.streams = streams;
        r
    }

    /// Takes in an audio packet from `src`: it is queued under the key that
    /// `PeerTable::route` gives, and dropped while there are no peers.
    pub fn accept_packet(&mut self, peers: &PeerTable, src: Endpoint, packet: Vec<u8>)
        ensures
            peers@.len() == 0 ==> final(self)@ == old(self)@,
            peers@.len() > 0 ==> exists|k: Seq<char>|
                routes_to(peers@, src, k) && final(self)@ == spec_deliver(
                    old(self)@,
                    k,
                    packet@,
                ),
    {
        match peers.route(src) {
            Some(k) => {
                let ghost kv = k@;
                self.deliver(k, packet);
                assert(routes_to(peers@, src, kv));
            },
            None => {},
        }
    }
}

/// All the bytes of a queue, oldest first.
pub open spec fn flatten(q: Queue) -> Seq<u8>
    decreases q.len(),
{
    if q.len() == 0 {
        Seq::empty()
    } else {
        q[0] + flatten(q.drop_first())
    }
}

/// Playback reads a sender's bytes in the order they arrived, two at a time:
/// a ready queue gives the sample of its first two bytes and loses exactly
/// those two; a queue that is not ready gives nothing and keeps its bytes.
pub proof fn lemma_take_reads_stream_in_order(q: Queue)
    ensures
        ready(q) ==> {
            &&& flatten(q).len() >= 2
            &&& front_sample(q) == sample_of(flatten(q)[0], flatten(q)[1])
            &&& flatten(after_take(q)) == flatten(q).skip(2)
        },
        !ready(q) ==> after_take(q) == q,
{
    if ready(q) {
        let f = flatten(q);
        assert(f == q[0] + flatten(q.drop_first()));
        assert(f[0] == q[0][0] && f[1] == q[0][1]);
        if q[0].len() == 2 {
            assert(f.skip(2) =~= flatten(q.drop_first()));
        } else {
            let a = q.update(0, q[0].skip(2));
            assert(a.drop_first() =~= q.drop_first());
            assert(flatten(a) == a[0] + flatten(a.drop_first()));
            assert(f.skip(2) =~= q[0].skip(2) + flatten(q.drop_first()));
        }
    }
}

/// Delivery puts the packet at the back of its key's queue and leaves every
/// other queue as it was.
pub proof fn lemma_deliver_appends(s: Seq<(Seq<char>, Queue)>, key: Seq<char>, packet: Seq<u8>)
    requires
        keys_distinct(s),
    ensures
        ({
            let t = spec_deliver(s, key, packet);
            &&& keys_distinct(t)
            &&& has_key(t, key)
            &&& t[key_index(t, key)].1.last() == packet
            &&& t[key_index(t, key)].1.drop_last() == (if has_key(s, key) {
                s[key_index(s, key)].1
            } else {
                Seq::<Seq<u8>>::empty()
            })
            &&& forall|k: Seq<char>|
                k != key ==> (has_key(t, k) == has_key(s, k) && (has_key(s, k) ==> t[key_index(
                    t,
                    k,
                )] == s[key_index(s, k)]))
        }),
{
    let t = spec_deliver(s, key, packet);
    if has_key(s, key) {
        let i = key_index(s, key);
        assert(t[i].0 == key);
        assert(keys_distinct(t)) by {
            assert forall|a: int, b: int|
                0 <= a < t.len() && 0 <= b < t.len() && a != b implies t[a].0 != t[b].0 by {
                assert(t[a].0 == s[a].0 && t[b].0 == s[b].0);
            }
        }
        assert(key_index(t, key) == i);
        assert(s[i].1.push(packet).drop_last() =~= s[i].1);
        assert forall|k: Seq<char>| k != key implies (has_key(t, k) == has_key(s, k) && (has_key(
            s,
            k,
        ) ==> t[key_index(t, k)] == s[key_index(s, k)])) by {
            if has_key(s, k) {
                let j = key_index(s, k);
                assert(t[j] == s[j]);
            }
            if has_key(t, k) {
                let j = key_index(t, k);
                assert(s[j].0 == k);
            }
        }
    } else {
        let i = s.len() as int;
        assert(t[i].0 == key);
        assert(keys_distinct(t)) by {
            assert forall|a: int, b: int|
                0 <= a < t.len() && 0 <= b < t.len() && a != b implies t[a].0 != t[b].0 by {
                if a < i && b < i {
                    assert(t[a] == s[a] && t[b] == s[b]);
                } else if a < i {
                    assert(t[a] == s[a]);
                } else {
                    assert(t[b] == s[b]);
                }
            }
        }
        assert(key_index(t, key) == i);
        assert(seq![packet].drop_last() =~= Seq::<Seq<u8>>::empty());
        assert forall|k: Seq<char>| k != key implies (has_key(t, k) == has_key(s, k) && (has_key(
            s,
            k,
        ) ==> t[key_index(t, k)] == s[key_index(s, k)])) by {
            if has_key(s, k) {
                let j = key_index(s, k);
                assert(t[j] == s[j]);
            }
            if has_key(t, k) {
                let j = key_index(t, k);
                assert(j < i);
                assert(s[j].0 == k);
            }
        }
    }
}

/// After trimming, no queue holds more than `max` chunks, and a queue that
/// held no more keeps all of them.
pub proof fn lemma_trim_bounds(s: Seq<(Seq<char>, Queue)>, max: nat)
    ensures
        spec_trim(s, max).len() == s.len(),
        forall|i: int|
            0 <= i < s.len() ==> {
                &&& (#[trigger] spec_trim(s, max)[i]).0 == s[i].0
                &&& spec_trim(s, max)[i].1.len() <= max
                &&& s[i].1.len() <= max ==> spec_trim(s, max)[i].1 == s[i].1
            },
        spec_trim(spec_trim(s, max), max) == spec_trim(s, max),
{
    let t = spec_trim(s, max);
    assert(spec_trim(t, max) =~= t);
}

/// A queue that can give a sample (as a predicate on entries).
pub open spec fn entry_ready() -> spec_fn((Seq<char>, Queue)) -> bool {
    |e: (Seq<char>, Queue)| ready(e.1)
}

/// One output instant mixes every sender that has audio: it takes exactly the
/// front sample of each ready queue, in queue order, and nothing else.
pub proof fn lemma_frame_takes_every_ready_queue(s: Seq<(Seq<char>, Queue)>)
    ensures
        frame_samples(s) == s.filter(entry_ready()).map_values(
            |e: (Seq<char>, Queue)| front_sample(e.1),
        ),
    decreases s.len(),
{
    reveal(Seq::filter);
    if s.len() > 0 {
        lemma_frame_takes_every_ready_queue(s.drop_last());
        let f = s.drop_last().filter(entry_ready());
        if ready(s.last().1) {
            assert(f.push(s.last()).map_values(|e: (Seq<char>, Queue)| front_sample(e.1))
                =~= f.map_values(|e: (Seq<char>, Queue)| front_sample(e.1)).push(
                front_sample(s.last().1),
            ));
        }
    } else {
        assert(s.filter(entry_ready()).map_values(|e: (Seq<char>, Queue)| front_sample(e.1))
            =~= Seq::<i16>::empty());
    }
}

/// No chunk of the queue is longer than `limit` bytes.
pub open spec fn chunks_within(q: Queue, limit: nat) -> bool {
    forall|i: int| 0 <= i < q.len() ==> (#[trigger] q[i]).len() <= limit
}

/// A queue of chunks of at most `limit` bytes holds at most its length times
/// `limit` bytes.
pub proof fn lemma_flatten_len_bound(q: Queue, limit: nat)
    requires
        chunks_within(q, limit),
    ensures
        flatten(q).len() <= q.len() * limit,
    decreases q.len(),
{
    if q.len() > 0 {
        let d = q.drop_first();
        assert forall|i: int| 0 <= i < d.len() implies (#[trigger] d[i]).len() <= limit by {
            assert(d[i] == q[i + 1]);
        }
        lemma_flatten_len_bound(d, limit);
        assert(q[0].len() <= limit);
        assert((d.len() * limit) + limit == q.len() * limit) by (nonlinear_arith)
            requires
                d.len() + 1 == q.len(),
        ;
    }
}

/// Delivering a packet of at most `limit` bytes keeps every chunk within
/// `limit` bytes.
pub proof fn lemma_deliver_keeps_chunk_bound(
    s: Seq<(Seq<char>, Queue)>,
    key: Seq<char>,
    packet: Seq<u8>,
    limit: nat,
)
    requires
        forall|i: int| 0 <= i < s.len() ==> chunks_within(#[trigger] s[i].1, limit),
        packet.len() <= limit,
    ensures
        ({
            let t = spec_deliver(s, key, packet);
            forall|i: int| 0 <= i < t.len() ==> chunks_within(#[trigger] t[i].1, limit)
        }),
{
    let t = spec_deliver(s, key, packet);
    assert forall|i: int| 0 <= i < t.len() implies chunks_within(#[trigger] t[i].1, limit) by {
        if has_key(s, key) && i == key_index(s, key) {
            let q = s[i].1.push(packet);
            assert(t[i].1 == q);
            assert forall|j: int| 0 <= j < q.len() implies (#[trigger] q[j]).len() <= limit by {
                if j < s[i].1.len() {
                    assert(q[j] == s[i].1[j]);
                }
            }
        } else if !has_key(s, key) && i == s.len() {
            assert(t[i].1 == seq![packet]);
        } else {
            assert(t[i] == s[i]);
        }
    }
}

/// After trimming to `max` chunks, a queue of chunks of at most `limit` bytes
/// holds at most `max * limit` bytes.
pub proof fn lemma_trim_byte_bound(s: Seq<(Seq<char>, Queue)>, max: nat, limit: nat)
    requires
        forall|i: int| 0 <= i < s.len() ==> chunks_within(#[trigger] s[i].1, limit),
    ensures
        forall|i: int|
            0 <= i < s.len() ==> flatten(#[trigger] spec_trim(s, max)[i].1).len() <= max * limit,
{
    let t = spec_trim(s, max);
    assert forall|i: int| 0 <= i < s.len() implies flatten(#[trigger] spec_trim(s, max)[i].1).len()
        <= max * limit by {
        let q = s[i].1;
        let k = keep_newest(q, max);
        assert(t[i].1 == k);
        assert forall|j: int| 0 <= j < k.len() implies (#[trigger] k[j]).len() <= limit by {
            if q.len() > max {
                assert(k[j] == q[j + (q.len() - max)]);
            }
        }
        lemma_flatten_len_bound(k, limit);
        assert(k.len() <= max);
        assert(k.len() * limit <= max * limit) by (nonlinear_arith)
            requires
                k.len() <= max,
        ;
    }
}

} // verus!
