//! The discovery protocol: every node broadcasts `HELLO <id> <port>` and
//! learns of the others from their announcements.

use vstd::prelude::*;
use vstd::string::StrSliceExecFns;
use vstd::utf8::decode_utf8;
use vstd::utf8::encode_utf8;
use vstd::utf8::valid_utf8;

use crate::clock::elapsed;
use crate::clock::elapsed_ms;
use crate::text::chars_of;
use crate::text::decimal_digits;
use crate::text::hex_char;
use crate::text::hex_to_char;
use crate::text::is_white_space;
use crate::text::lemma_decimal_digits;
use crate::text::lemma_digits_not_white_space;
use crate::text::lemma_parse_decimal_roundtrip;
use crate::text::lemma_words_of_pair;
use crate::text::no_white_space;
use crate::text::parse_u16;
use crate::text::parse_u16_chars;
use crate::text::push_char;
use crate::text::push_decimal;
use crate::text::spec_parse_u16;
use crate::text::split_words;
use crate::text::string_of;
use crate::text::words;

verus! {

/// UDP port on which audio is sent and received.
pub const AUDIO_PORT: u16 = 5000;

/// UDP port on which announcements are broadcast.
pub const DISCOVERY_PORT: u16 = 49999;

/// Milliseconds between two announcements of this node.
pub const HELLO_INTERVAL_MS: u64 = 2000;

/// The text every announcement starts with.
pub open spec fn hello_prefix() -> Seq<char> {
    seq!['H', 'E', 'L', 'L', 'O', ' ']
}

/// The announcement of node `id` listening for audio on `port`.
pub open spec fn spec_hello_text(id: Seq<char>, port: u16) -> Seq<char> {
    hello_prefix() + id + seq![' '] + decimal_digits(port as nat)
}

/// The port that `text` names, or the audio port where it names none.
pub open spec fn spec_port_or_default(text: Seq<char>) -> u16 {
    match spec_parse_u16(text) {
        Some(p) => p,
        None => AUDIO_PORT,
    }
}

/// What an announcement text says: after the `HELLO ` prefix exactly two
/// words, the sender's id and its audio port (the audio port by default where
/// the second word is no port).
pub open spec fn spec_parse_hello(m: Seq<char>) -> Option<(Seq<char>, u16)> {
    if m.len() >= 6 && m.take(6) == hello_prefix() {
        let w = words(m.skip(6));
        if w.len() == 2 {
            Some((w[0], spec_port_or_default(w[1])))
        } else {
            None
        }
    } else {
        None
    }
}

/// What an announcement packet says: nothing unless it is valid UTF-8.
pub open spec fn spec_decode_hello(packet: Seq<u8>) -> Option<(Seq<char>, u16)> {
    if valid_utf8(packet) {
        spec_parse_hello(decode_utf8(packet))
    } else {
        None
    }
}

/// A parsed announcement.
pub struct Announcement {
    pub id: String,
    pub port: u16,
}

impl Announcement {
    /// The sender's id and port.
    pub open spec fn view(&self) -> (Seq<char>, u16) {
        (self.id@, self.port)
    }
}

/// The port named by `text`, or `AUDIO_PORT`.
pub fn port_or_default(text: &str) -> (p: u16)
    ensures
        p == spec_port_or_default(text@),
{
    match parse_u16(text) {
        Some(p) => p,
        None => AUDIO_PORT,
    }
}

/// The announcement text of node `id` for audio `port`.
pub fn hello_text(id: &str, port: u16) -> (r: String)
    ensures
        r@ == spec_hello_text(id@, port),
{
    let mut s = String::new();
    push_char(&mut s, 'H');
    push_char(&mut s, 'E');
    push_char(&mut s, 'L');
    push_char(&mut s, 'L');
    push_char(&mut s, 'O');
    push_char(&mut s, ' ');
    let ids = chars_of(id);
    let mut i: usize = 0;
    while i < ids.len()
        invariant
            i <= ids.len(),
            ids@ == id@,
            s@ == hello_prefix() + id@.take(i as int),
        decreases ids.len() - i,
    {
        push_char(&mut s, ids[i]);
        assert(id@.take(i + 1) =~= id@.take(i as int).push(id@[i as int]));
        assert(hello_prefix() + id@.take(i + 1) =~= (hello_prefix() + id@.take(i as int)).push(id@[i as int]));
        i = i + 1;
    }
    assert(id@.take(ids.len() as int) =~= id@);
    push_char(&mut s, ' ');
    push_decimal(&mut s, port);
    assert(s@ =~= spec_hello_text(id@, port));
    s
}

/// The bytes broadcast to announce node `id` for audio `port`.
pub fn hello_packet(id: &str, port: u16) -> (r: Vec<u8>)
    ensures
        r@ == encode_utf8(spec_hello_text(id@, port)),
{
    let s = hello_text(id, port);
    s.as_str().as_bytes_vec()
}

/// Reads an announcement text.
pub fn parse_hello(msg: &str) -> (r: Option<Announcement>)
    ensures
        r is Some <==> spec_parse_hello(msg@) is Some,
        r matches Some(a) ==> spec_parse_hello(msg@) == Some(a.view()),
{
    let cs = chars_of(msg);
    if cs.len() < 6 {
        return None;
    }
    let has_prefix = cs[0] == 'H' && cs[1] == 'E' && cs[2] == 'L' && cs[3] == 'L' && cs[4] == 'O'
        && cs[5] == ' ';
    if !has_prefix {
        assert(msg@.take(6)[0] == msg@[0]);
        assert(msg@.take(6) != hello_prefix()) by {
            if msg@.take(6) == hello_prefix() {
                assert(msg@.take(6)[1] == msg@[1]);
                assert(msg@.take(6)[2] == msg@[2]);
                assert(msg@.take(6)[3] == msg@[3]);
                assert(msg@.take(6)[4] == msg@[4]);
                assert(msg@.take(6)[5] == msg@[5]);
            }
        }
        return None;
    }
    assert(msg@.take(6) =~= hello_prefix());
    let fields = split_words(cs.as_slice(), 6);
    if fields.len() != 2 {
        return None;
    }
    let id = string_of(fields[0].as_slice());
    let port = match parse_u16_chars(fields[1].as_slice()) {
        Some(p) => p,
        None => AUDIO_PORT,
    };
    Some(Announcement { id, port })
}

/// Decodes `bytes` as UTF-8 text (std's `str::from_utf8`): text exactly where
/// the bytes are valid UTF-8, and then the characters they encode.
#[verifier::external_body]
fn text_from_utf8(bytes: &[u8]) -> (r: Option<String>)
    ensures
        r is Some <==> valid_utf8(bytes@),
        r matches Some(s) ==> s@ == decode_utf8(bytes@),
{
    match std::str::from_utf8(bytes) {
        Ok(s) => Some(s.to_string()),
        Err(_) => None,
    }
}

/// Reads an announcement packet.
pub fn decode_hello(packet: &[u8]) -> (r: Option<Announcement>)
    ensures
        r is Some <==> spec_decode_hello(packet@) is Some,
        r matches Some(a) ==> spec_decode_hello(packet@) == Some(a.view()),
{
    match text_from_utf8(packet) {
        Some(s) => parse_hello(s.as_str()),
        None => None,
    }
}

/// An announcement of this node is due: at least the interval has passed
/// since the last one.
pub fn hello_due(last_sent_ms: u64, now_ms: u64) -> (b: bool)
    ensures
        b == (elapsed(now_ms, last_sent_ms) >= HELLO_INTERVAL_MS),
{
    elapsed_ms(now_ms, last_sent_ms) >= HELLO_INTERVAL_MS
}

/// The announcement timer: when an announcement is due at `now`, it is
/// reported and the timer restarts at `now`; otherwise nothing changes.
pub fn announce_if_due(last_sent_ms: &mut u64, now_ms: u64) -> (due: bool)
    ensures
        due == (elapsed(now_ms, *old(last_sent_ms)) >= HELLO_INTERVAL_MS),
        *final(last_sent_ms) == (if due { now_ms } else { *old(last_sent_ms) }),
{
    if hello_due(*last_sent_ms, now_ms) {
        *last_sent_ms = now_ms;
        true
    } else {
        false
    }
}

/// The times at which announcements go out when the timer, last restarted at
/// `last`, is checked at each of `checks` in turn: a check sends exactly when
/// `announce_if_due` reports one due, and then restarts the timer.
pub open spec fn announcement_times(last: u64, checks: Seq<u64>) -> Seq<u64>
    decreases checks.len(),
{
    if checks.len() == 0 {
        Seq::empty()
    } else if elapsed(checks[0], last) >= HELLO_INTERVAL_MS {
        seq![checks[0]] + announcement_times(checks[0], checks.drop_first())
    } else {
        announcement_times(last, checks.drop_first())
    }
}

/// On a clock that does not go back, announcements go out at least the
/// interval after the timer's start and any two of them at least the
/// interval apart.
pub proof fn lemma_announcements_spaced(last: u64, checks: Seq<u64>)
    requires
        forall|i: int| 0 <= i < checks.len() ==> last <= #[trigger] checks[i],
        forall|i: int, j: int| 0 <= i <= j < checks.len() ==> checks[i] <= checks[j],
    ensures
        ({
            let a = announcement_times(last, checks);
            &&& forall|i: int| 0 <= i < a.len() ==> #[trigger] a[i] >= last + HELLO_INTERVAL_MS
            &&& forall|i: int, j: int|
                0 <= i < j < a.len() ==> #[trigger] a[j] >= #[trigger] a[i] + HELLO_INTERVAL_MS
        }),
    decreases checks.len(),
{
    if checks.len() > 0 {
        let tail = checks.drop_first();
        let c0 = checks[0];
        if elapsed(c0, last) >= HELLO_INTERVAL_MS {
            assert forall|i: int| 0 <= i < tail.len() implies c0 <= #[trigger] tail[i] by {
                assert(tail[i] == checks[i + 1]);
            }
            assert forall|i: int, j: int| 0 <= i <= j < tail.len() implies tail[i] <= tail[j] by {
                assert(tail[i] == checks[i + 1] && tail[j] == checks[j + 1]);
            }
            lemma_announcements_spaced(c0, tail);
            let r = announcement_times(c0, tail);
            let a = announcement_times(last, checks);
            assert(a == seq![c0] + r);
            assert(c0 >= last);
            assert(a[0] == c0);
            assert forall|i: int| 0 <= i < a.len() implies #[trigger] a[i] >= last + HELLO_INTERVAL_MS by {
                if i > 0 {
                    assert(a[i] == r[i - 1]);
                }
            }
            assert forall|i: int, j: int| 0 <= i < j < a.len() implies #[trigger] a[j] >= #[trigger] a[i]
                + HELLO_INTERVAL_MS by {
                assert(a[j] == r[j - 1]);
                if i > 0 {
                    assert(a[i] == r[i - 1]);
                }
            }
        } else {
            assert forall|i: int| 0 <= i < tail.len() implies last <= #[trigger] tail[i] by {
                assert(tail[i] == checks[i + 1]);
            }
            assert forall|i: int, j: int| 0 <= i <= j < tail.len() implies tail[i] <= tail[j] by {
                assert(tail[i] == checks[i + 1] && tail[j] == checks[j + 1]);
            }
            lemma_announcements_spaced(last, tail);
            assert(announcement_times(last, checks) == announcement_times(last, tail));
        }
    }
}

/// When the timer is checked at least every `g` milliseconds (the first check
/// within `g` of the timer's start, or anyhow less than the interval plus `g`
/// after it), no announcement comes later than the interval plus `g` after the
/// timer's start or after the announcement before it.
pub proof fn lemma_announcements_bounded(last: u64, checks: Seq<u64>, g: nat)
    requires
        forall|i: int| 0 <= i < checks.len() ==> last <= #[trigger] checks[i],
        forall|i: int, j: int| 0 <= i <= j < checks.len() ==> checks[i] <= checks[j],
        forall|i: int, j: int|
            0 <= i < checks.len() && j == i + 1 && j < checks.len() ==> #[trigger] checks[j]
                <= #[trigger] checks[i] + g,
        checks.len() > 0 ==> checks[0] < last + HELLO_INTERVAL_MS + g,
    ensures
        ({
            let a = announcement_times(last, checks);
            &&& a.len() > 0 ==> a[0] < last + HELLO_INTERVAL_MS + g
            &&& forall|i: int, j: int|
                0 <= i < a.len() && j == i + 1 && j < a.len() ==> #[trigger] a[j] < #[trigger] a[i]
                    + HELLO_INTERVAL_MS + g
        }),
    decreases checks.len(),
{
    if checks.len() > 0 {
        let tail = checks.drop_first();
        let c0 = checks[0];
        assert forall|i: int, j: int| 0 <= i <= j < tail.len() implies tail[i] <= tail[j] by {
            assert(tail[i] == checks[i + 1] && tail[j] == checks[j + 1]);
        }
        assert forall|i: int, j: int|
            0 <= i < tail.len() && j == i + 1 && j < tail.len() implies #[trigger] tail[j]
            <= #[trigger] tail[i] + g by {
            assert(tail[i] == checks[i + 1] && tail[j] == checks[j + 1]);
            assert(checks[j + 1] <= checks[i + 1] + g);
        }
        if tail.len() > 0 {
            assert(tail[0] == checks[1]);
            assert(checks[1] <= checks[0] + g);
        }
        if elapsed(c0, last) >= HELLO_INTERVAL_MS {
            assert forall|i: int| 0 <= i < tail.len() implies c0 <= #[trigger] tail[i] by {
                assert(tail[i] == checks[i + 1]);
            }
            lemma_announcements_bounded(c0, tail, g);
            let r = announcement_times(c0, tail);
            let a = announcement_times(last, checks);
            assert(a == seq![c0] + r);
            assert(a[0] == c0);
            assert forall|i: int, j: int|
                0 <= i < a.len() && j == i + 1 && j < a.len() implies #[trigger] a[j] < #[trigger] a[i]
                + HELLO_INTERVAL_MS + g by {
                assert(a[j] == r[j - 1]);
                if i > 0 {
                    assert(a[i] == r[i - 1]);
                }
            }
        } else {
            assert forall|i: int| 0 <= i < tail.len() implies last <= #[trigger] tail[i] by {
                assert(tail[i] == checks[i + 1]);
            }
            assert(c0 >= last);
            lemma_announcements_bounded(last, tail, g);
            assert(announcement_times(last, checks) == announcement_times(last, tail));
        }
    }
}

/// An announcement carries the id and port it was made with, for every id
/// that is a single nonempty word.
pub proof fn lemma_hello_roundtrip(id: Seq<char>, port: u16)
    requires
        id.len() > 0,
        no_white_space(id),
    ensures
        spec_parse_hello(spec_hello_text(id, port)) == Some((id, port)),
        spec_decode_hello(encode_utf8(spec_hello_text(id, port))) == Some((id, port)),
{
    let m = spec_hello_text(id, port);
    let d = decimal_digits(port as nat);
    lemma_decimal_digits(port as nat);
    lemma_digits_not_white_space(d);
    lemma_parse_decimal_roundtrip(port);
    assert(m.take(6) =~= hello_prefix());
    assert(m.skip(6) =~= id + seq![' '] + d);
    lemma_words_of_pair(id, d);
    vstd::utf8::encode_utf8_valid_utf8(m);
    vstd::utf8::encode_utf8_decode_utf8(m);
}


/// The id a node with random number `r` goes by: `r` as four lower-case
/// hexadecimal digits, leading zeros kept.
pub open spec fn spec_peer_id(r: u16) -> Seq<char> {
    seq![
        hex_char((r / 4096) as nat),
        hex_char(((r / 256) % 16) as nat),
        hex_char(((r / 16) % 16) as nat),
        hex_char((r % 16) as nat),
    ]
}

/// The id of a node whose random number is `r`.
pub fn peer_id_from(r: u16) -> (id: String)
    ensures
        id@ == spec_peer_id(r),
{
    let mut s = String::new();
    push_char(&mut s, hex_to_char(r / 4096));
    push_char(&mut s, hex_to_char((r / 256) % 16));
    push_char(&mut s, hex_to_char((r / 16) % 16));
    push_char(&mut s, hex_to_char(r % 16));
    assert(s@ =~= spec_peer_id(r));
    s
}

/// A random 16-bit number from the operating system's random source
/// (rand's `OsRng`, through `RngCore::try_fill_bytes` on two bytes): `None`
/// where that source fails. Nothing is promised of the value.
#[verifier::external_body]
fn random_u16() -> Option<u16> {
    let mut bytes = [0u8; 2];
    match rand::RngCore::try_fill_bytes(&mut rand::rngs::OsRng, &mut bytes) {
        Ok(()) => Some(u16::from_le_bytes(bytes)),
        Err(_) => None,
    }
}

/// A fresh random id for this node; `None` where no random number can be had.
pub fn new_peer_id() -> (id: Option<String>)
    ensures
        id matches Some(s) ==> exists|r: u16| s@ == spec_peer_id(r),
{
    match random_u16() {
        Some(r) => Some(peer_id_from(r)),
        None => None,
    }
}

/// An id is a single nonempty word.
/// It holds no `:`, so it is never the key of a peer added by hand.
pub proof fn lemma_peer_id_is_word(r: u16)
    ensures
        spec_peer_id(r).len() == 4,
        no_white_space(spec_peer_id(r)),
        !spec_peer_id(r).contains(':'),
{
    let s = spec_peer_id(r);
    assert forall|i: int| 0 <= i < s.len() implies !is_white_space(#[trigger] s[i]) && s[i] != ':' by {
        assert(s[i] == hex_char(s_digit(r, i)));
    }
}

spec fn s_digit(r: u16, i: int) -> nat {
    if i == 0 {
        (r / 4096) as nat
    } else if i == 1 {
        ((r / 256) % 16) as nat
    } else if i == 2 {
        ((r / 16) % 16) as nat
    } else {
        (r % 16) as nat
    }
}

/// Different digits have different hexadecimal characters.
proof fn lemma_hex_char_injective(a: nat, b: nat)
    requires
        a < 16,
        b < 16,
        hex_char(a) == hex_char(b),
    ensures
        a == b,
{
}

/// Every 16-bit number is its four hexadecimal digits.
proof fn lemma_hex_digits_compose(r: u16)
    ensures
        r as int == (r / 4096) as int * 4096 + ((r / 256) % 16) as int * 256 + ((r / 16) % 16) as int
            * 16 + (r % 16) as int,
{
    assert(r as int == (r / 4096) as int * 4096 + ((r / 256) % 16) as int * 256 + ((r / 16)
        % 16) as int * 16 + (r % 16) as int) by (bit_vector);
}

/// The id keeps the whole random number: different numbers give different
/// ids, so two nodes share an id only when they drew the same number.
pub proof fn lemma_peer_id_injective(a: u16, b: u16)
    ensures
        spec_peer_id(a) == spec_peer_id(b) <==> a == b,
{
    if spec_peer_id(a) == spec_peer_id(b) {
        let x = spec_peer_id(a);
        let y = spec_peer_id(b);
        assert(x[0] == y[0] && x[1] == y[1] && x[2] == y[2] && x[3] == y[3]);
        lemma_hex_char_injective((a / 4096) as nat, (b / 4096) as nat);
        lemma_hex_char_injective(((a / 256) % 16) as nat, ((b / 256) % 16) as nat);
        lemma_hex_char_injective(((a / 16) % 16) as nat, ((b / 16) % 16) as nat);
        lemma_hex_char_injective((a % 16) as nat, (b % 16) as nat);
        lemma_hex_digits_compose(a);
        lemma_hex_digits_compose(b);
    }
}

} // verus!
