//! Network addresses as plain values, with the equality of std's socket
//! addresses.

use vstd::prelude::*;

use crate::text::decimal_digits;
use crate::text::hex_digits;
use crate::text::push_char;
use crate::text::push_decimal;
use crate::text::push_decimal_u32;
use crate::text::push_hex;

verus! {

/// An IP address: the 32 bits of a v4 address or the 128 bits of a v6 one.
#[derive(Clone, Copy, Debug, PartialEq, Eq, Structural)]
pub enum IpAddress {
    V4(u32),
    V6(u128),
}

/// A socket address. Two of them are equal exactly when all their fields are.
#[derive(Clone, Copy, Debug, PartialEq, Eq, Structural)]
pub enum Endpoint {
    V4 { ip4: u32, port: u16 },
    V6 { ip6: u128, port: u16, flowinfo: u32, scope_id: u32 },
}

/// The socket address of `ip` and `port`, with no flow label and no scope,
/// as `SocketAddr::new` makes it.
pub open spec fn endpoint_of(ip: IpAddress, port: u16) -> Endpoint {
    match ip {
        IpAddress::V4(a) => Endpoint::V4 { ip4: a, port },
        IpAddress::V6(a) => Endpoint::V6 { ip6: a, port, flowinfo: 0, scope_id: 0 },
    }
}

/// The IP address of a socket address.
pub open spec fn ip_of(e: Endpoint) -> IpAddress {
    match e {
        Endpoint::V4 { ip4, .. } => IpAddress::V4(ip4),
        Endpoint::V6 { ip6, .. } => IpAddress::V6(ip6),
    }
}

/// The port of a socket address.
pub open spec fn port_of(e: Endpoint) -> u16 {
    match e {
        Endpoint::V4 { port, .. } => port,
        Endpoint::V6 { port, .. } => port,
    }
}

impl Endpoint {
    /// The socket address of `ip` and `port`.
    pub fn new(ip: IpAddress, port: u16) -> (e: Endpoint)
        ensures
            e == endpoint_of(ip, port),
    {
        match ip {
            IpAddress::V4(a) => Endpoint::V4 { ip4: a, port },
            IpAddress::V6(a) => Endpoint::V6 { ip6: a, port, flowinfo: 0, scope_id: 0 },
        }
    }

    /// The IP address.
    pub fn ip(&self) -> (r: IpAddress)
        ensures
            r == ip_of(*self),
    {
        match self {
            Endpoint::V4 { ip4, .. } => IpAddress::V4(*ip4),
            Endpoint::V6 { ip6, .. } => IpAddress::V6(*ip6),
        }
    }

    /// The port.
    pub fn port(&self) -> (r: u16)
        ensures
            r == port_of(*self),
    {
        match self {
            Endpoint::V4 { port, .. } => *port,
            Endpoint::V6 { port, .. } => *port,
        }
    }
}

/// A socket address made from an IP address and a port gives them back.
pub proof fn lemma_endpoint_parts(ip: IpAddress, port: u16)
    ensures
        ip_of(endpoint_of(ip, port)) == ip,
        port_of(endpoint_of(ip, port)) == port,
{
}

/// The dotted-decimal text of a v4 address, as `Ipv4Addr` displays it.
pub open spec fn ipv4_text(x: u32) -> Seq<char> {
    decimal_digits(((x >> 24u32) & 0xff) as nat) + seq!['.'] + decimal_digits(
        ((x >> 16u32) & 0xff) as nat,
    ) + seq!['.'] + decimal_digits(((x >> 8u32) & 0xff) as nat) + seq!['.'] + decimal_digits(
        (x & 0xff) as nat,
    )
}

/// The eight 16-bit groups of a v6 address, most significant first.
pub open spec fn ipv6_segments(x: u128) -> Seq<u16> {
    seq![
        ((x >> 112u32) & 0xffff) as u16,
        ((x >> 96u32) & 0xffff) as u16,
        ((x >> 80u32) & 0xffff) as u16,
        ((x >> 64u32) & 0xffff) as u16,
        ((x >> 48u32) & 0xffff) as u16,
        ((x >> 32u32) & 0xffff) as u16,
        ((x >> 16u32) & 0xffff) as u16,
        (x & 0xffff) as u16,
    ]
}

/// The number of zero groups in a row from position `i` on.
pub open spec fn zero_run_at(s: Seq<u16>, i: int) -> nat
    decreases s.len() - i,
{
    if 0 <= i < s.len() && s[i] == 0 {
        1 + zero_run_at(s, i + 1)
    } else {
        0
    }
}

/// Start and length of the first longest run of zero groups at or after `i`
/// (length 0 where there is none).
pub open spec fn longest_zero_run_from(s: Seq<u16>, i: int) -> (int, nat)
    decreases s.len() - i,
{
    if i < 0 || i >= s.len() {
        (0, 0)
    } else {
        let rest = longest_zero_run_from(s, i + 1);
        let r = zero_run_at(s, i);
        if r > 0 && r >= rest.1 {
            (i, r)
        } else {
            rest
        }
    }
}

/// Groups in lower-case hexadecimal, joined by `:`.
pub open spec fn join_hex(s: Seq<u16>) -> Seq<char>
    decreases s.len(),
{
    if s.len() == 0 {
        Seq::empty()
    } else if s.len() == 1 {
        hex_digits(s[0] as nat)
    } else {
        join_hex(s.drop_last()) + seq![':'] + hex_digits(s.last() as nat)
    }
}

/// A v6 address that stands for the v4 address in its low 32 bits.
pub open spec fn is_ipv4_mapped(x: u128) -> bool {
    let g = ipv6_segments(x);
    g[0] == 0 && g[1] == 0 && g[2] == 0 && g[3] == 0 && g[4] == 0 && g[5] == 0xffff
}

/// The text of a v6 address, as `Ipv6Addr` displays it: a v4-mapped address
/// as `::ffff:` and its v4 text; otherwise the groups in hexadecimal, with the
/// first longest run of two or more zero groups written as `::`.
pub open spec fn ipv6_text(x: u128) -> Seq<char> {
    if is_ipv4_mapped(x) {
        seq![':', ':', 'f', 'f', 'f', 'f', ':'] + ipv4_text((x & 0xffff_ffff) as u32)
    } else {
        let g = ipv6_segments(x);
        let run = longest_zero_run_from(g, 0);
        if run.1 > 1 {
            join_hex(g.take(run.0)) + seq![':', ':'] + join_hex(g.skip(run.0 + run.1))
        } else {
            join_hex(g)
        }
    }
}

/// The text of an IP address, as `IpAddr` displays it.
pub open spec fn spec_ip_text(ip: IpAddress) -> Seq<char> {
    match ip {
        IpAddress::V4(a) => ipv4_text(a),
        IpAddress::V6(a) => ipv6_text(a),
    }
}

/// The text of a socket address, as `SocketAddr` displays it: `ip:port` for
/// v4, `[ip]:port` for v6, with `%scope` inside the brackets where there is a
/// scope.
pub open spec fn spec_endpoint_text(e: Endpoint) -> Seq<char> {
    match e {
        Endpoint::V4 { ip4, port } => ipv4_text(ip4) + seq![':'] + decimal_digits(port as nat),
        Endpoint::V6 { ip6, port, scope_id, .. } => seq!['['] + ipv6_text(ip6) + (if scope_id == 0 {
            Seq::<char>::empty()
        } else {
            seq!['%'] + decimal_digits(scope_id as nat)
        }) + seq![']', ':'] + decimal_digits(port as nat),
    }
}

/// Appends the text of a v4 address.
fn push_ipv4(s: &mut String, x: u32)
    ensures
        final(s)@ == old(s)@ + ipv4_text(x),
{
    push_decimal_u32(s, (x >> 24u32) & 0xff);
    push_char(s, '.');
    push_decimal_u32(s, (x >> 16u32) & 0xff);
    push_char(s, '.');
    push_decimal_u32(s, (x >> 8u32) & 0xff);
    push_char(s, '.');
    push_decimal_u32(s, x & 0xff);
    assert(final(s)@ =~= old(s)@ + ipv4_text(x));
}

/// Appends the groups `g[from..to]` in hexadecimal, joined by `:`.
fn push_join_hex(s: &mut String, g: &[u16], from: usize, to: usize)
    requires
        from <= to <= g.len(),
    ensures
        final(s)@ == old(s)@ + join_hex(g@.subrange(from as int, to as int)),
{
    let mut k = from;
    assert(g@.subrange(from as int, from as int) =~= Seq::<u16>::empty());
    while k < to
        invariant
            from <= k <= to <= g.len(),
            s@ == old(s)@ + join_hex(g@.subrange(from as int, k as int)),
        decreases to - k,
    {
        let ghost before = s@;
        let ghost sub = g@.subrange(from as int, k + 1);
        if k > from {
            push_char(s, ':');
        }
        push_hex(s, g[k]);
        assert(sub.drop_last() =~= g@.subrange(from as int, k as int));
        assert(sub.last() == g@[k as int]);
        if k == from {
            assert(s@ =~= old(s)@ + join_hex(sub));
        } else {
            assert(s@ =~= old(s)@ + join_hex(sub));
        }
        k = k + 1;
    }
}

/// Appends the text of a v6 address.
fn push_ipv6(s: &mut String, x: u128)
    ensures
        final(s)@ == old(s)@ + ipv6_text(x),
{
    let g: Vec<u16> = vec![
        ((x >> 112u32) & 0xffff) as u16,
        ((x >> 96u32) & 0xffff) as u16,
        ((x >> 80u32) & 0xffff) as u16,
        ((x >> 64u32) & 0xffff) as u16,
        ((x >> 48u32) & 0xffff) as u16,
        ((x >> 32u32) & 0xffff) as u16,
        ((x >> 16u32) & 0xffff) as u16,
        (x & 0xffff) as u16,
    ];
    assert(g@ =~= ipv6_segments(x));
    if g[0] == 0 && g[1] == 0 && g[2] == 0 && g[3] == 0 && g[4] == 0 && g[5] == 0xffff {
        push_char(s, ':');
        push_char(s, ':');
        push_char(s, 'f');
        push_char(s, 'f');
        push_char(s, 'f');
        push_char(s, 'f');
        push_char(s, ':');
        push_ipv4(s, (x & 0xffff_ffff) as u32);
        assert(final(s)@ =~= old(s)@ + ipv6_text(x));
        return;
    }
    // Longest zero run, scanning from the right so that the first one wins.
    let mut run: usize = 0;
    let mut best_start: usize = 0;
    let mut best_len: usize = 0;
    let mut i: usize = 8;
    while i > 0
        invariant
            i <= 8,
            g@ == ipv6_segments(x),
            run == zero_run_at(g@, i as int),
            (best_start as int, best_len as nat) == longest_zero_run_from(g@, i as int),
            run <= 8 - i,
            best_start <= 8,
            best_start + best_len <= 8,
        decreases i,
    {
        i = i - 1;
        if g[i] == 0 {
            run = run + 1;
        } else {
            run = 0;
        }
        if run > 0 && run >= best_len {
            best_start = i;
            best_len = run;
        }
        proof {
            zero_run_bound(g@, i as int);
        }
    }
    if best_len > 1 {
        push_join_hex(s, g.as_slice(), 0, best_start);
        push_char(s, ':');
        push_char(s, ':');
        push_join_hex(s, g.as_slice(), best_start + best_len, 8);
        assert(g@.subrange(0, best_start as int) =~= g@.take(best_start as int));
        assert(g@.subrange((best_start + best_len) as int, 8) =~= g@.skip((best_start + best_len) as int));
    } else {
        push_join_hex(s, g.as_slice(), 0, 8);
        assert(g@.subrange(0, 8) =~= g@);
    }
    assert(final(s)@ =~= old(s)@ + ipv6_text(x));
}

/// A zero run fits in what is left of the groups.
proof fn zero_run_bound(g: Seq<u16>, i: int)
    requires
        0 <= i <= g.len(),
    ensures
        zero_run_at(g, i) <= g.len() - i,
    decreases g.len() - i,
{
    if i < g.len() {
        zero_run_bound(g, i + 1);
    }
}

/// The text of an IP address (`IpAddr::to_string`).
pub fn ip_text(ip: IpAddress) -> (r: String)
    ensures
        r@ == spec_ip_text(ip),
{
    let mut s = String::new();
    match ip {
        IpAddress::V4(a) => push_ipv4(&mut s, a),
        IpAddress::V6(a) => push_ipv6(&mut s, a),
    }
    assert(s@ =~= spec_ip_text(ip));
    s
}

/// The text of a socket address (`SocketAddr::to_string`).
pub fn endpoint_text(e: Endpoint) -> (r: String)
    ensures
        r@ == spec_endpoint_text(e),
{
    let mut s = String::new();
    match e {
        Endpoint::V4 { ip4, port } => {
            push_ipv4(&mut s, ip4);
            push_char(&mut s, ':');
            push_decimal(&mut s, port);
        },
        Endpoint::V6 { ip6, port, scope_id, .. } => {
            push_char(&mut s, '[');
            push_ipv6(&mut s, ip6);
            if scope_id != 0 {
                push_char(&mut s, '%');
                push_decimal_u32(&mut s, scope_id);
            }
            push_char(&mut s, ']');
            push_char(&mut s, ':');
            push_decimal(&mut s, port);
        },
    }
    assert(s@ =~= spec_endpoint_text(e));
    s
}

} // verus!
