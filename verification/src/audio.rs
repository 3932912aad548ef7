//! Audio samples on the wire and their mixing: 16-bit little-endian PCM,
//! averaging of the peers' samples, and spreading mono over channels.

use vstd::prelude::*;

verus! {

/// The sample that two little-endian bytes encode.
pub open spec fn sample_of(lo: u8, hi: u8) -> i16 {
    let u = lo as int + 256 * hi as int;
    if u >= 32768 {
        (u - 65536) as i16
    } else {
        u as i16
    }
}

/// The low byte of a sample's little-endian encoding.
pub open spec fn low_byte(s: i16) -> u8 {
    let u = if s < 0 { s + 65536 } else { s as int };
    (u % 256) as u8
}

/// The high byte of a sample's little-endian encoding.
pub open spec fn high_byte(s: i16) -> u8 {
    let u = if s < 0 { s + 65536 } else { s as int };
    (u / 256) as u8
}

/// The bytes sent for a run of samples: each sample as two little-endian bytes.
pub open spec fn spec_encode_pcm(samples: Seq<i16>) -> Seq<u8> {
    Seq::new(
        2 * samples.len(),
        |k: int|
            if k % 2 == 0 {
                low_byte(samples[k / 2])
            } else {
                high_byte(samples[k / 2])
            },
    )
}

/// The samples that a run of bytes carries, read two at a time; an odd last
/// byte carries none.
pub open spec fn spec_decode_pcm(bytes: Seq<u8>) -> Seq<i16> {
    Seq::new(bytes.len() / 2, |i: int| sample_of(bytes[2 * i], bytes[2 * i + 1]))
}

/// The sample that two little-endian bytes encode (`i16::from_le_bytes`).
pub fn decode_sample(lo: u8, hi: u8) -> (s: i16)
    ensures
        s == sample_of(lo, hi),
{
    let u: i32 = lo as i32 + 256 * (hi as i32);
    if u >= 32768 {
        (u - 65536) as i16
    } else {
        u as i16
    }
}

/// A sample's little-endian bytes (`i16::to_le_bytes`).
pub fn encode_sample(s: i16) -> (r: (u8, u8))
    ensures
        r == (low_byte(s), high_byte(s)),
{
    let u: i32 = if s < 0 { s as i32 + 65536 } else { s as i32 };
    ((u % 256) as u8, (u / 256) as u8)
}

/// The bytes sent for captured samples.
pub fn encode_pcm(samples: &[i16]) -> (r: Vec<u8>)
    requires
        2 * samples.len() <= usize::MAX,
    ensures
        r@ == spec_encode_pcm(samples@),
{
    let mut r: Vec<u8> = Vec::new();
    let mut i: usize = 0;
    while i < samples.len()
        invariant
            i <= samples.len(),
            2 * samples.len() <= usize::MAX,
            r.len() == 2 * i,
            forall|k: int| 0 <= k < r.len() ==> #[trigger] r@[k] == spec_encode_pcm(samples@)[k],
        decreases samples.len() - i,
    {
        let (lo, hi) = encode_sample(samples[i]);
        r.push(lo);
        r.push(hi);
        proof {
            let e = spec_encode_pcm(samples@);
            assert((2 * i) % 2 == 0 && (2 * i) / 2 == i);
            assert((2 * i + 1) % 2 == 1 && (2 * i + 1) / 2 == i);
            assert(r@[2 * i] == e[2 * i]);
            assert(r@[2 * i + 1] == e[2 * i + 1]);
        }
        i = i + 1;
    }
    assert(r@ =~= spec_encode_pcm(samples@));
    r
}

/// The samples carried by received bytes.
pub fn decode_pcm(bytes: &[u8]) -> (r: Vec<i16>)
    ensures
        r@ == spec_decode_pcm(bytes@),
{
    let mut r: Vec<i16> = Vec::new();
    let n = bytes.len() / 2;
    let mut i: usize = 0;
    while i < n
        invariant
            i <= n,
            n == bytes.len() / 2,
            r@ == spec_decode_pcm(bytes@).take(i as int),
        decreases n - i,
    {
        let s = decode_sample(bytes[2 * i], bytes[2 * i + 1]);
        r.push(s);
        assert(spec_decode_pcm(bytes@).take(i + 1) =~= spec_decode_pcm(bytes@).take(i as int).push(
            s,
        ));
        i = i + 1;
    }
    assert(spec_decode_pcm(bytes@).take(n as int) =~= spec_decode_pcm(bytes@));
    r
}

/// A sample's two bytes decode to the sample.
pub proof fn lemma_sample_roundtrip(s: i16)
    ensures
        sample_of(low_byte(s), high_byte(s)) == s,
{
    let u = if s < 0 { s + 65536 } else { s as int };
    assert(u == (u / 256) * 256 + u % 256);
}

/// Decoding what was encoded gives the samples back.
pub proof fn lemma_pcm_roundtrip(samples: Seq<i16>)
    ensures
        spec_decode_pcm(spec_encode_pcm(samples)) == samples,
        spec_encode_pcm(samples).len() == 2 * samples.len(),
{
    let e = spec_encode_pcm(samples);
    let d = spec_decode_pcm(e);
    assert forall|i: int| 0 <= i < samples.len() implies #[trigger] d[i] == samples[i] by {
        assert((2 * i) % 2 == 0 && (2 * i) / 2 == i);
        assert((2 * i + 1) % 2 == 1 && (2 * i + 1) / 2 == i);
        lemma_sample_roundtrip(samples[i]);
    }
    assert(d =~= samples);
}


/// The sum of a run of values.
pub open spec fn sum(s: Seq<i32>) -> int
    decreases s.len(),
{
    if s.len() == 0 {
        0
    } else {
        sum(s.drop_last()) + s.last()
    }
}

/// Integer division rounding toward zero, as Rust's `/` does (`b > 0`).
pub open spec fn div_toward_zero(a: int, b: int) -> int {
    if a >= 0 {
        a / b
    } else {
        -((-a) / b)
    }
}

/// `v` clamped to the range of a sample.
pub open spec fn clamp_sample(v: int) -> i16 {
    if v < i16::MIN {
        i16::MIN
    } else if v > i16::MAX {
        i16::MAX
    } else {
        v as i16
    }
}

/// One output sample from the volume-scaled samples that the peers
/// contributed to it: their average, rounded toward zero and clamped; silence
/// where none contributed.
pub open spec fn spec_mix(scaled: Seq<i32>) -> i16 {
    if scaled.len() == 0 {
        0
    } else {
        clamp_sample(div_toward_zero(sum(scaled), scaled.len() as int))
    }
}

/// No running sum of `s` leaves the range of `i32`.
pub open spec fn sums_fit_i32(s: Seq<i32>) -> bool {
    forall|k: int| 0 <= k <= s.len() ==> i32::MIN <= #[trigger] sum(s.take(k)) <= i32::MAX
}

/// Mixes the volume-scaled samples of one output instant.
pub fn mix(scaled: &[i32]) -> (r: i16)
    requires
        sums_fit_i32(scaled@),
        scaled.len() <= i32::MAX,
    ensures
        r == spec_mix(scaled@),
{
    let n = scaled.len();
    if n == 0 {
        return 0;
    }
    let mut total: i32 = 0;
    let mut i: usize = 0;
    while i < n
        invariant
            i <= n,
            n == scaled.len(),
            sums_fit_i32(scaled@),
            total == sum(scaled@.take(i as int)),
        decreases n - i,
    {
        assert(scaled@.take(i + 1).drop_last() =~= scaled@.take(i as int));
        assert(i32::MIN <= sum(scaled@.take(i + 1)) <= i32::MAX);
        total = total + scaled[i];
        i = i + 1;
    }
    assert(scaled@.take(n as int) =~= scaled@);
    let t = total as i64;
    let c = n as i64;
    let q: i64 = if t >= 0 {
        t / c
    } else {
        -((-t) / c)
    };
    if q < -32768 {
        -32768
    } else if q > 32767 {
        32767
    } else {
        q as i16
    }
}

/// The interleaved output for `channels` channels: every mono sample
/// repeated once per channel.
pub fn expand_channels(mono: &[i16], channels: usize) -> (r: Vec<i16>)
    requires
        channels > 0,
        mono.len() * channels <= usize::MAX,
    ensures
        r.len() == mono.len() * channels,
        forall|i: int, ch: int|
            0 <= i < mono.len() && 0 <= ch < channels ==> #[trigger] r@[i * channels + ch]
                == mono@[i],
{
    let mut r: Vec<i16> = Vec::new();
    let mut i: usize = 0;
    while i < mono.len()
        invariant
            i <= mono.len(),
            channels > 0,
            mono.len() * channels <= usize::MAX,
            r.len() == i * channels,
            forall|a: int, ch: int|
                0 <= a < i && 0 <= ch < channels ==> #[trigger] r@[a * channels + ch] == mono@[a],
        decreases mono.len() - i,
    {
        assert(i * channels + channels <= mono.len() * channels) by (nonlinear_arith)
            requires
                i < mono.len(),
        ;
        let mut ch: usize = 0;
        while ch < channels
            invariant
                i < mono.len(),
                ch <= channels,
                channels > 0,
                i * channels + channels <= mono.len() * channels <= usize::MAX,
                r.len() == i * channels + ch,
                forall|a: int, c: int|
                    0 <= a < i && 0 <= c < channels ==> #[trigger] r@[a * channels + c]
                        == mono@[a],
                forall|c: int| 0 <= c < ch ==> #[trigger] r@[i * channels + c] == mono@[i as int],
            decreases channels - ch,
        {
            let ghost before = r@;
            r.push(mono[i]);
            assert forall|a: int, c: int|
                0 <= a < i && 0 <= c < channels implies #[trigger] r@[a * channels + c]
                == mono@[a] by {
                assert(a * channels + c < i * channels) by (nonlinear_arith)
                    requires
                        0 <= a < i,
                        0 <= c < channels,
                ;
                assert(r@[a * channels + c] == before[a * channels + c]);
            }
            ch = ch + 1;
        }
        assert((i + 1) * channels == i * channels + channels) by (nonlinear_arith);
        i = i + 1;
    }
    r
}

/// With a single contributor, the mix is that contributor's sample.
pub proof fn lemma_mix_single(x: i32)
    ensures
        spec_mix(seq![x]) == clamp_sample(x as int),
{
    assert(seq![x].drop_last() =~= Seq::<i32>::empty());
    assert(sum(Seq::<i32>::empty()) == 0);
    assert(sum(seq![x]) == x);
    assert(div_toward_zero(x as int, 1) == x);
}

/// A sum of values within a sample's magnitude is bounded by that magnitude
/// times their number.
proof fn lemma_sum_bound(s: Seq<i32>)
    requires
        forall|i: int| 0 <= i < s.len() ==> -32768 <= #[trigger] s[i] <= 32768,
    ensures
        -32768 * s.len() <= sum(s) <= 32768 * s.len(),
    decreases s.len(),
{
    if s.len() > 0 {
        let d = s.drop_last();
        assert forall|i: int| 0 <= i < d.len() implies -32768 <= #[trigger] d[i] <= 32768 by {
            assert(d[i] == s[i]);
        }
        lemma_sum_bound(d);
    }
}

/// Volume-scaled samples (at most a sample's magnitude each) from fewer than
/// 65536 senders never overflow the running sum.
pub proof fn lemma_scaled_samples_fit(s: Seq<i32>)
    requires
        s.len() < 65536,
        forall|i: int| 0 <= i < s.len() ==> -32768 <= #[trigger] s[i] <= 32768,
    ensures
        sums_fit_i32(s),
{
    assert forall|k: int| 0 <= k <= s.len() implies i32::MIN <= #[trigger] sum(s.take(k))
        <= i32::MAX by {
        let t = s.take(k);
        assert forall|i: int| 0 <= i < t.len() implies -32768 <= #[trigger] t[i] <= 32768 by {
            assert(t[i] == s[i]);
        }
        lemma_sum_bound(t);
    }
}

/// A sum of values within `[lo, hi]` lies within their number times those
/// bounds.
proof fn lemma_sum_between(s: Seq<i32>, lo: int, hi: int)
    requires
        forall|i: int| 0 <= i < s.len() ==> lo <= #[trigger] s[i] <= hi,
    ensures
        s.len() * lo <= sum(s) <= s.len() * hi,
    decreases s.len(),
{
    if s.len() > 0 {
        let d = s.drop_last();
        assert forall|i: int| 0 <= i < d.len() implies lo <= #[trigger] d[i] <= hi by {
            assert(d[i] == s[i]);
        }
        lemma_sum_between(d, lo, hi);
        assert(lo <= s.last() <= hi);
        assert(d.len() * lo + lo == s.len() * lo && d.len() * hi + hi == s.len() * hi)
            by (nonlinear_arith)
            requires
                d.len() + 1 == s.len(),
        ;
    }
}

/// The mix of the senders' samples is an average: it never lies outside the
/// range of the samples mixed, whatever their number.
pub proof fn lemma_mix_between(s: Seq<i32>, lo: i16, hi: i16)
    requires
        s.len() > 0,
        forall|i: int| 0 <= i < s.len() ==> lo <= #[trigger] s[i] <= hi,
    ensures
        lo <= div_toward_zero(sum(s), s.len() as int) <= hi,
        lo <= spec_mix(s) <= hi,
{
    let n = s.len() as int;
    let lo_i = lo as int;
    let hi_i = hi as int;
    lemma_sum_between(s, lo_i, hi_i);
    let t = sum(s);
    let q = div_toward_zero(t, n);
    if t >= 0 {
        assert(hi_i >= 0) by {
            if hi_i < 0 {
                assert(n * hi_i < 0) by (nonlinear_arith)
                    requires
                        n > 0,
                        hi_i < 0,
                ;
            }
        }
        vstd::arithmetic::div_mod::lemma_div_is_ordered(t, n * hi_i, n);
        vstd::arithmetic::div_mod::lemma_div_multiples_vanish(hi_i, n);
        vstd::arithmetic::div_mod::lemma_div_is_ordered(0, t, n);
        if lo_i > 0 {
            vstd::arithmetic::div_mod::lemma_div_is_ordered(n * lo_i, t, n);
            vstd::arithmetic::div_mod::lemma_div_multiples_vanish(lo_i, n);
        }
        assert(lo_i <= q <= hi_i);
    } else {
        let u = -t;
        assert(lo_i < 0) by {
            if lo_i >= 0 {
                assert(n * lo_i >= 0) by (nonlinear_arith)
                    requires
                        n > 0,
                        lo_i >= 0,
                ;
            }
        }
        assert(u <= n * (-lo_i)) by (nonlinear_arith)
            requires
                n * lo_i <= t,
                u == -t,
        ;
        vstd::arithmetic::div_mod::lemma_div_is_ordered(u, n * (-lo_i), n);
        vstd::arithmetic::div_mod::lemma_div_multiples_vanish(-lo_i, n);
        vstd::arithmetic::div_mod::lemma_div_is_ordered(0, u, n);
        if hi_i < 0 {
            assert(n * (-hi_i) <= u) by (nonlinear_arith)
                requires
                    t <= n * hi_i,
                    u == -t,
            ;
            vstd::arithmetic::div_mod::lemma_div_is_ordered(n * (-hi_i), u, n);
            vstd::arithmetic::div_mod::lemma_div_multiples_vanish(-hi_i, n);
        }
        assert(lo_i <= q <= hi_i);
    }
}

/// Any number of senders at the same level mix to that level.
pub proof fn lemma_mix_equal_samples(x: i16, n: nat)
    requires
        n > 0,
    ensures
        spec_mix(Seq::new(n, |i: int| x as i32)) == x,
{
    let s = Seq::new(n, |i: int| x as i32);
    lemma_mix_between(s, x, x);
}

/// The mix divides the sum of the samples by their number, rounding toward
/// zero: for samples in the range of a sample, `m * n` is the multiple of `n`
/// nearest to the sum on the side of zero.
pub proof fn lemma_mix_rounds_toward_zero(s: Seq<i32>)
    requires
        s.len() > 0,
        forall|i: int| 0 <= i < s.len() ==> i16::MIN <= #[trigger] s[i] <= i16::MAX,
    ensures
        ({
            let m = spec_mix(s) as int;
            let n = s.len() as int;
            let t = sum(s);
            &&& t >= 0 ==> m * n <= t < (m + 1) * n
            &&& t < 0 ==> (m - 1) * n < t <= m * n
        }),
{
    let n = s.len() as int;
    let t = sum(s);
    lemma_mix_between(s, i16::MIN, i16::MAX);
    let q = div_toward_zero(t, n);
    assert(spec_mix(s) as int == q);
    if t >= 0 {
        vstd::arithmetic::div_mod::lemma_fundamental_div_mod(t, n);
        vstd::arithmetic::div_mod::lemma_mod_pos_bound(t, n);
        assert(q * n <= t < (q + 1) * n) by (nonlinear_arith)
            requires
                t == n * q + t % n,
                0 <= t % n < n,
        ;
    } else {
        let u = -t;
        vstd::arithmetic::div_mod::lemma_fundamental_div_mod(u, n);
        vstd::arithmetic::div_mod::lemma_mod_pos_bound(u, n);
        assert((q - 1) * n < t <= q * n) by (nonlinear_arith)
            requires
                u == n * (u / n) + u % n,
                0 <= u % n < n,
                q == -(u / n),
                t == -u,
        ;
    }
}

/// Samples go out in the order they were captured, each as its own two
/// bytes: bytes `2k` and `2k + 1` of the encoding are the little-endian bytes
/// of sample `k`, and decode to it.
pub proof fn lemma_encode_pcm_in_order(samples: Seq<i16>)
    ensures
        spec_encode_pcm(samples).len() == 2 * samples.len(),
        forall|k: int|
            0 <= k < samples.len() ==> {
                &&& #[trigger] spec_encode_pcm(samples)[2 * k] == low_byte(samples[k])
                &&& spec_encode_pcm(samples)[2 * k + 1] == high_byte(samples[k])
                &&& sample_of(spec_encode_pcm(samples)[2 * k], spec_encode_pcm(samples)[2 * k + 1])
                    == samples[k]
            },
{
    let e = spec_encode_pcm(samples);
    assert forall|k: int| 0 <= k < samples.len() implies {
        &&& #[trigger] e[2 * k] == low_byte(samples[k])
        &&& e[2 * k + 1] == high_byte(samples[k])
        &&& sample_of(e[2 * k], e[2 * k + 1]) == samples[k]
    } by {
        assert((2 * k) % 2 == 0 && (2 * k) / 2 == k);
        assert((2 * k + 1) % 2 == 1 && (2 * k + 1) / 2 == k);
        lemma_sample_roundtrip(samples[k]);
    }
}

/// The two bytes of a sample are its value modulo 256 and the rest, as the
/// two's-complement 16-bit pattern read little-endian.
pub proof fn lemma_sample_bytes_value(s: i16)
    ensures
        low_byte(s) + 256 * high_byte(s) == (if s < 0 { s + 65536 } else { s as int }),
{
    let u = if s < 0 { s + 65536 } else { s as int };
    assert(u == (u / 256) * 256 + u % 256);
}

} // verus!
