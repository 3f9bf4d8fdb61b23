//! How words, bits and logs are laid out.
use vstd::prelude::*;
use vstd::arithmetic::power2::{lemma2_to64, lemma_pow2_pos, lemma_pow2_unfold, pow2};
use crate::arith::{bit_length, lemma_bit_length, lemma_wrap32};
use crate::bits::{bits_of, byte_bits, lemma_bits_len, lemma_byte_bits_len};
use crate::block::zero_medians;
use crate::entropy::sample_word;
use crate::error::Error;
use crate::log2::{exp_size, exp_value};
use crate::logpack::{aligned, biased, exp2_fraction, exp_magnitude, exp_of, log2_fraction, log_of};
use crate::packed_samples::{Coder, encode_words, padded, silence, zero_run};
use crate::samples::{AdaptiveMedians, count_code, magnitude, mantissa_code, prefix_code};

verus! {

// ---------------------------------------------------------------------------
// Bits
// ---------------------------------------------------------------------------

proof fn lemma_bit_of(v: nat, k: nat, j: int)
    requires
        0 <= j < k,
    ensures
        bits_of(v, k).len() == k,
        bits_of(v, k)[j] == (v as int / pow2(j as nat) as int % 2 == 1),
    decreases k,
{
    lemma_bits_len(v, k);
    lemma_bits_len(v / 2, (k - 1) as nat);
    lemma2_to64();
    if j > 0 {
        lemma_bit_of(v / 2, (k - 1) as nat, j - 1);
        lemma_pow2_unfold(j as nat);
        lemma_pow2_pos((j - 1) as nat);
        vstd::arithmetic::div_mod::lemma_div_denominator(v as int, 2, pow2((j - 1) as nat) as int);
    } else {
        assert(v as int / 1 == v);
    }
}

/// The bits of bytes stand one behind the other, the least significant of each
/// byte first.
pub proof fn bits_are_least_significant_first(bytes: Seq<u8>, i: int)
    requires
        0 <= i < 8 * bytes.len(),
    ensures
        byte_bits(bytes).len() == 8 * bytes.len(),
        byte_bits(bytes)[i] == (bytes[i / 8] as int / pow2((i % 8) as nat) as int % 2 == 1),
    decreases bytes.len(),
{
    lemma_byte_bits_len(bytes);
    let rest = bytes.drop_first();
    lemma_byte_bits_len(rest);
    lemma_bits_len(bytes[0] as nat, 8);
    if i < 8 {
        lemma_bit_of(bytes[0] as nat, 8, i);
    } else {
        bits_are_least_significant_first(rest, i - 8);
        assert((i - 8) / 8 == i / 8 - 1);
        assert((i - 8) % 8 == i % 8);
        assert(rest[i / 8 - 1] == bytes[i / 8]);
    }
}

/// Packed bits take as few bytes as hold them, and a zero byte more where that is
/// an odd number.
pub proof fn payloads_are_even(s: Seq<u8>)
    ensures
        padded(s).len() % 2 == 0,
        s.len() <= padded(s).len() <= s.len() + 1,
        padded(s).take(s.len() as int) == s,
        padded(s).len() > s.len() ==> padded(s).last() == 0,
{
    assert(padded(s).take(s.len() as int) =~= s);
}

// ---------------------------------------------------------------------------
// Words
// ---------------------------------------------------------------------------

proof fn lemma_silent_run(n: nat, i: int)
    requires
        0 <= i <= n,
    ensures
        zero_run(silence(n), i) == n - i,
    decreases n - i,
{
    if i < n {
        lemma_silent_run(n, i + 1);
    }
}

/// Silence from the start of a block is a single count.
pub proof fn silence_is_one_count(n: nat, stereo: bool)
    requires
        n > 0,
    ensures
        encode_words(silence(n), 0, stereo, Coder::start(zero_medians(), zero_medians())) == Ok::<Seq<bool>, Error>(
            count_code(n),
        ),
{
    lemma_silent_run(n, 0);
    let st = Coder::start(zero_medians(), zero_medians());
    assert(st.gate());
    assert(encode_words(silence(n), n as int, stereo, st.cleared()) == Ok::<Seq<bool>, Error>(Seq::empty()));
    assert(count_code(n) + Seq::<bool>::empty() =~= count_code(n));
}

/// A word alone is the prefix of its zone, its place in the zone and its sign. At
/// the start of a quiet block a zero count stands before it.
pub proof fn words_are_prefix_place_and_sign(v: i32, stereo: bool, a: AdaptiveMedians, b: AdaptiveMedians)
    requires
        magnitude(v) <= a.high(a.zone_of(magnitude(v))),
        v != 0 || a.m0 > 1 || b.m0 > 1,
    ensures
        ({
            let z = a.zone_of(magnitude(v));
            let place = mantissa_code((magnitude(v) - a.low(z)) as nat, (a.high(z) - a.low(z)) as nat);
            let lead = if a.m0 <= 1 && b.m0 <= 1 {
                seq![false]
            } else {
                Seq::empty()
            };
            encode_words(seq![v], 0, stereo, Coder::start(a, b)) == Ok::<Seq<bool>, Error>(
                lead + prefix_code(2 * z) + place + seq![v < 0],
            )
        }),
{
    let st = Coder::start(a, b);
    let x = seq![v];
    let z = a.zone_of(magnitude(v));
    assert(zero_run(x, 1) == 0);
    assert(zero_run(x, 0) == 0 || v == 0);
    let next = st.coded(false, z);
    assert(st.gate() == (a.m0 <= 1 && b.m0 <= 1));
    assert(!crate::packed_samples::announces(x, 1, stereo, next));
    assert(st.run.prefix(z, false) == prefix_code(2 * z));
    assert(encode_words(x, 1, stereo, next.with_run(st.run.after(false))) == Ok::<Seq<bool>, Error>(Seq::empty()));
    reveal(count_code);
    reveal(crate::packed_samples::word_bits);
    assert(bit_length(0) == 0);
    assert(count_code(0) =~= seq![false]);
    let bits = crate::packed_samples::word_bits(st, false, v, false);
    assert(bits + Seq::<bool>::empty() =~= bits);
}

// ---------------------------------------------------------------------------
// Logs
// ---------------------------------------------------------------------------

proof fn lemma_aligned_long(v: nat, d: nat, a: nat)
    requires
        256 <= a < 512,
        d >= 9,
        a * pow2((d - 9) as nat) <= v < (a + 1) * pow2((d - 9) as nat),
    ensures
        bit_length(v) == d,
        aligned(v) == a,
{
    lemma2_to64();
    let p = pow2((d - 9) as nat);
    lemma_pow2_pos((d - 9) as nat);
    vstd::arithmetic::power2::lemma_pow2_adds(8, (d - 9) as nat);
    vstd::arithmetic::power2::lemma_pow2_adds(9, (d - 9) as nat);
    assert(256 * p <= v < 512 * p) by (nonlinear_arith)
        requires
            256 <= a < 512,
            a * p <= v < (a + 1) * p,
    ;
    lemma_length_is(v, d);
    let r = v - a * p;
    assert(0 <= r < p && v == p * a + r) by (nonlinear_arith)
        requires
            a * p <= v < (a + 1) * p,
            r == v - a * p,
    ;
    vstd::arithmetic::div_mod::lemma_fundamental_div_mod_converse(v as int, p as int, a as int, r);
}

proof fn lemma_aligned_short(v: nat, d: nat, a: nat)
    requires
        256 <= a < 512,
        d < 9,
        a == v * pow2((9 - d) as nat),
    ensures
        bit_length(v) == d,
        aligned(v) == a,
{
    lemma2_to64();
    let p = pow2((9 - d) as nat);
    let q = pow2(d);
    vstd::arithmetic::power2::lemma_pow2_adds((9 - d) as nat, d);
    lemma_pow2_pos((9 - d) as nat);
    lemma_pow2_pos(d);
    assert(p * q == 512);
    assert(v < q) by (nonlinear_arith)
        requires
            v * p < p * q,
            p > 0,
    ;
    assert(v > 0) by (nonlinear_arith)
        requires
            v * p >= 256,
    ;
    assert(d > 0);
    lemma_pow2_unfold(d);
    let h = pow2((d - 1) as nat);
    assert(v >= h) by (nonlinear_arith)
        requires
            2 * (v * p) >= p * q,
            p > 0,
            q == 2 * h,
    ;
    lemma_length_is(v, d);
}

/// The log of a magnitude counts its bits in 256ths. Its fraction goes by the eight
/// bits below the topmost, once one part in 512 is put on.
pub proof fn logs_count_bits(m: nat, d: nat, a: nat)
    requires
        m < 0xff80_0000,
        256 <= a < 512,
        d >= 9 ==> a * pow2((d - 9) as nat) <= m + m / 512 < (a + 1) * pow2((d - 9) as nat),
        d < 9 ==> a == (m + m / 512) * pow2((9 - d) as nat),
    ensures
        log_of(m) == 256 * d + log2_fraction(a - 256),
{
    reveal(log_of);
    let v = m + m / 512;
    assert(biased(m) == v);
    if d >= 9 {
        lemma_aligned_long(v, d, a);
    } else {
        lemma_aligned_short(v, d, a);
    }
    assert(a as int % 256 == a - 256);
}

proof fn lemma_length_is(v: nat, d: nat)
    requires
        d > 0,
        pow2((d - 1) as nat) <= v < pow2(d),
    ensures
        bit_length(v) == d,
{
    lemma_bit_length(v);
    lemma_pow2_pos((d - 1) as nat);
    let k = bit_length(v);
    if k < d {
        if k < d - 1 {
            vstd::arithmetic::power2::lemma_pow2_strictly_increases(k, (d - 1) as nat);
        }
    } else if k > d {
        if k - 1 > d {
            vstd::arithmetic::power2::lemma_pow2_strictly_increases(d, (k - 1) as nat);
        }
    }
}

/// The value of a log is its mantissa, 256 and the fraction, at the bit that the
/// whole part counts; what is below the last bit is cut off. A negative log stands
/// for a negative value.
pub proof fn values_of_logs(n: nat, f: nat)
    requires
        n <= 30,
        f < 256,
    ensures
        n >= 9 ==> exp_of((256 * n + f) as int) == (256 + exp2_fraction(f as int)) * pow2((n - 9) as nat),
        n < 9 ==> exp_of((256 * n + f) as int) == (256 + exp2_fraction(f as int)) / pow2((9 - n) as nat),
        exp_of(-((256 * n + f) as int)) == -exp_of((256 * n + f) as int),
{
    reveal(exp_of);
    let l = 256 * n + f;
    assert(l / 256 == n && l as int % 256 == f);
    let m = 256 + exp2_fraction(f as int);
    assert(exp2_fraction(f as int) <= 255) by {
        reveal(exp2_fraction);
    }
    lemma2_to64();
    if n > 9 {
        let p = pow2((n - 9) as nat);
        if n < 30 {
            vstd::arithmetic::power2::lemma_pow2_strictly_increases((n - 9) as nat, 21);
        }
        assert(0 <= m * p <= 511 * 0x20_0000) by (nonlinear_arith)
            requires
                m <= 511,
                0 <= p <= 0x20_0000,
        ;
        vstd::arithmetic::div_mod::lemma_small_mod((n - 9) as nat, 32);
        lemma_wrap32((m * p) as int, 0);
        assert(exp_magnitude(l) == m * p);
    } else {
        let p = pow2((9 - n) as nat);
        lemma_pow2_pos((9 - n) as nat);
        assert(0 <= m / p <= m) by (nonlinear_arith)
            requires
                p > 0,
        ;
        assert(m / 1 == m);
        assert(exp_magnitude(l) == m / p);
    }
    if l == 0 {
        crate::logpack::exp_is_odd(0);
    }
    lemma_wrap32(-exp_magnitude(l), 0);
}

/// A word of a mantissa and an exponent is the mantissa at that exponent, nine
/// lower, cut off downwards.
pub proof fn sample_words_scale(mantissa: u8, exponent: u8)
    requires
        exponent <= 32,
    ensures
        ({
            let m = if mantissa < 128 {
                mantissa as int
            } else {
                mantissa - 256
            };
            let w = sample_word(mantissa, exponent);
            &&& exponent >= 9 ==> w == m * pow2((exponent - 9) as nat)
            &&& exponent < 9 ==> w * pow2((9 - exponent) as nat) <= m < (w + 1) * pow2((9 - exponent) as nat)
        }),
{
    let m = if mantissa < 128 {
        mantissa as int
    } else {
        mantissa - 256
    };
    lemma2_to64();
    if exponent >= 9 {
        let k = (exponent - 9) as nat;
        let p = pow2(k) as int;
        if k < 23 {
            vstd::arithmetic::power2::lemma_pow2_strictly_increases(k, 23);
        }
        assert(-0x8000_0000 <= m * p <= 0x7fff_ffff) by (nonlinear_arith)
            requires
                -128 <= m <= 127,
                0 <= p <= 0x80_0000,
        ;
        vstd::arithmetic::div_mod::lemma_small_mod(k, 32);
        lemma_wrap32(m * p, 0);
    } else {
        let p = pow2((9 - exponent) as nat) as int;
        lemma_pow2_pos((9 - exponent) as nat);
        vstd::arithmetic::div_mod::lemma_fundamental_div_mod(m, p);
        vstd::arithmetic::div_mod::lemma_mod_bound(m, p);
        let q = m / p;
        assert(q * p <= m < (q + 1) * p) by (nonlinear_arith)
            requires
                m == p * q + m % p,
                0 <= m % p < p,
        ;
        assert(-128 <= q <= 127) by (nonlinear_arith)
            requires
                q * p <= m < (q + 1) * p,
                -128 <= m <= 127,
                p >= 1,
        ;
    }
}

/// The value of a word of 256ths: its mantissa at the bit that the whole part
/// counts, rounded to the nearest, half up, and never above the greatest value.
pub proof fn values_of_words(n: nat, f: nat)
    requires
        f < 256,
        256 * n + f > 0,
    ensures
        ({
            let v = exp_value((256 * n + f) as int);
            let m = 256 + exp2_fraction(f as int);
            &&& n >= 32 ==> v == 0x7fff_ffff
            &&& 8 <= n < 32 && m * pow2((n - 8) as nat) <= 0x7fff_ffff ==> v == m * pow2((n - 8) as nat)
            &&& 8 <= n < 32 && m * pow2((n - 8) as nat) > 0x7fff_ffff ==> v == 0x7fff_ffff
            &&& n < 8 ==> 2 * v * pow2((7 - n) as nat) - pow2((7 - n) as nat) <= m < 2 * v * pow2((7 - n) as nat) + pow2(
                (7 - n) as nat,
            )
            &&& exp_value(-((256 * n + f) as int)) == -v
            &&& exp_value(0) == 0
        }),
{
    let l = 256 * n + f;
    reveal(exp_value);
    assert(exp_value(l as int) == exp_size(l));
    assert(l / 256 == n && l as int % 256 == f);
    let m = 256 + exp2_fraction(f as int);
    if n < 8 {
        let h = pow2((7 - n) as nat) as int;
        lemma_pow2_pos((7 - n) as nat);
        lemma_pow2_unfold((8 - n) as nat);
        let p = pow2((8 - n) as nat) as int;
        assert(p == 2 * h);
        let v = (m + h) / p;
        vstd::arithmetic::div_mod::lemma_fundamental_div_mod(m + h, p);
        vstd::arithmetic::div_mod::lemma_mod_bound(m + h, p);
        assert(2 * v * h - h <= m < 2 * v * h + h) by (nonlinear_arith)
            requires
                m + h == p * v + (m + h) % p,
                0 <= (m + h) % p < p,
                p == 2 * h,
        ;
        assert((7 - n) + 1 == 8 - n);
        assert(exp_size(l) == v);
        assert(2 * v * h == 2 * exp_value(l as int) * h);
    }
}

proof fn lemma_run_before(n: nat, y: Seq<i32>, i: int)
    requires
        0 <= i <= n,
        y.len() == 0 || y[0] != 0,
    ensures
        zero_run(silence(n) + y, i) == n - i,
    decreases n - i,
{
    let x = silence(n) + y;
    if i < n {
        assert(x[i] == 0);
        lemma_run_before(n, y, i + 1);
    } else if y.len() > 0 {
        assert(x[i] == y[0]);
    }
}

/// Zeros where a run may stand are a count, and the words behind them start from
/// zero medians again, with no run directly behind a run.
pub proof fn runs_start_over(n: nat, y: Seq<i32>, stereo: bool, st: Coder)
    requires
        n > 0,
        st.gate(),
        y.len() == 0 || y[0] != 0,
    ensures
        ({
            let next = Coder { a: zero_medians(), b: zero_medians(), run: st.run, after_run: true };
            let whole = encode_words(silence(n) + y, 0, stereo, st);
            &&& !next.gate()
            &&& match encode_words(silence(n) + y, n as int, stereo, next) {
                Ok(rest) => whole == Ok::<Seq<bool>, Error>(count_code(n) + rest),
                Err(e) => whole == Err::<Seq<bool>, Error>(e),
            }
        }),
{
    lemma_run_before(n, y, 0);
    assert(st.cleared() == (Coder { a: zero_medians(), b: zero_medians(), run: st.run, after_run: true }));
}

/// A run may stand only where both first medians are at most one, nothing was
/// announced and no run has just ended.
pub proof fn runs_need_quiet(st: Coder)
    ensures
        st.gate() <==> st.a.m0 <= 1 && st.b.m0 <= 1 && !st.run.last_zero && !st.run.last_one && !st.after_run,
{
}

} // verus!
