//! Where the fields of the format stand, byte by byte and bit by bit.
use vstd::prelude::*;
use vstd::arithmetic::power2::{lemma2_to64, pow2};
use crate::arith::{bit_length, lemma_bit_length, lemma_wrap32};
use crate::bits::{bits_of, lemma_bits_len, value_of};
use crate::block_header::{flags_of, header_of};
use crate::block_writer::joined;
use crate::crc::{CRC_INIT, crc_over, left_right, mid_side};
use crate::decorrelation::PassState;
use crate::error::Error;
use crate::logpack::{exp_of, word_bytes, word_of};
use crate::metadata::{Sub, SubBlockId, first_from, id_named, payload_in, sub_bytes};
use crate::passes::{pass_at, passes_from, passes_of, seed_values, seeds_needed, weight_byte, weight_of};
use crate::samples::{AdaptiveMedians, RunState, count_code, magnitude, mantissa_code, median_down, median_up, prefix_code, with_sign};

verus! {

// ---------------------------------------------------------------------------
// Headers
// ---------------------------------------------------------------------------

/// The number in four bytes, least significant first.
pub open spec fn number_at(bytes: Seq<u8>, i: int) -> int {
    bytes[i] + 0x100 * bytes[i + 1] + 0x1_0000 * bytes[i + 2] + 0x100_0000 * bytes[i + 3]
}

/// A header starts with its four letters, and holds its fields in order, least
/// significant byte first.
pub proof fn headers_hold_their_fields(bytes: Seq<u8>)
    ensures
        header_of(bytes) is Ok <==> {
            &&& bytes.len() >= 32
            &&& bytes[0] == 0x77 && bytes[1] == 0x76 && bytes[2] == 0x70 && bytes[3] == 0x6b
            &&& number_at(bytes, 4) >= 24
            &&& 0x402 <= bytes[8] + 256 * bytes[9] <= 0x410
        },
        header_of(bytes) is Ok ==> {
            let h = header_of(bytes)->Ok_0;
            &&& h.ck_size == number_at(bytes, 4)
            &&& h.version == bytes[8] + 256 * bytes[9]
            &&& h.track_number == bytes[10] && h.track_sub_index == bytes[11]
            &&& h.total_samples == number_at(bytes, 12)
            &&& h.block_index == number_at(bytes, 16)
            &&& h.block_samples == number_at(bytes, 20)
            &&& h.flags.raw == number_at(bytes, 24)
            &&& h.crc == number_at(bytes, 28)
        },
{
    reveal(flags_of);
    if bytes.len() >= 32 {
        let m = seq![0x77u8, 0x76u8, 0x70u8, 0x6bu8];
        assert(crate::block_header::MAGIC@ =~= m);
        if bytes[0] == 0x77 && bytes[1] == 0x76 && bytes[2] == 0x70 && bytes[3] == 0x6b {
            assert(bytes.take(4) =~= m);
        } else {
            assert(bytes.take(4)[0] == bytes[0] && bytes.take(4)[1] == bytes[1] && bytes.take(4)[2] == bytes[2]
                && bytes.take(4)[3] == bytes[3]);
            assert(m[0] == 0x77 && m[1] == 0x76 && m[2] == 0x70 && m[3] == 0x6b);
        }
    }
}

/// The `i`th bit of a word, counted from the least significant.
pub open spec fn bit_at(raw: u32, i: nat) -> bool {
    raw as nat / pow2(i) % 2 == 1
}

/// The bits of a flag word, one field behind the other.
pub proof fn flags_hold_their_bits(raw: u32)
    ensures
        ({
            let f = flags_of(raw);
            &&& f.raw == raw
            &&& f.bytes_minus_one == raw % 4
            &&& f.mono == bit_at(raw, 2)
            &&& f.hybrid == bit_at(raw, 3)
            &&& f.joint_stereo == bit_at(raw, 4)
            &&& f.cross_decorrelation == bit_at(raw, 5)
            &&& f.hybrid_noise_shaping == bit_at(raw, 6)
            &&& f.float_data == bit_at(raw, 7)
            &&& f.int32_mode == bit_at(raw, 8)
            &&& f.hybrid_bitrate_noise == bit_at(raw, 9)
            &&& f.hybrid_balance_noise == bit_at(raw, 10)
            &&& f.multichannel_start == bit_at(raw, 11)
            &&& f.multichannel_end == bit_at(raw, 12)
            &&& f.left_shift == raw as nat / pow2(13) % 32
            &&& f.max_magnitude == raw as nat / pow2(18) % 32
            &&& f.sample_rate_index == raw as nat / pow2(23) % 16
            &&& f.new_shaping == bit_at(raw, 29)
            &&& f.false_stereo == bit_at(raw, 30)
        }),
{
    reveal(flags_of);
    lemma2_to64();
}

// ---------------------------------------------------------------------------
// Checks, mid and side, log words
// ---------------------------------------------------------------------------

/// The check starts from all ones. A sample moves it to three times itself plus
/// the sample, modulo 2^32.
pub proof fn checks_add_up(x: Seq<i32>, v: i32, w: i32)
    ensures
        CRC_INIT == 0xffff_ffff,
        crc_over(Seq::empty(), CRC_INIT) == 0xffff_ffff,
        crc_over(x.push(v), CRC_INIT) == (3 * crc_over(x, CRC_INIT) + v) % 0x1_0000_0000,
        crc_over(x.push(v).push(w), CRC_INIT) == (9 * crc_over(x, CRC_INIT) + 3 * v + w) % 0x1_0000_0000,
{
    assert(x.push(v).drop_last() =~= x);
    assert(x.push(v).push(w).drop_last() =~= x.push(v));
    let a = crc_over(x, CRC_INIT);
    let b = crc_over(x.push(v), CRC_INIT);
    assert(b == (3 * a + v) % 0x1_0000_0000);
    assert((3 * b + w) % 0x1_0000_0000 == (9 * a + 3 * v + w) % 0x1_0000_0000);
}

/// The mid is what the first channel has over the second, and the side is
/// half their sum, rounded down, wherever these fit.
pub proof fn mid_and_side_mean_difference_and_half_sum(left: i32, right: i32)
    requires
        i32::MIN <= left - right <= i32::MAX,
    ensures
        mid_side(left, right).0 == left - right,
        mid_side(left, right).1 == (left + right) / 2,
        left_right((left - right) as i32, ((left + right) / 2) as i32) == (left, right),
{
    lemma_wrap32(left - right, 0);
    assert(right + (left - right) / 2 == (left + right) / 2);
    lemma_wrap32((left + right) / 2, 0);
    crate::crc::lemma_joint_inverse(left, right);
}

/// A word is two bytes, the less significant first, in two's complement.
pub proof fn words_are_little_endian(w: int, lo: u8, hi: u8)
    requires
        -0x8000 <= w < 0x8000,
    ensures
        word_bytes(w).len() == 2,
        (word_bytes(w)[0] + 256 * word_bytes(w)[1] - w) % 0x1_0000 == 0,
        word_of(word_bytes(w)[0], word_bytes(w)[1]) == w,
        (word_of(lo, hi) - lo - 256 * hi) % 0x1_0000 == 0,
        -0x8000 <= word_of(lo, hi) < 0x8000,
{
}

// ---------------------------------------------------------------------------
// Words
// ---------------------------------------------------------------------------

/// The zones tile the magnitudes from zero up. The first two are as wide as the
/// sixteenths of their medians, plus one; all others as those of the third.
pub proof fn zones_tile_the_magnitudes(m: AdaptiveMedians, mag: nat)
    ensures
        ({
            let a = m.m0 as int / 16 + 1;
            let b = m.m1 as int / 16 + 1;
            let c = m.m2 as int / 16 + 1;
            let z = m.zone_of(mag);
            &&& z == 0 <==> mag < a
            &&& z == 1 <==> a <= mag < a + b
            &&& z >= 2 <==> a + b <= mag
            &&& z >= 2 ==> a + b + (z - 2) * c <= mag < a + b + (z - 1) * c
            &&& z >= 2 && mag < 0x8000_0000 ==> m.low(z) == a + b + (z - 2) * c
            &&& z == 1 && mag < 0x8000_0000 ==> m.low(z) == a
            &&& z == 0 ==> m.low(z) == 0
            &&& m.low(z) + (if z == 0 {
                a
            } else if z == 1 {
                b
            } else {
                c
            }) <= 0x8000_0000 ==> m.high(z) == m.low(z) + (if z == 0 {
                a
            } else if z == 1 {
                b
            } else {
                c
            }) - 1
        }),
{
    crate::samples::lemma_zone(m, mag);
    reveal(AdaptiveMedians::zone_of);
    reveal(AdaptiveMedians::low);
    reveal(AdaptiveMedians::high);
    let c = m.m2 as nat / 16 + 1;
    let z = m.zone_of(mag);
    if z >= 2 {
        assert((z - 1) * c == (z - 2) * c + c) by (nonlinear_arith);
    }
}

/// A median that moves up by five parts in `d`, and `d` parts more at most.
pub open spec fn goes_up(before: u32, after: u32, d: int) -> bool {
    let step = after - before;
    step % 5 == 0 && 5 * before < d * step <= 5 * (before + d)
}

/// A median that moves down by two parts in `d`, rounded up.
pub open spec fn goes_down(before: u32, after: u32, d: int) -> bool {
    let step = before - after;
    step % 2 == 0 && 2 * (before - 2) < d * step <= 2 * (before + d - 2)
}

proof fn lemma_steps_by_128(v: u32)
    requires
        v < 0x8000_0000,
    ensures
        goes_up(v, median_up(v, 128), 128),
        goes_down(v, median_down(v, 128), 128),
{
    assert((v + 128) % 0x1_0000_0000 == v + 128);
    assert((v + 128 - 2) % 0x1_0000_0000 == v + 126);
    let up = (v + 128) / 128;
    let down = (v + 126) / 128;
    assert(median_up(v, 128) == v + 5 * up);
    assert(median_down(v, 128) == v - 2 * down);
    assert(128 * up <= v + 128 < 128 * up + 128);
    assert(128 * down <= v + 126 < 128 * down + 128);
}

proof fn lemma_steps_by_64(v: u32)
    requires
        v < 0x8000_0000,
    ensures
        goes_up(v, median_up(v, 64), 64),
        goes_down(v, median_down(v, 64), 64),
{
    assert((v + 64) % 0x1_0000_0000 == v + 64);
    assert((v + 64 - 2) % 0x1_0000_0000 == v + 62);
    let up = (v + 64) / 64;
    let down = (v + 62) / 64;
    assert(median_up(v, 64) == v + 5 * up);
    assert(median_down(v, 64) == v - 2 * down);
    assert(64 * up <= v + 64 < 64 * up + 64);
    assert(64 * down <= v + 62 < 64 * down + 64);
}

proof fn lemma_steps_by_32(v: u32)
    requires
        v < 0x8000_0000,
    ensures
        goes_up(v, median_up(v, 32), 32),
        goes_down(v, median_down(v, 32), 32),
{
    assert((v + 32) % 0x1_0000_0000 == v + 32);
    assert((v + 32 - 2) % 0x1_0000_0000 == v + 30);
    let up = (v + 32) / 32;
    let down = (v + 30) / 32;
    assert(median_up(v, 32) == v + 5 * up);
    assert(median_down(v, 32) == v - 2 * down);
    assert(32 * up <= v + 32 < 32 * up + 32);
    assert(32 * down <= v + 30 < 32 * down + 32);
}

/// A word below a median moves it down by two parts, one above it up by five:
/// of 128 for the first median, 64 for the second and 32 for the third. A word
/// leaves the medians of the zones above its own alone.
pub proof fn medians_follow_the_words(m: AdaptiveMedians, z: nat)
    requires
        m.m0 < 0x8000_0000,
        m.m1 < 0x8000_0000,
        m.m2 < 0x8000_0000,
    ensures
        ({
            let n = m.adapted(z);
            &&& z == 0 ==> goes_down(m.m0, n.m0, 128) && n.m1 == m.m1 && n.m2 == m.m2
            &&& z == 1 ==> goes_up(m.m0, n.m0, 128) && goes_down(m.m1, n.m1, 64) && n.m2 == m.m2
            &&& z == 2 ==> goes_up(m.m0, n.m0, 128) && goes_up(m.m1, n.m1, 64) && goes_down(m.m2, n.m2, 32)
            &&& z > 2 ==> goes_up(m.m0, n.m0, 128) && goes_up(m.m1, n.m1, 64) && goes_up(m.m2, n.m2, 32)
        }),
{
    lemma_steps_by_128(m.m0);
    lemma_steps_by_64(m.m1);
    lemma_steps_by_32(m.m2);
    reveal(AdaptiveMedians::adapted);
}

/// A negative sample counts from minus one down as the others count from zero
/// up.
pub proof fn signs_fold(v: i32)
    ensures
        v >= 0 ==> magnitude(v) == v,
        v < 0 ==> magnitude(v) == -v - 1,
        with_sign(magnitude(v), v < 0) == v,
{
}

/// A prefix below sixteen is that many ones and a zero. A greater one is sixteen
/// ones, a zero and a count of what is over.
pub proof fn prefixes_are_unary(n: nat)
    ensures
        n < 16 ==> {
            &&& prefix_code(n).len() == n + 1
            &&& forall|i: int| 0 <= i < n ==> #[trigger] prefix_code(n)[i]
            &&& !prefix_code(n)[n as int]
        },
        n >= 16 ==> {
            &&& prefix_code(n).len() == 17 + count_code((n - 16) as nat).len()
            &&& forall|i: int| 0 <= i < 16 ==> #[trigger] prefix_code(n)[i]
            &&& !prefix_code(n)[16]
            &&& prefix_code(n).skip(17) == count_code((n - 16) as nat)
        },
{
    reveal(prefix_code);
    if n >= 16 {
        assert(prefix_code(n).skip(17) =~= count_code((n - 16) as nat));
    }
}

/// A count is as many ones as it has bits, a zero, and its bits below the
/// topmost, least significant first.
pub proof fn counts_give_their_length_first(n: nat)
    ensures
        ({
            let k = bit_length(n);
            let c = count_code(n);
            &&& n < pow2(k)
            &&& n > 0 ==> k > 0 && n >= pow2((k - 1) as nat)
            &&& k == 0 ==> c.len() == 1
            &&& k > 0 ==> c.len() == 2 * k
            &&& forall|i: int| 0 <= i < k ==> #[trigger] c[i]
            &&& !c[k as int]
            &&& k > 0 ==> value_of(c.skip(k as int + 1)) + pow2((k - 1) as nat) == n
        }),
{
    reveal(count_code);
    let k = bit_length(n);
    let c = count_code(n);
    lemma_bit_length(n);
    if k > 0 {
        lemma_bits_len(n, (k - 1) as nat);
        assert(c.skip(k as int + 1) =~= bits_of(n, (k - 1) as nat));
        lemma_low_value(n, (k - 1) as nat);
        vstd::arithmetic::power2::lemma_pow2_unfold(k);
        let top = pow2((k - 1) as nat);
        assert(n as int % top as int == n - top) by {
            vstd::arithmetic::div_mod::lemma_fundamental_div_mod_converse(n as int, top as int, 1, n - top);
        }
    }
}

/// The bits of a number hold it modulo a power of two.
proof fn lemma_low_value(v: nat, k: nat)
    ensures
        value_of(bits_of(v, k)) == v % pow2(k),
        bits_of(v, k).len() == k,
    decreases k,
{
    lemma2_to64();
    if k > 0 {
        lemma_low_value(v / 2, (k - 1) as nat);
        vstd::arithmetic::power2::lemma_pow2_unfold(k);
        vstd::arithmetic::power2::lemma_pow2_pos((k - 1) as nat);
        let p = pow2((k - 1) as nat);
        assert(bits_of(v, k).drop_first() =~= bits_of(v / 2, (k - 1) as nat));
        assert(bits_of(v, k)[0] == (v % 2 == 1));
        vstd::arithmetic::div_mod::lemma_mod_breakdown(v as int, 2, p as int);
        assert(2 * (v / 2 % p) + v % 2 == v % (2 * p));
    } else {
        assert(v % 1 == 0);
    }
}

/// A value of `0..=top` takes the fewest bits that hold `top`, or one fewer. The
/// codes that are left over go to the least values.
pub proof fn mantissas_save_a_bit(v: nat, top: nat)
    requires
        v <= top,
    ensures
        ({
            let k = bit_length(top);
            let spare = pow2(k) - 1 - top;
            let c = mantissa_code(v, top);
            &&& top == 0 ==> c.len() == 0
            &&& top > 0 && v < spare ==> c.len() == k - 1 && value_of(c) == v
            &&& top > 0 && v >= spare ==> {
                &&& c.len() == k
                &&& 2 * value_of(c.drop_last()) + (if c.last() {
                    1int
                } else {
                    0
                }) == v + spare
            }
        }),
{
    reveal(mantissa_code);
    let k = bit_length(top);
    lemma_bit_length(top);
    lemma2_to64();
    if top > 0 {
        let spare = (pow2(k) - 1 - top) as nat;
        let c = mantissa_code(v, top);
        vstd::arithmetic::power2::lemma_pow2_unfold(k);
        let half = pow2((k - 1) as nat);
        lemma_low_value(v, (k - 1) as nat);
        lemma_low_value((v + spare) / 2, (k - 1) as nat);
        if v < spare {
            vstd::arithmetic::div_mod::lemma_small_mod(v, half);
        } else {
            vstd::arithmetic::div_mod::lemma_small_mod((v + spare) / 2, half);
            assert(c.drop_last() =~= bits_of((v + spare) / 2, (k - 1) as nat));
        }
    }
}

/// A word's prefix holds twice its zone, less one zone where the word before
/// announced that it is not the first, and in its last bit whether it says the
/// same of the next. A word of which it was said that it is in the first zone has
/// no prefix.
pub proof fn prefixes_announce(s: RunState, z: nat, more: bool)
    requires
        s.allows(z),
    ensures
        s.last_zero ==> s.prefix(z, more).len() == 0 && z == 0 && !s.after(more).last_zero,
        !s.last_zero && !s.last_one ==> s.prefix(z, more) == prefix_code(
            (2 * z + (if more {
                1int
            } else {
                0
            })) as nat,
        ),
        !s.last_zero && s.last_one ==> z >= 1 && s.prefix(z, more) == prefix_code(
            (2 * (z - 1) + (if more {
                1int
            } else {
                0
            })) as nat,
        ),
        !s.last_zero ==> s.after(more).last_one == more && s.after(more).last_zero == !more,
{
}

// ---------------------------------------------------------------------------
// Passes
// ---------------------------------------------------------------------------

/// The seeds of the passes before pass `i`.
pub open spec fn seeds_before(terms: Seq<u8>, stereo: bool, i: int) -> int
    decreases i,
{
    if i <= 0 {
        0
    } else {
        let t = terms[i - 1] as int % 32 - 5;
        let n = if t > 8 {
            2
        } else if t > 0 {
            t
        } else {
            1
        };
        seeds_before(terms, stereo, i - 1) + (if stereo {
            2 * n
        } else {
            n
        })
    }
}

proof fn lemma_passes_from(terms: Seq<u8>, weights: Seq<u8>, seeds: Seq<i32>, stereo: bool, i: int, at: int, k: int)
    requires
        0 <= i <= k < terms.len(),
        at == seeds_before(terms, stereo, i),
        passes_from(terms, weights, seeds, stereo, i, at) is Ok,
    ensures
        ({
            let ps = passes_from(terms, weights, seeds, stereo, i, at)->Ok_0;
            &&& ps.len() == terms.len() - i
            &&& ps[k - i] == pass_at(terms, weights, seeds, stereo, k, seeds_before(terms, stereo, k))
        }),
    decreases terms.len() - i,
{
    let term = crate::passes::term_of(terms[i]);
    let need = seeds_needed(term, stereo) as int;
    assert(seeds_before(terms, stereo, i + 1) == at + need);
    if i < k {
        lemma_passes_from(terms, weights, seeds, stereo, i + 1, at + need, k);
    } else if i + 1 < terms.len() {
        lemma_passes_from(terms, weights, seeds, stereo, i + 1, at + need, i + 1);
    }
}

/// The passes that three payloads describe stand in the order of their term
/// bytes. A byte holds its term, moved up by five, in its lower five bits, and the
/// weight step above them. A stereo pass has two weights and two sets of seeds,
/// the first channel's first.
pub proof fn passes_hold_their_bytes(terms: Seq<u8>, weights: Seq<u8>, samples: Seq<u8>, stereo: bool, k: int)
    requires
        passes_of(terms, weights, samples, stereo) is Ok,
        0 <= k < terms.len(),
    ensures
        ({
            let ps = passes_of(terms, weights, samples, stereo)->Ok_0;
            let seeds = seed_values(samples);
            let p = ps[k];
            let at = seeds_before(terms, stereo, k);
            &&& ps.len() == terms.len() <= 16
            &&& weights.len() == (if stereo {
                2 * terms.len()
            } else {
                terms.len()
            })
            &&& samples.len() == 2 * seeds_before(terms, stereo, terms.len() as int)
            &&& p.term == terms[k] as int % 32 - 5
            &&& 1 <= p.term <= 8 || p.term == 17 || p.term == 18 || (stereo && -3 <= p.term <= -1)
            &&& p.delta == terms[k] / 32
            &&& p.wa == weight_of(weights[if stereo {
                2 * k
            } else {
                k
            }])
            &&& stereo ==> p.wb == weight_of(weights[2 * k + 1])
            &&& p.term > 8 ==> p.ha[0] == seeds[at] && p.ha[1] == seeds[at + 1]
            &&& 0 < p.term <= 8 ==> forall|j: int| 0 <= j < p.term ==> #[trigger] p.ha[j] == seeds[at + p.term - 1 - j]
            &&& p.term < 0 ==> p.ha[0] == seeds[at]
            &&& stereo && p.term > 8 ==> p.hb[0] == seeds[at + 2] && p.hb[1] == seeds[at + 3]
            &&& stereo && 0 < p.term <= 8 ==> forall|j: int|
                0 <= j < p.term ==> #[trigger] p.hb[j] == seeds[at + 2 * p.term - 1 - j]
            &&& stereo && p.term < 0 ==> p.hb[0] == seeds[at + 1]
        }),
{
    let seeds = seed_values(samples);
    lemma_passes_from(terms, weights, seeds, stereo, 0, 0, k);
    lemma_terms_valid(terms, stereo, 0, k);
    lemma_seeds_enough(terms, weights, seeds, stereo, 0, 0, k);
    lemma_seeds_all(terms, weights, seeds, stereo, 0, 0);
    reveal(pass_at);
}

proof fn lemma_seeds_all(terms: Seq<u8>, weights: Seq<u8>, seeds: Seq<i32>, stereo: bool, i: int, at: int)
    requires
        0 <= i <= terms.len(),
        at == seeds_before(terms, stereo, i),
        at <= seeds.len(),
        passes_from(terms, weights, seeds, stereo, i, at) is Ok,
    ensures
        seeds.len() == seeds_before(terms, stereo, terms.len() as int),
    decreases terms.len() - i,
{
    if i < terms.len() {
        let need = seeds_needed(crate::passes::term_of(terms[i]), stereo) as int;
        assert(seeds_before(terms, stereo, i + 1) == at + need);
        lemma_seeds_all(terms, weights, seeds, stereo, i + 1, at + need);
    }
}

proof fn lemma_terms_valid(terms: Seq<u8>, stereo: bool, i: int, k: int)
    requires
        0 <= i <= k < terms.len(),
        crate::passes::bad_term(terms, stereo, i) is None,
    ensures
        crate::decorrelation::valid_term(crate::passes::term_of(terms[k])),
        stereo || crate::passes::term_of(terms[k]) > 0,
    decreases terms.len() - i,
{
    if i < k {
        lemma_terms_valid(terms, stereo, i + 1, k);
    }
}

proof fn lemma_seeds_enough(terms: Seq<u8>, weights: Seq<u8>, seeds: Seq<i32>, stereo: bool, i: int, at: int, k: int)
    requires
        0 <= i <= k < terms.len(),
        at == seeds_before(terms, stereo, i),
        at >= 0,
        passes_from(terms, weights, seeds, stereo, i, at) is Ok,
    ensures
        0 <= seeds_before(terms, stereo, k),
        seeds_before(terms, stereo, k) + seeds_needed(crate::passes::term_of(terms[k]), stereo) <= seeds.len(),
    decreases terms.len() - i,
{
    let need = seeds_needed(crate::passes::term_of(terms[i]), stereo) as int;
    assert(seeds_before(terms, stereo, i + 1) == at + need);
    if i < k {
        lemma_seeds_enough(terms, weights, seeds, stereo, i + 1, at + need, k);
    }
}

/// Passes are refused where there are more than sixteen, where a term is none, or one
/// across channels in a mono block, and where weights or seeds are too few or too
/// many.
pub proof fn passes_are_refused(terms: Seq<u8>, weights: Seq<u8>, samples: Seq<u8>, stereo: bool, k: int)
    requires
        0 <= k < terms.len(),
    ensures
        ({
            let t = terms[k] as int % 32 - 5;
            let known = 1 <= t <= 8 || t == 17 || t == 18 || (stereo && -3 <= t <= -1);
            let r = passes_of(terms, weights, samples, stereo);
            &&& !known ==> r is Err
            &&& terms.len() > 16 ==> r == Err::<Seq<PassState>, Error>(
                Error::TooManyDecorrelationPasses(terms.len() as usize),
            )
            &&& weights.len() != (if stereo {
                2 * terms.len()
            } else {
                terms.len()
            }) ==> r is Err
            &&& samples.len() != 2 * seeds_before(terms, stereo, terms.len() as int) ==> r is Err
        }),
{
    if passes_of(terms, weights, samples, stereo) is Ok {
        passes_hold_their_bytes(terms, weights, samples, stereo, k);
    }
}

/// A weight byte counts by eight, and above zero by a sixteenth of itself more, so
/// that the greatest stands for one unit. A weight within one unit is stored within
/// five of itself, and one beyond it as one unit.
pub proof fn weight_bytes_count_by_eight(b: u8, w: i32)
    ensures
        b < 128 && b > 0 ==> weight_of(b) == 8 * b + (b + 8) / 16,
        b == 0 ==> weight_of(b) == 0,
        b >= 128 ==> weight_of(b) == 8 * (b - 256),
        -1024 <= w <= 1024 ==> -5 <= weight_of(weight_byte(w)) - w <= 5,
        w > 1024 ==> weight_of(weight_byte(w)) == 1024,
        w < -1024 ==> weight_of(weight_byte(w)) == -1024,
{
    reveal(weight_of);
    reveal(weight_byte);
}

/// Mid stands before side: in every frame the first value is what the first
/// channel has over the second, and the second half their sum.
pub proof fn mid_stands_before_side(x: Seq<i32>, f: int)
    requires
        x.len() % 2 == 0,
        0 <= f,
        2 * f + 1 < x.len(),
        i32::MIN <= x[2 * f] - x[2 * f + 1] <= i32::MAX,
    ensures
        joined(x).len() == x.len(),
        joined(x)[2 * f] == x[2 * f] - x[2 * f + 1],
        joined(x)[2 * f + 1] == (x[2 * f] + x[2 * f + 1]) / 2,
{
    let a = x[2 * f];
    let b = x[2 * f + 1];
    assert((2 * f) % 2 == 0 && (2 * f + 1) % 2 == 1);
    assert(joined(x)[2 * f] == mid_side(a, b).0);
    assert(joined(x)[2 * f + 1] == mid_side(a, b).1);
    mid_and_side_mean_difference_and_half_sum(a, b);
}

// ---------------------------------------------------------------------------
// Sub-blocks
// ---------------------------------------------------------------------------

proof fn lemma_first_at(subs: Seq<Sub>, id: SubBlockId, i: int, k: int)
    requires
        0 <= i <= k <= subs.len(),
        forall|j: int| i <= j < k ==> (#[trigger] subs[j]).id != id,
    ensures
        k < subs.len() && subs[k].id == id ==> first_from(subs, id, i) == Some(subs[k]),
        k == subs.len() ==> first_from(subs, id, i) is None,
    decreases k - i,
{
    if i < k {
        assert(subs[i].id != id);
        lemma_first_at(subs, id, i + 1, k);
    }
}

/// A lookup finds the first sub-block that carries the ID, and nothing where none
/// does.
pub proof fn lookups_find_the_first(subs: Seq<Sub>, id: SubBlockId, k: int)
    requires
        0 <= k <= subs.len(),
        forall|j: int| 0 <= j < k ==> (#[trigger] subs[j]).id != id,
    ensures
        k < subs.len() && subs[k].id == id ==> payload_in(subs, id) == Some(subs[k].payload),
        k == subs.len() ==> payload_in(subs, id) is None,
{
    lemma_first_at(subs, id, 0, k);
}

/// A sub-block starts with its ID, a bit for an odd length and a bit for a long
/// one. Its size counts pairs of bytes, in one byte or in three, the least significant
/// first; an odd payload is filled up.
pub proof fn sub_blocks_state_their_size(id: u8, payload: Seq<u8>)
    requires
        id < 64,
    ensures
        sub_bytes(id, payload) is Ok <==> payload.len() <= 0x1ff_fffe,
        sub_bytes(id, payload) is Ok ==> {
            let b = sub_bytes(id, payload)->Ok_0;
            let even = payload.len() + payload.len() % 2;
            &&& b[0] % 64 == id
            &&& b[0] as int / 64 % 2 == payload.len() % 2
            &&& b[0] >= 128 <==> payload.len() > 510
            &&& payload.len() <= 510 ==> b.len() == 2 + even && 2 * b[1] == even && b.subrange(
                2,
                2 + payload.len() as int,
            ) == payload
            &&& payload.len() > 510 ==> {
                &&& b.len() == 4 + even
                &&& 2 * (b[1] + 0x100 * b[2] + 0x1_0000 * b[3]) == even
                &&& b.subrange(4, 4 + payload.len() as int) == payload
            }
        },
{
    if let Ok(b) = sub_bytes(id, payload) {
        if payload.len() <= 510 {
            assert(b.subrange(2, 2 + payload.len() as int) =~= payload);
        } else {
            assert(b.subrange(4, 4 + payload.len() as int) =~= payload);
        }
    }
}

/// Seed samples are log words, one behind the other, the less significant byte
/// first.
pub proof fn seeds_are_log_words(samples: Seq<u8>, k: int)
    requires
        0 <= k,
        2 * k + 1 < samples.len(),
    ensures
        seed_values(samples).len() == samples.len() / 2,
        seed_values(samples)[k] == exp_of(word_of(samples[2 * k], samples[2 * k + 1])),
{
}

/// The payloads that the IDs of sub-blocks name. The two bits above an ID count
/// for nothing in it.
pub proof fn ids_name_payloads(id: u8, more: u8)
    requires
        id < 64,
        more < 4,
    ensures
        id_named((id + 64 * more) as u8) == id_named(id),
        id_named(0x02) == SubBlockId::DecorrelationTerms,
        id_named(0x03) == SubBlockId::DecorrelationWeights,
        id_named(0x04) == SubBlockId::DecorrelationSamples,
        id_named(0x05) == SubBlockId::EntropyInfo,
        id_named(0x06) == SubBlockId::HybridProfile,
        id_named(0x07) == SubBlockId::NoiseShapingProfile,
        id_named(0x08) == SubBlockId::FloatInfo,
        id_named(0x09) == SubBlockId::Int32Info,
        id_named(0x0A) == SubBlockId::PackedSamples,
        id_named(0x0B) == SubBlockId::PackedCorrectionData,
        id_named(0x0C) == SubBlockId::PackedOverflowBits,
        id_named(0x0D) == SubBlockId::MultichannelInfo,
        id_named(0x26) == SubBlockId::Md5Checksum,
        id_named(0x27) == SubBlockId::NonStandardSampleRate,
{
}

} // verus!
