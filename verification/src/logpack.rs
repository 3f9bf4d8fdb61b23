//! Log words: 16-bit logarithms with eight fractional bits.
//!
//! A magnitude is logged as 256 times its base-two logarithm, offset so that
//! the integer part is its bit length. Expanding a word is the reverse, with
//! the sign of the word carried over to the value.
use vstd::prelude::*;
use vstd::arithmetic::power2::{pow2, lemma_pow2_pos, lemma_pow2_adds, lemma_pow2_strictly_increases, lemma2_to64};
use crate::arith::{bit_length, bit_length_u32, lemma_bit_length, lemma_bit_length_bound, pow2_u64, shl32, wrap32, wrap_i32, lemma_wrap32};

verus! {

/// `LOG2_TABLE[i]` is 256 times the base-two logarithm of `1 + i / 256`, rounded.
pub const LOG2_TABLE: [u8; 256] = [
    0x00, 0x01, 0x03, 0x04, 0x06, 0x07, 0x09, 0x0a, 0x0b, 0x0d, 0x0e, 0x10, 0x11, 0x12, 0x14, 0x15,
    0x16, 0x18, 0x19, 0x1a, 0x1c, 0x1d, 0x1e, 0x20, 0x21, 0x22, 0x24, 0x25, 0x26, 0x28, 0x29, 0x2a,
    0x2c, 0x2d, 0x2e, 0x2f, 0x31, 0x32, 0x33, 0x34, 0x36, 0x37, 0x38, 0x39, 0x3b, 0x3c, 0x3d, 0x3e,
    0x3f, 0x41, 0x42, 0x43, 0x44, 0x45, 0x47, 0x48, 0x49, 0x4a, 0x4b, 0x4d, 0x4e, 0x4f, 0x50, 0x51,
    0x52, 0x54, 0x55, 0x56, 0x57, 0x58, 0x59, 0x5a, 0x5c, 0x5d, 0x5e, 0x5f, 0x60, 0x61, 0x62, 0x63,
    0x64, 0x66, 0x67, 0x68, 0x69, 0x6a, 0x6b, 0x6c, 0x6d, 0x6e, 0x6f, 0x70, 0x71, 0x72, 0x74, 0x75,
    0x76, 0x77, 0x78, 0x79, 0x7a, 0x7b, 0x7c, 0x7d, 0x7e, 0x7f, 0x80, 0x81, 0x82, 0x83, 0x84, 0x85,
    0x86, 0x87, 0x88, 0x89, 0x8a, 0x8b, 0x8c, 0x8d, 0x8e, 0x8f, 0x90, 0x91, 0x92, 0x93, 0x94, 0x95,
    0x96, 0x97, 0x98, 0x99, 0x9a, 0x9b, 0x9b, 0x9c, 0x9d, 0x9e, 0x9f, 0xa0, 0xa1, 0xa2, 0xa3, 0xa4,
    0xa5, 0xa6, 0xa7, 0xa8, 0xa9, 0xa9, 0xaa, 0xab, 0xac, 0xad, 0xae, 0xaf, 0xb0, 0xb1, 0xb2, 0xb2,
    0xb3, 0xb4, 0xb5, 0xb6, 0xb7, 0xb8, 0xb9, 0xb9, 0xba, 0xbb, 0xbc, 0xbd, 0xbe, 0xbf, 0xc0, 0xc0,
    0xc1, 0xc2, 0xc3, 0xc4, 0xc5, 0xc6, 0xc6, 0xc7, 0xc8, 0xc9, 0xca, 0xcb, 0xcb, 0xcc, 0xcd, 0xce,
    0xcf, 0xd0, 0xd0, 0xd1, 0xd2, 0xd3, 0xd4, 0xd4, 0xd5, 0xd6, 0xd7, 0xd8, 0xd8, 0xd9, 0xda, 0xdb,
    0xdc, 0xdc, 0xdd, 0xde, 0xdf, 0xe0, 0xe0, 0xe1, 0xe2, 0xe3, 0xe4, 0xe4, 0xe5, 0xe6, 0xe7, 0xe7,
    0xe8, 0xe9, 0xea, 0xea, 0xeb, 0xec, 0xed, 0xee, 0xee, 0xef, 0xf0, 0xf1, 0xf1, 0xf2, 0xf3, 0xf4,
    0xf4, 0xf5, 0xf6, 0xf7, 0xf7, 0xf8, 0xf9, 0xf9, 0xfa, 0xfb, 0xfc, 0xfc, 0xfd, 0xfe, 0xff, 0xff,
];

/// `EXP2_TABLE[i]` is `256 * 2^(i / 256) - 256`, rounded.
pub const EXP2_TABLE: [u8; 256] = [
    0x00, 0x01, 0x01, 0x02, 0x03, 0x03, 0x04, 0x05, 0x06, 0x06, 0x07, 0x08, 0x08, 0x09, 0x0a, 0x0b,
    0x0b, 0x0c, 0x0d, 0x0e, 0x0e, 0x0f, 0x10, 0x10, 0x11, 0x12, 0x13, 0x13, 0x14, 0x15, 0x16, 0x16,
    0x17, 0x18, 0x19, 0x19, 0x1a, 0x1b, 0x1c, 0x1d, 0x1d, 0x1e, 0x1f, 0x20, 0x20, 0x21, 0x22, 0x23,
    0x24, 0x24, 0x25, 0x26, 0x27, 0x28, 0x28, 0x29, 0x2a, 0x2b, 0x2c, 0x2c, 0x2d, 0x2e, 0x2f, 0x30,
    0x30, 0x31, 0x32, 0x33, 0x34, 0x35, 0x35, 0x36, 0x37, 0x38, 0x39, 0x3a, 0x3a, 0x3b, 0x3c, 0x3d,
    0x3e, 0x3f, 0x40, 0x41, 0x41, 0x42, 0x43, 0x44, 0x45, 0x46, 0x47, 0x48, 0x48, 0x49, 0x4a, 0x4b,
    0x4c, 0x4d, 0x4e, 0x4f, 0x50, 0x51, 0x51, 0x52, 0x53, 0x54, 0x55, 0x56, 0x57, 0x58, 0x59, 0x5a,
    0x5b, 0x5c, 0x5d, 0x5e, 0x5e, 0x5f, 0x60, 0x61, 0x62, 0x63, 0x64, 0x65, 0x66, 0x67, 0x68, 0x69,
    0x6a, 0x6b, 0x6c, 0x6d, 0x6e, 0x6f, 0x70, 0x71, 0x72, 0x73, 0x74, 0x75, 0x76, 0x77, 0x78, 0x79,
    0x7a, 0x7b, 0x7c, 0x7d, 0x7e, 0x7f, 0x80, 0x81, 0x82, 0x83, 0x84, 0x85, 0x87, 0x88, 0x89, 0x8a,
    0x8b, 0x8c, 0x8d, 0x8e, 0x8f, 0x90, 0x91, 0x92, 0x93, 0x95, 0x96, 0x97, 0x98, 0x99, 0x9a, 0x9b,
    0x9c, 0x9d, 0x9f, 0xa0, 0xa1, 0xa2, 0xa3, 0xa4, 0xa5, 0xa6, 0xa8, 0xa9, 0xaa, 0xab, 0xac, 0xad,
    0xaf, 0xb0, 0xb1, 0xb2, 0xb3, 0xb4, 0xb6, 0xb7, 0xb8, 0xb9, 0xba, 0xbc, 0xbd, 0xbe, 0xbf, 0xc0,
    0xc2, 0xc3, 0xc4, 0xc5, 0xc6, 0xc8, 0xc9, 0xca, 0xcb, 0xcd, 0xce, 0xcf, 0xd0, 0xd2, 0xd3, 0xd4,
    0xd6, 0xd7, 0xd8, 0xd9, 0xdb, 0xdc, 0xdd, 0xde, 0xe0, 0xe1, 0xe2, 0xe4, 0xe5, 0xe6, 0xe8, 0xe9,
    0xea, 0xec, 0xed, 0xee, 0xf0, 0xf1, 0xf2, 0xf4, 0xf5, 0xf6, 0xf8, 0xf9, 0xfa, 0xfc, 0xfd, 0xff,
];

/// Largest magnitude that is logged as it is; greater ones are clamped to it.
pub const MAX_LOG2_INPUT: u32 = 0xff80_0000;

/// Largest log word of a magnitude.
pub const MAX_LOG_WORD: i32 = 8447;

/// Largest log word of a value that is not negative: the next one stands for
/// `2^31`, which only a negative value can have for its magnitude.
pub const MAX_POSITIVE_LOG_WORD: i32 = 8191;

/// The fractional log of a mantissa's low byte.
#[verifier::opaque]
pub open spec fn log2_fraction(i: int) -> nat {
    LOG2_TABLE[i] as nat
}

/// The mantissa's low byte of a fractional log.
#[verifier::opaque]
pub open spec fn exp2_fraction(i: int) -> nat {
    EXP2_TABLE[i] as nat
}

/// A magnitude as the log takes it: clamped, and raised by its 512th part.
pub open spec fn biased(magnitude: nat) -> nat {
    let c = if magnitude < MAX_LOG2_INPUT {
        magnitude
    } else {
        MAX_LOG2_INPUT as nat
    };
    c + c / 512
}

/// `a` moved so that its leading bit weighs 256.
pub open spec fn aligned(a: nat) -> nat {
    let d = bit_length(a);
    if d < 9 {
        a * pow2((9 - d) as nat)
    } else {
        a / pow2((d - 9) as nat)
    }
}

/// The log word of a magnitude: the bit length of the biased value, and the
/// logged fraction of its aligned mantissa.
#[verifier::opaque]
pub open spec fn log_of(magnitude: nat) -> nat {
    let a = biased(magnitude);
    256 * bit_length(a) + log2_fraction(aligned(a) as int % 256)
}

/// The value of a log word that is not negative.
pub open spec fn exp_magnitude(l: nat) -> i32 {
    let mantissa = 256 + exp2_fraction(l as int % 256);
    let int_part = l / 256;
    if int_part <= 9 {
        (mantissa / pow2((9 - int_part) as nat)) as i32
    } else {
        wrap32((mantissa * pow2(((int_part - 9) as nat) % 32)) as int)
    }
}

/// The value of a log word.
#[verifier::opaque]
pub open spec fn exp_of(l: int) -> i32 {
    if l < 0 {
        wrap32(-exp_magnitude((-l) as nat))
    } else {
        exp_magnitude(l as nat)
    }
}

/// The signed log word of a value; its value has the same sign.
#[verifier::opaque]
pub open spec fn signed_log(value: i32) -> int {
    if value < 0 {
        -(log_of((-value) as nat) as int)
    } else if log_of(value as nat) > MAX_POSITIVE_LOG_WORD {
        MAX_POSITIVE_LOG_WORD as int
    } else {
        log_of(value as nat) as int
    }
}

/// The bytes of a 16-bit word.
pub open spec fn word_bytes(w: int) -> Seq<u8> {
    seq![(w % 65536 % 256) as u8, (w % 65536 / 256) as u8]
}

/// The signed 16-bit word in two little-endian bytes.
pub open spec fn word_of(lo: u8, hi: u8) -> int {
    let w = lo + 256 * hi;
    if w < 32768 {
        w as int
    } else {
        w - 65536
    }
}

/// A log word fits in sixteen bits.
pub proof fn lemma_log_bound(magnitude: nat)
    ensures
        log_of(magnitude) <= MAX_LOG_WORD,
        aligned(biased(magnitude)) < 512,
{
    reveal(log_of);
    let a = biased(magnitude);
    lemma2_to64();
    lemma_bit_length_bound(a, 32);
    lemma_aligned_bound(a);
    assert(log2_fraction(aligned(a) as int % 256) <= 255) by {
        reveal(log2_fraction);
    }
}

proof fn lemma_aligned_bound(a: nat)
    ensures
        aligned(a) < 512,
{
    let d = bit_length(a);
    lemma2_to64();
    lemma_bit_length(a);
    if d < 9 {
        let p = pow2((9 - d) as nat);
        lemma_pow2_pos((9 - d) as nat);
        lemma_pow2_adds(d, (9 - d) as nat);
        assert(a * p < 512) by (nonlinear_arith)
            requires
                a < pow2(d),
                pow2(d) * p == 512,
                p > 0,
        ;
    } else {
        let p = pow2((d - 9) as nat);
        lemma_pow2_pos((d - 9) as nat);
        lemma_pow2_adds(9, (d - 9) as nat);
        vstd::arithmetic::div_mod::lemma_multiply_divide_lt(a as int, p as int, 512);
    }
}

/// The log word of a magnitude.
#[must_use]
pub fn wp_log2(magnitude: u32) -> (r: i32)
    ensures
        r == log_of(magnitude as nat),
        0 <= r <= MAX_LOG_WORD,
{
    proof {
        reveal(log_of);
    }
    proof {
        lemma_log_bound(magnitude as nat);
        lemma2_to64();
    }
    let clamped: u32 = if magnitude < MAX_LOG2_INPUT {
        magnitude
    } else {
        MAX_LOG2_INPUT
    };
    let avalue: u32 = clamped + clamped / 512;
    let dbits: u32 = bit_length_u32(avalue);
    let norm: u64 = if dbits < 9 {
        let p: u64 = pow2_u64(9 - dbits);
        assert((avalue as nat) * (p as nat) == aligned(avalue as nat));
        assert((avalue as nat) * (p as nat) < 512);
        avalue as u64 * p
    } else {
        avalue as u64 / pow2_u64(dbits - 9)
    };
    let fraction: u8 = LOG2_TABLE[(norm % 256) as usize];
    assert(fraction == log2_fraction(norm as int % 256)) by {
        reveal(log2_fraction);
    }
    (dbits * 256 + fraction as u32) as i32
}

/// The value of a log word.
#[must_use]
pub fn wp_exp2s(log_word: i32) -> (r: i32)
    requires
        log_word > i32::MIN,
    ensures
        r == exp_of(log_word as int),
{
    proof {
        reveal(exp_of);
    }
    let l: u32 = if log_word < 0 {
        (-log_word) as u32
    } else {
        log_word as u32
    };
    let fraction: u8 = EXP2_TABLE[(l % 256) as usize];
    assert(fraction == exp2_fraction(l as int % 256)) by {
        reveal(exp2_fraction);
    }
    let mantissa: u32 = 256 + fraction as u32;
    let int_part: u32 = l / 256;
    let value: i32 = if int_part <= 9 {
        proof {
            lemma_pow2_pos((9 - int_part) as nat);
            vstd::arithmetic::div_mod::lemma_div_is_ordered_by_denominator(
                mantissa as int,
                1,
                pow2((9 - int_part) as nat) as int,
            );
        }
        (mantissa as u64 / pow2_u64(9 - int_part)) as i32
    } else {
        shl32(mantissa as i32, int_part - 9)
    };
    if log_word < 0 {
        wrap_i32(-(value as i64))
    } else {
        value
    }
}

/// Expands the log word in two little-endian bytes.
#[must_use]
pub fn expand_log_word(lo: u8, hi: u8) -> (r: i32)
    ensures
        r == exp_of(word_of(lo, hi)),
{
    let w: i32 = lo as i32 + 256 * hi as i32;
    wp_exp2s(if w < 32768 { w } else { w - 65536 })
}

/// Packs a value into its log word.
#[must_use]
pub fn pack_log_word(value: i32) -> (r: [u8; 2])
    ensures
        r@ == word_bytes(signed_log(value)),
{
    proof {
        reveal(signed_log);
    }
    let magnitude: u32 = if value < 0 {
        (-(value as i64)) as u32
    } else {
        value as u32
    };
    let log: i32 = wp_log2(magnitude);
    let word: u32 = if value < 0 {
        ((65536 - log) % 65536) as u32
    } else if log > MAX_POSITIVE_LOG_WORD {
        MAX_POSITIVE_LOG_WORD as u32
    } else {
        log as u32
    };
    let r: [u8; 2] = [(word % 256) as u8, (word / 256) as u8];
    proof {
        lemma_log_bound(magnitude as nat);
        assert(signed_log(value) % 65536 == word);
        assert(r@ =~= word_bytes(signed_log(value)));
    }
    r
}

/// The value of a value's log word.
pub open spec fn quantized(value: i32) -> i32 {
    exp_of(signed_log(value))
}

/// A packed word reads back as the word that was packed.
pub proof fn lemma_word_roundtrip(value: i32)
    ensures
        word_of(word_bytes(signed_log(value))[0], word_bytes(signed_log(value))[1]) == signed_log(value),
{
    reveal(signed_log);
    lemma_log_bound(if value < 0 { (-value) as nat } else { value as nat });
}

/// Rounds a value to one that a log word holds.
#[must_use]
pub fn quantize_log_value(value: i32) -> (r: i32)
    ensures
        r == quantized(value),
{
    let bytes: [u8; 2] = pack_log_word(value);
    proof {
        lemma_word_roundtrip(value);
    }
    expand_log_word(bytes[0], bytes[1])
}

/// Zero is held exactly, by the zero word.
pub proof fn lemma_quantized_zero()
    ensures
        signed_log(0) == 0,
        quantized(0) == 0,
{
    reveal(signed_log);
    reveal(log_of);
    reveal(exp_of);
    lemma2_to64();
    assert(bit_length(0) == 0);
    assert(biased(0) == 0);
    assert(aligned(0) == 0) by (nonlinear_arith)
        requires
            aligned(0) == 0 * pow2(9),
    ;
    assert(log2_fraction(0) == 0) by {
        reveal(log2_fraction);
    }
    assert(exp2_fraction(0) == 0) by {
        reveal(exp2_fraction);
    }
    assert(exp_of(0) == exp_magnitude(0));
}

/// A log word of the other sign stands for the value of the other sign.
pub proof fn exp_is_odd(l: int)
    ensures
        exp_of(-l) == wrap32(-exp_of(l)),
        exp_of(0) == 0,
{
    reveal(exp_of);
    lemma_quantized_zero();
    if l < 0 {
        let v = exp_magnitude((-l) as nat);
        lemma_wrap32(-v, 0);
        lemma_negated_twice(v);
    } else if l == 0 {
        lemma_wrap32(0, 0);
    }
}

proof fn lemma_negated_twice(v: i32)
    ensures
        wrap32(-wrap32(-v)) == v,
{
}

// ---------------------------------------------------------------------------
// Rounding twice
// ---------------------------------------------------------------------------

/// The mantissa byte that comes back from the log of a mantissa byte: itself,
/// but for a few that settle on a neighbour.
pub open spec fn settled(t: int) -> int {
    if t == 134 || t == 167 || t == 199 || t == 204 || t == 209 || t == 223 || t == 227 || t == 247 || t == 251 {
        t - 1
    } else if t == 148 || t == 158 || t == 174 || t == 181 || t == 187 || t == 193 || t == 213 || t == 218 || t == 231
        || t == 235 || t == 239 || t == 243 || t == 254 {
        t + 1
    } else {
        t
    }
}

/// What comes back from the log of a mantissa byte.
proof fn lemma_settles(t: int)
    requires
        0 <= t < 256,
    ensures
        exp2_fraction(log2_fraction(t) as int) == settled(t),
        0 <= log2_fraction(t) <= 255,
{
    reveal(log2_fraction);
    reveal(exp2_fraction);
}

/// A magnitude whose bits are known.
proof fn lemma_length_is(v: nat, d: nat)
    requires
        d >= 1,
        pow2((d - 1) as nat) <= v < pow2(d),
    ensures
        bit_length(v) == d,
{
    lemma_bit_length(v);
    lemma_bit_length_bound(v, d);
    let k = bit_length(v);
    lemma_pow2_pos((d - 1) as nat);
    if k < d {
        if k < d - 1 {
            lemma_pow2_strictly_increases(k, (d - 1) as nat);
        }
    }
}

/// What a magnitude is rounded to.
pub open spec fn rounded(m: nat) -> i32 {
    exp_magnitude(log_of(m))
}

/// What a magnitude with known bits and mantissa is rounded to.
proof fn lemma_rounded(m: nat, d: nat, t: int)
    requires
        bit_length(biased(m)) == d,
        aligned(biased(m)) as int % 256 == t,
    ensures
        log_of(m) / 256 == d,
        d <= 9 ==> rounded(m) == ((256 + settled(t)) / pow2((9 - d) as nat) as int) as i32,
        d > 9 ==> rounded(m) == wrap32((256 + settled(t)) * pow2(((d - 9) as nat) % 32) as int),
{
    reveal(log_of);
    lemma_settles(t);
    let f = log2_fraction(t);
    assert((256 * d + f) / 256 == d && (256 * d + f) % 256 == f);
}

/// A rounded mantissa byte is rounded to itself.
proof fn lemma_settled_twice(t: int)
    requires
        0 <= t < 256,
    ensures
        0 <= settled(t) < 256,
        settled(settled(t)) == settled(t),
{
}

/// A mantissa of nine bits, moved up, is rounded to itself.
proof fn lemma_long_rounds(g: int, d: nat)
    requires
        9 <= d <= 31,
        0 <= g < 256,
        settled(g) == g,
    ensures
        ({
            let w = (256 + g) * pow2((d - 9) as nat);
            0 < w < 0x8000_0000 && rounded(w as nat) == w
        }),
{
    let p = pow2((d - 9) as nat);
    let w = ((256 + g) * p) as nat;
    lemma2_to64();
    lemma_pow2_pos((d - 9) as nat);
    lemma_pow2_adds(8, (d - 9) as nat);
    lemma_pow2_adds(9, (d - 9) as nat);
    assert(pow2((d - 1) as nat) == 256 * p && pow2(d) == 512 * p);
    if d < 31 {
        lemma_pow2_strictly_increases(d, 31);
    }
    assert(256 * p <= w && w + p <= 512 * p) by (nonlinear_arith)
        requires
            w == (256 + g) * p,
            0 <= g < 256,
            p > 0,
    ;
    let a = biased(w);
    assert(a == w + w / 512);
    assert(w / 512 < p);
    lemma_length_is(a, d);
    assert(a / p == 256 + g) by {
        vstd::arithmetic::div_mod::lemma_fundamental_div_mod_converse(a as int, p as int, 256 + g, (w / 512) as int);
    }
    assert(aligned(a) == 256 + g);
    lemma_rounded(w, d, g);
    if d > 9 {
        vstd::arithmetic::div_mod::lemma_small_mod((d - 9) as nat, 32);
        lemma_wrap32(w as int, 0);
    } else {
        assert(p == 1);
        assert(w == 256 + g);
        assert((256 + g) / 1 == 256 + g);
    }
    assert(0 < w < 0x8000_0000);
}

/// The even bytes that settle below themselves have a neighbour that stays.
proof fn lemma_settled_below(t: int, s: int)
    requires
        0 <= t < 256,
        s == 2 || s == 4 || s == 8 || s == 16 || s == 32 || s == 64 || s == 128 || s == 256,
        t % s == 0,
        settled(t) == t - 1,
    ensures
        t - s >= 0,
        settled(t - s) == t - s,
{
}

/// A short magnitude is rounded to itself, or to the one below it.
proof fn lemma_short_rounds(m: nat, d: nat)
    requires
        1 <= d <= 8,
        bit_length(m) == d,
    ensures
        ({
            let t = m * pow2((9 - d) as nat) - 256;
            &&& 0 <= t < 256
            &&& t % pow2((9 - d) as nat) as int == 0
            &&& settled(t) < t ==> rounded(m) == m - 1
            &&& settled(t) >= t ==> rounded(m) == m
        }),
{
    let s = pow2((9 - d) as nat);
    let t = m * s - 256;
    lemma2_to64();
    lemma_bit_length(m);
    lemma_pow2_pos((9 - d) as nat);
    lemma_pow2_adds((d - 1) as nat, (9 - d) as nat);
    lemma_pow2_adds(d, (9 - d) as nat);
    lemma_pow2_strictly_increases(0, (9 - d) as nat);
    let low = pow2((d - 1) as nat);
    let high = pow2(d);
    assert(low * s == 256 && high * s == 512);
    assert(256 <= m * s < 512) by (nonlinear_arith)
        requires
            low <= m < high,
            low * s == 256,
            high * s == 512,
            s > 0,
    ;
    if d < 9 {
        lemma_pow2_strictly_increases(d, 9);
    }
    assert(biased(m) == m);
    assert(aligned(m) == m * s);
    lemma_rounded(m, d, t);
    let q = m - low;
    assert(t == q * s) by (nonlinear_arith)
        requires
            t == m * s - 256,
            low * s == 256,
            q == m - low,
    ;
    vstd::arithmetic::div_mod::lemma_fundamental_div_mod_converse(t, s as int, q, 0);
    let g = 256 + settled(t);
    if settled(t) < t {
        assert(g == (m - 1) * s + (s - 1)) by (nonlinear_arith)
            requires
                g == 256 + t - 1,
                t == m * s - 256,
        ;
        vstd::arithmetic::div_mod::lemma_fundamental_div_mod_converse(g, s as int, m - 1, s - 1);
    } else {
        vstd::arithmetic::div_mod::lemma_fundamental_div_mod_converse(g, s as int, m as int, g - m * s);
    }
}

proof fn lemma_power_list(k: nat)
    requires
        1 <= k <= 8,
    ensures
        ({
            let s = pow2(k) as int;
            s == 2 || s == 4 || s == 8 || s == 16 || s == 32 || s == 64 || s == 128 || s == 256
        }),
{
    lemma2_to64();
}

/// A rounded magnitude is rounded to itself.
proof fn lemma_rounds_twice(m: nat)
    requires
        0 < m <= 0x8000_0000,
    ensures
        rounded(m) == i32::MIN || (0 < rounded(m) && rounded(rounded(m) as nat) == rounded(m)),
        m == 0x8000_0000 ==> rounded(m) == i32::MIN,
{
    lemma2_to64();
    let a = biased(m);
    let d = bit_length(a);
    lemma_bit_length(a);
    lemma_bit_length_bound(a, 32);
    assert(d >= 1);
    if d <= 8 {
        lemma_pow2_strictly_increases(d, 9);
        assert(a == m);
        lemma_short_rounds(m, d);
        let s = pow2((9 - d) as nat) as int;
        let t = m * s - 256;
        lemma_power_list((9 - d) as nat);
        if settled(t) < t {
            lemma_settled_below(t, s);
            let n = (m - 1) as nat;
            assert(n * s == m * s - s) by (nonlinear_arith)
                requires
                    n == m - 1,
            ;
            lemma_pow2_adds((d - 1) as nat, (9 - d) as nat);
            let low = pow2((d - 1) as nat) as int;
            assert(n >= low) by (nonlinear_arith)
                requires
                    n * s >= 256,
                    low * s == 256,
                    s > 0,
            ;
            lemma_length_is(n, d);
            lemma_short_rounds(n, d);
            assert(n * s - 256 == t - s);
        }
    } else {
        lemma_aligned_range(a, d);
        let t = aligned(a) as int % 256;
        lemma_rounded(m, d, t);
        lemma_settled_twice(t);
        if d <= 31 {
            lemma_long_rounds(settled(t), d);
            if d == 9 {
                assert(pow2(0) == 1);
            } else {
                vstd::arithmetic::div_mod::lemma_small_mod((d - 9) as nat, 32);
                lemma_wrap32((256 + settled(t)) * pow2((d - 9) as nat) as int, 0);
            }
        } else {
            assert(pow2(31) == 0x8000_0000);
            lemma_pow2_adds(8, 23);
            assert(pow2(23) == 0x80_0000);
            assert(a / 0x80_0000 == 256);
            assert(aligned(a) == 256);
            assert(t == 0);
            assert(((32 - 9) as nat) % 32 == 23);
            assert(rounded(m) == wrap32(256int * 0x80_0000));
        }
    }
    if m == 0x8000_0000 {
        assert(a == 0x8000_0000 + 0x40_0000);
        lemma_length_is(a, 32);
    }
}

proof fn lemma_aligned_range(a: nat, d: nat)
    requires
        d >= 9,
        bit_length(a) == d,
    ensures
        256 <= aligned(a) < 512,
{
    lemma2_to64();
    lemma_bit_length(a);
    let p = pow2((d - 9) as nat);
    lemma_pow2_pos((d - 9) as nat);
    lemma_pow2_adds(8, (d - 9) as nat);
    lemma_aligned_bound(a);
    assert(a / p >= 256) by (nonlinear_arith)
        requires
            a >= 256 * p,
            p > 0,
    ;
}

/// A rounded magnitude whose word is none of a positive value.
proof fn lemma_word_above(m: nat)
    requires
        0 < m < 0x8000_0000,
    ensures
        log_of(m) <= 8192,
        log_of(m) == 8192 ==> m + m / 512 >= 0x8000_0000,
        rounded(m) == i32::MIN <==> log_of(m) == 8192,
        log_of(m) < 8192 ==> rounded(m) > 0,
{
    lemma2_to64();
    let a = biased(m);
    let d = bit_length(a);
    lemma_bit_length(a);
    lemma_bit_length_bound(a, 32);
    lemma_rounds_twice(m);
    assert(log_of(m) == 256 * d + log2_fraction(aligned(a) as int % 256)) by {
        reveal(log_of);
    }
    assert(log2_fraction(aligned(a) as int % 256) <= 255) by {
        reveal(log2_fraction);
    }
    if d == 32 {
        assert(a / 0x80_0000 == 256);
        assert(aligned(a) == 256);
        assert(log2_fraction(0) == 0) by {
            reveal(log2_fraction);
        }
        lemma_rounded(m, 32, 0);
        assert(((32 - 9) as nat) % 32 == 23);
    } else {
        if d < 31 {
            lemma_pow2_strictly_increases(d, 31);
        }
        assert(a < 0x8000_0000);
        lemma_rounded_is(m);
    }
}

/// What a magnitude below `2^31` is rounded to lies above zero.
proof fn lemma_rounded_is(m: nat)
    requires
        0 < m,
        bit_length(biased(m)) <= 31,
    ensures
        rounded(m) > 0,
{
    lemma2_to64();
    let a = biased(m);
    let d = bit_length(a);
    lemma_bit_length(a);
    assert(d >= 1);
    if d <= 8 {
        lemma_pow2_strictly_increases(d, 9);
        assert(a == m);
        lemma_rounds_twice(m);
        lemma_short_rounds(m, d);
    } else {
        lemma_aligned_range(a, d);
        let t = aligned(a) as int % 256;
        lemma_rounded(m, d, t);
        lemma_settled_twice(t);
        lemma_long_rounds(settled(t), d);
        if d > 9 {
            vstd::arithmetic::div_mod::lemma_small_mod((d - 9) as nat, 32);
            lemma_wrap32((256 + settled(t)) * pow2((d - 9) as nat) as int, 0);
        }
    }
}

/// The value of the largest word of a positive value.
proof fn lemma_largest()
    ensures
        exp_magnitude(8191) == 0x7FC0_0000,
        rounded(0x7FC0_0000) == 0x7FC0_0000,
        log_of(0x7FC0_0000) < 8192,
{
    lemma2_to64();
    assert(exp2_fraction(255) == 255) by {
        reveal(exp2_fraction);
    }
    assert(((31 - 9) as nat) % 32 == 22);
    assert(exp_magnitude(8191) == wrap32(511int * 0x40_0000));
    lemma_long_rounds(255, 31);
    lemma_word_above(0x7FC0_0000);
}

/// What a value is rounded to, by its magnitude.
proof fn lemma_quantized(value: i32)
    requires
        value != 0,
    ensures
        ({
            let m: nat = if value < 0 {
                (-value) as nat
            } else {
                value as nat
            };
            &&& value < 0 ==> quantized(value) == wrap32(-rounded(m))
            &&& value > 0 && log_of(m) < 8192 ==> quantized(value) == rounded(m)
            &&& value > 0 && log_of(m) >= 8192 ==> quantized(value) == 0x7FC0_0000
        }),
{
    reveal(exp_of);
    reveal(signed_log);
    lemma_log_positive(if value < 0 { (-value) as nat } else { value as nat });
    lemma_largest();
}

/// Rounding to what a log word holds changes nothing the second time.
pub proof fn quantizing_is_idempotent(value: i32)
    ensures
        quantized(quantized(value)) == quantized(value),
{
    lemma_quantized_zero();
    if value != 0 {
        let m: nat = if value < 0 {
            (-value) as nat
        } else {
            value as nat
        };
        let r = rounded(m);
        lemma_quantized(value);
        lemma_rounds_twice(m);
        lemma_largest();
        if value > 0 {
            lemma_word_above(m);
            lemma_quantized(quantized(value));
            if log_of(m) < 8192 {
                lemma_word_above(r as nat);
            }
        } else if r == i32::MIN {
            lemma_rounds_twice(0x8000_0000);
            assert(wrap32(-(i32::MIN as int)) == i32::MIN);
            lemma_quantized(i32::MIN);
        } else {
            lemma_wrap32(-r, 0);
            assert(wrap32(-r) == -r);
            lemma_quantized(wrap32(-r));
        }
    }
}

proof fn lemma_log_positive(m: nat)
    requires
        m > 0,
    ensures
        log_of(m) > 0,
{
    reveal(log_of);
    assert(biased(m) > 0);
    assert(bit_length(biased(m)) >= 1);
}

// ---------------------------------------------------------------------------
// Order
// ---------------------------------------------------------------------------

proof fn lemma_log2_ordered(i: int, j: int)
    requires
        0 <= i <= j < 256,
    ensures
        log2_fraction(i) <= log2_fraction(j),
    decreases j - i,
{
    if i < j {
        lemma_log2_ordered(i + 1, j);
        assert(log2_fraction(i) <= log2_fraction(i + 1)) by {
            reveal(log2_fraction);
        }
    }
}

proof fn lemma_exp2_step(i: int)
    requires
        0 <= i < 255,
    ensures
        exp2_fraction(i) <= exp2_fraction(i + 1),
{
    reveal(exp2_fraction);
}

/// A longer magnitude has no fewer bits.
proof fn lemma_length_ordered(a: nat, b: nat)
    requires
        a <= b,
    ensures
        bit_length(a) <= bit_length(b),
{
    lemma_bit_length(b);
    lemma_bit_length_bound(a, bit_length(b));
}

/// Among magnitudes of as many bits, the mantissa grows with the magnitude.
proof fn lemma_aligned_ordered(a: nat, b: nat)
    requires
        0 < a <= b,
        bit_length(a) == bit_length(b),
    ensures
        256 <= aligned(a) <= aligned(b) < 512,
{
    let d = bit_length(a);
    lemma2_to64();
    lemma_bit_length(a);
    lemma_aligned_bound(b);
    if d < 9 {
        let p = pow2((9 - d) as nat);
        let low = pow2((d - 1) as nat);
        lemma_pow2_adds((d - 1) as nat, (9 - d) as nat);
        assert(256 <= a * p <= b * p) by (nonlinear_arith)
            requires
                low <= a <= b,
                low * p == 256,
                p >= 0,
        ;
    } else {
        let p = pow2((d - 9) as nat);
        lemma_pow2_pos((d - 9) as nat);
        lemma_aligned_range(a, d);
        vstd::arithmetic::div_mod::lemma_div_is_ordered(a as int, b as int, p as int);
    }
}

/// The log word never falls as the magnitude grows; it is zero for zero alone,
/// and largest from the largest magnitude on.
pub proof fn logs_keep_order(a: nat, b: nat)
    requires
        a <= b,
    ensures
        log_of(a) <= log_of(b) <= MAX_LOG_WORD,
        log_of(a) == 0 <==> a == 0,
        b >= MAX_LOG2_INPUT ==> log_of(b) == MAX_LOG_WORD,
{
    lemma_log_bound(b);
    if a == 0 {
        lemma_zero_log();
    } else {
        lemma_log_positive(a);
        lemma_logs_ordered(a, b);
    }
    if b >= MAX_LOG2_INPUT {
        lemma_largest_log(b);
    }
}

/// The log word of the largest magnitudes.
proof fn lemma_largest_log(b: nat)
    requires
        b >= MAX_LOG2_INPUT,
    ensures
        log_of(b) == MAX_LOG_WORD,
{
    let y: nat = 0xFFFF_C000;
    assert(biased(b) == y);
    assert(pow2(31) == 0x8000_0000 && pow2(32) == 0x1_0000_0000 && pow2(23) == 0x80_0000) by {
        lemma2_to64();
    }
    lemma_length_is(y, 32);
    assert((32 - 9) as nat == 23);
    assert(aligned(y) == y / 0x80_0000);
    assert(aligned(y) as int % 256 == 255);
    assert(log2_fraction(255) == 255) by {
        reveal(log2_fraction);
    }
    reveal(log_of);
}

/// The log word never falls among the magnitudes above zero.
proof fn lemma_logs_ordered(a: nat, b: nat)
    requires
        0 < a <= b,
    ensures
        log_of(a) <= log_of(b),
{
    let x = biased(a);
    let y = biased(b);
    lemma_length_ordered(x, y);
    lemma_fraction_bound(x);
    if bit_length(x) == bit_length(y) {
        lemma_aligned_ordered(x, y);
        lemma_log2_ordered(aligned(x) - 256, aligned(y) - 256);
    }
    reveal(log_of);
}

proof fn lemma_fraction_bound(x: nat)
    ensures
        log2_fraction(aligned(x) as int % 256) <= 255,
{
    reveal(log2_fraction);
}

proof fn lemma_zero_log()
    ensures
        log_of(0) == 0,
{
    lemma_quantized_zero();
    reveal(signed_log);
    lemma_log_bound(0);
}

/// The value of the next word is no smaller.
proof fn lemma_exp_step(l: nat)
    requires
        l < MAX_POSITIVE_LOG_WORD,
    ensures
        0 <= exp_magnitude(l) <= exp_magnitude(l + 1),
{
    let n = l / 256;
    let f = l as int % 256;
    let mantissa = 256 + exp2_fraction(f);
    let g = (l + 1) as int % 256;
    let next = 256 + exp2_fraction(g);
    lemma2_to64();
    assert(exp2_fraction(f) <= 255 && exp2_fraction(g) <= 255 && exp2_fraction(0) == 0) by {
        reveal(exp2_fraction);
    }
    if f < 255 {
        assert((l + 1) / 256 == n && g == f + 1);
        lemma_exp2_step(f);
        if n <= 9 {
            let p = pow2((9 - n) as nat);
            lemma_pow2_pos((9 - n) as nat);
            vstd::arithmetic::div_mod::lemma_div_is_ordered(mantissa as int, next as int, p as int);
            vstd::arithmetic::div_mod::lemma_div_pos_is_pos(mantissa as int, p as int);
            vstd::arithmetic::div_mod::lemma_div_is_ordered_by_denominator(next as int, 1, p as int);
        } else {
            lemma_exp_long(mantissa, n);
            lemma_exp_long(next, n);
            let p = pow2((n - 9) as nat);
            assert(0 <= mantissa * p <= next * p) by (nonlinear_arith)
                requires
                    0 <= mantissa <= next,
                    0 <= p,
            ;
        }
    } else {
        assert((l + 1) / 256 == n + 1 && g == 0);
        if n <= 8 {
            let k = (8 - n) as nat;
            let p = pow2(k);
            lemma_pow2_pos(k);
            lemma_pow2_adds(1, k);
            assert(pow2((9 - n) as nat) == 2 * p);
            assert(0 <= mantissa / (2 * p) <= 256nat / p) by {
                vstd::arithmetic::div_mod::lemma_div_denominator(mantissa as int, 2, p as int);
                vstd::arithmetic::div_mod::lemma_div_is_ordered(mantissa as int / 2, 256, p as int);
                vstd::arithmetic::div_mod::lemma_div_pos_is_pos(mantissa as int / 2, p as int);
            }
            vstd::arithmetic::div_mod::lemma_div_is_ordered_by_denominator(256, 1, p as int);
        } else {
            lemma_exp_long(next, n + 1);
            let q = pow2((n + 1 - 9) as nat);
            if n == 9 {
                assert(mantissa / 1 == mantissa);
                assert(q == 2);
            } else {
                lemma_exp_long(mantissa, n);
                let p = pow2((n - 9) as nat);
                lemma_pow2_adds(1, (n - 9) as nat);
                assert(0 <= mantissa * p <= 256 * q) by (nonlinear_arith)
                    requires
                        0 <= mantissa <= 511,
                        q == 2 * p,
                        0 <= p,
                ;
            }
        }
    }
}

/// A mantissa moved up within 31 bits keeps its value.
proof fn lemma_exp_long(mantissa: nat, n: nat)
    requires
        9 < n <= 31,
        mantissa <= 511,
    ensures
        wrap32((mantissa * pow2(((n - 9) as nat) % 32)) as int) == mantissa * pow2((n - 9) as nat),
{
    let p = pow2((n - 9) as nat);
    lemma2_to64();
    vstd::arithmetic::div_mod::lemma_small_mod((n - 9) as nat, 32);
    if n < 31 {
        lemma_pow2_strictly_increases((n - 9) as nat, 22);
    }
    assert(0 <= mantissa * p <= 511 * 0x40_0000) by (nonlinear_arith)
        requires
            0 <= mantissa <= 511,
            0 <= p <= 0x40_0000,
    ;
    lemma_wrap32((mantissa * p) as int, 0);
}

/// The value of a word never falls as the word grows, over the words of
/// positive values.
pub proof fn exp_keeps_order(a: int, b: int)
    requires
        0 <= a <= b <= MAX_POSITIVE_LOG_WORD,
    ensures
        0 <= exp_of(a) <= exp_of(b),
    decreases b - a,
{
    reveal(exp_of);
    if a < b {
        lemma_exp_step(a as nat);
        exp_keeps_order(a + 1, b);
    } else if a < MAX_POSITIVE_LOG_WORD {
        lemma_exp_step(a as nat);
    } else {
        lemma_largest();
    }
}

// ---------------------------------------------------------------------------
// How close a log word comes
// ---------------------------------------------------------------------------

/// A mantissa byte settles within one of itself, and below 134 on itself.
proof fn lemma_settles_near(t: int)
    requires
        0 <= t < 256,
    ensures
        t - 1 <= settled(t) <= t + 1,
        settled(t) < t ==> t >= 134,
        settled(t) > t ==> t >= 148,
{
}

/// A value of magnitude 114 at most is held exactly; the first that is not is
/// 115, which is rounded to 114.
pub proof fn small_values_are_kept(value: i32)
    ensures
        -114 <= value <= 114 ==> quantized(value) == value,
        quantized(115) == 114,
{
    lemma_quantized_zero();
    if -114 <= value <= 114 && value != 0 {
        let m: nat = if value < 0 {
            (-value) as nat
        } else {
            value as nat
        };
        lemma_small_rounds(m);
        lemma_quantized(value);
        lemma_word_above(m);
        lemma_wrap32(-(m as int), 0);
    }
    lemma_small_rounds(115);
    lemma_quantized(115);
    lemma_word_above(115);
}

proof fn lemma_small_rounds(m: nat)
    requires
        0 < m <= 115,
    ensures
        rounded(m) == (if m == 115 {
            114int
        } else {
            m as int
        }),
{
    lemma2_to64();
    lemma_bit_length(m);
    lemma_bit_length_bound(m, 7);
    let d = bit_length(m);
    assert(d >= 1);
    lemma_short_rounds(m, d);
    if m == 115 {
        lemma_length_is(115, 7);
        assert((9 - d) as nat == 2);
        assert(m * pow2(2) - 256 == 204);
    } else {
        let s = pow2((9 - d) as nat) as int;
        let t = m * s - 256;
        lemma_pow2_pos((d - 1) as nat);
        lemma_only_115(m as int, d as int, s, t);
    }
}

proof fn lemma_only_115(m: int, d: int, s: int, t: int)
    requires
        1 <= d <= 7,
        0 < m < 115,
        s == pow2((9 - d) as nat),
        t == m * s - 256,
        t % s == 0,
        0 <= t < 256,
    ensures
        settled(t) >= t,
{
    lemma2_to64();
    assert(s == 4 || s == 8 || s == 16 || s == 32 || s == 64 || s == 128 || s == 256);
    if s == 4 {
        assert(t < 204);
    }
}

/// Rounding to what a log word holds moves a value by one and its two
/// hundredth part at most, and never across zero.
pub proof fn quantizing_is_close(value: i32)
    ensures
        ({
            let m = if value < 0 {
                -value
            } else {
                value as int
            };
            let miss = quantized(value) - value;
            &&& -(m + 200) <= 200 * miss <= m + 200
            &&& value > 0 ==> quantized(value) > 0
            &&& value < 0 ==> quantized(value) < 0
        }),
{
    lemma_quantized_zero();
    if value != 0 {
        let m: nat = if value < 0 {
            (-value) as nat
        } else {
            value as nat
        };
        lemma_quantized(value);
        if m == 0x8000_0000 {
            lemma_rounds_twice(m);
            assert(wrap32(-(i32::MIN as int)) == i32::MIN);
        } else {
            lemma_word_above(m);
            if log_of(m) < 8192 {
                lemma_rounded_close(m);
                lemma_wrap32(-rounded(m), 0);
            } else {
                assert(wrap32(-(i32::MIN as int)) == i32::MIN);
            }
        }
    }
}

proof fn lemma_rounded_close(m: nat)
    requires
        0 < m < 0x8000_0000,
        log_of(m) < 8192,
    ensures
        -(m + 200) <= 200 * (rounded(m) - m) <= m + 200,
{
    lemma2_to64();
    let a = biased(m);
    let d = bit_length(a);
    lemma_bit_length(a);
    assert(d >= 1);
    assert(d <= 31) by {
        reveal(log_of);
    }
    if d <= 8 {
        lemma_pow2_strictly_increases(d, 9);
        assert(a == m);
        lemma_short_rounds(m, d);
    } else {
        lemma_aligned_range(a, d);
        let whole = aligned(a) as int;
        let t = whole % 256;
        let g = settled(t);
        let p = pow2((d - 9) as nat) as int;
        lemma_pow2_pos((d - 9) as nat);
        lemma_rounded(m, d, t);
        lemma_settled_twice(t);
        lemma_settles_near(t);
        lemma_long_rounds(g, d);
        let r = (256 + g) * p;
        if d > 9 {
            vstd::arithmetic::div_mod::lemma_small_mod((d - 9) as nat, 32);
            assert(0 < r < 0x8000_0000);
            lemma_wrap32(r, 0);
            assert(rounded(m) == wrap32(r));
        } else {
            assert(pow2((9 - d) as nat) == 1 && p == 1);
            assert((256 + g) / 1 == 256 + g);
            assert(r == 256 + g) by (nonlinear_arith)
                requires
                    r == (256 + g) * p,
                    p == 1,
            ;
        }
        assert(whole == 256 + t);
        vstd::arithmetic::div_mod::lemma_fundamental_div_mod(a as int, p);
        vstd::arithmetic::div_mod::lemma_mod_bound(a as int, p);
        let rest = a as int % p;
        assert(r == rounded(m));
        assert(a == whole * p + rest) by (nonlinear_arith)
            requires
                a == p * whole + rest,
        ;
        assert(r - whole * p == (g - t) * p) by (nonlinear_arith)
            requires
                r == (256 + g) * p,
                whole == 256 + t,
        ;
        if g > t {
            assert((g - t) * p == p && whole * p >= 404 * p) by (nonlinear_arith)
                requires
                    g - t == 1,
                    whole >= 404,
                    p > 0,
            ;
        } else if g < t {
            assert((g - t) * p == -p && whole * p >= 390 * p) by (nonlinear_arith)
                requires
                    g - t == -1,
                    whole >= 390,
                    p > 0,
            ;
        } else {
            assert((g - t) * p == 0 && whole * p >= 256 * p) by (nonlinear_arith)
                requires
                    g - t == 0,
                    whole >= 256,
                    p > 0,
            ;
        }
    }
}

} // verus!
