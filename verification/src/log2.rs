//! A log2 and an exp2 whose integer part stands above eight fraction bits.
//!
//! A log word holds the integer part of a base-2 logarithm above eight
//! fraction bits, and the sign of the value. The fractions are looked up in
//! tables of rounded values.
use vstd::prelude::*;
use vstd::arithmetic::power2::{pow2, lemma2_to64};
use crate::arith::{bit_length, bit_length_u32, pow2_u64};
use crate::logpack::{EXP2_TABLE, LOG2_TABLE, exp2_fraction, log2_fraction};

verus! {

/// `256 * (2^(i/256) - 1)`, rounded.
pub fn exp2_entry(i: u8) -> (r: u8)
    ensures
        r == exp2_fraction(i as int),
{
    proof {
        reveal(exp2_fraction);
    }
    EXP2_TABLE[i as usize]
}

/// `256 * log2(1 + i/256)`, rounded.
pub fn log2_entry(i: u8) -> (r: u8)
    ensures
        r == log2_fraction(i as int),
{
    proof {
        reveal(log2_fraction);
    }
    LOG2_TABLE[i as usize]
}

/// The magnitude of a log word: a mantissa of nine bits, put at the integer
/// part, rounded up from a half, and at most `i32::MAX`.
pub open spec fn exp_size(raw: nat) -> nat {
    let integer = raw / 256;
    let mantissa = 256 + exp2_fraction(raw as int % 256);
    if integer >= 32 {
        0x7fff_ffff
    } else if integer >= 8 {
        let v = mantissa * pow2((integer - 8) as nat);
        if v > 0x7fff_ffff {
            0x7fff_ffff
        } else {
            v
        }
    } else {
        (mantissa + pow2((7 - integer) as nat)) / pow2((8 - integer) as nat)
    }
}

/// The value of a log word.
#[verifier::opaque]
pub open spec fn exp_value(word: int) -> int {
    if word == 0 {
        0
    } else if word < 0 {
        -(exp_size((-word) as nat) as int)
    } else {
        exp_size(word as nat) as int
    }
}

fn exp_size_of(raw: u32) -> (r: u32)
    requires
        raw <= 32768,
    ensures
        r == exp_size(raw as nat),
        r <= 0x7fff_ffff,
{
    let integer: u32 = raw / 256;
    let mantissa: u64 = 256 + exp2_entry((raw % 256) as u8) as u64;
    if integer >= 32 {
        return 0x7fff_ffff;
    }
    if integer >= 8 {
        let unit: u64 = pow2_u64(integer - 8);
        proof {
            lemma2_to64();
            if integer - 8 < 24 {
                vstd::arithmetic::power2::lemma_pow2_strictly_increases((integer - 8) as nat, 24);
            }
            assert(0 <= mantissa * unit <= 511 * 0x100_0000) by (nonlinear_arith)
                requires
                    0 <= mantissa <= 511,
                    0 <= unit <= 0x100_0000,
            ;
        }
        let v: u64 = mantissa * unit;
        return if v > 0x7fff_ffff {
            0x7fff_ffff
        } else {
            v as u32
        };
    }
    let half: u64 = pow2_u64(7 - integer);
    let whole: u64 = pow2_u64(8 - integer);
    proof {
        lemma2_to64();
        vstd::arithmetic::power2::lemma_pow2_pos((7 - integer) as nat);
        vstd::arithmetic::power2::lemma_pow2_pos((8 - integer) as nat);
        if integer > 0 {
            vstd::arithmetic::power2::lemma_pow2_strictly_increases((7 - integer) as nat, 7);
        }
        assert((mantissa + half) / whole as int <= mantissa + half) by (nonlinear_arith)
            requires
                whole >= 1,
                mantissa + half >= 0,
        ;
    }
    ((mantissa + half) / whole) as u32
}

/// The value of a log word.
pub fn wp_exp2(value: i16) -> (r: i32)
    ensures
        r == exp_value(value as int),
{
    proof {
        reveal(exp_value);
    }
    if value == 0 {
        return 0;
    }
    let v: i32 = value as i32;
    if v < 0 {
        -(exp_size_of((-v) as u32) as i32)
    } else {
        exp_size_of(v as u32) as i32
    }
}

/// The eight bits below the top bit of a magnitude, zeros where there are fewer.
pub open spec fn mantissa_of(size: nat) -> int {
    let top = bit_length(size) - 1;
    if top >= 8 {
        size as int / pow2((top - 8) as nat) as int % 256
    } else {
        size as int * pow2((8 - top) as nat) as int % 256
    }
}

/// The log word of a magnitude.
pub open spec fn log_size(size: nat) -> int {
    let raw = (bit_length(size) - 1) * 256 + log2_fraction(mantissa_of(size));
    if raw > 32767 {
        32767
    } else {
        raw
    }
}

/// The log word of a value.
#[verifier::opaque]
pub open spec fn log_value(value: int) -> int {
    if value == 0 {
        0
    } else if value < 0 {
        -log_size((-value) as nat)
    } else {
        log_size(value as nat)
    }
}

fn log_size_of(size: u32) -> (r: i16)
    requires
        size > 0,
    ensures
        r == log_size(size as nat),
        0 <= r,
{
    let bits: u32 = bit_length_u32(size);
    assert(bits >= 1);
    let top: u32 = bits - 1;
    proof {
        lemma2_to64();
    }
    let mantissa: u8 = if top >= 8 {
        let unit: u64 = pow2_u64(top - 8);
        proof {
            vstd::arithmetic::power2::lemma_pow2_pos((top - 8) as nat);
        }
        (size as u64 / unit % 256) as u8
    } else {
        let unit: u64 = pow2_u64(8 - top);
        proof {
            if top > 0 {
                vstd::arithmetic::power2::lemma_pow2_strictly_increases((8 - top) as nat, 8);
            }
            assert(0 <= size * unit <= 0xffff_ffff * 256) by (nonlinear_arith)
                requires
                    0 <= size <= 0xffff_ffff,
                    0 <= unit <= 256,
            ;
        }
        (size as u64 * unit % 256) as u8
    };
    let raw: u32 = top * 256 + log2_entry(mantissa) as u32;
    if raw > 32767 {
        32767
    } else {
        raw as i16
    }
}

/// The log word of a value.
pub fn wp_log2(value: i32) -> (r: i16)
    ensures
        r == log_value(value as int),
{
    proof {
        reveal(log_value);
    }
    if value == 0 {
        return 0;
    }
    let v: i64 = value as i64;
    if v < 0 {
        -log_size_of((-v) as u32)
    } else {
        log_size_of(v as u32)
    }
}

/// A log word and its value carry their sign alike: both maps are odd.
pub proof fn logs_are_odd(value: int, word: int)
    ensures
        log_value(-value) == -log_value(value),
        exp_value(-word) == -exp_value(word),
{
    reveal(log_value);
    reveal(exp_value);
}

} // verus!
