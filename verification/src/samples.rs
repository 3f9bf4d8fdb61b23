//! The packed-samples word coder: adaptive medians, zones, run states, and
//! the lossless sample stream built from them.
use vstd::prelude::*;
use vstd::arithmetic::power2::{pow2, lemma_pow2_unfold, lemma_pow2_strictly_increases, lemma2_to64};
use crate::arith::{bit_length, bit_length_u32, bit_length_u64, lemma_bit_length, lemma_bit_length_bound, pow2_u64};
use crate::bits::{BitReader, BitWriter, bit, bits_of, unary, value_of, lemma_bits_len, lemma_value_of_bits, lemma_bits_of_value};
use crate::error::{Error, Result};

verus! {

/// Unary prefixes of this length announce an escape code.
pub const LIMIT_ONES: u32 = 16;

/// A count code never starts with this many ones.
pub const CBITS_END: u32 = 33;

/// What a spec-level read gives: the value and the bits left over.
pub type Parsed<T> = core::result::Result<(T, Seq<bool>), Error>;

// ---------------------------------------------------------------------------
// Sign folding
// ---------------------------------------------------------------------------

/// The magnitude of a sample: `v`, or its complement where `v` is negative.
pub open spec fn magnitude(v: i32) -> nat {
    if v < 0 {
        (-(v + 1)) as nat
    } else {
        v as nat
    }
}

/// The sample of a magnitude and a sign.
pub open spec fn with_sign(mag: nat, neg: bool) -> i32 {
    if neg {
        (-(mag as int) - 1) as i32
    } else {
        mag as i32
    }
}

/// Splits a sample into magnitude and sign.
pub fn split_sign(v: i32) -> (r: (u32, bool))
    ensures
        r.0 == magnitude(v),
        r.1 == (v < 0),
        r.0 < 0x8000_0000,
        with_sign(r.0 as nat, r.1) == v,
{
    if v < 0 {
        ((-(v + 1)) as u32, true)
    } else {
        (v as u32, false)
    }
}

/// Puts a magnitude and a sign together.
pub fn join_sign(mag: u32, neg: bool) -> (r: i32)
    requires
        mag < 0x8000_0000,
    ensures
        r == with_sign(mag as nat, neg),
{
    if neg {
        -(mag as i32) - 1
    } else {
        mag as i32
    }
}

// ---------------------------------------------------------------------------
// Medians, zones and intervals
// ---------------------------------------------------------------------------

/// The three running medians of one channel, in sixteenths.
#[derive(Debug, Clone, Copy, PartialEq, Eq, Structural)]
pub struct AdaptiveMedians {
    /// Median of all words.
    pub m0: u32,
    /// Median of the words above the first zone.
    pub m1: u32,
    /// Median of the words above the second zone.
    pub m2: u32,
}

/// One step up of a median with rate `d`.
pub open spec fn median_up(v: u32, d: int) -> u32 {
    ((v + (v + d) % 0x1_0000_0000 / d * 5) % 0x1_0000_0000) as u32
}

/// One step down of a median with rate `d`.
pub open spec fn median_down(v: u32, d: int) -> u32 {
    (v - (v + d - 2) % 0x1_0000_0000 / d * 2) as u32
}

fn step_up(v: u32, d: u32) -> (r: u32)
    requires
        d == 128 || d == 64 || d == 32,
    ensures
        r == median_up(v, d as int),
{
    let s: u64 = (v as u64 + d as u64) % 0x1_0000_0000;
    let t: u64 = if d == 128 {
        s / 128 * 5
    } else if d == 64 {
        s / 64 * 5
    } else {
        s / 32 * 5
    };
    ((v as u64 + t) % 0x1_0000_0000) as u32
}

fn step_down(v: u32, d: u32) -> (r: u32)
    requires
        d == 128 || d == 64 || d == 32,
    ensures
        r == median_down(v, d as int),
{
    let s: u64 = (v as u64 + d as u64 - 2) % 0x1_0000_0000;
    let t: u64 = if d == 128 {
        s / 128 * 2
    } else if d == 64 {
        s / 64 * 2
    } else {
        s / 32 * 2
    };
    (v as u64 - t) as u32
}

impl AdaptiveMedians {
    /// The integer part of median `k`, plus one.
    pub open spec fn med(&self, k: int) -> nat {
        if k == 0 {
            self.m0 as nat / 16 + 1
        } else if k == 1 {
            self.m1 as nat / 16 + 1
        } else {
            self.m2 as nat / 16 + 1
        }
    }

    /// The first value of zone `z`.
    pub open spec fn zone_low(&self, z: nat) -> nat {
        if z == 0 {
            0
        } else if z == 1 {
            self.med(0)
        } else {
            self.med(0) + self.med(1) + ((z - 2) as nat) * self.med(2)
        }
    }

    /// The number of values in zone `z`.
    pub open spec fn zone_width(&self, z: nat) -> nat {
        if z == 0 {
            self.med(0)
        } else if z == 1 {
            self.med(1)
        } else {
            self.med(2)
        }
    }

    /// The zone of a magnitude: the zones tile the magnitudes from zero up.
    #[verifier::opaque]
    pub open spec fn zone_of(&self, mag: nat) -> nat {
        if mag < self.med(0) {
            0
        } else if mag < self.med(0) + self.med(1) {
            1
        } else {
            2 + (mag - self.med(0) - self.med(1)) as nat / self.med(2)
        }
    }

    /// Least magnitude a word in zone `z` can carry, kept to 31 bits.
    #[verifier::opaque]
    pub open spec fn low(&self, z: nat) -> nat {
        self.zone_low(z) % 0x8000_0000
    }

    /// Greatest magnitude a word in zone `z` can carry: kept to 31 bits, and
    /// not below the least.
    #[verifier::opaque]
    pub open spec fn high(&self, z: nat) -> nat {
        let h = (self.low(z) + self.zone_width(z) - 1) as nat % 0x8000_0000;
        if h < self.low(z) {
            self.low(z)
        } else {
            h
        }
    }

    /// The medians after a word in zone `z`.
    #[verifier::opaque]
    pub open spec fn adapted(&self, z: nat) -> AdaptiveMedians {
        if z == 0 {
            AdaptiveMedians { m0: median_down(self.m0, 128), m1: self.m1, m2: self.m2 }
        } else if z == 1 {
            AdaptiveMedians { m0: median_up(self.m0, 128), m1: median_down(self.m1, 64), m2: self.m2 }
        } else if z == 2 {
            AdaptiveMedians {
                m0: median_up(self.m0, 128),
                m1: median_up(self.m1, 64),
                m2: median_down(self.m2, 32),
            }
        } else {
            AdaptiveMedians {
                m0: median_up(self.m0, 128),
                m1: median_up(self.m1, 64),
                m2: median_up(self.m2, 32),
            }
        }
    }

    /// Medians with the given values.
    pub fn new(values: [u32; 3]) -> (r: AdaptiveMedians)
        ensures
            r == (AdaptiveMedians { m0: values[0], m1: values[1], m2: values[2] }),
    {
        AdaptiveMedians { m0: values[0], m1: values[1], m2: values[2] }
    }

    /// Medians from signed seeds; a negative seed is refused.
    pub fn from_seed_values(values: [i32; 3]) -> (r: Option<AdaptiveMedians>)
        ensures
            r == if values[0] >= 0 && values[1] >= 0 && values[2] >= 0 {
                Some(AdaptiveMedians { m0: values[0] as u32, m1: values[1] as u32, m2: values[2] as u32 })
            } else {
                None
            },
    {
        if values[0] >= 0 && values[1] >= 0 && values[2] >= 0 {
            Some(AdaptiveMedians { m0: values[0] as u32, m1: values[1] as u32, m2: values[2] as u32 })
        } else {
            None
        }
    }

    /// The integer part of median `k`, plus one.
    pub fn get_med(&self, k: u32) -> (r: u32)
        ensures
            r == self.med(k as int),
            1 <= r <= 0x1000_0000,
    {
        if k == 0 {
            self.m0 / 16 + 1
        } else if k == 1 {
            self.m1 / 16 + 1
        } else {
            self.m2 / 16 + 1
        }
    }

    /// The zone of a magnitude.
    pub fn zone_for_magnitude(&self, mag: u32) -> (z: u32)
        requires
            mag < 0x8000_0000,
        ensures
            z == self.zone_of(mag as nat),
            z <= mag,
            self.low(z as nat) <= mag,
            self.zone_low(z as nat) <= mag < self.zone_low(z as nat) + self.zone_width(z as nat),
    {
        proof {
            reveal(AdaptiveMedians::zone_of);
            reveal(AdaptiveMedians::low);
        }
        proof {
            lemma_zone(*self, mag as nat);
        }
        let a: u32 = self.get_med(0);
        if mag < a {
            return 0;
        }
        let b: u32 = self.get_med(1);
        if mag < a + b {
            return 1;
        }
        2 + (mag - a - b) / self.get_med(2)
    }

    /// The interval of magnitudes that a word in zone `z` can carry.
    pub fn interval(&self, z: u32) -> (r: SampleInterval)
        ensures
            r.low == self.low(z as nat),
            r.high == self.high(z as nat),
            r.low <= r.high < 0x8000_0000,
    {
        proof {
            reveal(AdaptiveMedians::low);
            reveal(AdaptiveMedians::high);
        }
        let base: u64 = if z == 0 {
            0
        } else if z == 1 {
            self.get_med(0) as u64
        } else {
            let c: u64 = self.get_med(2) as u64;
            let k: u64 = (z - 2) as u64;
            assert(k * c <= 0xffff_ffff * 0x1000_0000) by (nonlinear_arith)
                requires
                    k <= 0xffff_ffff,
                    c <= 0x1000_0000,
            ;
            self.get_med(0) as u64 + self.get_med(1) as u64 + k * c
        };
        let width: u64 = if z == 0 {
            self.get_med(0) as u64
        } else if z == 1 {
            self.get_med(1) as u64
        } else {
            self.get_med(2) as u64
        };
        let low: u64 = base % 0x8000_0000;
        let high: u64 = (low + width - 1) % 0x8000_0000;
        SampleInterval { low: low as u32, high: if high < low { low as u32 } else { high as u32 } }
    }

    /// Moves the medians past a word in zone `z`.
    pub fn adapt(&mut self, z: u32)
        ensures
            *final(self) == old(self).adapted(z as nat),
    {
        proof {
            reveal(AdaptiveMedians::adapted);
        }
        if z == 0 {
            self.m0 = step_down(self.m0, 128);
        } else if z == 1 {
            self.m0 = step_up(self.m0, 128);
            self.m1 = step_down(self.m1, 64);
        } else if z == 2 {
            self.m0 = step_up(self.m0, 128);
            self.m1 = step_up(self.m1, 64);
            self.m2 = step_down(self.m2, 32);
        } else {
            self.m0 = step_up(self.m0, 128);
            self.m1 = step_up(self.m1, 64);
            self.m2 = step_up(self.m2, 32);
        }
    }
}

/// A closed interval of magnitudes.
#[derive(Debug, Clone, Copy, PartialEq, Eq, Structural)]
pub struct SampleInterval {
    /// Least magnitude.
    pub low: u32,
    /// Greatest magnitude.
    pub high: u32,
}

/// The zone of a magnitude is the one zone that covers it.
pub proof fn lemma_zone(m: AdaptiveMedians, mag: nat)
    ensures
        m.zone_low(m.zone_of(mag)) <= mag < m.zone_low(m.zone_of(mag)) + m.zone_width(m.zone_of(mag)),
        m.zone_of(mag) <= mag,
        m.zone_of(mag) == 0 <==> mag < m.med(0),
        mag < 0x8000_0000 ==> m.low(m.zone_of(mag)) == m.zone_low(m.zone_of(mag)),
{
    reveal(AdaptiveMedians::zone_of);
    reveal(AdaptiveMedians::low);
    if mag >= m.med(0) + m.med(1) {
        let x = (mag - m.med(0) - m.med(1)) as nat;
        let c = m.med(2);
        vstd::arithmetic::div_mod::lemma_fundamental_div_mod(x as int, c as int);
        vstd::arithmetic::div_mod::lemma_mod_bound(x as int, c as int);
        assert(x / c * c == c * (x / c)) by (nonlinear_arith);
        vstd::arithmetic::div_mod::lemma_div_is_ordered_by_denominator(x as int, 1, c as int);
    }
}

// ---------------------------------------------------------------------------
// Count codes and prefixes
// ---------------------------------------------------------------------------

/// The code of a count: its length in unary, then its bits below the leading one.
#[verifier::opaque]
pub open spec fn count_code(n: nat) -> Seq<bool> {
    let k = bit_length(n);
    unary(k) + bits_of(n, if k == 0 { 0 } else { (k - 1) as nat })
}

/// The code of a prefix; long ones escape into a count code.
#[verifier::opaque]
pub open spec fn prefix_code(raw: nat) -> Seq<bool> {
    if raw < LIMIT_ONES {
        unary(raw)
    } else {
        unary(LIMIT_ONES as nat) + count_code((raw - LIMIT_ONES) as nat)
    }
}

/// Reads ones up to a zero bit, or until there are `cap` of them.
pub open spec fn read_unary(s: Seq<bool>, cap: nat) -> Parsed<nat>
    decreases cap,
{
    if cap == 0 {
        Ok((0, s))
    } else if s.len() == 0 {
        Err(Error::Truncated)
    } else if !s[0] {
        Ok((0, s.drop_first()))
    } else {
        match read_unary(s.drop_first(), (cap - 1) as nat) {
            Ok((n, rest)) => Ok((n + 1, rest)),
            Err(e) => Err(e),
        }
    }
}

/// Reads a count code. Thirty-three ones mark the end of the stream.
#[verifier::opaque]
pub open spec fn read_count(s: Seq<bool>) -> Parsed<nat> {
    match read_unary(s, CBITS_END as nat) {
        Err(e) => Err(e),
        Ok((k, rest)) => {
            if k == CBITS_END {
                Err(Error::EndOfStream)
            } else if k < 2 {
                Ok((k, rest))
            } else if rest.len() < k - 1 {
                Err(Error::Truncated)
            } else {
                Ok((value_of(rest.take(k - 1)) + pow2((k - 1) as nat), rest.skip(k - 1)))
            }
        }
    }
}

/// Reads a prefix code. Seventeen ones mark the end of the stream.
#[verifier::opaque]
pub open spec fn read_prefix(s: Seq<bool>) -> Parsed<nat> {
    match read_unary(s, (LIMIT_ONES + 1) as nat) {
        Err(e) => Err(e),
        Ok((n, rest)) => {
            if n > LIMIT_ONES {
                Err(Error::EndOfStream)
            } else if n < LIMIT_ONES {
                Ok((n, rest))
            } else {
                match read_count(rest) {
                    Err(e) => Err(e),
                    Ok((m, left)) => Ok((m + LIMIT_ONES as nat, left)),
                }
            }
        }
    }
}

/// Reading a unary number gives it back.
pub proof fn lemma_read_unary(n: nat, t: Seq<bool>, cap: nat)
    requires
        n < cap,
    ensures
        read_unary(unary(n) + t, cap) == Ok::<(nat, Seq<bool>), Error>((n, t)),
    decreases n,
{
    let s = unary(n) + t;
    if n == 0 {
        assert(s.drop_first() =~= t);
    } else {
        lemma_read_unary((n - 1) as nat, t, (cap - 1) as nat);
        assert(s.drop_first() =~= unary((n - 1) as nat) + t);
    }
}

/// Reading a count code gives the count back.
pub proof fn lemma_read_count(n: nat, t: Seq<bool>)
    requires
        n < 0x1_0000_0000,
    ensures
        read_count(count_code(n) + t) == Ok::<(nat, Seq<bool>), Error>((n, t)),
{
    reveal(count_code);
    reveal(read_count);
    lemma2_to64();
    let k = bit_length(n);
    lemma_bit_length_bound(n, 32);
    lemma_bit_length(n);
    let low = if k == 0 { 0 } else { (k - 1) as nat };
    let body = bits_of(n, low);
    lemma_bits_len(n, low);
    lemma_read_unary(k, body + t, 33);
    assert(count_code(n) + t =~= unary(k) + (body + t));
    if k < 2 {
        assert(body + t =~= t);
        reveal_with_fuel(bit_length, 3);
        assert(n == k);
    } else {
        lemma_pow2_unfold(k);
        let top = pow2(low);
        let r = (n - top) as nat;
        lemma_bits_mod(n, r, low);
        lemma_value_of_bits(r, low);
        assert((body + t).take(k - 1) =~= body);
        assert((body + t).skip(k - 1) =~= t);
    }
}

/// The low bits of `r + 2^k` are those of `r`.
proof fn lemma_bits_mod(n: nat, r: nat, k: nat)
    requires
        n == r + pow2(k),
    ensures
        bits_of(n, k) == bits_of(r, k),
    decreases k,
{
    if k > 0 {
        lemma_pow2_unfold(k);
        lemma_bits_mod(n / 2, r / 2, (k - 1) as nat);
    }
}

/// Reading a prefix code gives the prefix back.
pub proof fn lemma_read_prefix(raw: nat, t: Seq<bool>)
    requires
        raw < 0x1_0000_0000,
    ensures
        read_prefix(prefix_code(raw) + t) == Ok::<(nat, Seq<bool>), Error>((raw, t)),
{
    reveal(prefix_code);
    reveal(read_prefix);
    if raw < LIMIT_ONES {
        lemma_read_unary(raw, t, (LIMIT_ONES + 1) as nat);
    } else {
        let c = count_code((raw - LIMIT_ONES) as nat);
        lemma_read_unary(LIMIT_ONES as nat, c + t, (LIMIT_ONES + 1) as nat);
        lemma_read_count((raw - LIMIT_ONES) as nat, t);
        assert(prefix_code(raw) + t =~= unary(LIMIT_ONES as nat) + (c + t));
    }
}

/// Writes a count code.
pub fn emit_count(w: &mut BitWriter, n: u64)
    requires
        old(w).wf(),
    ensures
        final(w).wf(),
        final(w)@ == old(w)@ + count_code(n as nat),
{
    proof {
        reveal(count_code);
    }
    let k: u32 = bit_length_u64(n);
    w.write_unary(k);
    if k > 0 {
        w.write_bits(n, k - 1);
    }
    assert(w@ =~= old(w)@ + count_code(n as nat));
}

/// Writes a prefix code.
pub fn emit_raw_prefix(w: &mut BitWriter, raw: u32)
    requires
        old(w).wf(),
    ensures
        final(w).wf(),
        final(w)@ == old(w)@ + prefix_code(raw as nat),
{
    proof {
        reveal(prefix_code);
    }
    if raw < LIMIT_ONES {
        w.write_unary(raw);
    } else {
        w.write_unary(LIMIT_ONES);
        emit_count(w, (raw - LIMIT_ONES) as u64);
        assert(w@ =~= old(w)@ + prefix_code(raw as nat));
    }
}

/// Reads ones up to a zero bit, or until there are `cap` of them.
pub fn take_unary(r: &mut BitReader, cap: u32) -> (n: Result<u32>)
    requires
        old(r).wf(),
    ensures
        final(r).wf(),
        final(r).source() == old(r).source(),
        match read_unary(old(r)@, cap as nat) {
            Ok((v, rest)) => n == Ok::<u32, Error>(v as u32) && v <= cap && final(r)@ == rest,
            Err(e) => n == Err::<u32, Error>(e),
        },
{
    let mut i: u32 = 0;
    while i < cap
        invariant
            r.wf(),
            r.source() == old(r).source(),
            i <= cap,
            read_unary(old(r)@, cap as nat) == (match read_unary(r@, (cap - i) as nat) {
                Ok((v, rest)) => Ok::<(nat, Seq<bool>), Error>((v + i as nat, rest)),
                Err(e) => Err(e),
            }),
        decreases cap - i,
    {
        match r.get_bit() {
            Err(e) => {
                return Err(e);
            }
            Ok(b) => {
                if !b {
                    return Ok(i);
                }
            }
        }
        i = i + 1;
    }
    Ok(cap)
}

/// Reads a count code.
pub fn take_count(r: &mut BitReader) -> (n: Result<u32>)
    requires
        old(r).wf(),
    ensures
        final(r).wf(),
        final(r).source() == old(r).source(),
        match read_count(old(r)@) {
            Ok((v, rest)) => n == Ok::<u32, Error>(v as u32) && v < 0x1_0000_0000 && final(r)@ == rest,
            Err(e) => n == Err::<u32, Error>(e),
        },
{
    proof {
        reveal(read_count);
    }
    let k: u32 = match take_unary(r, CBITS_END) {
        Err(e) => {
            return Err(e);
        }
        Ok(k) => k,
    };
    if k == CBITS_END {
        return Err(Error::EndOfStream);
    }
    if k < 2 {
        return Ok(k);
    }
    let ghost rest = r@;
    match r.get_bits(k - 1) {
        Err(e) => Err(e),
        Ok(low) => {
            proof {
                lemma2_to64();
                lemma_bits_of_value(rest.take(k - 1));
                if k < 32 {
                    lemma_pow2_strictly_increases((k - 1) as nat, 31);
                }
            }
            let top: u64 = pow2_u64(k - 1);
            Ok((low as u64 + top) as u32)
        }
    }
}

/// Reads a prefix code.
pub fn read_raw_prefix(r: &mut BitReader) -> (n: Result<u64>)
    requires
        old(r).wf(),
    ensures
        final(r).wf(),
        final(r).source() == old(r).source(),
        match read_prefix(old(r)@) {
            Ok((v, rest)) => n == Ok::<u64, Error>(v as u64) && v < 0x1_0000_0010 && final(r)@ == rest,
            Err(e) => n == Err::<u64, Error>(e),
        },
{
    proof {
        reveal(read_prefix);
    }
    let n: u32 = match take_unary(r, LIMIT_ONES + 1) {
        Err(e) => {
            return Err(e);
        }
        Ok(n) => n,
    };
    if n > LIMIT_ONES {
        return Err(Error::EndOfStream);
    }
    if n < LIMIT_ONES {
        return Ok(n as u64);
    }
    match take_count(r) {
        Err(e) => Err(e),
        Ok(m) => Ok(m as u64 + LIMIT_ONES as u64),
    }
}

// ---------------------------------------------------------------------------
// Mantissas
// ---------------------------------------------------------------------------

/// The unused codes of the shorter length, of a value in `0..=maxcode`.
pub open spec fn short_codes(maxcode: nat) -> nat {
    (pow2(bit_length(maxcode)) - maxcode - 1) as nat
}

/// The phase-in code of a value in `0..=maxcode`.
#[verifier::opaque]
pub open spec fn mantissa_code(code: nat, maxcode: nat) -> Seq<bool> {
    let k = bit_length(maxcode);
    let short = short_codes(maxcode);
    if k == 0 {
        Seq::empty()
    } else if code < short {
        bits_of(code, (k - 1) as nat)
    } else {
        bits_of((code + short) / 2, (k - 1) as nat).push((code + short) % 2 == 1)
    }
}

/// Reads a phase-in code over `0..=maxcode`.
#[verifier::opaque]
pub open spec fn read_mantissa(s: Seq<bool>, maxcode: nat) -> Parsed<nat> {
    let k = bit_length(maxcode);
    let short = short_codes(maxcode);
    if k == 0 {
        Ok((0, s))
    } else if s.len() < k - 1 {
        Err(Error::Truncated)
    } else {
        let c = value_of(s.take(k - 1));
        let rest = s.skip(k - 1);
        if c < short {
            Ok((c, rest))
        } else if rest.len() == 0 {
            Err(Error::Truncated)
        } else {
            Ok(((2 * c - short + bit(rest[0])) as nat, rest.drop_first()))
        }
    }
}

/// A phase-in code stays within its range.
pub proof fn lemma_mantissa_bound(s: Seq<bool>, maxcode: nat)
    ensures
        match read_mantissa(s, maxcode) {
            Ok((c, rest)) => c <= maxcode,
            Err(_) => true,
        },
{
    reveal(read_mantissa);
    let k = bit_length(maxcode);
    lemma_bit_length(maxcode);
    if k > 0 && s.len() >= k - 1 {
        lemma_pow2_unfold(k);
        lemma_bits_of_value(s.take(k - 1));
    }
}

/// Reading a phase-in code gives the value back.
pub proof fn lemma_read_mantissa(code: nat, maxcode: nat, t: Seq<bool>)
    requires
        code <= maxcode,
    ensures
        read_mantissa(mantissa_code(code, maxcode) + t, maxcode) == Ok::<(nat, Seq<bool>), Error>((code, t)),
{
    reveal(mantissa_code);
    reveal(read_mantissa);
    let k = bit_length(maxcode);
    let short = short_codes(maxcode);
    lemma_bit_length(maxcode);
    lemma2_to64();
    if k == 0 {
        assert(mantissa_code(code, maxcode) + t =~= t);
    } else {
        lemma_pow2_unfold(k);
        let half = pow2((k - 1) as nat);
        let s = mantissa_code(code, maxcode) + t;
        let c = if code < short { code } else { (code + short) / 2 };
        assert(short < half);
        assert(c < half);
        lemma_value_of_bits(c, (k - 1) as nat);
        assert(s.take(k - 1) =~= bits_of(c, (k - 1) as nat));
        if code < short {
            assert(s.skip(k - 1) =~= t);
        } else {
            assert(s.skip(k - 1).drop_first() =~= t);
            assert(c >= short) by {
                assert(code >= short);
            }
        }
    }
}

/// Writes the phase-in code of `code`.
pub fn emit_mantissa(w: &mut BitWriter, code: u32, maxcode: u32)
    requires
        old(w).wf(),
        code <= maxcode < 0x8000_0000,
    ensures
        final(w).wf(),
        final(w)@ == old(w)@ + mantissa_code(code as nat, maxcode as nat),
{
    proof {
        reveal(mantissa_code);
    }
    let k: u32 = bit_length_u32(maxcode);
    if k == 0 {
        assert(w@ =~= old(w)@ + mantissa_code(code as nat, maxcode as nat));
        return;
    }
    proof {
        lemma_bit_length(maxcode as nat);
        lemma_pow2_unfold(k as nat);
        lemma2_to64();
        lemma_bit_length_bound(maxcode as nat, 31);
        if k < 31 {
            lemma_pow2_strictly_increases(k as nat, 31);
        }
    }
    let short: u32 = (pow2_u64(k) - maxcode as u64 - 1) as u32;
    if code < short {
        w.write_bits(code as u64, k - 1);
    } else {
        w.write_bits(((code + short) / 2) as u64, k - 1);
        w.write_bit((code + short) % 2 == 1);
    }
    assert(w@ =~= old(w)@ + mantissa_code(code as nat, maxcode as nat));
}

/// Reads a phase-in code over `0..=maxcode`.
pub fn take_mantissa(r: &mut BitReader, maxcode: u32) -> (n: Result<u32>)
    requires
        old(r).wf(),
        maxcode < 0x8000_0000,
    ensures
        final(r).wf(),
        final(r).source() == old(r).source(),
        match read_mantissa(old(r)@, maxcode as nat) {
            Ok((v, rest)) => n == Ok::<u32, Error>(v as u32) && v <= maxcode && final(r)@ == rest,
            Err(e) => n == Err::<u32, Error>(e),
        },
{
    proof {
        reveal(read_mantissa);
    }
    let k: u32 = bit_length_u32(maxcode);
    proof {
        lemma_mantissa_bound(r@, maxcode as nat);
    }
    if k == 0 {
        return Ok(0);
    }
    proof {
        lemma_bit_length(maxcode as nat);
        lemma_pow2_unfold(k as nat);
        lemma2_to64();
        lemma_bit_length_bound(maxcode as nat, 31);
        if k < 31 {
            lemma_pow2_strictly_increases(k as nat, 31);
        }
    }
    let short: u32 = (pow2_u64(k) - maxcode as u64 - 1) as u32;
    let ghost s = r@;
    let c: u32 = match r.get_bits(k - 1) {
        Err(e) => {
            return Err(e);
        }
        Ok(c) => c,
    };
    proof {
        lemma_bits_of_value(s.take(k - 1));
    }
    if c < short {
        return Ok(c);
    }
    match r.get_bit() {
        Err(e) => Err(e),
        Ok(b) => Ok(2 * c - short + (if b { 1u32 } else { 0u32 })),
    }
}

// ---------------------------------------------------------------------------
// Run states
// ---------------------------------------------------------------------------

/// What the last prefix announced of the next word.
#[derive(Debug, Clone, Copy, PartialEq, Eq, Structural)]
pub struct RunState {
    /// The next word lies in the first zone and carries no prefix.
    pub last_zero: bool,
    /// The next word lies above the first zone.
    pub last_one: bool,
}

impl RunState {
    /// Nothing announced.
    pub fn new() -> (r: RunState)
        ensures
            r == (RunState { last_zero: false, last_one: false }),
    {
        RunState { last_zero: false, last_one: false }
    }

    /// Whether a word in zone `z` can follow.
    pub open spec fn allows(&self, z: nat) -> bool {
        &&& self.last_zero ==> z == 0
        &&& !self.last_zero && self.last_one ==> z > 0
    }

    /// The prefix of a word in zone `z` that announces `hold_one` of the next.
    pub open spec fn prefix(&self, z: nat, hold_one: bool) -> Seq<bool> {
        if self.last_zero {
            Seq::empty()
        } else {
            prefix_code(self.raw(z, hold_one))
        }
    }

    /// The number in that prefix.
    pub open spec fn raw(&self, z: nat, hold_one: bool) -> nat {
        (2 * (z - bit(self.last_one)) + bit(hold_one)) as nat
    }

    /// The state after such a word.
    pub open spec fn after(&self, hold_one: bool) -> RunState {
        if self.last_zero {
            RunState { last_zero: false, last_one: self.last_one }
        } else {
            RunState { last_zero: !hold_one, last_one: hold_one }
        }
    }

    /// Reads the zone of the next word.
    pub open spec fn read_zone(&self, s: Seq<bool>) -> Parsed<(nat, RunState)> {
        if self.last_zero {
            Ok(((0, self.after(false)), s))
        } else {
            match read_prefix(s) {
                Err(e) => Err(e),
                Ok((raw, rest)) => Ok(((raw / 2 + bit(self.last_one), self.after(raw % 2 == 1)), rest)),
            }
        }
    }

    /// Reading a word's prefix gives its zone and the state after it.
    pub proof fn lemma_read_zone(self, z: nat, hold_one: bool, t: Seq<bool>)
        requires
            self.allows(z),
            z < 0x8000_0000,
        ensures
            self.read_zone(self.prefix(z, hold_one) + t) == Ok::<((nat, RunState), Seq<bool>), Error>(
                ((z, self.after(hold_one)), t),
            ),
    {
        if self.last_zero {
            assert(self.prefix(z, hold_one) + t =~= t);
        } else {
            lemma_read_prefix(self.raw(z, hold_one), t);
        }
    }

    /// The prefix number of a word in zone `z`: none where the state already
    /// rules the zone out.
    pub fn unfold_prefix(&mut self, z: u32, hold_one: bool) -> (r: Option<u32>)
        requires
            z < 0x8000_0000,
            !old(self).last_zero,
        ensures
            r == if old(self).allows(z as nat) {
                Some(old(self).raw(z as nat, hold_one) as u32)
            } else {
                None
            },
            r is Some ==> *final(self) == old(self).after(hold_one),
            r is None ==> *final(self) == *old(self),
    {
        let hold: u32 = if hold_one { 1 } else { 0 };
        let raw: u32 = if self.last_one {
            if z == 0 {
                return None;
            }
            2 * (z - 1) + hold
        } else {
            2 * z + hold
        };
        self.last_one = hold_one;
        self.last_zero = !hold_one;
        Some(raw)
    }

    /// Writes the prefix of a word in zone `z`.
    pub fn emit_prefix(&mut self, w: &mut BitWriter, z: u32, hold_one: bool)
        requires
            old(w).wf(),
            z < 0x8000_0000,
            old(self).allows(z as nat),
        ensures
            final(w).wf(),
            final(w)@ == old(w)@ + old(self).prefix(z as nat, hold_one),
            *final(self) == old(self).after(hold_one),
    {
        if self.last_zero {
            self.last_zero = false;
            assert(w@ =~= old(w)@ + old(self).prefix(z as nat, hold_one));
        } else if let Some(raw) = self.unfold_prefix(z, hold_one) {
            emit_raw_prefix(w, raw);
        }
    }

    /// Reads the zone of the next word.
    pub fn take_zone(&mut self, r: &mut BitReader) -> (n: Result<u32>)
        requires
            old(r).wf(),
        ensures
            final(r).wf(),
            final(r).source() == old(r).source(),
            match old(self).read_zone(old(r)@) {
                Ok(((z, state), rest)) => {
                    n == Ok::<u32, Error>(z as u32) && z < 0x8000_0010 && *final(self) == state && final(r)@ == rest
                },
                Err(e) => n == Err::<u32, Error>(e),
            },
    {
        if self.last_zero {
            self.last_zero = false;
            return Ok(0);
        }
        match read_raw_prefix(r) {
            Err(e) => Err(e),
            Ok(raw) => {
                let z: u64 = raw / 2 + if self.last_one { 1u64 } else { 0u64 };
                self.last_one = raw % 2 == 1;
                self.last_zero = raw % 2 == 0;
                Ok(z as u32)
            }
        }
    }
}

} // verus!
