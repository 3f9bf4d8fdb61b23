//! Floating-point samples: IEEE-754 single bit patterns stored as scaled
//! integers, with what the integers cannot hold stored as literal bits.
//!
//! Samples are handled as 32-bit patterns throughout: eight exponent bits
//! above 23 mantissa bits, the sign on top.
use vstd::prelude::*;
use vstd::arithmetic::power2::{pow2, lemma_pow2_pos, lemma_pow2_adds, lemma_pow2_strictly_increases, lemma2_to64};
use crate::arith::{as_signed, bit_length, bit_length_u32, lemma_bit_length, lemma_bit_length_bound, pow2_u64, signed_word, wrap_u32};
use crate::bits::{BitReader, BitWriter, bits_of, value_of, lemma_bits_len, lemma_bits_of_value, lemma_value_of_bits};
use crate::crc::{CRC_INIT, crc_step, update_mono};
use crate::error::{Error, Result};
use crate::int32::{extension_bits, extension_payload, finish_extension, lemma_extension_payload, low_zeros, optional_bytes, trailing_zero_bits};

verus! {

/// Bytes of the profile payload.
pub const FLOAT_INFO_PAYLOAD_BYTES: usize = 4;

/// Vacated mantissa bits are ones.
pub const FLOAT_SHIFT_ONES: u8 = 0x01;

/// Vacated mantissa bits are all alike within a sample, and stored as one bit.
pub const FLOAT_SHIFT_SAME: u8 = 0x02;

/// Vacated mantissa bits are stored.
pub const FLOAT_SHIFT_SENT: u8 = 0x04;

/// Samples that the integers hold as zero are stored.
pub const FLOAT_ZEROS_SENT: u8 = 0x08;

/// Negative zeros occur.
pub const FLOAT_NEG_ZEROS: u8 = 0x10;

/// Infinities or NaNs occur.
pub const FLOAT_EXCEPTIONS: u8 = 0x20;

/// The floating-point profile of a block.
#[derive(Debug, Clone, Copy, PartialEq, Eq, Structural)]
pub struct FloatInfo {
    /// How vacated bits, zeros and exceptional values are stored.
    pub float_flags: u8,
    /// Zero bits below every scaled integer.
    pub float_shift: u8,
    /// The exponent of a 24-bit scaled integer.
    pub float_max_exp: u8,
    /// The exponent of unity.
    pub float_norm_exp: u8,
}

/// Whether the flag byte `f` has flag `p`.
pub open spec fn flagged(f: u8, p: u8) -> bool {
    f / p % 2 == 1
}

impl FloatInfo {
    /// Whether the profile needs literal bits of ordinary samples.
    pub open spec fn needs_extension(&self) -> bool {
        flagged(self.float_flags, 4) || flagged(self.float_flags, 2) || flagged(self.float_flags, 8)
    }

    /// Whether the profile needs literal bits of ordinary samples.
    #[must_use]
    pub fn requires_extension(&self) -> (r: bool)
        ensures
            r == self.needs_extension(),
    {
        self.float_flags / 4 % 2 == 1 || self.float_flags / 2 % 2 == 1 || self.float_flags / 8 % 2 == 1
    }

    /// Every profile is supported.
    #[must_use]
    pub fn is_supported(&self) -> (r: bool)
        ensures
            r,
    {
        true
    }
}

/// Reads a floating-point profile.
pub fn expand_float_info(payload: &[u8]) -> (r: Result<FloatInfo>)
    ensures
        r == float_info_of(payload@),
{
    if payload.len() != FLOAT_INFO_PAYLOAD_BYTES {
        return Err(Error::FloatInfoLength(payload.len()));
    }
    Ok(
        FloatInfo {
            float_flags: payload[0],
            float_shift: payload[1],
            float_max_exp: payload[2],
            float_norm_exp: payload[3],
        },
    )
}

/// The profile in a payload, or why it is none.
pub open spec fn float_info_of(payload: Seq<u8>) -> core::result::Result<FloatInfo, Error> {
    if payload.len() != FLOAT_INFO_PAYLOAD_BYTES {
        Err(Error::FloatInfoLength(payload.len() as usize))
    } else {
        Ok(
            FloatInfo {
                float_flags: payload[0],
                float_shift: payload[1],
                float_max_exp: payload[2],
                float_norm_exp: payload[3],
            },
        )
    }
}

// ---------------------------------------------------------------------------
// Bit patterns
// ---------------------------------------------------------------------------

/// The exponent field of a pattern.
pub open spec fn exponent(b: u32) -> nat {
    (b / 0x80_0000 % 256) as nat
}

/// The mantissa field of a pattern.
pub open spec fn mantissa(b: u32) -> nat {
    (b % 0x80_0000) as nat
}

/// Whether a pattern's sign bit is set.
pub open spec fn negative(b: u32) -> bool {
    b >= 0x8000_0000
}

/// The pattern of a sign, an exponent and a mantissa.
pub open spec fn pattern(neg: bool, exp: nat, man: nat) -> u32 {
    ((if neg {
        0x8000_0000int
    } else {
        0
    }) + exp * 0x80_0000 + man) as u32
}

/// A pattern is made of its fields.
pub proof fn lemma_pattern(b: u32)
    ensures
        pattern(negative(b), exponent(b), mantissa(b)) == b,
        exponent(b) < 256,
        mantissa(b) < 0x80_0000,
{
}

fn make_pattern(neg: bool, exp: u32, man: u32) -> (r: u32)
    requires
        exp < 256,
        man < 0x80_0000,
    ensures
        r == pattern(neg, exp as nat, man as nat),
{
    (if neg {
        0x8000_0000u32
    } else {
        0u32
    }) + exp * 0x80_0000 + man
}

/// The check after one more pattern: one step for each of its fields.
pub open spec fn float_crc_step(crc: u32, b: u32) -> u32 {
    crc_step(
        crc_step(crc_step(crc, mantissa(b) as i32), exponent(b) as i32),
        if negative(b) {
            1
        } else {
            0
        },
    )
}

/// The check over patterns.
pub open spec fn float_crc_over(x: Seq<u32>) -> u32
    decreases x.len(),
{
    if x.len() == 0 {
        CRC_INIT
    } else {
        float_crc_step(float_crc_over(x.drop_last()), x.last())
    }
}

/// Moves the check past one pattern.
#[must_use]
pub fn update_float_extension(crc_x: u32, float_bits: u32) -> (r: u32)
    ensures
        r == float_crc_step(crc_x, float_bits),
{
    let a: u32 = update_mono(crc_x, (float_bits % 0x80_0000) as i32);
    let b: u32 = update_mono(a, (float_bits / 0x80_0000 % 256) as i32);
    update_mono(b, (float_bits / 0x8000_0000) as i32)
}

// ---------------------------------------------------------------------------
// Restoring
// ---------------------------------------------------------------------------

/// What restoring one sample gives: its pattern and the literal bits left over.
pub type FloatRead = core::result::Result<(u32, Option<Seq<bool>>), Error>;

/// The pattern of a sample that the integers hold as zero: zero itself where
/// nothing is stored; otherwise a marked full pattern, or an unmarked zero
/// with its sign where negative zeros occur.
pub open spec fn restore_zero(info: FloatInfo, ext: Option<Seq<bool>>, implied: bool) -> FloatRead {
    if !flagged(info.float_flags, 8) {
        Ok((0, ext))
    } else {
        match ext {
            None => if implied {
                Ok((0, ext))
            } else {
                Err(Error::BlockMissingOverflowBits)
            },
            Some(s) => if s.len() == 0 {
                Err(Error::Truncated)
            } else if s[0] {
                if s.len() < 33 {
                    Err(Error::Truncated)
                } else {
                    Ok(
                        (
                            pattern(s[32], value_of(s.subrange(24, 32)), value_of(s.subrange(1, 24))),
                            Some(s.skip(33)),
                        ),
                    )
                }
            } else if flagged(info.float_flags, 16) {
                if s.len() < 2 {
                    Err(Error::Truncated)
                } else {
                    Ok((pattern(s[1], 0, 0), Some(s.skip(2))))
                }
            } else {
                Ok((0, Some(s.skip(1))))
            },
        }
    }
}

/// The pattern of an exceptional sample: an infinity, or a marked NaN mantissa.
pub open spec fn restore_exception(neg: bool, ext: Option<Seq<bool>>) -> FloatRead {
    match ext {
        None => Err(Error::BlockMissingOverflowBits),
        Some(s) => if s.len() == 0 {
            Err(Error::Truncated)
        } else if s[0] {
            if s.len() < 24 {
                Err(Error::Truncated)
            } else {
                Ok((pattern(neg, 255, value_of(s.subrange(1, 24))), Some(s.skip(24))))
            }
        } else {
            Ok((pattern(neg, 255, 0), Some(s.skip(1))))
        },
    }
}

/// The `n` vacated bits of a mantissa.
pub open spec fn restore_window(info: FloatInfo, n: nat, ext: Option<Seq<bool>>, implied: bool) -> core::result::Result<
    (nat, Option<Seq<bool>>),
    Error,
> {
    if n == 0 {
        Ok((0, ext))
    } else if flagged(info.float_flags, 4) {
        match ext {
            None => if implied {
                Ok((0, ext))
            } else {
                Err(Error::BlockMissingOverflowBits)
            },
            Some(s) => if s.len() < n {
                Err(Error::Truncated)
            } else {
                Ok((value_of(s.take(n as int)), Some(s.skip(n as int))))
            },
        }
    } else if flagged(info.float_flags, 1) {
        Ok(((pow2(n) - 1) as nat, ext))
    } else if flagged(info.float_flags, 2) {
        match ext {
            None => if implied {
                Ok((0, ext))
            } else {
                Err(Error::BlockMissingOverflowBits)
            },
            Some(s) => if s.len() == 0 {
                Err(Error::Truncated)
            } else {
                Ok(
                    (
                        if s[0] {
                            (pow2(n) - 1) as nat
                        } else {
                            0
                        },
                        Some(s.drop_first()),
                    ),
                )
            },
        }
    } else {
        Ok((0, ext))
    }
}

/// The absolute value of an integer.
pub open spec fn absolute(v: i32) -> nat {
    if v < 0 {
        (-v) as nat
    } else {
        v as nat
    }
}

/// The scaled integer moved up by the profile's shift.
pub open spec fn scaled(v: i32, info: FloatInfo) -> u32 {
    wrap_u32((absolute(v) * pow2(info.float_shift as nat % 32)) as int)
}

/// The pattern of a scaled integer.
pub open spec fn restore_float_one(v: i32, info: FloatInfo, ext: Option<Seq<bool>>, implied: bool) -> FloatRead {
    let neg = v < 0;
    if v == 0 {
        restore_zero(info, ext, implied)
    } else {
        let value = scaled(v, info);
        let width = bit_length(value as nat);
        if width > 24 {
            if flagged(info.float_flags, 32) && width == 25 {
                restore_exception(neg, ext)
            } else {
                Err(Error::FloatMagnitudeOverflow(value))
            }
        } else {
            let n = (24 - width) as nat;
            let exp = info.float_max_exp - n;
            if exp <= 0 {
                Ok((pattern(neg, 0, (value as nat / pow2((1 - exp) as nat)) % 0x80_0000), ext))
            } else {
                match restore_window(info, n, ext, implied) {
                    Err(e) => Err(e),
                    Ok((low, left)) => Ok((pattern(neg, exp as nat, (value as nat * pow2(n) + low) % 0x80_0000), left)),
                }
            }
        }
    }
}

/// How far restoring a buffer has come.
#[verifier::ext_equal]
pub struct RestoredFloats {
    /// The patterns restored so far.
    pub done: Seq<u32>,
    /// The literal bits left over, where there is a stream of them.
    pub left: Option<Seq<bool>>,
    /// Why it stopped short, if it did.
    pub error: Option<Error>,
}

/// Integers `i` and up restored after `done`.
pub open spec fn restore_floats(
    x: Seq<i32>,
    info: FloatInfo,
    i: int,
    done: Seq<u32>,
    ext: Option<Seq<bool>>,
    implied: bool,
) -> RestoredFloats
    decreases x.len() - i,
{
    if i < 0 || i >= x.len() {
        RestoredFloats { done, left: ext, error: None }
    } else {
        match restore_float_one(x[i], info, ext, implied) {
            Err(e) => RestoredFloats { done, left: ext, error: Some(e) },
            Ok((b, left)) => restore_floats(x, info, i + 1, done.push(b), left, implied),
        }
    }
}

/// Patterns as signed words.
pub open spec fn signed_all(x: Seq<u32>) -> Seq<i32> {
    Seq::new(x.len(), |i: int| as_signed(x[i]))
}

/// The view of an optional reader.
pub open spec fn reader_view(ext: Option<&mut BitReader<'_>>) -> Option<Seq<bool>> {
    match ext {
        Some(r) => Some(r@),
        None => None,
    }
}

fn take_field(reader: &mut BitReader<'_>, n: u32) -> (r: Result<u32>)
    requires
        old(reader).wf(),
        n <= 24,
    ensures
        final(reader).wf(),
        old(reader)@.len() < n ==> r == Err::<u32, Error>(Error::Truncated),
        old(reader)@.len() >= n ==> {
            &&& r is Ok
            &&& r->Ok_0 == value_of(old(reader)@.take(n as int))
            &&& r->Ok_0 < pow2(n as nat)
            &&& final(reader)@ == old(reader)@.skip(n as int)
        },
{
    proof {
        if reader@.len() >= n {
            lemma_bits_of_value(reader@.take(n as int));
        }
    }
    reader.get_bits(n)
}

fn take_flag(reader: &mut BitReader<'_>) -> (r: Result<bool>)
    requires
        old(reader).wf(),
    ensures
        final(reader).wf(),
        old(reader)@.len() == 0 ==> r == Err::<bool, Error>(Error::Truncated),
        old(reader)@.len() > 0 ==> r == Ok::<bool, Error>(old(reader)@[0]) && final(reader)@ == old(reader)@.skip(1),
{
    proof {
        if reader@.len() > 0 {
            assert(reader@.skip(1) =~= reader@.drop_first());
        }
    }
    reader.get_bit()
}

fn read_zero(info: &FloatInfo, reader: &mut BitReader<'_>) -> (r: Result<u32>)
    requires
        old(reader).wf(),
        flagged(info.float_flags, 8),
    ensures
        final(reader).wf(),
        match restore_zero(*info, Some(old(reader)@), false) {
            Err(e) => r == Err::<u32, Error>(e),
            Ok((b, left)) => r == Ok::<u32, Error>(b) && left == Some(final(reader)@),
        },
{
    let ghost s = reader@;
    proof {
        lemma2_to64();
    }
    match take_flag(reader) {
        Err(e) => {
            return Err(e);
        }
        Ok(false) => {
            if info.float_flags / 16 % 2 == 1 {
                match take_flag(reader) {
                    Err(e) => {
                        return Err(e);
                    }
                    Ok(neg) => {
                        assert(s.skip(1).skip(1) =~= s.skip(2));
                        return Ok(make_pattern(neg, 0, 0));
                    }
                }
            }
            return Ok(0);
        }
        Ok(true) => {}
    }
    let man: u32 = match take_field(reader, 23) {
        Err(e) => {
            return Err(e);
        }
        Ok(v) => v,
    };
    let exp: u32 = match take_field(reader, 8) {
        Err(e) => {
            return Err(e);
        }
        Ok(v) => v,
    };
    match take_flag(reader) {
        Err(e) => Err(e),
        Ok(neg) => {
            proof {
                assert(s.skip(1).take(23) =~= s.subrange(1, 24));
                assert(s.skip(1).skip(23).take(8) =~= s.subrange(24, 32));
                assert(s.skip(1).skip(23).skip(8).skip(1) =~= s.skip(33));
            }
            Ok(make_pattern(neg, exp, man))
        }
    }
}

fn read_exception(neg: bool, reader: &mut BitReader<'_>) -> (r: Result<u32>)
    requires
        old(reader).wf(),
    ensures
        final(reader).wf(),
        match restore_exception(neg, Some(old(reader)@)) {
            Err(e) => r == Err::<u32, Error>(e),
            Ok((b, left)) => r == Ok::<u32, Error>(b) && left == Some(final(reader)@),
        },
{
    let ghost s = reader@;
    proof {
        lemma2_to64();
    }
    match take_flag(reader) {
        Err(e) => Err(e),
        Ok(false) => Ok(make_pattern(neg, 255, 0)),
        Ok(true) => match take_field(reader, 23) {
            Err(e) => Err(e),
            Ok(man) => {
                proof {
                    assert(s.skip(1).take(23) =~= s.subrange(1, 24));
                    assert(s.skip(1).skip(23) =~= s.skip(24));
                }
                Ok(make_pattern(neg, 255, man))
            }
        },
    }
}

/// Restores one pattern from its scaled integer. Without a stream of literal
/// bits, `implied` asks for zeros in their place.
fn reassemble_one(integer: i32, info: &FloatInfo, ext: Option<&mut BitReader<'_>>, implied: bool) -> (r: Result<u32>)
    requires
        ext is Some ==> ext->Some_0.wf(),
    ensures
        match restore_float_one(integer, *info, reader_view(ext), implied) {
            Err(e) => r == Err::<u32, Error>(e),
            Ok((b, left)) => r == Ok::<u32, Error>(b) && (ext is Some ==> left == Some(final(ext->Some_0)@)),
        },
        ext is Some ==> final(ext->Some_0).wf(),
{
    let flags: u8 = info.float_flags;
    let neg: bool = integer < 0;
    let magnitude: u32 = if integer < 0 {
        (-(integer as i64)) as u32
    } else {
        integer as u32
    };
    if magnitude == 0 {
        if flags / 8 % 2 == 0 {
            return Ok(0);
        }
        return match ext {
            Some(reader) => read_zero(info, reader),
            None => if implied {
                Ok(0)
            } else {
                Err(Error::BlockMissingOverflowBits)
            },
        };
    }
    proof {
        lemma2_to64();
        if info.float_shift % 32 < 31 {
            lemma_pow2_strictly_increases((info.float_shift % 32) as nat, 31);
        }
    }
    let p: u64 = pow2_u64((info.float_shift % 32) as u32);
    assert(magnitude * p <= 0x8000_0000 * 0x8000_0000) by (nonlinear_arith)
        requires
            magnitude <= 0x8000_0000,
            p <= 0x8000_0000,
    ;
    let value: u32 = ((magnitude as u64 * p) % 0x1_0000_0000) as u32;
    assert(value == scaled(integer, *info));
    let width: u32 = bit_length_u32(value);
    if width > 24 {
        if flags / 32 % 2 == 1 && width == 25 {
            return match ext {
                Some(reader) => read_exception(neg, reader),
                None => Err(Error::BlockMissingOverflowBits),
            };
        }
        return Err(Error::FloatMagnitudeOverflow(value));
    }
    let shift_needed: u32 = 24 - width;
    proof {
        lemma_bit_length(value as nat);
        if width < 24 {
            lemma_pow2_strictly_increases(width as nat, 24);
            lemma_pow2_strictly_increases(0, shift_needed as nat);
        }
        if shift_needed < 24 {
            lemma_pow2_strictly_increases(shift_needed as nat, 24);
        }
        lemma_pow2_pos(shift_needed as nat);
    }
    if info.float_max_exp as u32 <= shift_needed {
        let drop: u32 = 1 + shift_needed - info.float_max_exp as u32;
        let denormal: u64 = value as u64 / pow2_u64(drop);
        return Ok(make_pattern(neg, 0, (denormal % 0x80_0000) as u32));
    }
    let exponent: u32 = info.float_max_exp as u32 - shift_needed;
    let ones: u32 = (pow2_u64(shift_needed) - 1) as u32;
    let low_bits: u32 = if shift_needed == 0 {
        0
    } else if flags / 4 % 2 == 1 {
        match ext {
            Some(reader) => match take_field(reader, shift_needed) {
                Err(e) => {
                    return Err(e);
                }
                Ok(v) => v,
            },
            None => {
                if !implied {
                    return Err(Error::BlockMissingOverflowBits);
                }
                0
            }
        }
    } else if flags % 2 == 1 {
        ones
    } else if flags / 2 % 2 == 1 {
        match ext {
            Some(reader) => {
                let ghost s = reader@;
                match take_flag(reader) {
                    Err(e) => {
                        return Err(e);
                    }
                    Ok(b) => {
                        assert(s.skip(1) =~= s.drop_first());
                        if b {
                            ones
                        } else {
                            0
                        }
                    }
                }
            }
            None => {
                if !implied {
                    return Err(Error::BlockMissingOverflowBits);
                }
                0
            }
        }
    } else {
        0
    };
    let q: u64 = pow2_u64(shift_needed);
    assert(value * q <= 0x100_0000 * 0x100_0000) by (nonlinear_arith)
        requires
            value <= 0x100_0000,
            q <= 0x100_0000,
    ;
    let mantissa24: u64 = value as u64 * q + low_bits as u64;
    Ok(make_pattern(neg, exponent, (mantissa24 % 0x80_0000) as u32))
}

proof fn lemma_float_crc_push(x: Seq<u32>, b: u32)
    ensures
        float_crc_over(x.push(b)) == float_crc_step(float_crc_over(x), b),
{
    assert(x.push(b).drop_last() =~= x);
}

/// What a restore leaves in its buffer.
pub open spec fn float_buffer(before: Seq<i32>, after: Seq<i32>, out: RestoredFloats) -> bool {
    after == signed_all(out.done) + before.skip(out.done.len() as int)
}

fn reassemble_from(pcm: &mut [i32], info: &FloatInfo, ext: &mut BitReader<'_>) -> (r: Result<u32>)
    requires
        old(ext).wf(),
    ensures
        ({
            let out = restore_floats(old(pcm)@, *info, 0, Seq::empty(), Some(old(ext)@), false);
            &&& float_buffer(old(pcm)@, final(pcm)@, out)
            &&& match out.error {
                Some(e) => r == Err::<u32, Error>(e),
                None => r == Ok::<u32, Error>(float_crc_over(out.done)) && out.left == Some(final(ext)@),
            }
        }),
        final(ext).wf(),
{
    let ghost x = pcm@;
    let ghost whole = restore_floats(x, *info, 0, Seq::empty(), Some(ext@), false);
    let mut crc: u32 = CRC_INIT;
    let mut i: usize = 0;
    let ghost mut done: Seq<u32> = Seq::empty();
    assert(pcm@ =~= signed_all(done) + x.skip(0));
    while i < pcm.len()
        invariant
            x == old(pcm)@,
            pcm@.len() == x.len(),
            i <= x.len(),
            done.len() == i,
            ext.wf(),
            whole == restore_floats(old(pcm)@, *info, 0, Seq::empty(), Some(old(ext)@), false),
            whole == restore_floats(x, *info, i as int, done, Some(ext@), false),
            pcm@ == signed_all(done) + x.skip(i as int),
            crc == float_crc_over(done),
        decreases pcm.len() - i,
    {
        let integer: i32 = pcm[i];
        assert(integer == x[i as int]);
        match reassemble_one(integer, info, Some(&mut *ext), false) {
            Err(e) => {
                return Err(e);
            }
            Ok(b) => {
                crc = update_float_extension(crc, b);
                pcm[i] = signed_word(b);
                proof {
                    lemma_float_crc_push(done, b);
                    done = done.push(b);
                    assert(pcm@ =~= signed_all(done) + x.skip(i + 1));
                }
            }
        }
        i = i + 1;
    }
    assert(pcm@ =~= signed_all(done) + x.skip(x.len() as int));
    Ok(crc)
}

fn reassemble_bare(pcm: &mut [i32], info: &FloatInfo, implied: bool) -> (r: Result<u32>)
    ensures
        ({
            let out = restore_floats(old(pcm)@, *info, 0, Seq::empty(), None, implied);
            &&& float_buffer(old(pcm)@, final(pcm)@, out)
            &&& match out.error {
                Some(e) => r == Err::<u32, Error>(e),
                None => r == Ok::<u32, Error>(float_crc_over(out.done)),
            }
        }),
{
    let ghost x = pcm@;
    let ghost whole = restore_floats(x, *info, 0, Seq::empty(), None, implied);
    let mut crc: u32 = CRC_INIT;
    let mut i: usize = 0;
    let ghost mut done: Seq<u32> = Seq::empty();
    assert(pcm@ =~= signed_all(done) + x.skip(0));
    while i < pcm.len()
        invariant
            x == old(pcm)@,
            pcm@.len() == x.len(),
            i <= x.len(),
            done.len() == i,
            whole == restore_floats(old(pcm)@, *info, 0, Seq::empty(), None, implied),
            whole == restore_floats(x, *info, i as int, done, None, implied),
            pcm@ == signed_all(done) + x.skip(i as int),
            crc == float_crc_over(done),
        decreases pcm.len() - i,
    {
        let integer: i32 = pcm[i];
        assert(integer == x[i as int]);
        proof {
            lemma_bare_stays_bare(integer, *info, implied);
        }
        match reassemble_one(integer, info, None, implied) {
            Err(e) => {
                return Err(e);
            }
            Ok(b) => {
                crc = update_float_extension(crc, b);
                pcm[i] = signed_word(b);
                proof {
                    lemma_float_crc_push(done, b);
                    done = done.push(b);
                    assert(pcm@ =~= signed_all(done) + x.skip(i + 1));
                }
            }
        }
        i = i + 1;
    }
    assert(pcm@ =~= signed_all(done) + x.skip(x.len() as int));
    Ok(crc)
}

proof fn lemma_bare_stays_bare(v: i32, info: FloatInfo, implied: bool)
    ensures
        match restore_float_one(v, info, None, implied) {
            Ok((b, left)) => left is None,
            Err(e) => true,
        },
{
}

/// Restores the patterns of a buffer of scaled integers in place. Gives the
/// check over them.
pub fn reassemble_float(pcm: &mut [i32], info: &FloatInfo, ext: Option<&mut BitReader<'_>>) -> (r: Result<u32>)
    requires
        ext is Some ==> ext->Some_0.wf(),
    ensures
        ({
            let out = restore_floats(old(pcm)@, *info, 0, Seq::empty(), reader_view(ext), false);
            &&& float_buffer(old(pcm)@, final(pcm)@, out)
            &&& match out.error {
                Some(e) => r == Err::<u32, Error>(e),
                None => r == Ok::<u32, Error>(float_crc_over(out.done)) && (ext is Some ==> out.left == Some(
                    final(ext->Some_0)@,
                )),
            }
        }),
        ext is Some ==> final(ext->Some_0).wf(),
{
    match ext {
        Some(reader) => reassemble_from(pcm, info, reader),
        None => reassemble_bare(pcm, info, false),
    }
}

/// Restores the patterns of a buffer with zeros in place of the literal bits.
pub fn reassemble_float_implied(pcm: &mut [i32], info: &FloatInfo) -> (r: Result<()>)
    ensures
        ({
            let out = restore_floats(old(pcm)@, *info, 0, Seq::empty(), None, true);
            &&& float_buffer(old(pcm)@, final(pcm)@, out)
            &&& r == match out.error {
                Some(e) => Err::<(), Error>(e),
                None => Ok(()),
            }
        }),
{
    match reassemble_bare(pcm, info, true) {
        Err(e) => Err(e),
        Ok(_crc) => Ok(()),
    }
}

// ---------------------------------------------------------------------------
// Deriving a profile
// ---------------------------------------------------------------------------

/// A finite pattern with an implicit leading bit.
pub open spec fn normal(b: u32) -> bool {
    1 <= exponent(b) <= 254
}

/// The 24-bit mantissa of a normal pattern.
pub open spec fn full_mantissa(b: u32) -> nat {
    0x80_0000 + mantissa(b)
}

/// How far a pattern's exponent lies below the anchor.
pub open spec fn depth(b: u32, anchor: nat) -> int {
    anchor - exponent(b)
}

/// Whether a scaled integer can hold a pattern.
pub open spec fn windowed(b: u32, anchor: nat) -> bool {
    normal(b) && depth(b, anchor) <= 23
}

/// The mantissa bits that scaling a pattern vacates.
pub open spec fn window(b: u32, anchor: nat) -> nat {
    full_mantissa(b) % pow2(depth(b, anchor) as nat)
}

/// The mantissa bits that scaling a pattern keeps.
pub open spec fn kept(b: u32, anchor: nat) -> nat {
    full_mantissa(b) / pow2(depth(b, anchor) as nat)
}

/// Whether every vacated bit is zero.
#[verifier::opaque]
pub open spec fn windows_zero(x: Seq<u32>, anchor: nat) -> bool {
    forall|i: int| 0 <= i < x.len() && windowed(#[trigger] x[i], anchor) ==> window(x[i], anchor) == 0
}

/// Whether bits are vacated, and all of them are one.
#[verifier::opaque]
pub open spec fn windows_ones(x: Seq<u32>, anchor: nat) -> bool {
    &&& exists|i: int| 0 <= i < x.len() && windowed(#[trigger] x[i], anchor) && depth(x[i], anchor) > 0
    &&& forall|i: int|
        0 <= i < x.len() && windowed(#[trigger] x[i], anchor) ==> window(x[i], anchor) == pow2(
            depth(x[i], anchor) as nat,
        ) - 1
}

/// Whether the vacated bits of each pattern are all alike.
#[verifier::opaque]
pub open spec fn windows_uniform(x: Seq<u32>, anchor: nat) -> bool {
    forall|i: int|
        0 <= i < x.len() && windowed(#[trigger] x[i], anchor) ==> window(x[i], anchor) == 0 || window(x[i], anchor)
            == pow2(depth(x[i], anchor) as nat) - 1
}

/// Whether a normal pattern is too small for a scaled integer.
#[verifier::opaque]
pub open spec fn some_too_small(x: Seq<u32>, anchor: nat) -> bool {
    exists|i: int| 0 <= i < x.len() && normal(#[trigger] x[i]) && depth(x[i], anchor) > 23
}

/// The greatest exponent of a normal pattern.
pub open spec fn top_exponent(x: Seq<u32>) -> Option<nat>
    decreases x.len(),
{
    if x.len() == 0 {
        None
    } else {
        let before = top_exponent(x.drop_last());
        if normal(x.last()) && (before is None || exponent(x.last()) > before->Some_0) {
            Some(exponent(x.last()))
        } else {
            before
        }
    }
}

/// The low zeros that every scaled integer shares, where there are scaled integers.
pub open spec fn shared_shift(x: Seq<u32>, anchor: nat) -> Option<nat>
    decreases x.len(),
{
    if x.len() == 0 {
        None
    } else {
        let before = shared_shift(x.drop_last(), anchor);
        if windowed(x.last(), anchor) {
            let tz = low_zeros(kept(x.last(), anchor) as int);
            if before is None || tz < before->Some_0 {
                Some(tz)
            } else {
                before
            }
        } else {
            before
        }
    }
}

/// Whether a negative zero occurs.
#[verifier::opaque]
pub open spec fn some_negative_zero(x: Seq<u32>) -> bool {
    exists|i: int| 0 <= i < x.len() && #[trigger] x[i] == 0x8000_0000u32
}

/// Whether an infinity or a NaN occurs.
#[verifier::opaque]
pub open spec fn some_exception(x: Seq<u32>) -> bool {
    exists|i: int| 0 <= i < x.len() && exponent(#[trigger] x[i]) == 255
}

/// Whether a denormal occurs.
#[verifier::opaque]
pub open spec fn some_denormal(x: Seq<u32>) -> bool {
    exists|i: int| 0 <= i < x.len() && exponent(#[trigger] x[i]) == 0 && mantissa(x[i]) != 0
}

/// How a buffer is stored.
pub struct FloatPlan {
    /// Exceptional patterns are stored as zeros with a literal pattern.
    pub raised: bool,
    /// The flag of the vacated bits, or zero where they are zero.
    pub fill: u8,
    /// The exponent of a 24-bit scaled integer.
    pub anchor: nat,
    /// Zero bits below every scaled integer.
    pub shift: nat,
    /// Whether zeros are stored.
    pub zeros_sent: bool,
    /// Whether negative zeros are stored.
    pub neg_zeros: bool,
    /// Whether exceptional patterns have integers of their own.
    pub exceptions: bool,
}

/// The anchor before the choice of a fill: the top exponent, or one above it
/// for a raised plan.
pub open spec fn base_anchor(x: Seq<u32>, raised: bool) -> nat {
    let top = match top_exponent(x) {
        Some(e) => e,
        None => 126,
    };
    if raised {
        top + 1
    } else {
        top
    }
}

/// The cheapest fill that holds every vacated bit, and its anchor. One bit per
/// sample needs an anchor above every exponent.
pub open spec fn choose_fill(x: Seq<u32>, raised: bool) -> (u8, nat) {
    let base = base_anchor(x, raised);
    if windows_zero(x, base) {
        (0, base)
    } else if windows_ones(x, base) {
        (FLOAT_SHIFT_ONES, base)
    } else if raised {
        if windows_uniform(x, base) {
            (FLOAT_SHIFT_SAME, base)
        } else {
            (FLOAT_SHIFT_SENT, base)
        }
    } else if windows_uniform(x, base + 1) {
        (FLOAT_SHIFT_SAME, base + 1)
    } else {
        (FLOAT_SHIFT_SENT, base)
    }
}

/// The plan of a buffer.
pub open spec fn float_plan(x: Seq<u32>, raised: bool) -> FloatPlan {
    let (fill, anchor) = choose_fill(x, raised);
    FloatPlan {
        raised,
        fill,
        anchor,
        shift: match shared_shift(x, anchor) {
            None => 0,
            Some(t) => if t < 23 {
                t
            } else {
                23
            },
        },
        zeros_sent: some_too_small(x, anchor) || some_denormal(x) || some_negative_zero(x) || (raised
            && some_exception(x)),
        neg_zeros: some_negative_zero(x),
        exceptions: !raised && some_exception(x),
    }
}

/// The profile of a plan.
pub open spec fn plan_info(p: FloatPlan) -> FloatInfo {
    FloatInfo {
        float_flags: (p.fill + (if p.zeros_sent {
            8int
        } else {
            0
        }) + (if p.neg_zeros {
            16int
        } else {
            0
        }) + (if p.exceptions {
            32int
        } else {
            0
        })) as u8,
        float_shift: p.shift as u8,
        float_max_exp: (if p.anchor < 255 {
            p.anchor
        } else {
            255
        }) as u8,
        float_norm_exp: 127,
    }
}

/// A marked literal pattern.
pub open spec fn literal_pattern(b: u32) -> Seq<bool> {
    seq![true] + bits_of(mantissa(b), 23) + bits_of(exponent(b), 8) + seq![negative(b)]
}

/// A magnitude with the sign of a pattern.
pub open spec fn signed_as(b: u32, mag: nat) -> i32 {
    if negative(b) {
        (-(mag as int)) as i32
    } else {
        mag as i32
    }
}

/// The integer and the literal bits of a pattern.
pub open spec fn float_word(b: u32, p: FloatPlan) -> (i32, Seq<bool>) {
    if exponent(b) == 255 {
        if p.raised {
            (0, literal_pattern(b))
        } else {
            (
                signed_as(b, pow2((24 - p.shift) as nat)),
                if mantissa(b) == 0 {
                    seq![false]
                } else {
                    seq![true] + bits_of(mantissa(b), 23)
                },
            )
        }
    } else if exponent(b) == 0 && mantissa(b) == 0 {
        (
            0,
            if !p.zeros_sent {
                Seq::empty()
            } else if p.neg_zeros {
                seq![false, negative(b)]
            } else {
                seq![false]
            },
        )
    } else if !windowed(b, p.anchor) {
        (0, literal_pattern(b))
    } else {
        let d = depth(b, p.anchor);
        (
            signed_as(b, kept(b, p.anchor) / pow2(p.shift)),
            if d == 0 {
                Seq::empty()
            } else if p.fill == FLOAT_SHIFT_SENT {
                bits_of(window(b, p.anchor), d as nat)
            } else if p.fill == FLOAT_SHIFT_SAME {
                seq![window(b, p.anchor) != 0]
            } else {
                Seq::empty()
            },
        )
    }
}

/// The literal bits of all patterns.
pub open spec fn float_literals(x: Seq<u32>, p: FloatPlan) -> Seq<bool>
    decreases x.len(),
{
    if x.len() == 0 {
        Seq::empty()
    } else {
        float_literals(x.drop_last(), p) + float_word(x.last(), p).1
    }
}

/// The scaled integers of all patterns.
pub open spec fn float_integers(x: Seq<u32>, p: FloatPlan) -> Seq<i32> {
    Seq::new(x.len(), |i: int| float_word(x[i], p).0)
}

/// The literal payload of a buffer.
pub open spec fn float_extension(x: Seq<u32>, p: FloatPlan) -> Option<Seq<u8>> {
    if plan_info(p).needs_extension() || float_literals(x, p).len() > 0 {
        Some(extension_payload(float_crc_over(x), float_literals(x, p)))
    } else {
        None
    }
}

/// A buffer of patterns as it is stored.
#[derive(Debug, Clone, PartialEq, Eq)]
pub struct FloatDeconstruction {
    /// The profile.
    pub info: FloatInfo,
    /// The scaled integers.
    pub integers: Vec<i32>,
    /// The literal payload, where there are literal bits.
    pub extension: Option<Vec<u8>>,
}

/// Whether `top` bounds every normal exponent.
spec fn bounded_by(x: Seq<u32>, top: nat) -> bool {
    forall|i: int| 0 <= i < x.len() && normal(#[trigger] x[i]) ==> exponent(x[i]) <= top
}

proof fn lemma_top_exponent(x: Seq<u32>, i: int)
    requires
        0 <= i < x.len(),
        normal(x[i]),
    ensures
        top_exponent(x) is Some,
        exponent(x[i]) <= top_exponent(x)->Some_0 <= 254,
    decreases x.len(),
{
    lemma_top_bound(x);
    if i < x.len() - 1 {
        lemma_top_exponent(x.drop_last(), i);
    }
}

proof fn lemma_top_bound(x: Seq<u32>)
    ensures
        match top_exponent(x) {
            Some(e) => 1 <= e <= 254,
            None => true,
        },
    decreases x.len(),
{
    if x.len() > 0 {
        lemma_top_bound(x.drop_last());
    }
}

/// The base anchor bounds every normal exponent.
proof fn lemma_base_anchor(x: Seq<u32>, raised: bool)
    ensures
        bounded_by(x, base_anchor(x, raised)),
        base_anchor(x, raised) <= 255,
        raised ==> forall|i: int|
            0 <= i < x.len() && normal(#[trigger] x[i]) ==> exponent(x[i]) < base_anchor(x, raised),
        !raised ==> base_anchor(x, raised) <= 254,
{
    lemma_top_bound(x);
    assert forall|i: int| 0 <= i < x.len() && normal(#[trigger] x[i]) implies exponent(x[i]) <= base_anchor(x, false) by {
        lemma_top_exponent(x, i);
    }
}

/// The vacated bits over a buffer, at an anchor that bounds every exponent:
/// whether all are zero, whether there are some and all are one, whether each
/// sample's are alike, and whether some sample is too small.
fn survey(x: &[u32], anchor: u32) -> (r: (bool, bool, bool, bool))
    requires
        bounded_by(x@, anchor as nat),
        anchor <= 255,
    ensures
        r.0 == windows_zero(x@, anchor as nat),
        r.1 == windows_ones(x@, anchor as nat),
        r.2 == windows_uniform(x@, anchor as nat),
        r.3 == some_too_small(x@, anchor as nat),
{
    proof {
        reveal(windows_zero);
        reveal(windows_ones);
        reveal(windows_uniform);
        reveal(some_too_small);
    }
    let mut all_zero: bool = true;
    let mut all_ones: bool = true;
    let mut uniform: bool = true;
    let mut any_window: bool = false;
    let mut any_literal: bool = false;
    let ghost a = anchor as nat;
    let mut i: usize = 0;
    while i < x.len()
        invariant
            i <= x.len(),
            a == anchor,
            anchor <= 255,
            bounded_by(x@, a),
            all_zero == (forall|k: int| 0 <= k < i && windowed(#[trigger] x@[k], a) ==> window(x@[k], a) == 0),
            all_ones == (forall|k: int|
                0 <= k < i && windowed(#[trigger] x@[k], a) ==> window(x@[k], a) == pow2(depth(x@[k], a) as nat) - 1),
            uniform == (forall|k: int|
                0 <= k < i && windowed(#[trigger] x@[k], a) ==> window(x@[k], a) == 0 || window(x@[k], a) == pow2(
                    depth(x@[k], a) as nat,
                ) - 1),
            any_window == (exists|k: int| 0 <= k < i && windowed(#[trigger] x@[k], a) && depth(x@[k], a) > 0),
            any_literal == (exists|k: int| 0 <= k < i && normal(#[trigger] x@[k]) && depth(x@[k], a) > 23),
        decreases x.len() - i,
    {
        let b: u32 = x[i];
        let exp: u32 = b / 0x80_0000 % 256;
        if exp != 0 && exp != 255 {
            assert(normal(x@[i as int]));
            let d: u32 = anchor - exp;
            if d > 23 {
                any_literal = true;
                assert(normal(x@[i as int]) && depth(x@[i as int], a) > 23);
            } else {
                assert(windowed(x@[i as int], a));
                let p: u64 = pow2_u64(d);
                let w: u64 = (0x80_0000 + b as u64 % 0x80_0000) % p;
                proof {
                    lemma2_to64();
                    assert(w == window(b, a));
                }
                if d > 0 {
                    any_window = true;
                }
                if w != 0 {
                    all_zero = false;
                }
                if w != p - 1 {
                    all_ones = false;
                }
                if w != 0 && w != p - 1 {
                    uniform = false;
                }
            }
        }
        i = i + 1;
    }
    (all_zero, any_window && all_ones, uniform, any_literal)
}

fn find_top_exponent(x: &[u32]) -> (r: Option<u32>)
    ensures
        match r {
            Some(e) => top_exponent(x@) == Some(e as nat) && 1 <= e <= 254,
            None => top_exponent(x@) is None,
        },
{
    let mut top: Option<u32> = None;
    let mut i: usize = 0;
    assert(x@.take(0) =~= Seq::empty());
    while i < x.len()
        invariant
            i <= x.len(),
            match top {
                Some(e) => top_exponent(x@.take(i as int)) == Some(e as nat) && 1 <= e <= 254,
                None => top_exponent(x@.take(i as int)) is None,
            },
        decreases x.len() - i,
    {
        let exp: u32 = x[i] / 0x80_0000 % 256;
        assert(x@.take(i + 1).drop_last() =~= x@.take(i as int));
        if exp != 0 && exp != 255 {
            match top {
                None => {
                    top = Some(exp);
                }
                Some(e) => {
                    if exp > e {
                        top = Some(exp);
                    }
                }
            }
        }
        i = i + 1;
    }
    assert(x@.take(x.len() as int) =~= x@);
    top
}

proof fn lemma_kept(b: u32, anchor: nat)
    requires
        windowed(b, anchor),
        depth(b, anchor) >= 0,
    ensures
        ({
            let d = depth(b, anchor) as nat;
            &&& full_mantissa(b) == kept(b, anchor) * pow2(d) + window(b, anchor)
            &&& window(b, anchor) < pow2(d)
            &&& pow2((23 - d) as nat) <= kept(b, anchor) < pow2((24 - d) as nat)
            &&& kept(b, anchor) <= 0xff_ffff
            &&& bit_length(kept(b, anchor)) == 24 - d
        }),
{
    let d = depth(b, anchor) as nat;
    let p = pow2(d) as int;
    let f = full_mantissa(b) as int;
    let k = kept(b, anchor) as int;
    lemma2_to64();
    lemma_pow2_pos(d);
    vstd::arithmetic::div_mod::lemma_fundamental_div_mod(f, p);
    vstd::arithmetic::div_mod::lemma_mod_bound(f, p);
    assert(p * k == k * p) by (nonlinear_arith);
    lemma_pow2_adds(d, (24 - d) as nat);
    lemma_pow2_adds(d, (23 - d) as nat);
    let hi = pow2((24 - d) as nat) as int;
    let lo = pow2((23 - d) as nat) as int;
    assert(k < hi) by (nonlinear_arith)
        requires
            k * p <= f,
            f < 0x100_0000,
            p * hi == 0x100_0000,
            p > 0,
    ;
    assert(k >= lo) by (nonlinear_arith)
        requires
            f < k * p + p,
            f >= 0x80_0000,
            p * lo == 0x80_0000,
            p > 0,
    ;
    assert(k <= f) by (nonlinear_arith)
        requires
            k * p <= f,
            p >= 1,
            k >= 0,
    ;
    lemma_exact_length(k as nat, (24 - d) as nat);
}

/// A value between two neighbouring powers has the length of the upper.
proof fn lemma_exact_length(v: nat, n: nat)
    requires
        n > 0,
        pow2((n - 1) as nat) <= v < pow2(n),
    ensures
        bit_length(v) == n,
{
    lemma_bit_length_bound(v, n);
    lemma_bit_length(v);
    lemma_pow2_pos((n - 1) as nat);
    if bit_length(v) < n {
        if bit_length(v) < n - 1 {
            lemma_pow2_strictly_increases(bit_length(v), (n - 1) as nat);
        }
    }
}

fn find_shift(x: &[u32], anchor: u32) -> (r: u32)
    requires
        bounded_by(x@, anchor as nat),
        anchor <= 255,
    ensures
        r <= 23,
        r == match shared_shift(x@, anchor as nat) {
            None => 0,
            Some(t) => if t < 23 {
                t
            } else {
                23
            },
        },
{
    let mut least: Option<u32> = None;
    let ghost a = anchor as nat;
    let mut i: usize = 0;
    assert(x@.take(0) =~= Seq::empty());
    while i < x.len()
        invariant
            i <= x.len(),
            a == anchor,
            anchor <= 255,
            bounded_by(x@, a),
            match least {
                Some(t) => shared_shift(x@.take(i as int), a) == Some(t as nat),
                None => shared_shift(x@.take(i as int), a) is None,
            },
        decreases x.len() - i,
    {
        let b: u32 = x[i];
        let exp: u32 = b / 0x80_0000 % 256;
        assert(x@.take(i + 1).drop_last() =~= x@.take(i as int));
        if exp != 0 && exp != 255 {
            assert(normal(x@[i as int]));
            let d: u32 = anchor - exp;
            if d <= 23 {
                proof {
                    lemma_kept(b, a);
                }
                let v: u64 = (0x80_0000 + b as u64 % 0x80_0000) / pow2_u64(d);
                let tz: u32 = trailing_zero_bits(v as i32);
                match least {
                    None => {
                        least = Some(tz);
                    }
                    Some(t) => {
                        if tz < t {
                            least = Some(tz);
                        }
                    }
                }
            }
        }
        i = i + 1;
    }
    assert(x@.take(x.len() as int) =~= x@);
    match least {
        None => 0,
        Some(t) => if t < 23 {
            t
        } else {
            23
        },
    }
}

fn find_kinds(x: &[u32]) -> (r: (bool, bool, bool))
    ensures
        r.0 == some_negative_zero(x@),
        r.1 == some_denormal(x@),
        r.2 == some_exception(x@),
{
    proof {
        reveal(some_denormal);
        reveal(some_negative_zero);
        reveal(some_exception);
    }
    let mut neg_zero: bool = false;
    let mut denormal: bool = false;
    let mut exception: bool = false;
    let mut i: usize = 0;
    while i < x.len()
        invariant
            i <= x.len(),
            neg_zero == (exists|k: int| 0 <= k < i && #[trigger] x@[k] == 0x8000_0000u32),
            denormal == (exists|k: int| 0 <= k < i && exponent(#[trigger] x@[k]) == 0 && mantissa(x@[k]) != 0),
            exception == (exists|k: int| 0 <= k < i && exponent(#[trigger] x@[k]) == 255),
        decreases x.len() - i,
    {
        let b: u32 = x[i];
        let exp: u32 = b / 0x80_0000 % 256;
        let man: u32 = b % 0x80_0000;
        assert(x@[i as int] == b);
        if exp == 0 && man == 0 {
            if b >= 0x8000_0000 {
                neg_zero = true;
            }
        } else if exp == 0 {
            denormal = true;
        } else if exp == 255 {
            exception = true;
        }
        i = i + 1;
    }
    (neg_zero, denormal, exception)
}

fn write_literal(w: &mut BitWriter, b: u32)
    requires
        old(w).wf(),
    ensures
        final(w).wf(),
        final(w)@ == old(w)@ + literal_pattern(b),
{
    w.write_bit(true);
    w.write_bits((b % 0x80_0000) as u64, 23);
    w.write_bits((b / 0x80_0000 % 256) as u64, 8);
    w.write_bit(b >= 0x8000_0000);
    assert(w@ =~= old(w)@ + literal_pattern(b));
}

/// Writes the literal bits of a pattern; gives its integer.
fn write_float(w: &mut BitWriter, b: u32, anchor: u32, fill: u8, shift: u32, zeros_sent: bool, neg_zeros: bool, raised: bool) -> (r:
    i32)
    requires
        old(w).wf(),
        anchor <= 255,
        normal(b) ==> exponent(b) <= anchor,
        shift <= 23,
    ensures
        final(w).wf(),
        forall|p: FloatPlan|
            p.raised == raised && p.fill == fill && p.anchor == anchor && p.shift == shift && p.zeros_sent == zeros_sent
                && p.neg_zeros == neg_zeros ==> {
                &&& r == #[trigger] float_word(b, p).0
                &&& final(w)@ == old(w)@ + float_word(b, p).1
            },
{
    let ghost before = w@;
    let neg: bool = b >= 0x8000_0000;
    let exp: u32 = b / 0x80_0000 % 256;
    let man: u32 = b % 0x80_0000;
    proof {
        lemma2_to64();
    }
    if exp == 255 {
        if raised {
            write_literal(w, b);
            return 0;
        }
        if man == 0 {
            w.write_bit(false);
        } else {
            w.write_bit(true);
            w.write_bits(man as u64, 23);
        }
        proof {
            if shift > 0 {
                lemma_pow2_strictly_increases((24 - shift) as nat, 24);
            }
            if man == 0 {
                assert(w@ =~= before + seq![false]);
            } else {
                assert(w@ =~= before + (seq![true] + bits_of(man as nat, 23)));
            }
        }
        let mag: i32 = pow2_u64(24 - shift) as i32;
        return if neg {
            -mag
        } else {
            mag
        };
    }
    if exp == 0 && man == 0 {
        if zeros_sent {
            w.write_bit(false);
            if neg_zeros {
                w.write_bit(neg);
                assert(w@ =~= before + seq![false, neg]);
            } else {
                assert(w@ =~= before + seq![false]);
            }
        } else {
            assert(w@ =~= before + Seq::empty());
        }
        return 0;
    }
    if exp == 0 || anchor - exp > 23 {
        write_literal(w, b);
        return 0;
    }
    let d: u32 = anchor - exp;
    let full: u64 = 0x80_0000 + man as u64;
    let p: u64 = pow2_u64(d);
    let low: u64 = full % p;
    proof {
        lemma_kept(b, anchor as nat);
    }
    if d > 0 {
        if fill == FLOAT_SHIFT_SENT {
            w.write_bits(low, d);
        } else if fill == FLOAT_SHIFT_SAME {
            w.write_bit(low != 0);
            assert(w@ =~= before + seq![low != 0]);
        } else {
            assert(w@ =~= before + Seq::empty());
        }
    } else {
        assert(w@ =~= before + Seq::empty());
    }
    let q: u64 = pow2_u64(shift);
    proof {
        vstd::arithmetic::div_mod::lemma_div_is_ordered_by_denominator(kept(b, anchor as nat) as int, 1, q as int);
    }
    let mag: i32 = (full / p / q) as i32;
    if neg {
        -mag
    } else {
        mag
    }
}

fn deconstruct_float_impl(pcm: &[u32], raised: bool) -> (r: FloatDeconstruction)
    ensures
        r.info == plan_info(float_plan(pcm@, raised)),
        r.integers@ == float_integers(pcm@, float_plan(pcm@, raised)),
        optional_bytes(r.extension) == float_extension(pcm@, float_plan(pcm@, raised)),
{
    let (has_neg_zero, has_denormal, has_exception) = find_kinds(pcm);
    let top: u32 = match find_top_exponent(pcm) {
        Some(e) => e,
        None => 126,
    };
    let base: u32 = if raised {
        top + 1
    } else {
        top
    };
    proof {
        lemma_base_anchor(pcm@, raised);
    }
    let (w_zero, w_ones, w_uniform, _small) = survey(pcm, base);
    let (fill, anchor): (u8, u32) = if w_zero {
        (0, base)
    } else if w_ones {
        (FLOAT_SHIFT_ONES, base)
    } else if raised {
        if w_uniform {
            (FLOAT_SHIFT_SAME, base)
        } else {
            (FLOAT_SHIFT_SENT, base)
        }
    } else {
        let (_z, _o, uniform_up, _s) = survey(pcm, base + 1);
        if uniform_up {
            (FLOAT_SHIFT_SAME, base + 1)
        } else {
            (FLOAT_SHIFT_SENT, base)
        }
    };
    let (_z, _o, _u, any_literal) = survey(pcm, anchor);
    let shift: u32 = find_shift(pcm, anchor);
    let ghost plan = float_plan(pcm@, raised);
    let zeros_sent: bool = any_literal || has_denormal || has_neg_zero || (raised && has_exception);
    let exceptions: bool = !raised && has_exception;
    let flags: u8 = fill + (if zeros_sent {
        8u8
    } else {
        0u8
    }) + (if has_neg_zero {
        16u8
    } else {
        0u8
    }) + (if exceptions {
        32u8
    } else {
        0u8
    });
    let info = FloatInfo {
        float_flags: flags,
        float_shift: shift as u8,
        float_max_exp: if anchor < 255 {
            anchor as u8
        } else {
            255
        },
        float_norm_exp: 127,
    };
    assert(info == plan_info(plan));
    let mut wvx = BitWriter::new();
    let mut crc: u32 = CRC_INIT;
    let mut integers: Vec<i32> = Vec::new();
    let mut i: usize = 0;
    assert(pcm@.take(0) =~= Seq::empty());
    while i < pcm.len()
        invariant
            i <= pcm.len(),
            wvx.wf(),
            plan == float_plan(pcm@, raised),
            plan.raised == raised,
            plan.fill == fill,
            plan.anchor == anchor,
            plan.shift == shift,
            plan.zeros_sent == zeros_sent,
            plan.neg_zeros == has_neg_zero,
            anchor <= 255,
            shift <= 23,
            bounded_by(pcm@, anchor as nat),
            crc == float_crc_over(pcm@.take(i as int)),
            wvx@ == float_literals(pcm@.take(i as int), plan),
            integers@.len() == i,
            forall|k: int| 0 <= k < i ==> integers@[k] == float_word(pcm@[k], plan).0,
        decreases pcm.len() - i,
    {
        let b: u32 = pcm[i];
        assert(pcm@.take(i + 1).drop_last() =~= pcm@.take(i as int));
        assert(normal(pcm@[i as int]) ==> exponent(b) <= anchor);
        crc = update_float_extension(crc, b);
        let integer: i32 = write_float(&mut wvx, b, anchor, fill, shift, zeros_sent, has_neg_zero, raised);
        assert(integer == float_word(b, plan).0);
        integers.push(integer);
        i = i + 1;
    }
    assert(pcm@.take(pcm.len() as int) =~= pcm@);
    assert(integers@ =~= float_integers(pcm@, plan));
    let extension: Option<Vec<u8>> = if info.requires_extension() || !wvx.is_empty() {
        Some(finish_extension(crc, wvx))
    } else {
        None
    };
    FloatDeconstruction { info, integers, extension }
}

/// Stores a buffer of patterns.
#[must_use]
pub fn deconstruct_float(pcm: &[u32]) -> (r: FloatDeconstruction)
    ensures
        r.info == plan_info(float_plan(pcm@, false)),
        r.integers@ == float_integers(pcm@, float_plan(pcm@, false)),
        optional_bytes(r.extension) == float_extension(pcm@, float_plan(pcm@, false)),
{
    deconstruct_float_impl(pcm, false)
}

/// Stores a buffer of patterns for a lossy stream: every scaled integer leaves
/// room above it, and exceptional patterns stand as zeros.
#[must_use]
pub fn deconstruct_float_raised(pcm: &[u32]) -> (r: FloatDeconstruction)
    ensures
        r.info == plan_info(float_plan(pcm@, true)),
        r.integers@ == float_integers(pcm@, float_plan(pcm@, true)),
        optional_bytes(r.extension) == float_extension(pcm@, float_plan(pcm@, true)),
{
    deconstruct_float_impl(pcm, true)
}

// ---------------------------------------------------------------------------
// Restoring what was stored
// ---------------------------------------------------------------------------

/// Whether a plan holds the pattern `b`.
pub open spec fn plan_holds(p: FloatPlan, b: u32) -> bool {
    &&& p.anchor <= 255
    &&& p.shift <= 23
    &&& normal(b) ==> exponent(b) <= p.anchor
    &&& windowed(b, p.anchor) ==> kept(b, p.anchor) % pow2(p.shift) == 0
    &&& p.fill == 0 || p.fill == FLOAT_SHIFT_ONES || p.fill == FLOAT_SHIFT_SAME || p.fill == FLOAT_SHIFT_SENT
    &&& p.fill == 0 && windowed(b, p.anchor) ==> window(b, p.anchor) == 0
    &&& p.fill == FLOAT_SHIFT_ONES && windowed(b, p.anchor) ==> window(b, p.anchor) == pow2(
        depth(b, p.anchor) as nat,
    ) - 1
    &&& p.fill == FLOAT_SHIFT_SAME && windowed(b, p.anchor) ==> window(b, p.anchor) == 0 || window(b, p.anchor) == pow2(
        depth(b, p.anchor) as nat,
    ) - 1
    &&& normal(b) && depth(b, p.anchor) > 23 ==> p.zeros_sent
    &&& exponent(b) == 0 && mantissa(b) != 0 ==> p.zeros_sent
    &&& b == 0x8000_0000u32 ==> p.zeros_sent && p.neg_zeros
    &&& exponent(b) == 255 ==> if p.raised {
        p.zeros_sent
    } else {
        p.exceptions
    }
}

proof fn lemma_plan_flags(p: FloatPlan)
    requires
        p.fill == 0 || p.fill == FLOAT_SHIFT_ONES || p.fill == FLOAT_SHIFT_SAME || p.fill == FLOAT_SHIFT_SENT,
    ensures
        ({
            let f = plan_info(p).float_flags;
            &&& flagged(f, 1) == (p.fill == FLOAT_SHIFT_ONES)
            &&& flagged(f, 2) == (p.fill == FLOAT_SHIFT_SAME)
            &&& flagged(f, 4) == (p.fill == FLOAT_SHIFT_SENT)
            &&& flagged(f, 8) == p.zeros_sent
            &&& flagged(f, 16) == p.neg_zeros
            &&& flagged(f, 32) == p.exceptions
        }),
{
}

proof fn lemma_shared_shift(x: Seq<u32>, anchor: nat, i: int)
    requires
        0 <= i < x.len(),
        windowed(x[i], anchor),
    ensures
        shared_shift(x, anchor) is Some,
        shared_shift(x, anchor)->Some_0 <= low_zeros(kept(x[i], anchor) as int),
    decreases x.len(),
{
    if i < x.len() - 1 {
        lemma_shared_shift(x.drop_last(), anchor, i);
    }
}

/// The plan of a buffer holds every pattern of it.
pub proof fn lemma_plan_holds(x: Seq<u32>, raised: bool, i: int)
    requires
        0 <= i < x.len(),
    ensures
        plan_holds(float_plan(x, raised), x[i]),
{
    reveal(windows_zero);
    reveal(windows_ones);
    reveal(windows_uniform);
    reveal(some_too_small);
    reveal(some_denormal);
    reveal(some_negative_zero);
    reveal(some_exception);
    let p = float_plan(x, raised);
    let b = x[i];
    lemma_base_anchor(x, raised);
    if windowed(b, p.anchor) {
        lemma_shared_shift(x, p.anchor, i);
        crate::int32::lemma_zeros_divide(kept(b, p.anchor) as int, p.shift);
    }
    assert(normal(x[i]) ==> exponent(x[i]) <= base_anchor(x, raised));
    if normal(b) && depth(b, p.anchor) > 23 {
        assert(some_too_small(x, p.anchor));
    }
    if exponent(b) == 0 && mantissa(b) != 0 {
        assert(some_denormal(x));
    }
    if b == 0x8000_0000u32 {
        assert(x[i] == 0x8000_0000u32);
        assert(some_negative_zero(x));
    }
    if exponent(b) == 255 {
        assert(some_exception(x));
    }
}

proof fn lemma_literal_back(b: u32, info: FloatInfo, t: Seq<bool>)
    requires
        flagged(info.float_flags, 8),
    ensures
        restore_zero(info, Some(literal_pattern(b) + t), false) == Ok::<(u32, Option<Seq<bool>>), Error>((b, Some(t))),
{
    let s = literal_pattern(b) + t;
    lemma_pattern(b);
    lemma2_to64();
    lemma_value_of_bits(mantissa(b), 23);
    lemma_value_of_bits(exponent(b), 8);
    assert(s.subrange(1, 24) =~= bits_of(mantissa(b), 23));
    assert(s.subrange(24, 32) =~= bits_of(exponent(b), 8));
    assert(s[32] == negative(b));
    assert(s.skip(33) =~= t);
}

proof fn lemma_exception_back(b: u32, p: FloatPlan, t: Seq<bool>)
    requires
        plan_holds(p, b),
        exponent(b) == 255,
        !p.raised,
    ensures
        restore_float_one(float_word(b, p).0, plan_info(p), Some(float_word(b, p).1 + t), false) == Ok::<
            (u32, Option<Seq<bool>>),
            Error,
        >((b, Some(t))),
{
    let (v, bits) = float_word(b, p);
    let info = plan_info(p);
    let s = bits + t;
    lemma_plan_flags(p);
    lemma_pattern(b);
    lemma2_to64();
    lemma_pow2_pos((24 - p.shift) as nat);
    if p.shift > 0 {
        lemma_pow2_strictly_increases((24 - p.shift) as nat, 24);
    }
    lemma_pow2_adds((24 - p.shift) as nat, p.shift);
    assert(p.shift % 32 == p.shift);
    assert(scaled(v, info) == 0x100_0000);
    lemma_exact_length(0x100_0000, 25);
    if mantissa(b) == 0 {
        assert(s.skip(1) =~= t);
    } else {
        lemma_value_of_bits(mantissa(b), 23);
        assert(s.subrange(1, 24) =~= bits_of(mantissa(b), 23));
        assert(s.skip(24) =~= t);
    }
}

proof fn lemma_window_back(b: u32, p: FloatPlan, ext: Option<Seq<bool>>, t: Seq<bool>)
    requires
        plan_holds(p, b),
        windowed(b, p.anchor),
        ext == Some(float_word(b, p).1 + t) || (ext is None && float_word(b, p).1.len() == 0
            && !plan_info(p).needs_extension()),
    ensures
        restore_window(plan_info(p), depth(b, p.anchor) as nat, ext, false) == Ok::<(nat, Option<Seq<bool>>), Error>(
            (
                window(b, p.anchor),
                if ext is Some {
                    Some(t)
                } else {
                    None
                },
            ),
        ),
{
    let d = depth(b, p.anchor) as nat;
    let bits = float_word(b, p).1;
    lemma_plan_flags(p);
    lemma_kept(b, p.anchor);
    lemma2_to64();
    if d == 0 {
        assert(bits + t =~= t);
    } else if p.fill == FLOAT_SHIFT_SENT {
        lemma_value_of_bits(window(b, p.anchor), d);
        assert((bits + t).take(d as int) =~= bits);
        assert((bits + t).skip(d as int) =~= t);
    } else if p.fill == FLOAT_SHIFT_SAME {
        assert((bits + t).drop_first() =~= t);
    } else {
        assert(bits + t =~= t);
    }
}

proof fn lemma_scaled_back(b: u32, p: FloatPlan)
    requires
        plan_holds(p, b),
        windowed(b, p.anchor),
    ensures
        float_word(b, p).0 != 0,
        (float_word(b, p).0 < 0) == negative(b),
        scaled(float_word(b, p).0, plan_info(p)) == kept(b, p.anchor),
{
    let k = kept(b, p.anchor) as int;
    let q = pow2(p.shift) as int;
    let m = k / q;
    let v = float_word(b, p).0;
    lemma_kept(b, p.anchor);
    lemma2_to64();
    lemma_pow2_pos(p.shift);
    vstd::arithmetic::div_mod::lemma_fundamental_div_mod(k, q);
    assert(m * q == k) by (nonlinear_arith)
        requires
            k == q * m,
    ;
    lemma_pow2_pos((23 - depth(b, p.anchor)) as nat);
    assert(m > 0) by (nonlinear_arith)
        requires
            k > 0,
            m * q == k,
            q > 0,
    ;
    assert(m <= k) by (nonlinear_arith)
        requires
            m * q == k,
            q >= 1,
            m > 0,
    ;
    assert(p.shift % 32 == p.shift);
    assert(absolute(v) == m);
}

proof fn lemma_float_back(b: u32, p: FloatPlan, ext: Option<Seq<bool>>, t: Seq<bool>)
    requires
        plan_holds(p, b),
        ext == Some(float_word(b, p).1 + t) || (ext is None && float_word(b, p).1.len() == 0
            && !plan_info(p).needs_extension()),
    ensures
        restore_float_one(float_word(b, p).0, plan_info(p), ext, false) == Ok::<(u32, Option<Seq<bool>>), Error>(
            (
                b,
                if ext is Some {
                    Some(t)
                } else {
                    None
                },
            ),
        ),
{
    let (v, bits) = float_word(b, p);
    let info = plan_info(p);
    lemma_plan_flags(p);
    lemma_pattern(b);
    lemma_bits_len(mantissa(b), 23);
    lemma_bits_len(exponent(b), 8);
    if exponent(b) == 255 && !p.raised {
        lemma_exception_back(b, p, t);
    } else if exponent(b) == 255 {
        lemma_literal_back(b, info, t);
    } else if exponent(b) == 0 && mantissa(b) == 0 {
        if p.zeros_sent {
            if p.neg_zeros {
                assert((bits + t).skip(2) =~= t);
            } else {
                assert((bits + t).skip(1) =~= t);
            }
        } else {
            assert(bits + t =~= t);
        }
    } else if !windowed(b, p.anchor) {
        lemma_literal_back(b, info, t);
    } else {
        let d = depth(b, p.anchor) as nat;
        lemma_kept(b, p.anchor);
        lemma_scaled_back(b, p);
        lemma_window_back(b, p, ext, t);
        assert(full_mantissa(b) % 0x80_0000 == mantissa(b));
    }
}

/// The literal bits of the patterns from `i` on.
pub open spec fn float_literals_from(x: Seq<u32>, p: FloatPlan, i: int) -> Seq<bool>
    decreases x.len() - i,
{
    if i < 0 || i >= x.len() {
        Seq::empty()
    } else {
        float_word(x[i], p).1 + float_literals_from(x, p, i + 1)
    }
}

proof fn lemma_float_literals_split(x: Seq<u32>, p: FloatPlan, i: int)
    requires
        0 <= i <= x.len(),
    ensures
        float_literals(x, p) == float_literals(x.take(i), p) + float_literals_from(x, p, i),
    decreases x.len() - i,
{
    if i == x.len() {
        assert(x.take(i) =~= x);
        assert(float_literals(x, p) =~= float_literals(x.take(i), p) + float_literals_from(x, p, i));
    } else {
        lemma_float_literals_split(x, p, i + 1);
        assert(x.take(i + 1).drop_last() =~= x.take(i));
        assert(float_literals(x, p) =~= float_literals(x.take(i), p) + float_literals_from(x, p, i));
    }
}

proof fn lemma_floats_back(x: Seq<u32>, raised: bool, i: int, ext: Option<Seq<bool>>, t: Seq<bool>)
    requires
        0 <= i <= x.len(),
        ({
            let p = float_plan(x, raised);
            ext == Some(float_literals_from(x, p, i) + t) || (ext is None && float_literals_from(x, p, i).len() == 0
                && !plan_info(p).needs_extension())
        }),
    ensures
        ({
            let p = float_plan(x, raised);
            let out = restore_floats(float_integers(x, p), plan_info(p), i, x.take(i), ext, false);
            out.done == x && out.error is None
        }),
    decreases x.len() - i,
{
    let p = float_plan(x, raised);
    if i >= x.len() {
        assert(x.take(i) =~= x);
    } else {
        let rest = float_literals_from(x, p, i + 1);
        lemma_plan_holds(x, raised, i);
        assert(x.take(i).push(x[i]) =~= x.take(i + 1));
        if ext is Some {
            assert(float_literals_from(x, p, i) + t =~= float_word(x[i], p).1 + (rest + t));
        }
        lemma_float_back(x[i], p, ext, rest + t);
        lemma_floats_back(
            x,
            raised,
            i + 1,
            if ext is Some {
                Some(rest + t)
            } else {
                None
            },
            t,
        );
    }
}

/// Restoring a stored buffer gives every bit pattern back, and the check over
/// them is the one stored before their literal bits.
pub proof fn float_roundtrip(x: Seq<u32>, raised: bool)
    ensures
        ({
            let p = float_plan(x, raised);
            let out = restore_floats(
                float_integers(x, p),
                plan_info(p),
                0,
                Seq::empty(),
                match float_extension(x, p) {
                    Some(payload) => Some(extension_bits(payload)),
                    None => None,
                },
                false,
            );
            &&& out.done == x
            &&& out.error is None
            &&& float_extension(x, p) is Some ==> crate::arith::read_le32(float_extension(x, p)->Some_0, 0)
                == float_crc_over(x)
        }),
{
    let p = float_plan(x, raised);
    assert(x.take(0) =~= Seq::empty());
    lemma_float_literals_split(x, p, 0);
    assert(float_literals(x.take(0), p) + float_literals_from(x, p, 0) =~= float_literals_from(x, p, 0));
    if float_extension(x, p) is Some {
        let bits = float_literals(x, p);
        let crc = float_crc_over(x);
        lemma_extension_payload(crc, bits);
        let t = choose|t: Seq<bool>| extension_bits(extension_payload(crc, bits)) == bits + t;
        lemma_floats_back(x, raised, 0, Some(bits + t), t);
    } else {
        lemma_floats_back(x, raised, 0, None, Seq::empty());
    }
}

/// Scaled integers are small.
pub proof fn scaled_integers_are_small(x: Seq<u32>, raised: bool, i: int)
    requires
        0 <= i < x.len(),
    ensures
        crate::samples::magnitude(float_integers(x, float_plan(x, raised))[i]) <= 0x100_0000,
{
    let p = float_plan(x, raised);
    let b = x[i];
    lemma_plan_holds(x, raised, i);
    lemma_pattern(b);
    lemma2_to64();
    if exponent(b) == 255 {
        if (24 - p.shift) < 24 {
            vstd::arithmetic::power2::lemma_pow2_strictly_increases((24 - p.shift) as nat, 24);
        }
    } else if windowed(b, p.anchor) {
        let d = pow2(depth(b, p.anchor) as nat) as int;
        let s = pow2(p.shift) as int;
        lemma_pow2_pos(depth(b, p.anchor) as nat);
        lemma_pow2_pos(p.shift);
        let m = full_mantissa(b) as int;
        assert(0 <= m / d <= m) by (nonlinear_arith)
            requires
                m >= 0,
                d >= 1,
        ;
        let k = m / d;
        assert(0 <= k / s <= k) by (nonlinear_arith)
            requires
                k >= 0,
                s >= 1,
        ;
    }
}

/// Literal payloads of patterns take at most eight bytes per sample, a check and a pad.
pub proof fn pattern_payloads_are_small(x: Seq<u32>, raised: bool)
    ensures
        ({
            let ext = float_extension(x, float_plan(x, raised));
            ext is Some ==> ext->Some_0.len() <= 8 * x.len() + 6
        }),
{
    let p = float_plan(x, raised);
    assert forall|i: int| 0 <= i < x.len() && normal(#[trigger] x[i]) implies exponent(x[i]) <= p.anchor by {
        lemma_plan_holds(x, raised, i);
    }
    lemma_float_literals_len(x, p);
    crate::bits::lemma_unpack(float_literals(x, p));
}

proof fn lemma_float_literals_len(x: Seq<u32>, p: FloatPlan)
    requires
        bounded_by(x, p.anchor),
    ensures
        float_literals(x, p).len() <= 64 * x.len(),
    decreases x.len(),
{
    if x.len() > 0 {
        let b = x.last();
        let before = x.drop_last();
        assert(x[x.len() - 1] == b);
        assert forall|i: int| 0 <= i < before.len() && normal(#[trigger] before[i]) implies exponent(before[i])
            <= p.anchor by {
            assert(before[i] == x[i]);
        }
        lemma_float_literals_len(before, p);
        crate::bits::lemma_bits_len(mantissa(b), 23);
        crate::bits::lemma_bits_len(exponent(b), 8);
        if windowed(b, p.anchor) {
            crate::bits::lemma_bits_len(window(b, p.anchor), depth(b, p.anchor) as nat);
        }
        assert(float_word(b, p).1.len() <= 64);
    }
}

} // verus!
