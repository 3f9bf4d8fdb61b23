//! Wide integers: samples too wide for the word coder are narrowed before
//! coding and restored after it.
//!
//! Low bits that every sample shares as a pattern (zeros, ones, or copies of
//! the bit above them) are dropped; further low bits are stored literally.
use vstd::prelude::*;
use vstd::arithmetic::power2::{pow2, lemma_pow2_pos, lemma_pow2_unfold, lemma_pow2_strictly_increases, lemma2_to64};
use crate::arith::{as_signed, bit_length, bit_length_u32, floor_shr, le32, lemma_bit_length, lemma_bit_length_bound, lemma_wrap32, pow2_u64, push_le32, shifted, shl32, signed_word, wrap32, wrap_i32, wrap_u32};
use crate::bits::{BitReader, BitWriter, bits_of, byte_bits, pack_bits, value_of, lemma_value_of_bits};
use crate::crc::{ExtensionCrc, extension_over, extension_step};
use crate::error::{Error, Result};
use crate::packed_samples::padded;
use crate::samples::{magnitude, split_sign};

verus! {

/// Bytes of the profile payload.
pub const INT32_INFO_PAYLOAD_BYTES: usize = 4;

/// The magnitude width that narrowed samples fit in.
pub const INT32_TARGET_MAGNITUDE_BITS: u32 = 23;

/// No pattern longer than this is dropped.
pub const MAX_REDUNDANCY: u32 = 24;

/// The wide-integer profile of a block.
#[derive(Debug, Clone, Copy, PartialEq, Eq, Structural)]
pub struct Int32Info {
    /// Literal low bits per sample.
    pub sent_bits: u8,
    /// Dropped low zeros.
    pub zeros: u8,
    /// Dropped low ones.
    pub ones: u8,
    /// Dropped copies of the bit above them.
    pub dups: u8,
}

/// `value` with `n` one bits below it; nothing but ones is left from 32 on.
pub open spec fn with_ones(value: i32, n: nat) -> i32 {
    if n >= 32 {
        -1i32
    } else {
        wrap32(value * pow2(n) + pow2(n) - 1)
    }
}

/// `value` with `n` literal low bits below it.
pub open spec fn with_literal(value: i32, n: nat, literal: u32) -> i32 {
    if n < 32 {
        wrap32(value * pow2(n) + literal)
    } else {
        shifted(value, n) | as_signed(literal)
    }
}

impl Int32Info {
    /// At most one pattern count is set.
    pub open spec fn exclusive(&self) -> bool {
        !(self.zeros > 0 && self.ones > 0) && !(self.zeros > 0 && self.dups > 0) && !(self.ones > 0 && self.dups > 0)
    }

    /// The pattern bits of an exclusive profile.
    pub open spec fn redundancy(&self) -> nat {
        if self.zeros > 0 {
            self.zeros as nat
        } else if self.ones > 0 {
            self.ones as nat
        } else {
            self.dups as nat
        }
    }

    /// The pattern bits: whichever count is set.
    #[must_use]
    pub fn redundancy_bits(&self) -> (r: u8)
        ensures
            r == self.zeros | self.ones | self.dups,
            self.exclusive() ==> r == self.redundancy(),
    {
        proof {
            let (z, o, d) = (self.zeros, self.ones, self.dups);
            assert((z == 0 && o == 0 ==> z | o | d == d) && (z == 0 && d == 0 ==> z | o | d == o) && (o == 0 && d == 0
                ==> z | o | d == z)) by (bit_vector);
        }
        self.zeros | self.ones | self.dups
    }

    /// Every low bit that decoding puts back.
    #[must_use]
    pub fn total_shift(&self) -> (r: u32)
        ensures
            r == self.sent_bits + (self.zeros | self.ones | self.dups),
    {
        self.sent_bits as u32 + self.redundancy_bits() as u32
    }

    /// Whether the profile needs literal bits.
    #[must_use]
    pub fn requires_extension(&self) -> (r: bool)
        ensures
            r == (self.sent_bits > 0),
    {
        self.sent_bits > 0
    }

    /// `value` with the dropped pattern below it.
    pub open spec fn restored(&self, value: i32) -> i32 {
        if self.zeros > 0 {
            shifted(value, self.zeros as nat)
        } else if self.ones > 0 {
            with_ones(value, self.ones as nat)
        } else if self.dups > 0 {
            if value % 2 == 1 {
                with_ones(value, self.dups as nat)
            } else {
                shifted(value, self.dups as nat)
            }
        } else {
            value
        }
    }

    /// Puts the dropped pattern back below `value`.
    #[must_use]
    pub fn reinsert_redundancy(&self, value: i32) -> (r: i32)
        ensures
            r == self.restored(value),
    {
        if self.zeros > 0 {
            shl32(value, self.zeros as u32)
        } else if self.ones > 0 {
            fill_ones(value, self.ones)
        } else if self.dups > 0 {
            let odd: bool = low_bit(value);
            if odd {
                fill_ones(value, self.dups)
            } else {
                shl32(value, self.dups as u32)
            }
        } else {
            value
        }
    }
}

fn low_bit(value: i32) -> (r: bool)
    ensures
        r == (value % 2 == 1),
{
    (value as i64 + 0x8000_0000) as u64 % 2 == 1
}

fn fill_ones(value: i32, n: u8) -> (r: i32)
    ensures
        r == with_ones(value, n as nat),
{
    if n >= 32 {
        -1
    } else {
        let p: u64 = pow2_u64(n as u32);
        proof {
            lemma2_to64();
            if n < 31 {
                lemma_pow2_strictly_increases(n as nat, 31);
            }
        }
        assert(-0x4000_0000_0000_0000 <= value * p <= 0x4000_0000_0000_0000) by (nonlinear_arith)
            requires
                -0x8000_0000 <= value <= 0x7fff_ffff,
                0 <= p <= 0x8000_0000,
        ;
        wrap_i32(value as i64 * p as i64 + (p as i64 - 1))
    }
}

fn join_literal(value: i32, n: u8, literal: u32) -> (r: i32)
    ensures
        r == with_literal(value, n as nat, literal),
{
    if n < 32 {
        let p: u64 = pow2_u64(n as u32);
        proof {
            lemma2_to64();
            if n < 31 {
                lemma_pow2_strictly_increases(n as nat, 31);
            }
        }
        assert(-0x4000_0000_0000_0000 <= value * p <= 0x4000_0000_0000_0000) by (nonlinear_arith)
            requires
                -0x8000_0000 <= value <= 0x7fff_ffff,
                0 <= p <= 0x8000_0000,
        ;
        wrap_i32(value as i64 * p as i64 + literal as i64)
    } else {
        shl32(value, n as u32) | signed_word(literal)
    }
}

/// The profile in a payload, or why it is none.
pub open spec fn int32_info_of(payload: Seq<u8>) -> core::result::Result<Int32Info, Error> {
    if payload.len() != INT32_INFO_PAYLOAD_BYTES {
        Err(Error::Int32InfoLength(payload.len() as usize))
    } else {
        let info = Int32Info { sent_bits: payload[0], zeros: payload[1], ones: payload[2], dups: payload[3] };
        if info.exclusive() {
            Ok(info)
        } else {
            Err(Error::Int32InfoConflict { zeros: info.zeros, ones: info.ones, dups: info.dups })
        }
    }
}

/// Reads a wide-integer profile.
pub fn expand_int32_info(payload: &[u8]) -> (r: Result<Int32Info>)
    ensures
        r == int32_info_of(payload@),
{
    if payload.len() != INT32_INFO_PAYLOAD_BYTES {
        return Err(Error::Int32InfoLength(payload.len()));
    }
    let info = Int32Info { sent_bits: payload[0], zeros: payload[1], ones: payload[2], dups: payload[3] };
    let conflict: bool = (info.zeros > 0 && info.ones > 0) || (info.zeros > 0 && info.dups > 0) || (info.ones > 0
        && info.dups > 0);
    if conflict {
        return Err(Error::Int32InfoConflict { zeros: info.zeros, ones: info.ones, dups: info.dups });
    }
    Ok(info)
}

// ---------------------------------------------------------------------------
// Restoring
// ---------------------------------------------------------------------------

/// How far restoring a buffer has come.
#[verifier::ext_equal]
pub struct Restored {
    /// The samples restored so far.
    pub done: Seq<i32>,
    /// The literal bits left over, where there is a stream of them.
    pub left: Option<Seq<bool>>,
    /// Why it stopped short, if it did.
    pub error: Option<Error>,
}

/// Samples `i` and up restored after `done`.
pub open spec fn restore_int32(x: Seq<i32>, info: Int32Info, i: int, done: Seq<i32>, ext: Option<Seq<bool>>) -> Restored
    decreases x.len() - i,
{
    if i < 0 || i >= x.len() {
        Restored { done, left: ext, error: None }
    } else if info.sent_bits == 0 {
        restore_int32(x, info, i + 1, done.push(info.restored(x[i])), ext)
    } else {
        match ext {
            None => Restored { done, left: ext, error: Some(Error::BlockMissingOverflowBits) },
            Some(s) => if s.len() < info.sent_bits {
                Restored { done, left: Some(Seq::empty()), error: Some(Error::Truncated) }
            } else {
                let n = info.sent_bits as int;
                let literal = value_of(s.take(if n <= 32 { n } else { 32 })) as u32;
                let value = with_literal(x[i], n as nat, literal);
                restore_int32(x, info, i + 1, done.push(info.restored(value)), Some(s.skip(n)))
            },
        }
    }
}

/// The words of some samples.
pub open spec fn words_of(x: Seq<i32>) -> Seq<u32> {
    Seq::new(x.len(), |i: int| wrap_u32(x[i] as int))
}

proof fn lemma_words_push(x: Seq<i32>, v: i32)
    ensures
        words_of(x.push(v)) == words_of(x).push(wrap_u32(v as int)),
        extension_over(words_of(x.push(v))) == extension_step(extension_over(words_of(x)), wrap_u32(v as int)),
{
    assert(words_of(x.push(v)) =~= words_of(x).push(wrap_u32(v as int)));
    assert(words_of(x).push(wrap_u32(v as int)).drop_last() =~= words_of(x));
}

/// What a restore leaves in its buffer and hands back.
pub open spec fn restore_result(before: Seq<i32>, after: Seq<i32>, r: Result<u32>, out: Restored) -> bool {
    &&& after == out.done + before.skip(out.done.len() as int)
    &&& match out.error {
        Some(e) => r == Err::<u32, Error>(e),
        None => r == Ok::<u32, Error>(extension_over(words_of(out.done))),
    }
}

/// Restores a buffer from literal bits; gives the check over the restored samples.
fn restore_from(pcm: &mut [i32], info: &Int32Info, ext: &mut BitReader<'_>) -> (r: Result<u32>)
    requires
        old(ext).wf(),
    ensures
        ({
            let out = restore_int32(old(pcm)@, *info, 0, Seq::empty(), Some(old(ext)@));
            restore_result(old(pcm)@, final(pcm)@, r, out) && Some(final(ext)@) == out.left
        }),
        final(ext).wf(),
{
    let ghost x = pcm@;
    let ghost whole = restore_int32(x, *info, 0, Seq::empty(), Some(ext@));
    let mut crc = ExtensionCrc::new();
    let mut i: usize = 0;
    let ghost mut done: Seq<i32> = Seq::empty();
    assert(words_of(done) =~= Seq::empty());
    assert(pcm@ =~= done + x.skip(0));
    while i < pcm.len()
        invariant
            x == old(pcm)@,
            pcm@.len() == x.len(),
            i <= x.len(),
            done.len() == i,
            ext.wf(),
            whole == restore_int32(old(pcm)@, *info, 0, Seq::empty(), Some(old(ext)@)),
            whole == restore_int32(x, *info, i as int, done, Some(ext@)),
            pcm@ == done + x.skip(i as int),
            crc@ == extension_over(words_of(done)),
        decreases pcm.len() - i,
    {
        let mut value: i32 = pcm[i];
        assert(value == x[i as int]);
        if info.sent_bits > 0 {
            match ext.get_bits(info.sent_bits as u32) {
                Err(e) => {
                    return Err(e);
                }
                Ok(literal) => {
                    value = join_literal(value, info.sent_bits, literal);
                }
            }
        }
        value = info.reinsert_redundancy(value);
        crc.push(value);
        pcm[i] = value;
        proof {
            lemma_words_push(done, value);
            done = done.push(value);
            assert(pcm@ =~= done + x.skip(i + 1));
        }
        i = i + 1;
    }
    assert(pcm@ =~= done + x.skip(x.len() as int));
    Ok(crc.value())
}

/// Restores a buffer that has no literal bits.
fn restore_bare(pcm: &mut [i32], info: &Int32Info) -> (r: Result<u32>)
    ensures
        restore_result(old(pcm)@, final(pcm)@, r, restore_int32(old(pcm)@, *info, 0, Seq::empty(), None)),
{
    let ghost x = pcm@;
    let ghost whole = restore_int32(x, *info, 0, Seq::empty(), None);
    let mut crc = ExtensionCrc::new();
    let mut i: usize = 0;
    let ghost mut done: Seq<i32> = Seq::empty();
    assert(words_of(done) =~= Seq::empty());
    assert(pcm@ =~= done + x.skip(0));
    while i < pcm.len()
        invariant
            x == old(pcm)@,
            pcm@.len() == x.len(),
            i <= x.len(),
            done.len() == i,
            whole == restore_int32(old(pcm)@, *info, 0, Seq::empty(), None),
            whole == restore_int32(x, *info, i as int, done, None),
            pcm@ == done + x.skip(i as int),
            crc@ == extension_over(words_of(done)),
        decreases pcm.len() - i,
    {
        assert(pcm@[i as int] == x[i as int]);
        if info.sent_bits > 0 {
            return Err(Error::BlockMissingOverflowBits);
        }
        let value: i32 = info.reinsert_redundancy(pcm[i]);
        crc.push(value);
        pcm[i] = value;
        proof {
            lemma_words_push(done, value);
            done = done.push(value);
            assert(pcm@ =~= done + x.skip(i + 1));
        }
        i = i + 1;
    }
    assert(pcm@ =~= done + x.skip(x.len() as int));
    Ok(crc.value())
}

/// Restores a buffer in place: literal bits first, then the dropped pattern.
/// Gives the check over the restored samples.
pub fn reassemble_int32(pcm: &mut [i32], info: &Int32Info, ext: Option<&mut BitReader<'_>>) -> (r: Result<u32>)
    requires
        ext is Some ==> ext->Some_0.wf(),
    ensures
        ({
            let out = restore_int32(
                old(pcm)@,
                *info,
                0,
                Seq::empty(),
                match ext {
                    Some(reader) => Some(reader@),
                    None => None,
                },
            );
            &&& restore_result(old(pcm)@, final(pcm)@, r, out)
            &&& ext is Some ==> Some(final(ext->Some_0)@) == out.left
        }),
        ext is Some ==> final(ext->Some_0).wf(),
{
    match ext {
        Some(reader) => restore_from(pcm, info, reader),
        None => restore_bare(pcm, info),
    }
}

/// Restores a buffer with zeros in place of the literal bits.
pub fn reassemble_int32_implied(pcm: &mut [i32], info: &Int32Info)
    ensures
        final(pcm)@ == Seq::new(
            old(pcm)@.len(),
            |i: int| info.restored(shifted(old(pcm)@[i], info.sent_bits as nat)),
        ),
{
    let mut i: usize = 0;
    while i < pcm.len()
        invariant
            i <= pcm.len(),
            pcm@.len() == old(pcm)@.len(),
            forall|k: int|
                0 <= k < i ==> pcm@[k] == info.restored(shifted(old(pcm)@[k], info.sent_bits as nat)),
            forall|k: int| i <= k < pcm@.len() ==> pcm@[k] == old(pcm)@[k],
        decreases pcm.len() - i,
    {
        let value: i32 = shl32(pcm[i], info.sent_bits as u32);
        pcm[i] = info.reinsert_redundancy(value);
        i = i + 1;
    }
    assert(pcm@ =~= Seq::new(
        old(pcm)@.len(),
        |i: int| info.restored(shifted(old(pcm)@[i], info.sent_bits as nat)),
    ));
}

// ---------------------------------------------------------------------------
// Narrowing
// ---------------------------------------------------------------------------

/// The low zero bits of a sample; all 32 of zero.
pub open spec fn low_zeros(v: int) -> nat
    decreases (if v < 0 { -v } else { v }),
{
    if v == 0 {
        32
    } else if v % 2 == 1 {
        0
    } else {
        1 + low_zeros(v / 2)
    }
}

/// The low one bits of a sample; all 32 of minus one.
pub open spec fn low_ones(v: int) -> nat
    decreases (if v < 0 { -v } else { v }),
{
    if v == -1 {
        32
    } else if v % 2 == 0 {
        0
    } else {
        1 + low_ones(v / 2)
    }
}

/// The low bits that copy the bit above them.
pub open spec fn low_dups(v: int) -> nat {
    let run = if low_zeros(v) >= low_ones(v) {
        low_zeros(v)
    } else {
        low_ones(v)
    };
    if run > 0 {
        (run - 1) as nat
    } else {
        0
    }
}

/// The least value of `f` over the samples, and at most `MAX_REDUNDANCY`; zero
/// over no samples.
pub open spec fn shared(x: Seq<i32>, f: spec_fn(int) -> nat) -> nat
    decreases x.len(),
{
    if x.len() == 0 {
        0
    } else {
        let last = if f(x.last() as int) < MAX_REDUNDANCY {
            f(x.last() as int)
        } else {
            MAX_REDUNDANCY as nat
        };
        if x.len() == 1 || last < shared(x.drop_last(), f) {
            last
        } else {
            shared(x.drop_last(), f)
        }
    }
}

/// The greatest magnitude width over the samples, shifted right by `k`.
pub open spec fn width_over(x: Seq<i32>, k: nat) -> nat
    decreases x.len(),
{
    if x.len() == 0 {
        0
    } else {
        let last = bit_length(magnitude((x.last() as int / pow2(k) as int) as i32));
        if last > width_over(x.drop_last(), k) {
            last
        } else {
            width_over(x.drop_last(), k)
        }
    }
}

/// The profile that narrows a buffer: the longest pattern that every sample
/// shares (zeros before ones before copies), and as many literal bits as the
/// samples are then too wide.
pub open spec fn int32_profile(x: Seq<i32>) -> Int32Info {
    let z = shared(x, |v: int| low_zeros(v));
    let o = shared(x, |v: int| low_ones(v));
    let d = shared(x, |v: int| low_dups(v));
    let (zeros, ones, dups) = if z >= o && z >= d {
        (z, 0nat, 0nat)
    } else if o >= d {
        (0nat, o, 0nat)
    } else {
        (0nat, 0nat, d)
    };
    let width = width_over(x, zeros + ones + dups);
    Int32Info {
        sent_bits: if width > INT32_TARGET_MAGNITUDE_BITS {
            (width - INT32_TARGET_MAGNITUDE_BITS) as u8
        } else {
            0
        },
        zeros: zeros as u8,
        ones: ones as u8,
        dups: dups as u8,
    }
}

/// A sample without its pattern.
pub open spec fn without_pattern(v: i32, info: Int32Info) -> int {
    v as int / pow2(info.redundancy()) as int
}

/// A sample without pattern and literal bits.
pub open spec fn narrowed(v: i32, info: Int32Info) -> i32 {
    (without_pattern(v, info) / pow2(info.sent_bits as nat) as int) as i32
}

/// The literal bits of a sample.
pub open spec fn literal_bits(v: i32, info: Int32Info) -> Seq<bool> {
    bits_of((without_pattern(v, info) % pow2(info.sent_bits as nat) as int) as nat, info.sent_bits as nat)
}

/// The literal bits of all samples.
pub open spec fn literals(x: Seq<i32>, info: Int32Info) -> Seq<bool>
    decreases x.len(),
{
    if x.len() == 0 {
        Seq::empty()
    } else {
        literals(x.drop_last(), info) + literal_bits(x.last(), info)
    }
}

/// A narrowed buffer: the profile, the samples to code, and the payload of
/// literal bits behind their check.
#[derive(Debug, Clone, PartialEq, Eq)]
pub struct Int32Deconstruction {
    /// The profile.
    pub info: Int32Info,
    /// The narrowed samples.
    pub reduced: Vec<i32>,
    /// The literal payload, where there are literal bits.
    pub extension: Option<Vec<u8>>,
}

/// The payload of a stream of literal bits behind the check `crc`.
pub open spec fn extension_payload(crc: u32, bits: Seq<bool>) -> Seq<u8> {
    padded(le32(crc) + pack_bits(bits))
}

/// The bytes in an optional vector.
pub open spec fn optional_bytes(v: Option<Vec<u8>>) -> Option<Seq<u8>> {
    match v {
        Some(b) => Some(b@),
        None => None,
    }
}

/// The literal payload of a buffer.
pub open spec fn int32_extension(x: Seq<i32>) -> Option<Seq<u8>> {
    let info = int32_profile(x);
    if info.sent_bits > 0 {
        Some(extension_payload(extension_over(words_of(x)), literals(x, info)))
    } else {
        None
    }
}

/// The narrowed samples of a buffer.
pub open spec fn int32_reduced(x: Seq<i32>) -> Seq<i32> {
    Seq::new(x.len(), |i: int| narrowed(x[i], int32_profile(x)))
}

/// Counts the low zero bits of a sample.
pub fn trailing_zero_bits(v: i32) -> (r: u32)
    ensures
        r == low_zeros(v as int),
        r <= 32,
{
    if v == 0 {
        return 32;
    }
    let mut rest: i64 = v as i64;
    let mut n: u32 = 0;
    proof {
        lemma2_to64();
        lemma_low_counts(v as int, 32);
    }
    while (rest + 0x1_0000_0000) as u64 % 2 == 0
        invariant
            rest != 0,
            -0x8000_0000 <= rest <= 0x7fff_ffff,
            n + low_zeros(rest as int) == low_zeros(v as int),
            low_zeros(v as int) <= 32,
        decreases (if rest < 0 { -rest as int } else { rest as int }),
    {
        proof {
            lemma2_to64();
        }
        rest = floor_shr(rest, 1);
        n = n + 1;
    }
    n
}

fn trailing_one_bits(v: i32) -> (r: u32)
    ensures
        r == low_ones(v as int),
        r <= 32,
{
    if v == -1 {
        return 32;
    }
    let mut rest: i64 = v as i64;
    let mut n: u32 = 0;
    proof {
        lemma2_to64();
        lemma_low_counts(v as int, 32);
    }
    while (rest + 0x1_0000_0000) as u64 % 2 == 1
        invariant
            rest != -1,
            -0x8000_0000 <= rest <= 0x7fff_ffff,
            n + low_ones(rest as int) == low_ones(v as int),
            low_ones(v as int) <= 32,
        decreases (if rest < 0 { -rest as int } else { rest as int }),
    {
        proof {
            lemma2_to64();
        }
        rest = floor_shr(rest, 1);
        n = n + 1;
    }
    n
}

/// Counts over a value of `k` bits and a sign do not pass 32.
proof fn lemma_low_counts(v: int, k: nat)
    requires
        k <= 32,
        -pow2(k) <= v < pow2(k),
    ensures
        low_zeros(v) <= 32,
        v != 0 ==> low_zeros(v) <= k,
        low_ones(v) <= 32,
        v != -1 ==> low_ones(v) <= k,
    decreases k,
{
    lemma2_to64();
    if k > 0 {
        lemma_pow2_unfold(k);
        if v != 0 && v % 2 == 0 {
            lemma_low_counts(v / 2, (k - 1) as nat);
        }
        if v != -1 && v % 2 == 1 {
            lemma_low_counts(v / 2, (k - 1) as nat);
        }
    }
}

/// Low zeros are zeros: the value is a multiple.
pub proof fn lemma_zeros_divide(v: int, k: nat)
    requires
        k <= low_zeros(v),
    ensures
        v % pow2(k) as int == 0,
    decreases k,
{
    lemma2_to64();
    lemma_pow2_pos(k);
    if v == 0 {
        vstd::arithmetic::div_mod::lemma_small_mod(0, pow2(k));
    } else if k > 0 {
        lemma_zeros_divide(v / 2, (k - 1) as nat);
        lemma_pow2_pos((k - 1) as nat);
        lemma_pow2_unfold(k);
        let h = pow2((k - 1) as nat) as int;
        let q = v / 2 / h;
        vstd::arithmetic::div_mod::lemma_fundamental_div_mod(v / 2, h);
        assert(v == 2 * h * q) by (nonlinear_arith)
            requires
                v == 2 * (v / 2),
                v / 2 == h * q,
        ;
        vstd::arithmetic::div_mod::lemma_fundamental_div_mod_converse(v, 2 * h, q, 0);
    }
}

/// Low ones are ones: the value is one short of a multiple.
proof fn lemma_ones_divide(v: int, k: nat)
    requires
        k <= low_ones(v),
    ensures
        v % pow2(k) as int == pow2(k) - 1,
    decreases k,
{
    lemma2_to64();
    lemma_pow2_pos(k);
    if v == -1 {
        vstd::arithmetic::div_mod::lemma_fundamental_div_mod_converse(-1, pow2(k) as int, -1, pow2(k) - 1);
    } else if k > 0 {
        lemma_ones_divide(v / 2, (k - 1) as nat);
        lemma_pow2_pos((k - 1) as nat);
        lemma_pow2_unfold(k);
        let h = pow2((k - 1) as nat) as int;
        let q = v / 2 / h;
        vstd::arithmetic::div_mod::lemma_fundamental_div_mod(v / 2, h);
        assert(v == (2 * h) * q + (2 * h - 1)) by (nonlinear_arith)
            requires
                v == 2 * (v / 2) + 1,
                v / 2 == h * q + (h - 1),
        ;
        vstd::arithmetic::div_mod::lemma_fundamental_div_mod_converse(v, 2 * h, q, 2 * h - 1);
    }
}

/// A shared count holds of every sample.
proof fn lemma_shared(x: Seq<i32>, f: spec_fn(int) -> nat, i: int)
    requires
        0 <= i < x.len(),
    ensures
        shared(x, f) <= f(x[i] as int),
        shared(x, f) <= MAX_REDUNDANCY,
    decreases x.len(),
{
    if i < x.len() - 1 {
        lemma_shared(x.drop_last(), f, i);
    } else if x.len() > 1 {
    }
}

/// The width over a buffer covers every sample of it.
proof fn lemma_width(x: Seq<i32>, k: nat, i: int)
    requires
        0 <= i < x.len(),
    ensures
        bit_length(magnitude((x[i] as int / pow2(k) as int) as i32)) <= width_over(x, k),
    decreases x.len(),
{
    if i < x.len() - 1 {
        lemma_width(x.drop_last(), k, i);
    }
}

proof fn lemma_shift_in_range(v: i32, k: nat)
    ensures
        v >= 0 ==> 0 <= v as int / pow2(k) as int <= v,
        v < 0 ==> v <= v as int / pow2(k) as int <= -1,
{
    lemma_pow2_pos(k);
    let p = pow2(k) as int;
    let q = v as int / p;
    vstd::arithmetic::div_mod::lemma_fundamental_div_mod(v as int, p);
    vstd::arithmetic::div_mod::lemma_mod_bound(v as int, p);
    assert(v >= 0 ==> 0 <= q <= v) by (nonlinear_arith)
        requires
            v == p * q + v as int % p,
            0 <= v as int % p < p,
            p >= 1,
    ;
    assert(v < 0 ==> v <= q <= -1) by (nonlinear_arith)
        requires
            v == p * q + v as int % p,
            0 <= v as int % p < p,
            p >= 1,
    ;
}

proof fn lemma_width_bound(x: Seq<i32>, k: nat)
    ensures
        width_over(x, k) <= 31,
    decreases x.len(),
{
    if x.len() > 0 {
        lemma_width_bound(x.drop_last(), k);
        lemma_shift_in_range(x.last(), k);
        lemma2_to64();
        lemma_bit_length_bound(magnitude((x.last() as int / pow2(k) as int) as i32), 31);
    }
}

/// Narrows a buffer.
#[must_use]
pub fn deconstruct_int32(pcm: &[i32]) -> (r: Int32Deconstruction)
    ensures
        r.info == int32_profile(pcm@),
        r.reduced@ == int32_reduced(pcm@),
        optional_bytes(r.extension) == int32_extension(pcm@),
{
    let mut min_zeros: u32 = 0;
    let mut min_ones: u32 = 0;
    let mut min_dups: u32 = 0;
    let ghost fz = |v: int| low_zeros(v);
    let ghost fo = |v: int| low_ones(v);
    let ghost fd = |v: int| low_dups(v);
    let mut i: usize = 0;
    assert(pcm@.take(0) =~= Seq::empty());
    while i < pcm.len()
        invariant
            i <= pcm.len(),
            fz == (|v: int| low_zeros(v)),
            fo == (|v: int| low_ones(v)),
            fd == (|v: int| low_dups(v)),
            min_zeros == shared(pcm@.take(i as int), fz),
            min_ones == shared(pcm@.take(i as int), fo),
            min_dups == shared(pcm@.take(i as int), fd),
        decreases pcm.len() - i,
    {
        let v: i32 = pcm[i];
        let tz: u32 = trailing_zero_bits(v);
        let to: u32 = trailing_one_bits(v);
        let run: u32 = if tz >= to {
            tz
        } else {
            to
        };
        let td: u32 = if run > 0 {
            run - 1
        } else {
            0
        };
        assert(pcm@.take(i + 1).drop_last() =~= pcm@.take(i as int));
        assert(fz(v as int) == tz && fo(v as int) == to && fd(v as int) == td);
        min_zeros = capped_min(min_zeros, tz, i == 0);
        min_ones = capped_min(min_ones, to, i == 0);
        min_dups = capped_min(min_dups, td, i == 0);
        i = i + 1;
    }
    assert(pcm@.take(pcm.len() as int) =~= pcm@);
    proof {
        if pcm@.len() > 0 {
            lemma_shared(pcm@, fz, 0);
            lemma_shared(pcm@, fo, 0);
            lemma_shared(pcm@, fd, 0);
        }
    }
    let (zeros, ones, dups): (u32, u32, u32) = if min_zeros >= min_ones && min_zeros >= min_dups {
        (min_zeros, 0, 0)
    } else if min_ones >= min_dups {
        (0, min_ones, 0)
    } else {
        (0, 0, min_dups)
    };
    let redundancy: u32 = zeros + ones + dups;
    let mut max_bits: u32 = 0;
    let mut j: usize = 0;
    assert(pcm@.take(0) =~= Seq::empty());
    while j < pcm.len()
        invariant
            j <= pcm.len(),
            redundancy <= 24,
            max_bits == width_over(pcm@.take(j as int), redundancy as nat),
        decreases pcm.len() - j,
    {
        proof {
            lemma_shift_in_range(pcm@[j as int], redundancy as nat);
        }
        let r: i32 = floor_shr(pcm[j] as i64, redundancy) as i32;
        let (mag, _neg) = split_sign(r);
        let width: u32 = bit_length_u32(mag);
        assert(pcm@.take(j + 1).drop_last() =~= pcm@.take(j as int));
        if width > max_bits {
            max_bits = width;
        }
        j = j + 1;
    }
    assert(pcm@.take(pcm.len() as int) =~= pcm@);
    proof {
        lemma_width_bound(pcm@, redundancy as nat);
    }
    let sent_bits: u32 = if max_bits > INT32_TARGET_MAGNITUDE_BITS {
        max_bits - INT32_TARGET_MAGNITUDE_BITS
    } else {
        0
    };
    let info = Int32Info { sent_bits: sent_bits as u8, zeros: zeros as u8, ones: ones as u8, dups: dups as u8 };
    assert(info == int32_profile(pcm@));
    assert(info.redundancy() == redundancy);
    let mut crc = ExtensionCrc::new();
    let mut wvx = BitWriter::new();
    let mut reduced: Vec<i32> = Vec::new();
    let mut k: usize = 0;
    assert(pcm@.take(0) =~= Seq::empty());
    assert(words_of(pcm@.take(0)) =~= Seq::empty());
    while k < pcm.len()
        invariant
            k <= pcm.len(),
            redundancy <= 24,
            sent_bits <= 8,
            info.redundancy() == redundancy,
            info.sent_bits == sent_bits,
            wvx.wf(),
            reduced@.len() == k,
            crc@ == extension_over(words_of(pcm@.take(k as int))),
            sent_bits > 0 ==> wvx@ == literals(pcm@.take(k as int), info),
            forall|m: int| 0 <= m < k ==> reduced@[m] == narrowed(pcm@[m], info),
        decreases pcm.len() - k,
    {
        let v: i32 = pcm[k];
        proof {
            assert(pcm@.take(k + 1) =~= pcm@.take(k as int).push(v));
            assert(pcm@.take(k + 1).drop_last() =~= pcm@.take(k as int));
            lemma_words_push(pcm@.take(k as int), v);
            lemma_shift_in_range(v, redundancy as nat);
        }
        crc.push(v);
        let r: i64 = floor_shr(v as i64, redundancy);
        let p: u64 = pow2_u64(sent_bits);
        let q: i64 = floor_shr(r, sent_bits);
        proof {
            lemma_shift_in_range(r as i32, sent_bits as nat);
            vstd::arithmetic::div_mod::lemma_fundamental_div_mod(r as int, p as int);
            vstd::arithmetic::div_mod::lemma_mod_bound(r as int, p as int);
            lemma2_to64();
            if sent_bits < 8 {
                lemma_pow2_strictly_increases(sent_bits as nat, 8);
            }
            assert(-0x8000_0000 * 256 <= q * p <= 0x8000_0000 * 256) by (nonlinear_arith)
                requires
                    -0x8000_0000 <= q <= 0x7fff_ffff,
                    0 < p <= 256,
            ;
            assert(r - q * p == r as int % p as int) by (nonlinear_arith)
                requires
                    r == p * q + r as int % p as int,
            ;
        }
        let literal: u64 = (r - q * p as i64) as u64;
        if sent_bits > 0 {
            wvx.write_bits(literal, sent_bits);
        }
        reduced.push(q as i32);
        k = k + 1;
    }
    assert(pcm@.take(pcm.len() as int) =~= pcm@);
    assert(reduced@ =~= int32_reduced(pcm@));
    let extension: Option<Vec<u8>> = if sent_bits > 0 {
        Some(finish_extension(crc.value(), wvx))
    } else {
        None
    };
    Int32Deconstruction { info, reduced, extension }
}

fn capped_min(least: u32, count: u32, first: bool) -> (r: u32)
    ensures
        r == ({
            let c = if count < MAX_REDUNDANCY {
                count
            } else {
                MAX_REDUNDANCY
            };
            if first || c < least {
                c
            } else {
                least
            }
        }),
{
    let c: u32 = if count < MAX_REDUNDANCY {
        count
    } else {
        MAX_REDUNDANCY
    };
    if first || c < least {
        c
    } else {
        least
    }
}

/// Frames literal bits behind their check, in an even number of bytes.
pub fn finish_extension(crc: u32, bits: BitWriter) -> (r: Vec<u8>)
    requires
        bits.wf(),
    ensures
        r@ == extension_payload(crc, bits@),
{
    let mut payload: Vec<u8> = Vec::new();
    push_le32(&mut payload, crc);
    let packed: Vec<u8> = bits.finish();
    payload.extend_from_slice(packed.as_slice());
    assert(payload@ =~= le32(crc) + packed@);
    if payload.len() % 2 == 1 {
        payload.push(0);
    }
    payload
}

// ---------------------------------------------------------------------------
// Restoring what was narrowed
// ---------------------------------------------------------------------------

/// The literal bits of the samples from `i` on.
pub open spec fn literals_from(x: Seq<i32>, info: Int32Info, i: int) -> Seq<bool>
    decreases x.len() - i,
{
    if i < 0 || i >= x.len() {
        Seq::empty()
    } else {
        literal_bits(x[i], info) + literals_from(x, info, i + 1)
    }
}

proof fn lemma_literals_split(x: Seq<i32>, info: Int32Info, i: int)
    requires
        0 <= i <= x.len(),
    ensures
        literals(x, info) == literals(x.take(i), info) + literals_from(x, info, i),
    decreases x.len() - i,
{
    if i == x.len() {
        assert(x.take(i) =~= x);
        assert(literals(x, info) =~= literals(x.take(i), info) + literals_from(x, info, i));
    } else {
        lemma_literals_split(x, info, i + 1);
        assert(x.take(i + 1).drop_last() =~= x.take(i));
        assert(literals(x, info) =~= literals(x.take(i), info) + literals_from(x, info, i));
    }
}

/// A pattern that a sample has is put back by the profile that dropped it.
proof fn lemma_pattern_back(v: i32, info: Int32Info)
    requires
        info.exclusive(),
        info.redundancy() <= MAX_REDUNDANCY,
        info.zeros > 0 ==> info.zeros <= low_zeros(v as int),
        info.ones > 0 ==> info.ones <= low_ones(v as int),
        info.dups > 0 ==> info.dups <= low_dups(v as int),
    ensures
        ({
            let r = without_pattern(v, info);
            i32::MIN <= r <= i32::MAX && info.restored(r as i32) == v
        }),
{
    let k = info.redundancy();
    let p = pow2(k) as int;
    let r = without_pattern(v, info);
    lemma2_to64();
    lemma_pow2_pos(k);
    lemma_shift_in_range(v, k);
    vstd::arithmetic::div_mod::lemma_fundamental_div_mod(v as int, p);
    assert(p * r == r * p) by (nonlinear_arith);
    lemma_wrap32(v as int, 0);
    assert(k % 32 == k);
    if info.zeros > 0 {
        lemma_zeros_divide(v as int, k);
    } else if info.ones > 0 {
        lemma_ones_divide(v as int, k);
    } else if info.dups > 0 {
        lemma_pow2_unfold(k + 1);
        if low_zeros(v as int) >= low_ones(v as int) {
            lemma_zeros_divide(v as int, k);
            lemma_zeros_divide(v as int, k + 1);
            let q = v as int / (2 * p);
            vstd::arithmetic::div_mod::lemma_fundamental_div_mod(v as int, 2 * p);
            assert(r == 2 * q) by {
                assert(v == p * (2 * q) + 0) by (nonlinear_arith)
                    requires
                        v == 2 * p * q + 0,
                ;
                vstd::arithmetic::div_mod::lemma_fundamental_div_mod_converse(v as int, p, 2 * q, 0);
            }
        } else {
            lemma_ones_divide(v as int, k);
            lemma_ones_divide(v as int, k + 1);
            let q = v as int / (2 * p);
            vstd::arithmetic::div_mod::lemma_fundamental_div_mod(v as int, 2 * p);
            assert(r == 2 * q + 1) by {
                assert(v == p * (2 * q + 1) + (p - 1)) by (nonlinear_arith)
                    requires
                        v == 2 * p * q + (2 * p - 1),
                ;
                vstd::arithmetic::div_mod::lemma_fundamental_div_mod_converse(v as int, p, 2 * q + 1, p - 1);
            }
        }
    } else {
        assert(p == 1);
    }
}

proof fn lemma_literal_back(v: i32, info: Int32Info, t: Seq<bool>)
    requires
        0 < info.sent_bits <= 8,
    ensures
        ({
            let n = info.sent_bits as int;
            let s = literal_bits(v, info) + t;
            let r = without_pattern(v, info);
            &&& s.len() >= n
            &&& s.skip(n) == t
            &&& with_literal(narrowed(v, info), n as nat, value_of(s.take(n)) as u32) == r
        }),
{
    let n = info.sent_bits as nat;
    let r = without_pattern(v, info);
    let p = pow2(n) as int;
    lemma2_to64();
    lemma_pow2_pos(n);
    if n < 8 {
        lemma_pow2_strictly_increases(n, 8);
    }
    lemma_shift_in_range(v, info.redundancy());
    lemma_shift_in_range(r as i32, n);
    vstd::arithmetic::div_mod::lemma_fundamental_div_mod(r, p);
    vstd::arithmetic::div_mod::lemma_mod_bound(r, p);
    let low = (r % p) as nat;
    lemma_value_of_bits(low, n);
    let s = literal_bits(v, info) + t;
    assert(s.take(n as int) =~= literal_bits(v, info));
    assert(s.skip(n as int) =~= t);
    assert(p * (r / p) == (r / p) * p) by (nonlinear_arith);
    lemma_wrap32(r, 0);
}

/// The profile of a buffer is one the reader takes, and fits every sample.
pub proof fn lemma_profile(x: Seq<i32>, i: int)
    requires
        0 <= i < x.len(),
    ensures
        ({
            let info = int32_profile(x);
            &&& info.exclusive()
            &&& info.redundancy() <= MAX_REDUNDANCY
            &&& info.sent_bits <= 8
            &&& info.zeros > 0 ==> info.zeros <= low_zeros(x[i] as int)
            &&& info.ones > 0 ==> info.ones <= low_ones(x[i] as int)
            &&& info.dups > 0 ==> info.dups <= low_dups(x[i] as int)
        }),
{
    let fz = |v: int| low_zeros(v);
    let fo = |v: int| low_ones(v);
    let fd = |v: int| low_dups(v);
    lemma_shared(x, fz, i);
    lemma_shared(x, fo, i);
    lemma_shared(x, fd, i);
    lemma_width_bound(x, int32_profile(x).redundancy());
    let info = int32_profile(x);
    lemma_width_bound(x, (info.zeros + info.ones + info.dups) as nat);
}

proof fn lemma_restore_from(x: Seq<i32>, i: int, ext: Option<Seq<bool>>, t: Seq<bool>)
    requires
        0 <= i <= x.len(),
        int32_profile(x).sent_bits > 0 ==> ext == Some(literals_from(x, int32_profile(x), i) + t),
    ensures
        ({
            let out = restore_int32(int32_reduced(x), int32_profile(x), i, x.take(i), ext);
            out.done == x && out.error is None
        }),
    decreases x.len() - i,
{
    let info = int32_profile(x);
    let y = int32_reduced(x);
    if i >= x.len() {
        assert(x.take(i) =~= x);
    } else {
        lemma_profile(x, i);
        lemma_pattern_back(x[i], info);
        assert(x.take(i).push(x[i]) =~= x.take(i + 1));
        if info.sent_bits == 0 {
            lemma2_to64();
            assert(pow2(0) == 1);
            assert(y[i] == without_pattern(x[i], info));
            lemma_restore_from(x, i + 1, ext, t);
        } else {
            let s = literals_from(x, info, i) + t;
            let rest = literals_from(x, info, i + 1) + t;
            assert(s =~= literal_bits(x[i], info) + rest);
            lemma_literal_back(x[i], info, rest);
            lemma_restore_from(x, i + 1, Some(rest), t);
        }
    }
}

/// The literal bits of a stored payload, behind its check.
pub open spec fn extension_bits(payload: Seq<u8>) -> Seq<bool> {
    byte_bits(payload.skip(4))
}

/// A stored payload starts with its check, and its literal bits come first in
/// what is behind it.
pub proof fn lemma_extension_payload(crc: u32, bits: Seq<bool>)
    ensures
        extension_payload(crc, bits).len() >= 4,
        crate::arith::read_le32(extension_payload(crc, bits), 0) == crc,
        exists|t: Seq<bool>| extension_bits(extension_payload(crc, bits)) == bits + t,
{
    let packed = pack_bits(bits);
    let payload = extension_payload(crc, bits);
    crate::bits::lemma_unpack(bits);
    let pad = crate::bits::zeros(((8 - bits.len() % 8) % 8) as nat);
    if packed.len() % 2 == 1 {
        assert(payload.skip(4) =~= packed.push(0));
        crate::bits::lemma_byte_bits_push(packed, 0);
        assert(extension_bits(payload) =~= bits + (pad + bits_of(0, 8)));
    } else {
        assert(payload.skip(4) =~= packed);
        assert(extension_bits(payload) == bits + pad);
    }
}

/// Restoring a narrowed buffer gives the buffer back, and the check over it
/// is the one stored before its literal bits.
pub proof fn int32_roundtrip(x: Seq<i32>)
    ensures
        ({
            let out = restore_int32(
                int32_reduced(x),
                int32_profile(x),
                0,
                Seq::empty(),
                match int32_extension(x) {
                    Some(payload) => Some(extension_bits(payload)),
                    None => None,
                },
            );
            &&& out.done == x
            &&& out.error is None
            &&& int32_extension(x) is Some ==> crate::arith::read_le32(int32_extension(x)->Some_0, 0)
                == extension_over(words_of(out.done))
        }),
{
    let info = int32_profile(x);
    assert(x.take(0) =~= Seq::empty());
    if info.sent_bits > 0 {
        let bits = literals(x, info);
        let crc = extension_over(words_of(x));
        lemma_extension_payload(crc, bits);
        let t = choose|t: Seq<bool>| extension_bits(extension_payload(crc, bits)) == bits + t;
        lemma_literals_split(x, info, 0);
        assert(literals(x.take(0), info) + literals_from(x, info, 0) =~= literals_from(x, info, 0));
        lemma_restore_from(x, 0, Some(bits + t), t);
    } else {
        lemma_restore_from(x, 0, None, Seq::empty());
    }
}

/// Narrowed samples keep a magnitude of 23 bits at most.
pub proof fn narrowed_samples_are_small(x: Seq<i32>, i: int)
    requires
        0 <= i < x.len(),
    ensures
        magnitude(int32_reduced(x)[i]) < 0x80_0000,
{
    let info = int32_profile(x);
    let k = info.redundancy();
    let v = x[i];
    let w = v as int / pow2(k) as int;
    let s = info.sent_bits as nat;
    let p = pow2(s) as int;
    let m = magnitude(w as i32);
    lemma_shift_in_range(v, k);
    lemma_width(x, k, i);
    lemma_shift_in_range(w as i32, s);
    lemma2_to64();
    lemma_pow2_pos(s);
    lemma_profile_redundancy(x);
    lemma_bit_length(m);
    if bit_length(m) < 23 + s {
        lemma_pow2_strictly_increases(bit_length(m), 23 + s);
    }
    vstd::arithmetic::power2::lemma_pow2_adds(23, s);
    assert(m < 0x80_0000 * p);
    vstd::arithmetic::div_mod::lemma_fundamental_div_mod(w, p);
    vstd::arithmetic::div_mod::lemma_mod_bound(w, p);
    let q = w / p;
    assert(-0x80_0000 <= q < 0x80_0000) by (nonlinear_arith)
        requires
            w == p * q + w % p,
            0 <= w % p < p,
            -0x80_0000 * p <= w < 0x80_0000 * p,
            p > 0,
    ;
}

/// What a profile does not drop and does not send fits the target width.
proof fn lemma_profile_redundancy(x: Seq<i32>)
    ensures
        ({
            let info = int32_profile(x);
            width_over(x, info.redundancy()) <= INT32_TARGET_MAGNITUDE_BITS + info.sent_bits
        }),
{
    let fz = |v: int| low_zeros(v);
    let fo = |v: int| low_ones(v);
    let fd = |v: int| low_dups(v);
    if x.len() > 0 {
        lemma_shared(x, fz, 0);
        lemma_shared(x, fo, 0);
        lemma_shared(x, fd, 0);
    }
    let info = int32_profile(x);
    lemma_width_bound(x, (info.zeros + info.ones + info.dups) as nat);
}

/// Literal payloads take at most four bytes per sample, a check and a pad.
pub proof fn literal_payloads_are_small(x: Seq<i32>)
    ensures
        int32_extension(x) is Some ==> int32_extension(x)->Some_0.len() <= 4 * x.len() + 6,
{
    let info = int32_profile(x);
    lemma_profile_sent(x);
    lemma_literals_len(x, info);
    crate::bits::lemma_unpack(literals(x, info));
    assert(literals(x, info).len() <= 32 * x.len()) by (nonlinear_arith)
        requires
            literals(x, info).len() == x.len() * info.sent_bits,
            info.sent_bits <= 32,
    ;
}

proof fn lemma_profile_sent(x: Seq<i32>)
    ensures
        int32_profile(x).sent_bits <= 31,
{
    let z = shared(x, |v: int| low_zeros(v));
    let o = shared(x, |v: int| low_ones(v));
    let d = shared(x, |v: int| low_dups(v));
    let k = if z >= o && z >= d {
        z
    } else if o >= d {
        o
    } else {
        d
    };
    lemma_width_bound(x, k);
}

proof fn lemma_literals_len(x: Seq<i32>, info: Int32Info)
    ensures
        literals(x, info).len() == x.len() * info.sent_bits,
    decreases x.len(),
{
    if x.len() > 0 {
        lemma_literals_len(x.drop_last(), info);
        crate::bits::lemma_bits_len(
            (without_pattern(x.last(), info) % pow2(info.sent_bits as nat) as int) as nat,
            info.sent_bits as nat,
        );
        assert((x.len() - 1) * info.sent_bits + info.sent_bits == x.len() * info.sent_bits) by (nonlinear_arith);
    }
}

} // verus!
