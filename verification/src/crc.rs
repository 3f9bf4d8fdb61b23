//! The running checks over decoded samples, and the mid/side transform that
//! is undone before the check is taken.
use vstd::prelude::*;
use crate::arith::{add32, floor_shr, unsigned_word, wrap32, wrap_u32, lemma_wrap32};

verus! {

/// Where every check starts.
pub const CRC_INIT: u32 = 0xffff_ffff;

/// Header flag of a mid/side block.
pub const JOINT_STEREO_FLAG: u32 = 0x10;

/// The check after one more sample: three times the check, plus the sample.
pub open spec fn crc_step(crc: u32, sample: i32) -> u32 {
    wrap_u32(3 * crc + sample)
}

/// The check over all samples, from `crc` on. A stereo pair `(l, r)` moves the
/// check to `9 * crc + 3 * l + r`, which is two steps.
pub open spec fn crc_over(x: Seq<i32>, crc: u32) -> u32
    decreases x.len(),
{
    if x.len() == 0 {
        crc
    } else {
        crc_step(crc_over(x.drop_last(), crc), x.last())
    }
}

/// Moves the check past one sample.
pub fn update_mono(crc: u32, sample: i32) -> (r: u32)
    ensures
        r == crc_step(crc, sample),
{
    let s: u64 = unsigned_word(sample) as u64;
    ((3 * crc as u64 + s) % 0x1_0000_0000) as u32
}

/// Moves the check past one interleaved pair.
pub fn update_stereo(crc: u32, left: i32, right: i32) -> (r: u32)
    ensures
        r == wrap_u32(9 * crc + 3 * left + right),
        r == crc_step(crc_step(crc, left), right),
{
    update_mono(update_mono(crc, left), right)
}

/// The check over a mono buffer.
pub fn crc_mono(x: &[i32]) -> (r: u32)
    ensures
        r == crc_over(x@, CRC_INIT),
{
    let mut crc: u32 = CRC_INIT;
    let mut i: usize = 0;
    assert(x@.take(0) =~= Seq::empty());
    while i < x.len()
        invariant
            i <= x.len(),
            crc == crc_over(x@.take(i as int), CRC_INIT),
        decreases x.len() - i,
    {
        assert(x@.take(i + 1).drop_last() =~= x@.take(i as int));
        crc = update_mono(crc, x[i]);
        i = i + 1;
    }
    assert(x@.take(x.len() as int) =~= x@);
    crc
}

/// The check over an interleaved stereo buffer.
pub fn crc_stereo_interleaved(x: &[i32]) -> (r: u32)
    requires
        x.len() % 2 == 0,
    ensures
        r == crc_over(x@, CRC_INIT),
{
    let mut crc: u32 = CRC_INIT;
    let mut i: usize = 0;
    assert(x@.take(0) =~= Seq::empty());
    while i < x.len()
        invariant
            i <= x.len(),
            i % 2 == 0,
            x.len() % 2 == 0,
            crc == crc_over(x@.take(i as int), CRC_INIT),
        decreases x.len() - i,
    {
        assert(x@.take(i + 1).drop_last() =~= x@.take(i as int));
        assert(x@.take(i + 2).drop_last() =~= x@.take(i + 1));
        assert(crc_over(x@.take(i + 1), CRC_INIT) == crc_step(crc, x@[i as int]));
        assert(crc_over(x@.take(i + 2), CRC_INIT) == crc_step(crc_step(crc, x@[i as int]), x@[i + 1]));
        crc = update_stereo(crc, x[i], x[i + 1]);
        i = i + 2;
    }
    assert(x@.take(x.len() as int) =~= x@);
    crc
}

/// The extension check after one more output word.
pub open spec fn extension_step(crc: u32, word: u32) -> u32 {
    wrap_u32(9 * crc + 3 * (word % 65536) + word / 65536)
}

/// The extension check over all output words.
pub open spec fn extension_over(x: Seq<u32>) -> u32
    decreases x.len(),
{
    if x.len() == 0 {
        CRC_INIT
    } else {
        extension_step(extension_over(x.drop_last()), x.last())
    }
}

/// The running check over restored output words.
#[derive(Debug, Clone, Copy, PartialEq, Eq, Structural)]
pub struct ExtensionCrc {
    crc: u32,
}

impl View for ExtensionCrc {
    type V = u32;

    closed spec fn view(&self) -> u32 {
        self.crc
    }
}

impl ExtensionCrc {
    /// A check over nothing.
    pub fn new() -> (r: ExtensionCrc)
        ensures
            r@ == CRC_INIT,
    {
        ExtensionCrc { crc: CRC_INIT }
    }

    /// Moves the check past one sample.
    pub fn push(&mut self, sample: i32)
        ensures
            final(self)@ == extension_step(old(self)@, wrap_u32(sample as int)),
    {
        let word: u32 = unsigned_word(sample);
        let next: u64 = 9 * self.crc as u64 + 3 * (word % 65536) as u64 + (word / 65536) as u64;
        self.crc = (next % 0x1_0000_0000) as u32;
    }

    /// The check so far.
    pub fn value(&self) -> (r: u32)
        ensures
            r == self@,
    {
        self.crc
    }
}

/// Mid and side of a pair.
pub open spec fn mid_side(left: i32, right: i32) -> (i32, i32) {
    let mid = wrap32(left - right);
    (mid, wrap32(right + mid as int / 2))
}

/// The pair of a mid and a side.
pub open spec fn left_right(mid: i32, side: i32) -> (i32, i32) {
    let right = wrap32(side - mid as int / 2);
    (wrap32(mid + right), right)
}

/// The pair that the forward transform took is the pair that undoing gives back.
pub proof fn lemma_joint_inverse(left: i32, right: i32)
    ensures
        left_right(mid_side(left, right).0, mid_side(left, right).1) == (left, right),
{
    let mid = wrap32(left - right);
    lemma_wrap32(right + mid as int / 2, mid as int / 2);
    lemma_wrap32(right as int, 0);
    lemma_wrap32(left - right, right as int);
    lemma_wrap32(left as int, 0);
}

/// Undoes the mid/side transform on one pair.
pub fn undo_joint_stereo(mid: i32, side: i32) -> (r: (i32, i32))
    ensures
        r == left_right(mid, side),
{
    let half: i64 = floor_shr(mid as i64, 1);
    proof {
        vstd::arithmetic::power2::lemma2_to64();
    }
    let right: i32 = crate::arith::wrap_i32(side as i64 - half);
    let left: i32 = add32(mid, right);
    (left, right)
}

} // verus!
