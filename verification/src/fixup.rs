//! The last decode stage: samples narrower than their container are shifted
//! back up to the container's scale.
use vstd::prelude::*;
use vstd::arithmetic::power2::{pow2, lemma2_to64};
use crate::arith::{shifted, shl32, lemma_wrap32};

verus! {

/// Shifts one sample left; only the low five bits of the count act.
#[must_use]
pub fn apply_left_shift(sample: i32, left_shift: u8) -> (r: i32)
    ensures
        r == shifted(sample, left_shift as nat),
{
    shl32(sample, left_shift as u32)
}

/// Every sample of a buffer shifted left.
pub open spec fn shifted_all(x: Seq<i32>, k: nat) -> Seq<i32> {
    Seq::new(x.len(), |i: int| shifted(x[i], k))
}

/// A shift by zero changes nothing.
pub proof fn lemma_shift_zero(v: i32)
    ensures
        shifted(v, 0) == v,
{
    lemma2_to64();
    assert(0nat % 32 == 0);
    assert(v * pow2(0) == v);
    lemma_wrap32(v as int, 0);
}

/// Shifts every sample of a buffer left, in place.
pub fn apply_left_shift_buffer(samples: &mut [i32], left_shift: u8)
    ensures
        final(samples)@ == shifted_all(old(samples)@, left_shift as nat),
{
    if left_shift == 0 {
        proof {
            assert forall|i: int| 0 <= i < samples@.len() implies samples@[i] == shifted(samples@[i], 0) by {
                lemma_shift_zero(samples@[i]);
            }
            assert(samples@ =~= shifted_all(old(samples)@, 0));
        }
        return;
    }
    let mut i: usize = 0;
    while i < samples.len()
        invariant
            i <= samples.len(),
            samples@.len() == old(samples)@.len(),
            forall|k: int| 0 <= k < i ==> samples@[k] == shifted(old(samples)@[k], left_shift as nat),
            forall|k: int| i <= k < samples@.len() ==> samples@[k] == old(samples)@[k],
        decreases samples.len() - i,
    {
        samples[i] = apply_left_shift(samples[i], left_shift);
        i = i + 1;
    }
    assert(samples@ =~= shifted_all(old(samples)@, left_shift as nat));
}

} // verus!
