//! Packed correction data: the part of a hybrid stream that restores what its main stream left out.
use vstd::prelude::*;

verus! {

/// Borrowed packed-correction payload.
#[derive(Debug, Clone, Copy, PartialEq, Eq)]
pub struct PackedCorrectionData<'a> {
    payload: &'a [u8],
}

impl<'a> View for PackedCorrectionData<'a> {
    type V = Seq<u8>;

    closed spec fn view(&self) -> Seq<u8> {
        self.payload@
    }
}

impl<'a> PackedCorrectionData<'a> {
    /// Wraps a payload.
    pub fn new(payload: &'a [u8]) -> (r: PackedCorrectionData<'a>)
        ensures
            r@ == payload@,
    {
        PackedCorrectionData { payload }
    }

    /// The payload.
    pub fn bytes(&self) -> (r: &'a [u8])
        ensures
            r@ == self@,
    {
        self.payload
    }

    /// Its length.
    pub fn len(&self) -> (r: usize)
        ensures
            r == self@.len(),
    {
        self.payload.len()
    }

    /// Whether it is empty.
    pub fn is_empty(&self) -> (r: bool)
        ensures
            r == (self@.len() == 0),
    {
        self.payload.len() == 0
    }
}

} // verus!
