//! Literal low bits of float and wide-integer samples.
use vstd::prelude::*;

verus! {

/// Borrowed payload of literal low bits.
#[derive(Debug, Clone, Copy, PartialEq, Eq)]
pub struct PackedOverflowBits<'a> {
    payload: &'a [u8],
}

impl<'a> View for PackedOverflowBits<'a> {
    type V = Seq<u8>;

    closed spec fn view(&self) -> Seq<u8> {
        self.payload@
    }
}

impl<'a> PackedOverflowBits<'a> {
    /// Wraps a payload.
    pub fn new(payload: &'a [u8]) -> (r: PackedOverflowBits<'a>)
        ensures
            r@ == payload@,
    {
        PackedOverflowBits { payload }
    }

    /// The payload.
    pub fn bytes(&self) -> (r: &'a [u8])
        ensures
            r@ == self@,
    {
        self.payload
    }

    /// Its length.
    pub fn len(&self) -> (r: usize)
        ensures
            r == self@.len(),
    {
        self.payload.len()
    }

    /// Whether it is empty.
    pub fn is_empty(&self) -> (r: bool)
        ensures
            r == (self@.len() == 0),
    {
        self.payload.len() == 0
    }
}

} // verus!
