//! The entropy-info payload: three median seeds per channel.
use vstd::prelude::*;
use crate::arith::{floor_shr, shifted, shl32};
use crate::error::{Error, Result};

verus! {

/// Bytes of one median.
pub const MEDIAN_ON_WIRE_BYTES: usize = 2;

/// Medians of one channel.
pub const MEDIANS_PER_CHANNEL: usize = 3;

/// Bytes of a payload for one channel.
pub const MONO_PAYLOAD_BYTES: usize = 6;

/// Bytes of a payload for two channels.
pub const STEREO_PAYLOAD_BYTES: usize = 12;

/// The value of a mantissa and exponent byte: the signed mantissa, scaled by
/// two to the exponent less nine.
pub open spec fn sample_word(mantissa: u8, exponent: u8) -> i32 {
    let m = if mantissa < 128 {
        mantissa as int
    } else {
        mantissa - 256
    };
    if exponent >= 9 {
        shifted(m as i32, (exponent - 9) as nat)
    } else {
        (m / vstd::arithmetic::power2::pow2((9 - exponent) as nat) as int) as i32
    }
}

/// Expands a mantissa and exponent byte.
pub fn expand_sample_word(mantissa: u8, exponent: u8) -> (r: i32)
    ensures
        r == sample_word(mantissa, exponent),
{
    let m: i32 = if mantissa < 128 {
        mantissa as i32
    } else {
        mantissa as i32 - 256
    };
    if exponent >= 9 {
        shl32(m, exponent as u32 - 9)
    } else {
        floor_shr(m as i64, 9 - exponent as u32) as i32
    }
}

/// The median seeds of a block. The second set of a mono payload is zero.
#[derive(Debug, Clone, Copy, PartialEq, Eq)]
pub struct EntropyInfo {
    /// Medians of the first channel.
    pub medians_left: [i32; 3],
    /// Medians of the second channel.
    pub medians_right: [i32; 3],
}

impl EntropyInfo {
    /// Seeds of one channel.
    pub fn mono(medians_left: [i32; 3]) -> (r: EntropyInfo)
        ensures
            r.medians_left == medians_left,
            r.medians_right@ == seq![0i32, 0, 0],
    {
        let r = EntropyInfo { medians_left, medians_right: [0, 0, 0] };
        assert(r.medians_right@ =~= seq![0i32, 0, 0]);
        r
    }

    /// Seeds of two channels.
    pub fn stereo(medians_left: [i32; 3], medians_right: [i32; 3]) -> (r: EntropyInfo)
        ensures
            r == (EntropyInfo { medians_left, medians_right }),
    {
        EntropyInfo { medians_left, medians_right }
    }

    /// Whether the second set is all zero.
    pub open spec fn one_set(&self) -> bool {
        self.medians_right[0] == 0 && self.medians_right[1] == 0 && self.medians_right[2] == 0
    }

    /// Whether the second set is all zero.
    pub fn is_mono(&self) -> (r: bool)
        ensures
            r == self.one_set(),
    {
        self.medians_right[0] == 0 && self.medians_right[1] == 0 && self.medians_right[2] == 0
    }

    /// Whether the second set holds anything.
    pub fn is_stereo(&self) -> (r: bool)
        ensures
            r == !self.one_set(),
    {
        !self.is_mono()
    }

    /// The number of sets.
    pub fn channels(&self) -> (r: u8)
        ensures
            r == if self.one_set() {
                1u8
            } else {
                2u8
            },
    {
        if self.is_mono() {
            1
        } else {
            2
        }
    }

    /// The medians of a channel that has some.
    pub fn medians_for_channel(&self, channel_idx: u8) -> (r: Option<[i32; 3]>)
        ensures
            r == if channel_idx == 0 {
                Some(self.medians_left)
            } else if channel_idx == 1 && !self.one_set() {
                Some(self.medians_right)
            } else {
                None
            },
    {
        if channel_idx == 0 {
            Some(self.medians_left)
        } else if channel_idx == 1 && self.is_stereo() {
            Some(self.medians_right)
        } else {
            None
        }
    }
}

/// The set of medians at an offset of a payload.
pub open spec fn median_set(payload: Seq<u8>, at: int) -> Seq<i32> {
    seq![
        sample_word(payload[at], payload[at + 1]),
        sample_word(payload[at + 2], payload[at + 3]),
        sample_word(payload[at + 4], payload[at + 5]),
    ]
}

fn read_median_set(payload: &[u8], at: usize) -> (r: [i32; 3])
    requires
        at + 6 <= payload.len(),
    ensures
        r@ == median_set(payload@, at as int),
{
    let r: [i32; 3] = [
        expand_sample_word(payload[at], payload[at + 1]),
        expand_sample_word(payload[at + 2], payload[at + 3]),
        expand_sample_word(payload[at + 4], payload[at + 5]),
    ];
    assert(r@ =~= median_set(payload@, at as int));
    r
}

/// Reads an entropy-info payload: one set in six bytes, two in twelve.
pub fn expand_entropy(payload: &[u8]) -> (r: Result<EntropyInfo>)
    ensures
        payload.len() == 6 ==> r is Ok && r->Ok_0.medians_left@ == median_set(payload@, 0)
            && r->Ok_0.medians_right@ == seq![0i32, 0, 0],
        payload.len() == 12 ==> r is Ok && r->Ok_0.medians_left@ == median_set(payload@, 0)
            && r->Ok_0.medians_right@ == median_set(payload@, 6),
        payload.len() != 6 && payload.len() != 12 ==> r is Err && r->Err_0 == Error::EntropyInfoLength(payload.len()),
{
    if payload.len() == MONO_PAYLOAD_BYTES {
        Ok(EntropyInfo::mono(read_median_set(payload, 0)))
    } else if payload.len() == STEREO_PAYLOAD_BYTES {
        let left: [i32; 3] = read_median_set(payload, 0);
        let right: [i32; 3] = read_median_set(payload, 6);
        Ok(EntropyInfo { medians_left: left, medians_right: right })
    } else {
        Err(Error::EntropyInfoLength(payload.len()))
    }
}

} // verus!
