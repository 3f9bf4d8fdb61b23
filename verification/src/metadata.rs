//! The chain of metadata sub-blocks behind a block header.
//!
//! A sub-block is an ID byte, a size in 16-bit words (one byte, or three
//! where the ID byte says so), and that many words of payload; the last byte
//! of an odd payload is padding.
use vstd::prelude::*;
use crate::correction::PackedCorrectionData;
use crate::error::{Error, Result};
use crate::overflow_bits::PackedOverflowBits;
use crate::packed_samples::PackedSamples;

verus! {

/// ID flag: a decoder may skip the sub-block.
pub const ID_FLAG_OPTIONAL: u8 = 0x20;

/// ID flag: the last payload byte is padding.
pub const ID_FLAG_ODD_SIZE: u8 = 0x40;

/// ID flag: the size takes three bytes.
pub const ID_FLAG_LARGE_SIZE: u8 = 0x80;

/// The ID number within the ID byte.
pub const ID_MASK: u8 = 0x1F;

/// What a sub-block carries.
#[derive(Debug, Clone, Copy, PartialEq, Eq, Structural)]
pub enum SubBlockId {
    /// Padding.
    Dummy,
    /// Decorrelation terms.
    DecorrelationTerms,
    /// Decorrelation weights.
    DecorrelationWeights,
    /// Decorrelation seed samples.
    DecorrelationSamples,
    /// Median seeds.
    EntropyInfo,
    /// Hybrid rate profile.
    HybridProfile,
    /// Noise-shaping state.
    NoiseShapingProfile,
    /// Floating-point profile.
    FloatInfo,
    /// Wide-integer profile.
    Int32Info,
    /// Packed samples.
    PackedSamples,
    /// Packed correction data.
    PackedCorrectionData,
    /// Literal low bits of float or wide-integer samples.
    PackedOverflowBits,
    /// Channel layout.
    MultichannelInfo,
    /// RIFF bytes before the audio.
    RiffHeader,
    /// RIFF bytes after the audio.
    RiffTrailer,
    /// Encoder details.
    EncodingDetails,
    /// MD5 of the raw audio.
    Md5Checksum,
    /// Sample rate outside the standard table.
    NonStandardSampleRate,
    /// An ID without a name: its number and optional flag.
    Unknown(u8),
}

/// The ID that an ID byte names; only its low six bits count.
pub open spec fn id_named(id_byte: u8) -> SubBlockId {
    let key = id_byte % 64;
    if key == 0x00 {
        SubBlockId::Dummy
    } else if key == 0x02 {
        SubBlockId::DecorrelationTerms
    } else if key == 0x03 {
        SubBlockId::DecorrelationWeights
    } else if key == 0x04 {
        SubBlockId::DecorrelationSamples
    } else if key == 0x05 {
        SubBlockId::EntropyInfo
    } else if key == 0x06 {
        SubBlockId::HybridProfile
    } else if key == 0x07 {
        SubBlockId::NoiseShapingProfile
    } else if key == 0x08 {
        SubBlockId::FloatInfo
    } else if key == 0x09 {
        SubBlockId::Int32Info
    } else if key == 0x0A {
        SubBlockId::PackedSamples
    } else if key == 0x0B {
        SubBlockId::PackedCorrectionData
    } else if key == 0x0C {
        SubBlockId::PackedOverflowBits
    } else if key == 0x0D {
        SubBlockId::MultichannelInfo
    } else if key == 0x20 {
        SubBlockId::RiffHeader
    } else if key == 0x21 {
        SubBlockId::RiffTrailer
    } else if key == 0x25 {
        SubBlockId::EncodingDetails
    } else if key == 0x26 {
        SubBlockId::Md5Checksum
    } else if key == 0x27 {
        SubBlockId::NonStandardSampleRate
    } else {
        SubBlockId::Unknown(key)
    }
}

/// The ID byte of an ID, without size flags.
pub open spec fn id_byte_of(id: SubBlockId) -> u8 {
    match id {
        SubBlockId::Dummy => 0x00,
        SubBlockId::DecorrelationTerms => 0x02,
        SubBlockId::DecorrelationWeights => 0x03,
        SubBlockId::DecorrelationSamples => 0x04,
        SubBlockId::EntropyInfo => 0x05,
        SubBlockId::HybridProfile => 0x06,
        SubBlockId::NoiseShapingProfile => 0x07,
        SubBlockId::FloatInfo => 0x08,
        SubBlockId::Int32Info => 0x09,
        SubBlockId::PackedSamples => 0x0A,
        SubBlockId::PackedCorrectionData => 0x0B,
        SubBlockId::PackedOverflowBits => 0x0C,
        SubBlockId::MultichannelInfo => 0x0D,
        SubBlockId::RiffHeader => 0x20,
        SubBlockId::RiffTrailer => 0x21,
        SubBlockId::EncodingDetails => 0x25,
        SubBlockId::Md5Checksum => 0x26,
        SubBlockId::NonStandardSampleRate => 0x27,
        SubBlockId::Unknown(v) => v % 64,
    }
}

impl SubBlockId {
    /// Whether this is a decorrelation payload.
    pub fn is_decorrelation(&self) -> (r: bool)
        ensures
            r == (*self is DecorrelationTerms || *self is DecorrelationWeights || *self is DecorrelationSamples),
    {
        matches!(
            *self,
            SubBlockId::DecorrelationTerms | SubBlockId::DecorrelationWeights | SubBlockId::DecorrelationSamples
        )
    }

    /// Whether this payload belongs to the correction stream.
    pub fn is_correction_stream(&self) -> (r: bool)
        ensures
            r == (*self is NoiseShapingProfile || *self is PackedCorrectionData),
    {
        matches!(*self, SubBlockId::NoiseShapingProfile | SubBlockId::PackedCorrectionData)
    }

    /// Whether this payload is RIFF framing.
    pub fn is_riff_wrapper(&self) -> (r: bool)
        ensures
            r == (*self is RiffHeader || *self is RiffTrailer),
    {
        matches!(*self, SubBlockId::RiffHeader | SubBlockId::RiffTrailer)
    }

    /// Whether this payload is the packed audio.
    pub fn is_audio(&self) -> (r: bool)
        ensures
            r == (*self is PackedSamples),
    {
        matches!(*self, SubBlockId::PackedSamples)
    }

    /// The ID that an ID byte names; only its low six bits count.
    pub fn from_id_byte(id_byte: u8) -> (r: SubBlockId)
        ensures
            r == id_named(id_byte),
    {
        let key: u8 = id_byte % 64;
        match key {
            0x00 => SubBlockId::Dummy,
            0x02 => SubBlockId::DecorrelationTerms,
            0x03 => SubBlockId::DecorrelationWeights,
            0x04 => SubBlockId::DecorrelationSamples,
            0x05 => SubBlockId::EntropyInfo,
            0x06 => SubBlockId::HybridProfile,
            0x07 => SubBlockId::NoiseShapingProfile,
            0x08 => SubBlockId::FloatInfo,
            0x09 => SubBlockId::Int32Info,
            0x0A => SubBlockId::PackedSamples,
            0x0B => SubBlockId::PackedCorrectionData,
            0x0C => SubBlockId::PackedOverflowBits,
            0x0D => SubBlockId::MultichannelInfo,
            0x20 => SubBlockId::RiffHeader,
            0x21 => SubBlockId::RiffTrailer,
            0x25 => SubBlockId::EncodingDetails,
            0x26 => SubBlockId::Md5Checksum,
            0x27 => SubBlockId::NonStandardSampleRate,
            other => SubBlockId::Unknown(other),
        }
    }

    /// The ID byte of this ID, without size flags.
    pub fn as_id_byte(&self) -> (r: u8)
        ensures
            r == id_byte_of(*self),
            r < 64,
    {
        match *self {
            SubBlockId::Dummy => 0x00,
            SubBlockId::DecorrelationTerms => 0x02,
            SubBlockId::DecorrelationWeights => 0x03,
            SubBlockId::DecorrelationSamples => 0x04,
            SubBlockId::EntropyInfo => 0x05,
            SubBlockId::HybridProfile => 0x06,
            SubBlockId::NoiseShapingProfile => 0x07,
            SubBlockId::FloatInfo => 0x08,
            SubBlockId::Int32Info => 0x09,
            SubBlockId::PackedSamples => 0x0A,
            SubBlockId::PackedCorrectionData => 0x0B,
            SubBlockId::PackedOverflowBits => 0x0C,
            SubBlockId::MultichannelInfo => 0x0D,
            SubBlockId::RiffHeader => 0x20,
            SubBlockId::RiffTrailer => 0x21,
            SubBlockId::EncodingDetails => 0x25,
            SubBlockId::Md5Checksum => 0x26,
            SubBlockId::NonStandardSampleRate => 0x27,
            SubBlockId::Unknown(v) => v % 64,
        }
    }
}

/// The byte of a named ID names it again, and the ID of a byte keeps the
/// byte's low six bits.
pub proof fn id_byte_roundtrip(id_byte: u8, id: SubBlockId)
    ensures
        id_byte_of(id_named(id_byte)) == id_byte % 64,
        !(id is Unknown) ==> id_named(id_byte_of(id)) == id,
{
}

/// The flags of an ID byte.
#[derive(Debug, Clone, Copy, PartialEq, Eq, Structural)]
pub struct SubBlockFlags {
    /// A decoder may skip the sub-block.
    pub optional: bool,
    /// The last payload byte is padding.
    pub odd_size: bool,
    /// The size takes three bytes.
    pub large_size: bool,
}

/// The flags in an ID byte.
pub open spec fn flags_in(id_byte: u8) -> SubBlockFlags {
    SubBlockFlags {
        optional: id_byte / 32 % 2 == 1,
        odd_size: id_byte / 64 % 2 == 1,
        large_size: id_byte / 128 == 1,
    }
}

impl SubBlockFlags {
    /// The flags in an ID byte.
    pub fn from_id_byte(id_byte: u8) -> (r: SubBlockFlags)
        ensures
            r == flags_in(id_byte),
    {
        SubBlockFlags {
            optional: id_byte / 32 % 2 == 1,
            odd_size: id_byte / 64 % 2 == 1,
            large_size: id_byte / 128 == 1,
        }
    }
}

/// One sub-block.
#[derive(Debug, Clone, PartialEq, Eq)]
pub struct MetadataSubBlock<'a> {
    /// The ID byte as it stands in the stream.
    pub id_byte: u8,
    /// What the sub-block carries.
    pub id: SubBlockId,
    /// Its flags.
    pub flags: SubBlockFlags,
    /// Its size field, in 16-bit words.
    pub size_words: u32,
    /// Its payload, without padding.
    pub payload: &'a [u8],
}

/// A sub-block as a value.
#[verifier::ext_equal]
pub struct Sub {
    /// The ID byte.
    pub id_byte: u8,
    /// What the sub-block carries.
    pub id: SubBlockId,
    /// The flags.
    pub flags: SubBlockFlags,
    /// The size field.
    pub size_words: u32,
    /// The payload.
    pub payload: Seq<u8>,
}

impl<'a> View for MetadataSubBlock<'a> {
    type V = Sub;

    open spec fn view(&self) -> Sub {
        Sub {
            id_byte: self.id_byte,
            id: self.id,
            flags: self.flags,
            size_words: self.size_words,
            payload: self.payload@,
        }
    }
}

impl<'a> MetadataSubBlock<'a> {
    /// The decoded fields are those of the ID byte.
    pub open spec fn wf(&self) -> bool {
        &&& self.id == id_named(self.id_byte)
        &&& self.flags == flags_in(self.id_byte)
    }

    /// Whether a decoder may skip the sub-block.
    pub fn is_optional(&self) -> (r: bool)
        ensures
            r == self.flags.optional,
    {
        self.flags.optional
    }

    /// Whether this is a decorrelation payload.
    pub fn is_decorrelation_payload(&self) -> (r: bool)
        ensures
            r == (self.id is DecorrelationTerms || self.id is DecorrelationWeights || self.id is DecorrelationSamples),
    {
        self.id.is_decorrelation()
    }

    /// Whether this payload belongs to the correction stream.
    pub fn is_correction_payload(&self) -> (r: bool)
        ensures
            r == (self.id is NoiseShapingProfile || self.id is PackedCorrectionData),
    {
        self.id.is_correction_stream()
    }

    /// Whether this payload is the packed audio.
    pub fn is_audio_payload(&self) -> (r: bool)
        ensures
            r == (self.id is PackedSamples),
    {
        self.id.is_audio()
    }

    /// Whether this payload is RIFF framing.
    pub fn is_riff_payload(&self) -> (r: bool)
        ensures
            r == (self.id is RiffHeader || self.id is RiffTrailer),
    {
        self.id.is_riff_wrapper()
    }

    /// Whether this is padding.
    pub fn is_dummy_payload(&self) -> (r: bool)
        ensures
            r == (self.id is Dummy),
    {
        matches!(self.id, SubBlockId::Dummy)
    }

    /// Whether this is the hybrid profile.
    pub fn is_hybrid_profile_payload(&self) -> (r: bool)
        ensures
            r == (self.id is HybridProfile),
    {
        matches!(self.id, SubBlockId::HybridProfile)
    }

    /// Whether this is the floating-point profile.
    pub fn is_float_payload(&self) -> (r: bool)
        ensures
            r == (self.id is FloatInfo),
    {
        matches!(self.id, SubBlockId::FloatInfo)
    }

    /// Whether this is the wide-integer profile.
    pub fn is_int32_payload(&self) -> (r: bool)
        ensures
            r == (self.id is Int32Info),
    {
        matches!(self.id, SubBlockId::Int32Info)
    }

    /// Whether this holds literal low bits.
    pub fn is_overflow_bits_payload(&self) -> (r: bool)
        ensures
            r == (self.id is PackedOverflowBits),
    {
        matches!(self.id, SubBlockId::PackedOverflowBits)
    }

    /// Whether this is the channel layout.
    pub fn is_multichannel_info_payload(&self) -> (r: bool)
        ensures
            r == (self.id is MultichannelInfo),
    {
        matches!(self.id, SubBlockId::MultichannelInfo)
    }

    /// Whether this holds encoder details.
    pub fn is_encoding_details_payload(&self) -> (r: bool)
        ensures
            r == (self.id is EncodingDetails),
    {
        matches!(self.id, SubBlockId::EncodingDetails)
    }

    /// Whether this is the MD5 of the raw audio.
    pub fn is_md5_payload(&self) -> (r: bool)
        ensures
            r == (self.id is Md5Checksum),
    {
        matches!(self.id, SubBlockId::Md5Checksum)
    }

    /// Whether this is a sample rate.
    pub fn is_sample_rate_payload(&self) -> (r: bool)
        ensures
            r == (self.id is NonStandardSampleRate),
    {
        matches!(self.id, SubBlockId::NonStandardSampleRate)
    }
}

// ---------------------------------------------------------------------------
// Reading the chain
// ---------------------------------------------------------------------------

/// The bytes before the payload.
pub open spec fn sub_header_len(id_byte: u8) -> int {
    if flags_in(id_byte).large_size {
        4
    } else {
        2
    }
}

/// The size field, in words.
pub open spec fn sub_words(bytes: Seq<u8>) -> u32 {
    if flags_in(bytes[0]).large_size {
        (bytes[1] + 256 * bytes[2] + 65536 * bytes[3]) as u32
    } else {
        bytes[1] as u32
    }
}

/// The first sub-block of a chain and the bytes after it.
pub open spec fn parse_sub(bytes: Seq<u8>) -> core::result::Result<(Sub, Seq<u8>), Error> {
    if bytes.len() == 0 || bytes.len() < sub_header_len(bytes[0]) {
        Err(Error::Truncated)
    } else {
        let head = sub_header_len(bytes[0]);
        let words = sub_words(bytes);
        let total = head + 2 * words;
        let odd = flags_in(bytes[0]).odd_size;
        if bytes.len() < total {
            Err(Error::Truncated)
        } else if odd && words == 0 {
            Err(Error::MetadataOddSizeWithoutPayload)
        } else {
            Ok(
                (
                    Sub {
                        id_byte: bytes[0],
                        id: id_named(bytes[0]),
                        flags: flags_in(bytes[0]),
                        size_words: words,
                        payload: bytes.subrange(head, if odd { total - 1 } else { total }),
                    },
                    bytes.skip(total),
                ),
            )
        }
    }
}

/// Every sub-block of a chain.
pub open spec fn walk(bytes: Seq<u8>) -> core::result::Result<Seq<Sub>, Error>
    decreases bytes.len(),
{
    if bytes.len() == 0 {
        Ok(Seq::empty())
    } else {
        match parse_sub(bytes) {
            Err(e) => Err(e),
            Ok((sub, rest)) => if rest.len() < bytes.len() {
                match walk(rest) {
                    Err(e) => Err(e),
                    Ok(subs) => Ok(seq![sub] + subs),
                }
            } else {
                Err(Error::Truncated)
            },
        }
    }
}

/// The sub-blocks of a list.
pub open spec fn subs_of(subs: Seq<MetadataSubBlock<'_>>) -> Seq<Sub> {
    Seq::new(subs.len(), |i: int| subs[i]@)
}

/// Every sub-block of the list is well formed.
pub open spec fn subs_wf(subs: Seq<MetadataSubBlock<'_>>) -> bool {
    forall|i: int| 0 <= i < subs.len() ==> (#[trigger] subs[i]).wf()
}

/// Reads the first sub-block of a chain; gives it and the bytes after it.
pub fn parse_metadata_sub_block<'a>(bytes: &'a [u8]) -> (r: Result<(MetadataSubBlock<'a>, &'a [u8])>)
    ensures
        match parse_sub(bytes@) {
            Err(e) => r is Err && r->Err_0 == e,
            Ok((sub, rest)) => r is Ok && r->Ok_0.0@ == sub && r->Ok_0.0.wf() && r->Ok_0.1@ == rest,
        },
        r is Ok ==> r->Ok_0.1@.len() < bytes@.len(),
{
    if bytes.len() == 0 {
        return Err(Error::Truncated);
    }
    let id_byte: u8 = bytes[0];
    let flags = SubBlockFlags::from_id_byte(id_byte);
    let id = SubBlockId::from_id_byte(id_byte);
    let head: usize = if flags.large_size {
        4
    } else {
        2
    };
    if bytes.len() < head {
        return Err(Error::Truncated);
    }
    let size_words: u32 = if flags.large_size {
        bytes[1] as u32 + 256 * bytes[2] as u32 + 65536 * bytes[3] as u32
    } else {
        bytes[1] as u32
    };
    let total: usize = head + 2 * size_words as usize;
    if bytes.len() < total {
        return Err(Error::Truncated);
    }
    let end: usize = if flags.odd_size {
        if size_words == 0 {
            return Err(Error::MetadataOddSizeWithoutPayload);
        }
        total - 1
    } else {
        total
    };
    let payload = &bytes[head..end];
    let sub = MetadataSubBlock { id_byte, id, flags, size_words, payload };
    let rest = &bytes[total..bytes.len()];
    assert(rest@ =~= bytes@.skip(total as int));
    Ok((sub, rest))
}

/// Reads every sub-block of a chain.
pub fn walk_metadata<'a>(bytes: &'a [u8]) -> (r: Result<Vec<MetadataSubBlock<'a>>>)
    ensures
        match walk(bytes@) {
            Err(e) => r is Err && r->Err_0 == e,
            Ok(subs) => r is Ok && subs_of(r->Ok_0@) == subs && subs_wf(r->Ok_0@),
        },
{
    let mut out: Vec<MetadataSubBlock<'a>> = Vec::new();
    let mut rest = bytes;
    let ghost whole = walk(bytes@);
    proof {
        if whole is Ok {
            assert(subs_of(out@) + whole->Ok_0 =~= whole->Ok_0);
        }
    }
    while rest.len() > 0
        invariant
            whole == walk(bytes@),
            subs_wf(out@),
            match walk(rest@) {
                Err(e) => whole == Err::<Seq<Sub>, Error>(e),
                Ok(subs) => whole == Ok::<Seq<Sub>, Error>(subs_of(out@) + subs),
            },
        decreases rest.len(),
    {
        match parse_metadata_sub_block(rest) {
            Err(e) => {
                return Err(e);
            }
            Ok((sub, tail)) => {
                let ghost before = subs_of(out@);
                let ghost one = sub@;
                out.push(sub);
                rest = tail;
                proof {
                    assert(subs_of(out@) =~= before.push(one));
                    let later = walk(rest@);
                    if later is Ok {
                        assert(before + (seq![one] + later->Ok_0) =~= subs_of(out@) + later->Ok_0);
                    }
                }
            }
        }
    }
    assert(subs_of(out@) + Seq::empty() =~= subs_of(out@));
    Ok(out)
}

/// The bytes that a list of sub-blocks takes.
pub open spec fn chain_len(subs: Seq<Sub>) -> int
    decreases subs.len(),
{
    if subs.len() == 0 {
        0
    } else {
        (if subs[0].flags.large_size {
            4int
        } else {
            2
        }) + 2 * subs[0].size_words + chain_len(subs.skip(1))
    }
}

/// The sub-blocks of a chain take up all of its bytes.
pub proof fn chain_is_covered(bytes: Seq<u8>)
    requires
        walk(bytes) is Ok,
    ensures
        chain_len(walk(bytes)->Ok_0) == bytes.len(),
    decreases bytes.len(),
{
    if bytes.len() > 0 {
        let (sub, rest) = parse_sub(bytes)->Ok_0;
        chain_is_covered(rest);
        assert((seq![sub] + walk(rest)->Ok_0).skip(1) =~= walk(rest)->Ok_0);
    }
}

/// A chain behind another reads as its sub-blocks behind those of the other,
/// or fails as it does alone.
pub proof fn chains_join(a: Seq<u8>, b: Seq<u8>)
    requires
        walk(a) is Ok,
    ensures
        walk(a + b) == (match walk(b) {
            Ok(subs) => Ok::<Seq<Sub>, Error>(walk(a)->Ok_0 + subs),
            Err(e) => Err(e),
        }),
    decreases a.len(),
{
    if a.len() == 0 {
        assert(a + b =~= b);
        if let Ok(subs) = walk(b) {
            assert(walk(a)->Ok_0 + subs =~= subs);
        }
    } else {
        let (sub, rest) = parse_sub(a)->Ok_0;
        let all = a + b;
        let head = sub_header_len(a[0]);
        let words = sub_words(a);
        let total = head + 2 * words;
        assert(all[0] == a[0] && all[1] == a[1]);
        if head == 4 {
            assert(all[2] == a[2] && all[3] == a[3]);
        }
        assert(sub_words(all) == words);
        let end = if flags_in(a[0]).odd_size {
            total - 1
        } else {
            total
        };
        assert(all.subrange(head, end) =~= a.subrange(head, end));
        assert(all.skip(total) =~= rest + b);
        assert(parse_sub(all) == Ok::<(Sub, Seq<u8>), Error>((sub, rest + b)));
        chains_join(rest, b);
        if let Ok(subs) = walk(b) {
            assert(seq![sub] + (walk(rest)->Ok_0 + subs) =~= (seq![sub] + walk(rest)->Ok_0) + subs);
        }
    }
}

// ---------------------------------------------------------------------------
// Writing the chain
// ---------------------------------------------------------------------------

/// The bytes of a sub-block; a payload of more than 2^24 words is refused.
pub open spec fn sub_bytes(id: u8, payload: Seq<u8>) -> core::result::Result<Seq<u8>, Error> {
    let odd = payload.len() % 2;
    let words = (payload.len() + odd) / 2;
    let pad = if odd == 1 {
        seq![0u8]
    } else {
        Seq::empty()
    };
    if words <= 0xFF {
        Ok(seq![(id + 64 * odd) as u8, words as u8] + payload + pad)
    } else if words <= 0x00FF_FFFF {
        Ok(
            seq![
                (id + 64 * odd + 128) as u8,
                (words % 256) as u8,
                (words / 256 % 256) as u8,
                (words / 65536) as u8,
            ] + payload + pad,
        )
    } else {
        Err(
            Error::EncodeBlockTooLarge(
                if payload.len() + odd <= usize::MAX {
                    (payload.len() + odd) as usize
                } else {
                    usize::MAX
                },
            ),
        )
    }
}

/// `s` before more bytes.
pub open spec fn bytes_then(s: Seq<u8>, r: core::result::Result<Seq<u8>, Error>) -> core::result::Result<Seq<u8>, Error> {
    match r {
        Ok(rest) => Ok(s + rest),
        Err(e) => Err(e),
    }
}

/// Appends a sub-block.
pub fn append_sub_block(out: &mut Vec<u8>, id: u8, payload: &[u8]) -> (r: Result<()>)
    requires
        id < 64,
    ensures
        match sub_bytes(id, payload@) {
            Ok(bytes) => r is Ok && final(out)@ == old(out)@ + bytes,
            Err(e) => r == Err::<(), Error>(e) && final(out)@ == old(out)@,
        },
{
    let odd: bool = payload.len() % 2 == 1;
    let words: usize = payload.len() / 2 + if odd { 1usize } else { 0usize };
    let id_byte: u8 = if odd {
        id + 64
    } else {
        id
    };
    if words <= 0xFF {
        out.push(id_byte);
        out.push(words as u8);
    } else if words <= 0x00FF_FFFF {
        out.push(id_byte + 128);
        out.push((words % 256) as u8);
        out.push((words / 256 % 256) as u8);
        out.push((words / 65536) as u8);
    } else {
        let padded: usize = if odd && payload.len() < usize::MAX {
            payload.len() + 1
        } else {
            payload.len()
        };
        return Err(Error::EncodeBlockTooLarge(padded));
    }
    out.extend_from_slice(payload);
    if odd {
        out.push(0);
    }
    assert(out@ =~= old(out)@ + sub_bytes(id, payload@)->Ok_0);
    Ok(())
}

/// The sub-block that reading `sub_bytes` gives.
pub open spec fn sub_written(id: u8, payload: Seq<u8>) -> Sub {
    let odd = payload.len() % 2;
    let words = (payload.len() + odd) / 2;
    let id_byte = (id + 64 * odd + if words <= 0xFF { 0int } else { 128 }) as u8;
    Sub {
        id_byte,
        id: id_named(id_byte),
        flags: flags_in(id_byte),
        size_words: words as u32,
        payload,
    }
}

/// Reading a written sub-block gives its ID and payload, and stops at its end.
pub proof fn sub_block_roundtrip(id: u8, payload: Seq<u8>, rest: Seq<u8>)
    requires
        id < 64,
        sub_bytes(id, payload) is Ok,
    ensures
        parse_sub(sub_bytes(id, payload)->Ok_0 + rest) == Ok::<(Sub, Seq<u8>), Error>((sub_written(id, payload), rest)),
        sub_written(id, payload).id == id_named(id),
        sub_written(id, payload).payload == payload,
        sub_bytes(id, payload)->Ok_0.len() > 0,
{
    let bytes = sub_bytes(id, payload)->Ok_0 + rest;
    let odd = payload.len() % 2;
    let words = (payload.len() + odd) / 2;
    let head = sub_header_len(bytes[0]);
    assert(flags_in(bytes[0]).odd_size == (odd == 1));
    assert(flags_in(bytes[0]).large_size == (words > 0xFF));
    assert(sub_words(bytes) == words);
    let total = head + 2 * words;
    assert(bytes.subrange(head, if odd == 1 { total - 1 } else { total as int }) =~= payload);
    assert(bytes.skip(total as int) =~= rest);
}

/// Written sub-blocks have an even number of bytes.
pub proof fn sub_blocks_are_even(id: u8, payload: Seq<u8>)
    requires
        sub_bytes(id, payload) is Ok,
    ensures
        sub_bytes(id, payload)->Ok_0.len() % 2 == 0,
{
}

/// Walking a chain that starts with a written sub-block.
pub proof fn lemma_walk_written(id: u8, payload: Seq<u8>, rest: Seq<u8>)
    requires
        id < 64,
        sub_bytes(id, payload) is Ok,
        walk(rest) is Ok,
    ensures
        walk(sub_bytes(id, payload)->Ok_0 + rest) == Ok::<Seq<Sub>, Error>(
            seq![sub_written(id, payload)] + walk(rest)->Ok_0,
        ),
        sub_written(id, payload).id == id_named(id),
        sub_written(id, payload).payload == payload,
{
    sub_block_roundtrip(id, payload, rest);
}

// ---------------------------------------------------------------------------
// Finding sub-blocks
// ---------------------------------------------------------------------------

/// The first sub-block from `i` on that carries `id`.
pub open spec fn first_from(subs: Seq<Sub>, id: SubBlockId, i: int) -> Option<Sub>
    decreases subs.len() - i,
{
    if i < 0 || i >= subs.len() {
        None
    } else if subs[i].id == id {
        Some(subs[i])
    } else {
        first_from(subs, id, i + 1)
    }
}

/// The first sub-block that carries `id`.
pub open spec fn first_of(subs: Seq<Sub>, id: SubBlockId) -> Option<Sub> {
    first_from(subs, id, 0)
}

/// The payload of the first sub-block that carries `id`.
pub open spec fn payload_in(subs: Seq<Sub>, id: SubBlockId) -> Option<Seq<u8>> {
    match first_of(subs, id) {
        Some(s) => Some(s.payload),
        None => None,
    }
}

/// The sub-block behind a search result.
pub open spec fn found(r: Option<&MetadataSubBlock<'_>>) -> Option<Sub> {
    match r {
        Some(s) => Some(s@),
        None => None,
    }
}

/// Whether a search result is the earliest element that carries `id`.
pub open spec fn is_earliest(
    r: Option<&MetadataSubBlock<'_>>,
    subs: Seq<MetadataSubBlock<'_>>,
    id: SubBlockId,
) -> bool {
    match r {
        None => forall|i: int| 0 <= i < subs.len() ==> (#[trigger] subs[i]).id != id,
        Some(s) => exists|i: int|
            0 <= i < subs.len() && *s == #[trigger] subs[i] && subs[i].id == id && forall|j: int|
                0 <= j < i ==> (#[trigger] subs[j]).id != id,
    }
}

/// The first sub-block that carries `id`.
pub fn find_first<'walk, 'a>(subs: &'walk [MetadataSubBlock<'a>], id: SubBlockId) -> (r: Option<
    &'walk MetadataSubBlock<'a>,
>)
    ensures
        found(r) == first_of(subs_of(subs@), id),
        is_earliest(r, subs@, id),
{
    let mut i: usize = 0;
    while i < subs.len()
        invariant
            i <= subs.len(),
            first_of(subs_of(subs@), id) == first_from(subs_of(subs@), id, i as int),
            forall|j: int| 0 <= j < i ==> (#[trigger] subs@[j]).id != id,
        decreases subs.len() - i,
    {
        assert(subs_of(subs@)[i as int] == subs@[i as int]@);
        if subs[i].id == id {
            return Some(&subs[i]);
        }
        i = i + 1;
    }
    None
}

/// The packed audio.
pub fn find_audio_payload<'walk, 'a>(subs: &'walk [MetadataSubBlock<'a>]) -> (r: Option<&'walk MetadataSubBlock<'a>>)
    ensures
        found(r) == first_of(subs_of(subs@), SubBlockId::PackedSamples),
        is_earliest(r, subs@, SubBlockId::PackedSamples),
{
    find_first(subs, SubBlockId::PackedSamples)
}

/// The median seeds.
pub fn find_entropy_info<'walk, 'a>(subs: &'walk [MetadataSubBlock<'a>]) -> (r: Option<&'walk MetadataSubBlock<'a>>)
    ensures
        found(r) == first_of(subs_of(subs@), SubBlockId::EntropyInfo),
        is_earliest(r, subs@, SubBlockId::EntropyInfo),
{
    find_first(subs, SubBlockId::EntropyInfo)
}

/// The MD5 of the raw audio.
pub fn find_md5_checksum_block<'walk, 'a>(subs: &'walk [MetadataSubBlock<'a>]) -> (r: Option<
    &'walk MetadataSubBlock<'a>,
>)
    ensures
        found(r) == first_of(subs_of(subs@), SubBlockId::Md5Checksum),
        is_earliest(r, subs@, SubBlockId::Md5Checksum),
{
    find_first(subs, SubBlockId::Md5Checksum)
}

/// The channel layout.
pub fn find_multichannel_info<'walk, 'a>(subs: &'walk [MetadataSubBlock<'a>]) -> (r: Option<
    &'walk MetadataSubBlock<'a>,
>)
    ensures
        found(r) == first_of(subs_of(subs@), SubBlockId::MultichannelInfo),
        is_earliest(r, subs@, SubBlockId::MultichannelInfo),
{
    find_first(subs, SubBlockId::MultichannelInfo)
}

/// The sample rate outside the standard table.
pub fn find_non_standard_sample_rate<'walk, 'a>(subs: &'walk [MetadataSubBlock<'a>]) -> (r: Option<
    &'walk MetadataSubBlock<'a>,
>)
    ensures
        found(r) == first_of(subs_of(subs@), SubBlockId::NonStandardSampleRate),
        is_earliest(r, subs@, SubBlockId::NonStandardSampleRate),
{
    find_first(subs, SubBlockId::NonStandardSampleRate)
}

/// The packed audio, as a typed view.
pub fn find_packed_samples<'a>(subs: &[MetadataSubBlock<'a>]) -> (r: Option<PackedSamples<'a>>)
    ensures
        (match r {
            Some(p) => Some(p@),
            None => None,
        }) == payload_in(subs_of(subs@), SubBlockId::PackedSamples),
{
    match find_first(subs, SubBlockId::PackedSamples) {
        Some(s) => Some(PackedSamples::new(s.payload)),
        None => None,
    }
}

/// The packed correction data.
pub fn find_packed_correction_data_sub_block<'walk, 'a>(subs: &'walk [MetadataSubBlock<'a>]) -> (r: Option<
    &'walk MetadataSubBlock<'a>,
>)
    ensures
        found(r) == first_of(subs_of(subs@), SubBlockId::PackedCorrectionData),
        is_earliest(r, subs@, SubBlockId::PackedCorrectionData),
{
    find_first(subs, SubBlockId::PackedCorrectionData)
}

/// The packed correction data, as a typed view.
pub fn find_packed_correction_data<'a>(subs: &[MetadataSubBlock<'a>]) -> (r: Option<PackedCorrectionData<'a>>)
    ensures
        (match r {
            Some(p) => Some(p@),
            None => None,
        }) == payload_in(subs_of(subs@), SubBlockId::PackedCorrectionData),
{
    match find_first(subs, SubBlockId::PackedCorrectionData) {
        Some(s) => Some(PackedCorrectionData::new(s.payload)),
        None => None,
    }
}

/// The noise-shaping state.
pub fn find_noise_shaping_profile<'walk, 'a>(subs: &'walk [MetadataSubBlock<'a>]) -> (r: Option<
    &'walk MetadataSubBlock<'a>,
>)
    ensures
        found(r) == first_of(subs_of(subs@), SubBlockId::NoiseShapingProfile),
        is_earliest(r, subs@, SubBlockId::NoiseShapingProfile),
{
    find_first(subs, SubBlockId::NoiseShapingProfile)
}

/// The literal low bits.
pub fn find_packed_overflow_bits_sub_block<'walk, 'a>(subs: &'walk [MetadataSubBlock<'a>]) -> (r: Option<
    &'walk MetadataSubBlock<'a>,
>)
    ensures
        found(r) == first_of(subs_of(subs@), SubBlockId::PackedOverflowBits),
        is_earliest(r, subs@, SubBlockId::PackedOverflowBits),
{
    find_first(subs, SubBlockId::PackedOverflowBits)
}

/// The literal low bits, as a typed view.
pub fn find_packed_overflow_bits<'a>(subs: &[MetadataSubBlock<'a>]) -> (r: Option<PackedOverflowBits<'a>>)
    ensures
        (match r {
            Some(p) => Some(p@),
            None => None,
        }) == payload_in(subs_of(subs@), SubBlockId::PackedOverflowBits),
{
    match find_first(subs, SubBlockId::PackedOverflowBits) {
        Some(s) => Some(PackedOverflowBits::new(s.payload)),
        None => None,
    }
}

/// The hybrid profile.
pub fn find_hybrid_profile<'walk, 'a>(subs: &'walk [MetadataSubBlock<'a>]) -> (r: Option<&'walk MetadataSubBlock<'a>>)
    ensures
        found(r) == first_of(subs_of(subs@), SubBlockId::HybridProfile),
        is_earliest(r, subs@, SubBlockId::HybridProfile),
{
    find_first(subs, SubBlockId::HybridProfile)
}

/// Terms, weights and seed samples; none where one of them is missing.
pub fn find_decorrelation_triple<'walk, 'a>(subs: &'walk [MetadataSubBlock<'a>]) -> (r: Option<
    (&'walk MetadataSubBlock<'a>, &'walk MetadataSubBlock<'a>, &'walk MetadataSubBlock<'a>),
>)
    ensures
        ({
            let terms = first_of(subs_of(subs@), SubBlockId::DecorrelationTerms);
            let weights = first_of(subs_of(subs@), SubBlockId::DecorrelationWeights);
            let samples = first_of(subs_of(subs@), SubBlockId::DecorrelationSamples);
            match r {
                Some((t, w, s)) => {
                    &&& terms == Some(t@) && is_earliest(Some(t), subs@, SubBlockId::DecorrelationTerms)
                    &&& weights == Some(w@) && is_earliest(Some(w), subs@, SubBlockId::DecorrelationWeights)
                    &&& samples == Some(s@) && is_earliest(Some(s), subs@, SubBlockId::DecorrelationSamples)
                },
                None => terms is None || weights is None || samples is None,
            }
        }),
{
    let terms = match find_first(subs, SubBlockId::DecorrelationTerms) {
        None => {
            return None;
        }
        Some(s) => s,
    };
    let weights = match find_first(subs, SubBlockId::DecorrelationWeights) {
        None => {
            return None;
        }
        Some(s) => s,
    };
    let samples = match find_first(subs, SubBlockId::DecorrelationSamples) {
        None => {
            return None;
        }
        Some(s) => s,
    };
    Some((terms, weights, samples))
}

// ---------------------------------------------------------------------------
// Small payloads
// ---------------------------------------------------------------------------

/// The bytes of an MD5 digest.
pub const MD5_DIGEST_BYTES: usize = 16;

/// The MD5 of the raw audio.
#[derive(Debug, Clone, Copy, PartialEq, Eq, Hash)]
pub struct Md5Checksum(pub [u8; 16]);

impl Md5Checksum {
    /// The digest.
    pub fn as_bytes(&self) -> (r: &[u8; 16])
        ensures
            r == self.0,
    {
        &self.0
    }
}

/// Reads an MD5 payload.
pub fn parse_md5_checksum(payload: &[u8]) -> (r: Result<Md5Checksum>)
    ensures
        payload.len() != MD5_DIGEST_BYTES ==> r is Err && r->Err_0 == Error::Md5ChecksumLength(payload.len()),
        payload.len() == MD5_DIGEST_BYTES ==> r is Ok && r->Ok_0.0@ == payload@,
{
    if payload.len() != MD5_DIGEST_BYTES {
        return Err(Error::Md5ChecksumLength(payload.len()));
    }
    let mut digest: [u8; 16] = [0u8; 16];
    let mut i: usize = 0;
    while i < 16
        invariant
            i <= 16,
            payload.len() == 16,
            forall|k: int| 0 <= k < i ==> digest@[k] == payload@[k],
        decreases 16 - i,
    {
        digest[i] = payload[i];
        i = i + 1;
    }
    assert(digest@ =~= payload@);
    Ok(Md5Checksum(digest))
}

/// The rate in a three-byte payload.
pub open spec fn rate_in(payload: Seq<u8>) -> u32 {
    (payload[0] + 256 * payload[1] + 65536 * payload[2]) as u32
}

/// Reads a sample-rate payload.
pub fn parse_non_standard_sample_rate(payload: &[u8]) -> (r: Result<u32>)
    ensures
        r == if payload.len() == 3 {
            Ok::<u32, Error>(rate_in(payload@))
        } else {
            Err(Error::SampleRatePayloadLength(payload.len()))
        },
{
    if payload.len() != 3 {
        return Err(Error::SampleRatePayloadLength(payload.len()));
    }
    Ok(payload[0] as u32 + 256 * payload[1] as u32 + 65536 * payload[2] as u32)
}

} // verus!
