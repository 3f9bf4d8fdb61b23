//! What the codec refuses, and why.
use vstd::prelude::*;

verus! {

/// A block feature the decoder does not restore.
#[derive(Debug, Clone, Copy, PartialEq, Eq, Structural)]
pub enum UnsupportedBlockFeature {
    /// A hybrid block without its rate profile.
    HybridWithoutProfile,
    /// A hybrid block with a cross-channel term.
    HybridCrossDecorrelation,
    /// Integer samples where floating-point ones were asked for.
    IntegerSamples,
    /// A correction stream for a block that is not hybrid.
    CorrectionOfLossless,
}

/// Every way a parse, a decode or an encode can fail.
#[derive(Debug, Clone, Copy, PartialEq, Eq, Structural)]
pub enum Error {
    /// The input ended before the value it announces.
    Truncated,
    /// The block does not start with `wvpk`.
    InvalidMagic,
    /// `ck_size` is below the header minimum.
    InvalidCkSize(u32),
    /// The version lies outside `0x402..=0x410`.
    UnsupportedVersion(u16),
    /// A sub-block size that does not fit in `usize`.
    MetadataSubBlockTooLarge(u32),
    /// An odd-size flag with no data word to shorten.
    MetadataOddSizeWithoutPayload,
    /// A seed payload that does not divide into 16-bit words.
    DecorrelationSamplesOddByteCount(usize),
    /// An entropy payload that is neither 6 nor 12 bytes.
    EntropyInfoLength(usize),
    /// An MD5 payload that is not 16 bytes.
    Md5ChecksumLength(usize),
    /// A sample-rate payload that is not 3 bytes.
    SampleRatePayloadLength(usize),
    /// A float-info payload that is not 4 bytes.
    FloatInfoLength(usize),
    /// An int32-info payload that is not 4 bytes.
    Int32InfoLength(usize),
    /// An int32-info payload with more than one redundancy count set.
    Int32InfoConflict {
        /// Trailing-zero count.
        zeros: u8,
        /// Trailing-one count.
        ones: u8,
        /// Duplicated-bit count.
        dups: u8,
    },
    /// A fixup whose literal bits are missing.
    BlockMissingOverflowBits,
    /// A float magnitude whose exponent cannot be represented.
    FloatMagnitudeOverflow(u32),
    /// A rate-profile payload of a length no stream shape gives.
    HybridProfileLength(usize),
    /// A sample rate that is zero or does not fit in 24 bits.
    CustomSampleRateOutOfRange(u32),
    /// A packed-samples payload of odd length.
    PackedSamplesOddLength(usize),
    /// A Golomb mantissa over an empty interval.
    GolombDegenerateInterval(i32),
    /// A seed count that disagrees with the term list.
    DecorrelationSampleCountMismatch {
        /// Words the term list asks for.
        expected: usize,
        /// Words in the payload.
        actual: usize,
    },
    /// A term whose seed count is not defined.
    DecorrelationSampleCountUnspecified(i8),
    /// A block longer than the buffer that holds it.
    CkSizeExceedsBuffer {
        /// The announced size.
        ck_size: u32,
        /// The bytes at hand.
        available: usize,
    },
    /// The packed stream carries its end marker.
    EndOfStream,
    /// A negative median seed on a mono block.
    InvalidEntropyInfoForMono,
    /// A mono payload or a negative median seed on a stereo block.
    InvalidEntropyInfoForStereo,
    /// An audio block without entropy info.
    BlockMissingEntropyInfo,
    /// An audio block without packed samples.
    BlockMissingPackedSamples,
    /// A block that carries no audio.
    BlockHasNoAudio,
    /// A block feature that is not restored.
    UnsupportedBlockFeature(UnsupportedBlockFeature),
    /// A magnitude outside the interval its zone can carry.
    ValueNotInInterval {
        /// The magnitude.
        value: u32,
        /// Least value of the interval.
        low: u32,
        /// Greatest value of the interval.
        high: u32,
    },
    /// More samples in one block than the decoder takes.
    BlockSamplesTooLarge(u32),
    /// A term outside `1..=8`, 17, 18, -1, -2, -3.
    InvalidDecorrelationTerm(i8),
    /// A cross-channel term on a mono block.
    CrossTermOnMono(i8),
    /// More than sixteen passes.
    TooManyDecorrelationPasses(usize),
    /// Fewer seed samples than a term needs.
    DecorrelationSeedUnderflow {
        /// The term.
        term: i8,
        /// Seeds at hand.
        supplied: usize,
    },
    /// A weight count that disagrees with the term list.
    DecorrelationWeightCountMismatch {
        /// Weights the term list asks for.
        expected: usize,
        /// Weights in the payload.
        actual: usize,
    },
    /// Weights or seeds without a term list.
    DecorrelationTermsMissing,
    /// Correction residuals that do not pair with the lossy samples.
    HybridCorrectionLengthMismatch {
        /// Lossy samples.
        lossy: usize,
        /// Correction residuals.
        correction: usize,
    },
    /// A raw fold asked of a cross-channel or noise-shaped block.
    HybridFoldPlacementUnsupported,
    /// An audio block of no samples.
    EncodeEmptyAudio,
    /// Interleaved stereo of odd length.
    EncodeStereoOddLength(usize),
    /// A block whose size or counts do not fit their fields.
    EncodeBlockTooLarge(usize),
    /// A shifted encode with shift zero.
    EncodeLeftShiftZero,
    /// A sample whose low bits the shift would drop.
    EncodeLeftShiftLosesData(i32),
    /// A weight no stored byte expands to.
    EncodeWeightNotRepresentable(i32),
    /// A seed no log word expands to.
    EncodeSeedNotRepresentable(i32),
    /// An adaptation step that does not fit in three bits.
    EncodeDeltaOutOfRange(i32),
    /// A stray final marker or an unterminated multichannel set.
    MultichannelSetMalformed,
    /// Members of one set that disagree on their sample count.
    MultichannelSampleCountMismatch {
        /// Count of the first member.
        expected: u32,
        /// Count of the member that disagrees.
        found: u32,
    },
    /// More channels than a set can hold.
    MultichannelTooManyChannels(usize),
    /// A correction block with no main block at its index.
    CorrectionIndexMismatch {
        /// Index of the next main block.
        main: u32,
        /// Index of the correction block.
        correction: u32,
    },
    /// A correction block with another sample count than its main block.
    CorrectionSampleCountMismatch {
        /// Samples of the main block.
        main: u32,
        /// Samples of the correction block.
        correction: u32,
    },
    /// A correction block with another channel shape than its main block.
    CorrectionShapeMismatch(u32),
    /// Correction blocks past the end of the main stream.
    CorrectionBlockSurplus(u32),
    /// A feature that is not there yet.
    NotImplemented,
}

/// What every fallible operation of the crate returns.
pub type Result<T> = core::result::Result<T, Error>;

} // verus!
