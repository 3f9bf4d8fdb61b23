//! What errors say.
use vstd::prelude::*;
use vstd::string::*;
use crate::error::{Error, UnsupportedBlockFeature};

verus! {

/// The digit of a number below sixteen.
pub open spec fn digit(n: nat) -> char {
    if n == 0 {
        '0'
    } else if n == 1 {
        '1'
    } else if n == 2 {
        '2'
    } else if n == 3 {
        '3'
    } else if n == 4 {
        '4'
    } else if n == 5 {
        '5'
    } else if n == 6 {
        '6'
    } else if n == 7 {
        '7'
    } else if n == 8 {
        '8'
    } else if n == 9 {
        '9'
    } else if n == 10 {
        'a'
    } else if n == 11 {
        'b'
    } else if n == 12 {
        'c'
    } else if n == 13 {
        'd'
    } else if n == 14 {
        'e'
    } else {
        'f'
    }
}

/// A number in decimal.
pub open spec fn decimal(n: nat) -> Seq<char>
    decreases n,
{
    if n < 10 {
        seq![digit(n)]
    } else {
        decimal(n / 10).push(digit(n % 10))
    }
}

/// A signed number in decimal.
pub open spec fn number_of(n: int) -> Seq<char> {
    if n < 0 {
        seq!['-'] + decimal((-n) as nat)
    } else {
        decimal(n as nat)
    }
}

/// The low sixteen bits of a number in hexadecimal, four digits.
pub open spec fn hex_of(n: nat) -> Seq<char> {
    seq![digit(n / 4096 % 16), digit(n / 256 % 16), digit(n / 16 % 16), digit(n % 16)]
}

fn digit_text(n: u8) -> (r: &'static str)
    requires
        n < 16,
    ensures
        r@ == seq![digit(n as nat)],
{
    proof {
        reveal_strlit("0");
        reveal_strlit("1");
        reveal_strlit("2");
        reveal_strlit("3");
        reveal_strlit("4");
        reveal_strlit("5");
        reveal_strlit("6");
        reveal_strlit("7");
        reveal_strlit("8");
        reveal_strlit("9");
        reveal_strlit("a");
        reveal_strlit("b");
        reveal_strlit("c");
        reveal_strlit("d");
        reveal_strlit("e");
        reveal_strlit("f");
        assert("0"@ =~= seq![digit(0)]);
        assert("1"@ =~= seq![digit(1)]);
        assert("2"@ =~= seq![digit(2)]);
        assert("3"@ =~= seq![digit(3)]);
        assert("4"@ =~= seq![digit(4)]);
        assert("5"@ =~= seq![digit(5)]);
        assert("6"@ =~= seq![digit(6)]);
        assert("7"@ =~= seq![digit(7)]);
        assert("8"@ =~= seq![digit(8)]);
        assert("9"@ =~= seq![digit(9)]);
        assert("a"@ =~= seq![digit(10)]);
        assert("b"@ =~= seq![digit(11)]);
        assert("c"@ =~= seq![digit(12)]);
        assert("d"@ =~= seq![digit(13)]);
        assert("e"@ =~= seq![digit(14)]);
        assert("f"@ =~= seq![digit(15)]);
    }
    if n == 0 {
        "0"
    } else if n == 1 {
        "1"
    } else if n == 2 {
        "2"
    } else if n == 3 {
        "3"
    } else if n == 4 {
        "4"
    } else if n == 5 {
        "5"
    } else if n == 6 {
        "6"
    } else if n == 7 {
        "7"
    } else if n == 8 {
        "8"
    } else if n == 9 {
        "9"
    } else if n == 10 {
        "a"
    } else if n == 11 {
        "b"
    } else if n == 12 {
        "c"
    } else if n == 13 {
        "d"
    } else if n == 14 {
        "e"
    } else {
        "f"
    }
}

fn push_decimal(out: &mut String, n: u128)
    ensures
        final(out)@ == old(out)@ + decimal(n as nat),
    decreases n,
{
    if n >= 10 {
        push_decimal(out, n / 10);
    }
    out.append(digit_text((n % 10) as u8));
    assert(out@ =~= old(out)@ + decimal(n as nat));
}

fn push_number(out: &mut String, n: i128)
    requires
        n > i128::MIN,
    ensures
        final(out)@ == old(out)@ + number_of(n as int),
{
    if n < 0 {
        proof {
            reveal_strlit("-");
            assert("-"@ =~= seq!['-']);
        }
        out.append("-");
        push_decimal(out, (-n) as u128);
        assert(out@ =~= old(out)@ + number_of(n as int));
    } else {
        push_decimal(out, n as u128);
    }
}

fn with_one(a: &str, n: i128, b: &str) -> (r: String)
    requires
        n > i128::MIN,
    ensures
        r@ == a@ + number_of(n as int) + b@,
{
    let mut out: String = a.to_owned();
    push_number(&mut out, n);
    out.append(b);
    out
}

fn with_two(a: &str, n: i128, b: &str, m: i128, c: &str) -> (r: String)
    requires
        n > i128::MIN,
        m > i128::MIN,
    ensures
        r@ == a@ + number_of(n as int) + b@ + number_of(m as int) + c@,
{
    let mut out: String = with_one(a, n, b);
    push_number(&mut out, m);
    out.append(c);
    out
}

fn with_three(a: &str, n: i128, b: &str, m: i128, c: &str, k: i128, d: &str) -> (r: String)
    requires
        n > i128::MIN,
        m > i128::MIN,
        k > i128::MIN,
    ensures
        r@ == a@ + number_of(n as int) + b@ + number_of(m as int) + c@ + number_of(k as int) + d@,
{
    let mut out: String = with_two(a, n, b, m, c);
    push_number(&mut out, k);
    out.append(d);
    out
}

fn with_hex(a: &str, v: u16, b: &str) -> (r: String)
    ensures
        r@ == a@ + hex_of(v as nat) + b@,
{
    let mut out: String = a.to_owned();
    out.append(digit_text((v / 4096) as u8));
    out.append(digit_text((v / 256 % 16) as u8));
    out.append(digit_text((v / 16 % 16) as u8));
    out.append(digit_text((v % 16) as u8));
    assert(out@ =~= a@ + hex_of(v as nat));
    out.append(b);
    out
}

fn around(a: &str, inner: &str, b: &str) -> (r: String)
    ensures
        r@ == a@ + inner@ + b@,
{
    let mut out: String = a.to_owned();
    out.append(inner);
    out.append(b);
    out
}

impl UnsupportedBlockFeature {
    /// What the feature is.
    pub open spec fn text(self) -> Seq<char> {
        match self {
            UnsupportedBlockFeature::HybridWithoutProfile => "hybrid block without a 0x06 rate profile"@,
            UnsupportedBlockFeature::HybridCrossDecorrelation => "cross-channel decorrelation in a hybrid block"@,
            UnsupportedBlockFeature::IntegerSamples => "integer samples where floating-point samples were asked for"@,
            UnsupportedBlockFeature::CorrectionOfLossless => "a correction block for a block that is not hybrid"@,
        }
    }

    /// What the feature is.
    pub fn message(self) -> (r: String)
        ensures
            r@ == self.text(),
    {
        match self {
            UnsupportedBlockFeature::HybridWithoutProfile => "hybrid block without a 0x06 rate profile".to_owned(),
            UnsupportedBlockFeature::HybridCrossDecorrelation => "cross-channel decorrelation in a hybrid block".to_owned(),
            UnsupportedBlockFeature::IntegerSamples => "integer samples where floating-point samples were asked for".to_owned(),
            UnsupportedBlockFeature::CorrectionOfLossless => "a correction block for a block that is not hybrid".to_owned(),
        }
    }
}

impl Error {
    /// What the error says.
    pub open spec fn text(self) -> Seq<char> {
        match self {
            Error::Truncated => "oxideav-wavpack: stream truncated"@,
            Error::InvalidMagic => "oxideav-wavpack: invalid block magic (expected wvpk)"@,
            Error::InvalidCkSize(v) => "oxideav-wavpack: ck_size "@ + number_of(v as int) + " is below the 24-byte header minimum"@,
            Error::UnsupportedVersion(v) => "oxideav-wavpack: unsupported version 0x"@ + hex_of(v as nat) + " (expected 0x0402..=0x0410)"@,
            Error::MetadataSubBlockTooLarge(v) => "oxideav-wavpack: metadata sub-block size "@ + number_of(v as int) + " words overflows usize byte length"@,
            Error::MetadataOddSizeWithoutPayload => "oxideav-wavpack: metadata sub-block declared 0x40 odd-size flag with zero data words"@,
            Error::DecorrelationSamplesOddByteCount(v) => "oxideav-wavpack: 0x04 decorrelation-samples payload has "@ + number_of(v as int) + " bytes (not a multiple of 2)"@,
            Error::EntropyInfoLength(v) => "oxideav-wavpack: 0x05 entropy-info payload has "@ + number_of(v as int) + " bytes (expected 6 for mono or 12 for stereo)"@,
            Error::Md5ChecksumLength(v) => "oxideav-wavpack: 0x26 MD5-checksum payload has "@ + number_of(v as int) + " bytes (expected 16)"@,
            Error::SampleRatePayloadLength(v) => "oxideav-wavpack: 0x27 sample-rate payload has "@ + number_of(v as int) + " bytes (expected 3)"@,
            Error::FloatInfoLength(v) => "oxideav-wavpack: 0x08 float-info payload has "@ + number_of(v as int) + " bytes (expected 4)"@,
            Error::Int32InfoLength(v) => "oxideav-wavpack: 0x09 int32-info payload has "@ + number_of(v as int) + " bytes (expected 4)"@,
            Error::Int32InfoConflict { zeros, ones, dups } => "oxideav-wavpack: 0x09 int32-info payload sets more than one redundancy count (zeros "@ + number_of(zeros as int) + ", ones "@ + number_of(ones as int) + ", dups "@ + number_of(dups as int) + ")"@,
            Error::BlockMissingOverflowBits => "oxideav-wavpack: block needs literal bits but carries no 0x0C overflow-bits sub-block"@,
            Error::FloatMagnitudeOverflow(v) => "oxideav-wavpack: float magnitude "@ + number_of(v as int) + " has no representable exponent"@,
            Error::HybridProfileLength(v) => "oxideav-wavpack: 0x06 hybrid-profile payload has "@ + number_of(v as int) + " bytes (expected 4 for mono or 8 for stereo)"@,
            Error::CustomSampleRateOutOfRange(v) => "oxideav-wavpack: sample rate "@ + number_of(v as int) + " does not fit the 24-bit 0x27 field"@,
            Error::PackedSamplesOddLength(v) => "oxideav-wavpack: 0x0A packed-samples payload has "@ + number_of(v as int) + " bytes (must be even)"@,
            Error::GolombDegenerateInterval(v) => "oxideav-wavpack: 0x0A Golomb mantissa hit add="@ + number_of(v as int) + " (median 1); log2(add)/getbits(-1) undefined by the wiki"@,
            Error::DecorrelationSampleCountMismatch { expected, actual } => "oxideav-wavpack: 0x04 decorrelation-samples flat length "@ + number_of(actual as int) + " does not match the "@ + number_of(expected as int) + " samples summed from the 0x02 term list"@,
            Error::DecorrelationSampleCountUnspecified(v) => "oxideav-wavpack: 0x02 term code "@ + number_of(v as int) + " has no wiki-documented per-term sample count (stereo / reserved / undocumented)"@,
            Error::CkSizeExceedsBuffer { ck_size, available } => "oxideav-wavpack: parse_block needs "@ + number_of(ck_size + 8) + " bytes (8 + ck_size "@ + number_of(ck_size as int) + ") but the buffer only carries "@ + number_of(available as int) + ""@,
            Error::EndOfStream => "oxideav-wavpack: 0x0A per-sample loop reached the wire EOF escape (cbits == 33 inside the unary-prefix escape branch)"@,
            Error::InvalidEntropyInfoForMono => "oxideav-wavpack: decode_packed_samples_mono_from_entropy: channel-0 EntropyInfo set has a negative seed (i32 -> u32 rejected)"@,
            Error::InvalidEntropyInfoForStereo => "oxideav-wavpack: decode_packed_samples_stereo_from_entropy: EntropyInfo is mono or carries a negative per-channel seed"@,
            Error::BlockMissingEntropyInfo => "oxideav-wavpack: WavPackBlock::decode_samples: block carries no 0x05 entropy-info sub-block"@,
            Error::BlockMissingPackedSamples => "oxideav-wavpack: WavPackBlock::decode_samples: block carries no 0x0A packed-samples sub-block"@,
            Error::BlockHasNoAudio => "oxideav-wavpack: WavPackBlock::decode_samples: block_samples == 0 (metadata-only block, no audio)"@,
            Error::UnsupportedBlockFeature(f) => "oxideav-wavpack: WavPackBlock::decode_samples: block uses an unsupported feature ("@ + f.text()
                + ")"@,
            Error::ValueNotInInterval { value, low, high } => "oxideav-wavpack: encode: value "@ + number_of(value as int) + " is outside the interval ["@ + number_of(low as int) + ", "@ + number_of(high as int) + "]"@,
            Error::BlockSamplesTooLarge(v) => "oxideav-wavpack: block_samples "@ + number_of(v as int) + " exceeds the per-block decode ceiling (anti-amplification guard)"@,
            Error::InvalidDecorrelationTerm(v) => "oxideav-wavpack: decorrelation term "@ + number_of(v as int) + " is outside the valid set {1..8, 17, 18, -1, -2, -3}"@,
            Error::CrossTermOnMono(v) => "oxideav-wavpack: cross-channel decorrelation term "@ + number_of(v as int) + " is invalid for mono data"@,
            Error::TooManyDecorrelationPasses(v) => "oxideav-wavpack: "@ + number_of(v as int) + " decorrelation passes exceeds the MAX_NTERMS ceiling of 16"@,
            Error::DecorrelationSeedUnderflow { term, supplied } => "oxideav-wavpack: decorrelation term "@ + number_of(term as int) + " needs more seed-history samples than the "@ + number_of(supplied as int) + " supplied"@,
            Error::DecorrelationWeightCountMismatch { expected, actual } => "oxideav-wavpack: 0x03 decorrelation-weights payload carried "@ + number_of(actual as int) + " weights for "@ + number_of(expected as int) + " mono passes"@,
            Error::DecorrelationTermsMissing => "oxideav-wavpack: block carries 0x03/0x04 decorrelation metadata without the 0x02 terms sub-block"@,
            Error::HybridCorrectionLengthMismatch { lossy, correction } => "oxideav-wavpack: hybrid correction-fold buffer mismatch — "@ + number_of(correction as int) + " correction residuals for "@ + number_of(lossy as int) + " decoded samples (must be equal)"@,
            Error::HybridFoldPlacementUnsupported => "oxideav-wavpack: hybrid correction-fold requested on a CROSS_DECORR / noise-shaped block — only the non-cross, non-shaped post-decorrelation raw fold is supported"@,
            Error::EncodeEmptyAudio => "oxideav-wavpack: encode_block: empty PCM buffer (an audio block carries block_samples >= 1)"@,
            Error::EncodeStereoOddLength(v) => "oxideav-wavpack: encode_block: stereo PCM has "@ + number_of(v as int) + " interleaved samples (must be an even count of [L, R] pairs)"@,
            Error::EncodeBlockTooLarge(v) => "oxideav-wavpack: encode_block: metadata region is "@ + number_of(v as int) + " bytes, overflowing the 24-bit ck_size field"@,
            Error::EncodeLeftShiftZero => "oxideav-wavpack: encode_block_*_shifted: left_shift == 0 (use the plain whole-byte encoder)"@,
            Error::EncodeLeftShiftLosesData(v) => "oxideav-wavpack: encode_block_*_shifted: sample "@ + number_of(v as int) + " has non-zero low bits that left_shift would drop (input must be a multiple of 2^left_shift)"@,
            Error::EncodeWeightNotRepresentable(v) => "oxideav-wavpack: serialize: working weight "@ + number_of(v as int) + " is not a 0x03 stored-byte expansion (quantize via quantize_weight first)"@,
            Error::EncodeSeedNotRepresentable(v) => "oxideav-wavpack: serialize: seed sample "@ + number_of(v as int) + " is not a 0x04 log-word expansion (quantize via quantize_seed_sample first)"@,
            Error::EncodeDeltaOutOfRange(v) => "oxideav-wavpack: serialize: pass delta "@ + number_of(v as int) + " does not fit the 3-bit 0x02 term-byte field (0..=7)"@,
            Error::MultichannelSetMalformed => "oxideav-wavpack: malformed multichannel set (stray final-block marker or unterminated set; wiki flag bits 11..=12)"@,
            Error::MultichannelSampleCountMismatch { expected, found } => "oxideav-wavpack: multichannel set members disagree on block_samples (expected "@ + number_of(expected as int) + ", found "@ + number_of(found as int) + ")"@,
            Error::MultichannelTooManyChannels(v) => "oxideav-wavpack: multichannel set channel count "@ + number_of(v as int) + " exceeds the supported maximum"@,
            Error::CorrectionIndexMismatch { main, correction } => "oxideav-wavpack: correction-file block_index "@ + number_of(correction as int) + " has no main-file twin (next main audio block is at "@ + number_of(main as int) + ")"@,
            Error::CorrectionSampleCountMismatch { main, correction } => "oxideav-wavpack: correction-file block disagrees on block_samples (main "@ + number_of(main as int) + ", correction "@ + number_of(correction as int) + ")"@,
            Error::CorrectionShapeMismatch(v) => "oxideav-wavpack: correction-file block at block_index "@ + number_of(v as int) + " disagrees on the mono flag"@,
            Error::CorrectionBlockSurplus(v) => "oxideav-wavpack: correction file carries audio blocks past the end of the main file (first surplus at block_index "@ + number_of(v as int) + ")"@,
            Error::NotImplemented => "oxideav-wavpack: not implemented"@,
        }
    }

    /// What the error says.
    pub fn message(self) -> (r: String)
        ensures
            r@ == self.text(),
    {
        match self {
            Error::Truncated => "oxideav-wavpack: stream truncated".to_owned(),
            Error::InvalidMagic => "oxideav-wavpack: invalid block magic (expected wvpk)".to_owned(),
            Error::InvalidCkSize(v) => with_one("oxideav-wavpack: ck_size ", v as i128, " is below the 24-byte header minimum"),
            Error::UnsupportedVersion(v) => with_hex("oxideav-wavpack: unsupported version 0x", v, " (expected 0x0402..=0x0410)"),
            Error::MetadataSubBlockTooLarge(v) => with_one("oxideav-wavpack: metadata sub-block size ", v as i128, " words overflows usize byte length"),
            Error::MetadataOddSizeWithoutPayload => "oxideav-wavpack: metadata sub-block declared 0x40 odd-size flag with zero data words".to_owned(),
            Error::DecorrelationSamplesOddByteCount(v) => with_one("oxideav-wavpack: 0x04 decorrelation-samples payload has ", v as i128, " bytes (not a multiple of 2)"),
            Error::EntropyInfoLength(v) => with_one("oxideav-wavpack: 0x05 entropy-info payload has ", v as i128, " bytes (expected 6 for mono or 12 for stereo)"),
            Error::Md5ChecksumLength(v) => with_one("oxideav-wavpack: 0x26 MD5-checksum payload has ", v as i128, " bytes (expected 16)"),
            Error::SampleRatePayloadLength(v) => with_one("oxideav-wavpack: 0x27 sample-rate payload has ", v as i128, " bytes (expected 3)"),
            Error::FloatInfoLength(v) => with_one("oxideav-wavpack: 0x08 float-info payload has ", v as i128, " bytes (expected 4)"),
            Error::Int32InfoLength(v) => with_one("oxideav-wavpack: 0x09 int32-info payload has ", v as i128, " bytes (expected 4)"),
            Error::Int32InfoConflict { zeros, ones, dups } => with_three("oxideav-wavpack: 0x09 int32-info payload sets more than one redundancy count (zeros ", zeros as i128, ", ones ", ones as i128, ", dups ", dups as i128, ")"),
            Error::BlockMissingOverflowBits => "oxideav-wavpack: block needs literal bits but carries no 0x0C overflow-bits sub-block".to_owned(),
            Error::FloatMagnitudeOverflow(v) => with_one("oxideav-wavpack: float magnitude ", v as i128, " has no representable exponent"),
            Error::HybridProfileLength(v) => with_one("oxideav-wavpack: 0x06 hybrid-profile payload has ", v as i128, " bytes (expected 4 for mono or 8 for stereo)"),
            Error::CustomSampleRateOutOfRange(v) => with_one("oxideav-wavpack: sample rate ", v as i128, " does not fit the 24-bit 0x27 field"),
            Error::PackedSamplesOddLength(v) => with_one("oxideav-wavpack: 0x0A packed-samples payload has ", v as i128, " bytes (must be even)"),
            Error::GolombDegenerateInterval(v) => with_one("oxideav-wavpack: 0x0A Golomb mantissa hit add=", v as i128, " (median 1); log2(add)/getbits(-1) undefined by the wiki"),
            Error::DecorrelationSampleCountMismatch { expected, actual } => with_two("oxideav-wavpack: 0x04 decorrelation-samples flat length ", actual as i128, " does not match the ", expected as i128, " samples summed from the 0x02 term list"),
            Error::DecorrelationSampleCountUnspecified(v) => with_one("oxideav-wavpack: 0x02 term code ", v as i128, " has no wiki-documented per-term sample count (stereo / reserved / undocumented)"),
            Error::CkSizeExceedsBuffer { ck_size, available } => with_three("oxideav-wavpack: parse_block needs ", ck_size as i128 + 8, " bytes (8 + ck_size ", ck_size as i128, ") but the buffer only carries ", available as i128, ""),
            Error::EndOfStream => "oxideav-wavpack: 0x0A per-sample loop reached the wire EOF escape (cbits == 33 inside the unary-prefix escape branch)".to_owned(),
            Error::InvalidEntropyInfoForMono => "oxideav-wavpack: decode_packed_samples_mono_from_entropy: channel-0 EntropyInfo set has a negative seed (i32 -> u32 rejected)".to_owned(),
            Error::InvalidEntropyInfoForStereo => "oxideav-wavpack: decode_packed_samples_stereo_from_entropy: EntropyInfo is mono or carries a negative per-channel seed".to_owned(),
            Error::BlockMissingEntropyInfo => "oxideav-wavpack: WavPackBlock::decode_samples: block carries no 0x05 entropy-info sub-block".to_owned(),
            Error::BlockMissingPackedSamples => "oxideav-wavpack: WavPackBlock::decode_samples: block carries no 0x0A packed-samples sub-block".to_owned(),
            Error::BlockHasNoAudio => "oxideav-wavpack: WavPackBlock::decode_samples: block_samples == 0 (metadata-only block, no audio)".to_owned(),
            Error::UnsupportedBlockFeature(f) => around("oxideav-wavpack: WavPackBlock::decode_samples: block uses an unsupported feature (", f.message().as_str(), ")"),
            Error::ValueNotInInterval { value, low, high } => with_three("oxideav-wavpack: encode: value ", value as i128, " is outside the interval [", low as i128, ", ", high as i128, "]"),
            Error::BlockSamplesTooLarge(v) => with_one("oxideav-wavpack: block_samples ", v as i128, " exceeds the per-block decode ceiling (anti-amplification guard)"),
            Error::InvalidDecorrelationTerm(v) => with_one("oxideav-wavpack: decorrelation term ", v as i128, " is outside the valid set {1..8, 17, 18, -1, -2, -3}"),
            Error::CrossTermOnMono(v) => with_one("oxideav-wavpack: cross-channel decorrelation term ", v as i128, " is invalid for mono data"),
            Error::TooManyDecorrelationPasses(v) => with_one("oxideav-wavpack: ", v as i128, " decorrelation passes exceeds the MAX_NTERMS ceiling of 16"),
            Error::DecorrelationSeedUnderflow { term, supplied } => with_two("oxideav-wavpack: decorrelation term ", term as i128, " needs more seed-history samples than the ", supplied as i128, " supplied"),
            Error::DecorrelationWeightCountMismatch { expected, actual } => with_two("oxideav-wavpack: 0x03 decorrelation-weights payload carried ", actual as i128, " weights for ", expected as i128, " mono passes"),
            Error::DecorrelationTermsMissing => "oxideav-wavpack: block carries 0x03/0x04 decorrelation metadata without the 0x02 terms sub-block".to_owned(),
            Error::HybridCorrectionLengthMismatch { lossy, correction } => with_two("oxideav-wavpack: hybrid correction-fold buffer mismatch — ", correction as i128, " correction residuals for ", lossy as i128, " decoded samples (must be equal)"),
            Error::HybridFoldPlacementUnsupported => "oxideav-wavpack: hybrid correction-fold requested on a CROSS_DECORR / noise-shaped block — only the non-cross, non-shaped post-decorrelation raw fold is supported".to_owned(),
            Error::EncodeEmptyAudio => "oxideav-wavpack: encode_block: empty PCM buffer (an audio block carries block_samples >= 1)".to_owned(),
            Error::EncodeStereoOddLength(v) => with_one("oxideav-wavpack: encode_block: stereo PCM has ", v as i128, " interleaved samples (must be an even count of [L, R] pairs)"),
            Error::EncodeBlockTooLarge(v) => with_one("oxideav-wavpack: encode_block: metadata region is ", v as i128, " bytes, overflowing the 24-bit ck_size field"),
            Error::EncodeLeftShiftZero => "oxideav-wavpack: encode_block_*_shifted: left_shift == 0 (use the plain whole-byte encoder)".to_owned(),
            Error::EncodeLeftShiftLosesData(v) => with_one("oxideav-wavpack: encode_block_*_shifted: sample ", v as i128, " has non-zero low bits that left_shift would drop (input must be a multiple of 2^left_shift)"),
            Error::EncodeWeightNotRepresentable(v) => with_one("oxideav-wavpack: serialize: working weight ", v as i128, " is not a 0x03 stored-byte expansion (quantize via quantize_weight first)"),
            Error::EncodeSeedNotRepresentable(v) => with_one("oxideav-wavpack: serialize: seed sample ", v as i128, " is not a 0x04 log-word expansion (quantize via quantize_seed_sample first)"),
            Error::EncodeDeltaOutOfRange(v) => with_one("oxideav-wavpack: serialize: pass delta ", v as i128, " does not fit the 3-bit 0x02 term-byte field (0..=7)"),
            Error::MultichannelSetMalformed => "oxideav-wavpack: malformed multichannel set (stray final-block marker or unterminated set; wiki flag bits 11..=12)".to_owned(),
            Error::MultichannelSampleCountMismatch { expected, found } => with_two("oxideav-wavpack: multichannel set members disagree on block_samples (expected ", expected as i128, ", found ", found as i128, ")"),
            Error::MultichannelTooManyChannels(v) => with_one("oxideav-wavpack: multichannel set channel count ", v as i128, " exceeds the supported maximum"),
            Error::CorrectionIndexMismatch { main, correction } => with_two("oxideav-wavpack: correction-file block_index ", correction as i128, " has no main-file twin (next main audio block is at ", main as i128, ")"),
            Error::CorrectionSampleCountMismatch { main, correction } => with_two("oxideav-wavpack: correction-file block disagrees on block_samples (main ", main as i128, ", correction ", correction as i128, ")"),
            Error::CorrectionShapeMismatch(v) => with_one("oxideav-wavpack: correction-file block at block_index ", v as i128, " disagrees on the mono flag"),
            Error::CorrectionBlockSurplus(v) => with_one("oxideav-wavpack: correction file carries audio blocks past the end of the main file (first surplus at block_index ", v as i128, ")"),
            Error::NotImplemented => "oxideav-wavpack: not implemented".to_owned(),
        }
    }
}

} // verus!
