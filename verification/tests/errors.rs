//! What is refused, and what the refusals say.
use oxideav_wavpack::block_header::{push_header, Flags};
use oxideav_wavpack::float::{reassemble_float_implied, FLOAT_SHIFT_SENT};
use oxideav_wavpack::metadata::append_sub_block;
use oxideav_wavpack::packed_samples::decode_packed_samples;
use oxideav_wavpack::passes::{assemble_mono_passes, assemble_stereo_passes, serialize_mono_passes};
use oxideav_wavpack::samples::AdaptiveMedians;
use oxideav_wavpack::{
    audio_block_count, decode_multichannel_stream, decode_stream, decode_stream_patterns,
    decode_stream_with_correction, encode_block_mono, encode_block_mono_float, encode_block_mono_hybrid,
    encode_block_mono_shifted, encode_block_mono_with_decorr, encode_block_stereo, encode_block_stereo_hybrid,
    encode_multichannel_stream, encode_stream_mono, expand_entropy, expand_float_info, expand_hybrid_profile,
    expand_int32_info, parse_block, parse_block_header, parse_md5_checksum, parse_metadata_sub_block,
    parse_non_standard_sample_rate, reassemble_float, set_stream_sample_rate, DecorrPass, Error, FloatInfo,
    HybridOptions, UnsupportedBlockFeature, MAX_DECODE_SAMPLES_PER_BLOCK, MAX_MULTICHANNEL_CHANNELS,
};

const MONO: u32 = 0x1800 + 4;
const HYBRID: u32 = 8;

fn block(meta: &[u8], samples: u32, flags: u32) -> Vec<u8> {
    let mut out = Vec::new();
    push_header(&mut out, 24 + meta.len() as u32, 0x410, samples, 0, samples, flags, 0);
    out.extend_from_slice(meta);
    out
}

fn chain(parts: &[(u8, &[u8])]) -> Vec<u8> {
    let mut out = Vec::new();
    for (id, payload) in parts {
        append_sub_block(&mut out, *id, payload).unwrap();
    }
    out
}

fn zero_medians() -> AdaptiveMedians {
    AdaptiveMedians::new([0, 0, 0])
}

#[test]
fn header_refusals() {
    assert_eq!(parse_block_header(&[0u8; 31]), Err(Error::Truncated));
    assert_eq!(parse_block_header(&[0u8; 32]), Err(Error::InvalidMagic));
    let mut good = block(&[], 0, MONO);
    assert!(parse_block_header(&good).is_ok());
    good[4] = 23;
    assert_eq!(parse_block_header(&good), Err(Error::InvalidCkSize(23)));
    good[4] = 24;
    good[8] = 0x11;
    assert_eq!(parse_block_header(&good), Err(Error::UnsupportedVersion(0x411)));
    good[8] = 0x10;
    good[4] = 26;
    assert_eq!(
        parse_block(&good),
        Err(Error::CkSizeExceedsBuffer {
            ck_size: 26,
            available: 32
        })
    );
}

#[test]
fn payload_refusals() {
    assert_eq!(parse_metadata_sub_block(&[0x42, 0]), Err(Error::MetadataOddSizeWithoutPayload));
    assert_eq!(expand_entropy(&[0; 7]), Err(Error::EntropyInfoLength(7)));
    assert_eq!(parse_md5_checksum(&[0; 15]), Err(Error::Md5ChecksumLength(15)));
    assert_eq!(parse_non_standard_sample_rate(&[0; 4]), Err(Error::SampleRatePayloadLength(4)));
    assert_eq!(expand_float_info(&[0; 3]), Err(Error::FloatInfoLength(3)));
    assert_eq!(expand_int32_info(&[0; 5]), Err(Error::Int32InfoLength(5)));
    assert_eq!(
        expand_int32_info(&[0, 1, 0, 2]),
        Err(Error::Int32InfoConflict {
            zeros: 1,
            ones: 0,
            dups: 2
        })
    );
    assert_eq!(expand_hybrid_profile(&[0; 4], true), Err(Error::HybridProfileLength(4)));
}

#[test]
fn float_refusals() {
    let sent = FloatInfo {
        float_flags: FLOAT_SHIFT_SENT,
        float_shift: 0,
        float_max_exp: 126,
        float_norm_exp: 127,
    };
    assert_eq!(reassemble_float(&mut [1 << 20], &sent, None), Err(Error::BlockMissingOverflowBits));
    let mut implied = [1 << 20];
    assert_eq!(reassemble_float_implied(&mut implied, &sent), Ok(()));
    assert_eq!(implied[0] as u32 & 7, 0);
    assert_eq!(
        reassemble_float(&mut [1 << 26], &sent, None),
        Err(Error::FloatMagnitudeOverflow(1 << 26))
    );
}

#[test]
fn pass_refusals() {
    assert_eq!(assemble_mono_passes(&[0; 17], &[], &[]), Err(Error::TooManyDecorrelationPasses(17)));
    assert_eq!(assemble_mono_passes(&[5], &[0], &[]), Err(Error::InvalidDecorrelationTerm(0)));
    assert_eq!(assemble_mono_passes(&[4], &[0], &[0, 0]), Err(Error::CrossTermOnMono(-1)));
    assert_eq!(
        assemble_stereo_passes(&[6], &[0], &[]),
        Err(Error::DecorrelationWeightCountMismatch {
            expected: 2,
            actual: 1
        })
    );
    assert_eq!(assemble_mono_passes(&[6], &[0], &[0; 3]), Err(Error::DecorrelationSamplesOddByteCount(3)));
    assert_eq!(
        DecorrPass::new(3, 2, 0, 0, &[1, 2], &[]),
        Err(Error::DecorrelationSeedUnderflow {
            term: 3,
            supplied: 2
        })
    );
    let good = DecorrPass::new(1, 2, 0, 0, &[0], &[]).unwrap();
    assert!(serialize_mono_passes(&[good]).is_ok());
    let weight = DecorrPass { weight_a: 3, ..good };
    assert_eq!(serialize_mono_passes(&[weight]), Err(Error::EncodeWeightNotRepresentable(3)));
    let delta = DecorrPass { delta: 8, ..good };
    assert_eq!(serialize_mono_passes(&[delta]), Err(Error::EncodeDeltaOutOfRange(8)));
    let seed = DecorrPass::new(1, 2, 0, 0, &[115], &[]).unwrap();
    assert_eq!(serialize_mono_passes(&[seed]), Err(Error::EncodeSeedNotRepresentable(115)));
}

#[test]
fn block_refusals() {
    let silent = block(&[], 0, MONO);
    let (b, rest) = parse_block(&silent).unwrap();
    assert!(rest.is_empty());
    assert_eq!(b.decode_samples(), Err(Error::BlockHasNoAudio));
    assert_eq!(decode_stream(&silent), Ok(vec![]));
    assert_eq!(audio_block_count(&silent), Ok(0));

    let long = block(&[], MAX_DECODE_SAMPLES_PER_BLOCK + 1, MONO);
    assert_eq!(
        decode_stream(&long),
        Err(Error::BlockSamplesTooLarge(MAX_DECODE_SAMPLES_PER_BLOCK + 1))
    );
    assert_eq!(decode_stream(&block(&[], 1, MONO)), Err(Error::BlockMissingEntropyInfo));
    let entropy = chain(&[(5, &[0; 6])]);
    assert_eq!(decode_stream(&block(&entropy, 1, MONO)), Err(Error::BlockMissingPackedSamples));
    let mono_in_stereo = chain(&[(5, &[0; 6]), (10, &[0, 0])]);
    assert_eq!(
        decode_stream(&block(&mono_in_stereo, 1, 0x1800)),
        Err(Error::InvalidEntropyInfoForStereo)
    );
    let negative = chain(&[(5, &[0x00, 0xFF, 0, 0, 0, 0]), (10, &[0, 0])]);
    assert_eq!(decode_stream(&block(&negative, 1, MONO)), Err(Error::InvalidEntropyInfoForMono));
    let no_terms = chain(&[(5, &[0; 6]), (3, &[0, 0]), (10, &[0, 0])]);
    assert_eq!(decode_stream(&block(&no_terms, 1, MONO)), Err(Error::DecorrelationTermsMissing));
}

#[test]
fn packed_refusals() {
    assert_eq!(
        decode_packed_samples(&[], 1, false, zero_medians(), zero_medians()),
        Err(Error::Truncated)
    );
    assert_eq!(
        decode_packed_samples(&[0xFF; 8], 1, false, zero_medians(), zero_medians()),
        Err(Error::EndOfStream)
    );
    assert_eq!(
        encode_block_mono(&[i32::MAX; 8], 4, 0, 8),
        Err(Error::ValueNotInInterval {
            value: 0x7fff_ffff,
            low: 0x7fff_fffe,
            high: 0x7fff_fffe
        })
    );
    assert!(encode_block_mono(&[i32::MAX; 7], 4, 0, 7).is_ok());
}

#[test]
fn feature_refusals() {
    let no_profile = chain(&[(5, &[0; 6]), (10, &[0, 0])]);
    assert_eq!(
        decode_stream(&block(&no_profile, 1, MONO + HYBRID)),
        Err(Error::UnsupportedBlockFeature(UnsupportedBlockFeature::HybridWithoutProfile))
    );
    let crossing = chain(&[
        (2, &[4]),
        (3, &[0, 0]),
        (4, &[0, 0, 0, 0]),
        (5, &[0; 12]),
        (6, &[0; 8]),
        (10, &[0, 0]),
    ]);
    assert_eq!(
        decode_stream(&block(&crossing, 1, 0x1800 + HYBRID)),
        Err(Error::UnsupportedBlockFeature(UnsupportedBlockFeature::HybridCrossDecorrelation))
    );
    let ints = encode_block_mono(&[1, 2, 3], 2, 0, 3).unwrap();
    assert_eq!(
        decode_stream_patterns(&ints),
        Err(Error::UnsupportedBlockFeature(UnsupportedBlockFeature::IntegerSamples))
    );
    let (b, _) = parse_block(&ints).unwrap();
    assert_eq!(
        b.decode_samples_with_correction(&b),
        Err(Error::UnsupportedBlockFeature(UnsupportedBlockFeature::CorrectionOfLossless))
    );
}

#[test]
fn encoder_refusals() {
    assert_eq!(encode_block_mono(&[], 2, 0, 0), Err(Error::EncodeEmptyAudio));
    assert_eq!(encode_block_mono_float(&[], 0, 0), Err(Error::EncodeEmptyAudio));
    assert_eq!(encode_block_stereo(&[1], 2, 0, 0), Err(Error::EncodeStereoOddLength(1)));
    assert_eq!(encode_block_mono_shifted(&[2], 0, 2, 0, 1), Err(Error::EncodeLeftShiftZero));
    assert_eq!(encode_block_mono_shifted(&[4, 6], 2, 2, 0, 2), Err(Error::EncodeLeftShiftLosesData(6)));
    assert_eq!(
        encode_block_mono_with_decorr(&[1], &[6], &[], &[], 2, 0, 1),
        Err(Error::DecorrelationWeightCountMismatch {
            expected: 1,
            actual: 0
        })
    );
    let stream = encode_stream_mono(&[1, 2], 0, 2).unwrap();
    assert_eq!(set_stream_sample_rate(&stream, 0), Err(Error::CustomSampleRateOutOfRange(0)));
    assert_eq!(set_stream_sample_rate(&stream[..40], 8000), Err(Error::Truncated));
    let mut payload = Vec::new();
    assert_eq!(
        append_sub_block(&mut payload, 10, &vec![0u8; 0x200_0000]),
        Err(Error::EncodeBlockTooLarge(0x200_0000))
    );
    assert!(payload.is_empty());
}

#[test]
fn multichannel_refusals() {
    assert_eq!(
        encode_multichannel_stream(&[1], MAX_MULTICHANNEL_CHANNELS + 1, 0, 2),
        Err(Error::MultichannelTooManyChannels(MAX_MULTICHANNEL_CHANNELS + 1))
    );
    let wv = encode_multichannel_stream(&[1, 2, 3, 4], 2, 0, 2).unwrap();
    let (_, second) = parse_block(&wv).unwrap();
    let first = &wv[..wv.len() - second.len()];
    assert_eq!(decode_multichannel_stream(first), Err(Error::MultichannelSetMalformed));
    assert_eq!(decode_multichannel_stream(second), Err(Error::MultichannelSetMalformed));
    let longer = encode_multichannel_stream(&[1, 2, 3, 4, 5, 6], 2, 0, 2).unwrap();
    let (_, tail) = parse_block(&longer).unwrap();
    let mut mixed = first.to_vec();
    mixed.extend_from_slice(tail);
    assert_eq!(
        decode_multichannel_stream(&mixed),
        Err(Error::MultichannelSampleCountMismatch {
            expected: 2,
            found: 3
        })
    );
}

#[test]
fn correction_refusals() {
    let opts = HybridOptions::default();
    let pcm: Vec<i32> = (0..400).map(|i| (i * 37) % 900 - 450).collect();
    let at = |index: u32, n: usize| encode_block_mono_hybrid(&pcm[..n], 2, &opts, index, 400).unwrap();
    let main = at(100, 300);
    let early = at(50, 300).wvc.unwrap();
    assert_eq!(
        decode_stream_with_correction(&main.wv, &early),
        Err(Error::CorrectionIndexMismatch {
            main: 100,
            correction: 50
        })
    );
    let short = at(100, 200).wvc.unwrap();
    assert_eq!(
        decode_stream_with_correction(&main.wv, &short),
        Err(Error::CorrectionSampleCountMismatch {
            main: 300,
            correction: 200
        })
    );
    let pair: Vec<i32> = pcm[..300].iter().flat_map(|&v| [v, -v]).collect();
    let stereo = encode_block_stereo_hybrid(&pair, 2, &opts, 100, 400).unwrap().wvc.unwrap();
    assert_eq!(
        decode_stream_with_correction(&main.wv, &stereo),
        Err(Error::CorrectionShapeMismatch(100))
    );
    let later = at(500, 300).wvc.unwrap();
    assert_eq!(
        decode_stream_with_correction(&main.wv, &later),
        Err(Error::CorrectionBlockSurplus(500))
    );
    let lossy = decode_stream(&main.wv).unwrap();
    assert_eq!(decode_stream_with_correction(&main.wv, &[]), Ok(lossy));
}

#[test]
fn messages_name_their_numbers() {
    assert_eq!(Error::Truncated.message(), "oxideav-wavpack: stream truncated");
    assert_eq!(
        Error::InvalidCkSize(23).message(),
        "oxideav-wavpack: ck_size 23 is below the 24-byte header minimum"
    );
    assert_eq!(
        Error::UnsupportedVersion(0x3ff).message(),
        "oxideav-wavpack: unsupported version 0x03ff (expected 0x0402..=0x0410)"
    );
    assert_eq!(
        Error::InvalidDecorrelationTerm(-128).message(),
        "oxideav-wavpack: decorrelation term -128 is outside the valid set {1..8, 17, 18, -1, -2, -3}"
    );
    assert_eq!(
        Error::EncodeLeftShiftLosesData(i32::MIN).message(),
        "oxideav-wavpack: encode_block_*_shifted: sample -2147483648 has non-zero low bits that left_shift would drop (input must be a multiple of 2^left_shift)"
    );
    assert_eq!(
        Error::CkSizeExceedsBuffer {
            ck_size: u32::MAX,
            available: 0
        }
        .message(),
        "oxideav-wavpack: parse_block needs 4294967303 bytes (8 + ck_size 4294967295) but the buffer only carries 0"
    );
    assert_eq!(
        Error::TooManyDecorrelationPasses(17).message(),
        "oxideav-wavpack: 17 decorrelation passes exceeds the MAX_NTERMS ceiling of 16"
    );
    assert_eq!(
        Error::ValueNotInInterval {
            value: 10,
            low: 3,
            high: 9
        }
        .message(),
        "oxideav-wavpack: encode: value 10 is outside the interval [3, 9]"
    );
    assert_eq!(
        Error::GolombDegenerateInterval(0).message(),
        "oxideav-wavpack: 0x0A Golomb mantissa hit add=0 (median 1); log2(add)/getbits(-1) undefined by the wiki"
    );
    assert_eq!(
        Error::DecorrelationSampleCountUnspecified(9).message(),
        "oxideav-wavpack: 0x02 term code 9 has no wiki-documented per-term sample count (stereo / reserved / undocumented)"
    );
    assert_eq!(
        Error::MultichannelSetMalformed.message(),
        "oxideav-wavpack: malformed multichannel set (stray final-block marker or unterminated set; wiki flag bits 11..=12)"
    );
    assert_eq!(
        Error::UnsupportedBlockFeature(UnsupportedBlockFeature::IntegerSamples).message(),
        "oxideav-wavpack: WavPackBlock::decode_samples: block uses an unsupported feature (integer samples where floating-point samples were asked for)"
    );
}

#[test]
fn flags_read_back_from_their_word() {
    let flags = Flags::from_raw(0x2F9E_1BD7);
    assert_eq!(flags.bytes_per_sample(), 4);
    assert_eq!(flags.left_shift, 16);
    assert_eq!(flags.max_magnitude, 7);
    assert_eq!(flags.sample_rate_index, 15);
    assert!(flags.new_shaping && !flags.false_stereo && flags.mono && !flags.hybrid);
    assert_eq!(Flags::from_raw(flags.to_raw()), Flags { raw: flags.to_raw(), ..flags });
}
