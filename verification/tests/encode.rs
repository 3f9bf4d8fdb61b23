//! Lossless encoders.
use oxideav_wavpack::derive::residual_cost;
use oxideav_wavpack::{DecorrProfile, ENCODE_VERSION, Error, MAX_NTERMS, Result, StreamIndex, SubBlockId, TOTAL_SAMPLES_UNKNOWN, audio_block_count, block_count, decode_multichannel_stream, decode_stream, decode_stream_muted, decode_stream_patterns, derive_mono_passes, derive_mono_passes_iterated, derive_mono_passes_searched, derive_stereo_passes, derive_stereo_passes_iterated, derive_stereo_passes_searched, detect_left_shift, encode_block_mono, encode_block_mono_auto, encode_block_mono_best, encode_block_mono_float, encode_block_mono_float_best, encode_block_mono_int32, encode_block_mono_int32_best, encode_block_mono_searched, encode_block_mono_shifted, encode_block_mono_smallest, encode_block_mono_with_decorr, encode_block_stereo, encode_block_stereo_auto, encode_block_stereo_best, encode_block_stereo_float, encode_block_stereo_float_best, encode_block_stereo_int32, encode_block_stereo_int32_best, encode_block_stereo_joint, encode_block_stereo_joint_auto, encode_block_stereo_joint_with_decorr, encode_block_stereo_searched, encode_block_stereo_shifted, encode_block_stereo_smallest, encode_block_stereo_with_decorr, encode_multichannel_stream, encode_multichannel_stream_at, encode_stream_mono, encode_stream_mono_best, encode_stream_mono_float, encode_stream_mono_int32, encode_stream_mono_smallest, encode_stream_stereo, encode_stream_stereo_best, encode_stream_stereo_float, encode_stream_stereo_int32, encode_stream_stereo_smallest, find_non_standard_sample_rate, forward_joint_stereo, parse_block, parse_block_header, parse_blocks, parse_metadata_sub_block, quantize_weight, serialize_mono_passes, serialize_stereo_passes, set_stream_sample_rate, stream_sample_rate, undo_joint_stereo};

fn decode_stream_f32(bytes: &[u8]) -> Result<Vec<f32>> {
    let words = decode_stream_patterns(bytes)?;
    Ok(words.iter().map(|&w| f32::from_bits(w)).collect())
}

#[test]
fn mono_raw_round_trip_recovers_pcm() {
    let pcm: Vec<i32> = vec![0, 1, -1, 100, -100, 32767, -32768, 5, 5, 5, 0, 0, 12345];
    let block = encode_block_mono(&pcm, 2, 0, pcm.len() as u32).unwrap();
    let decoded = decode_stream(&block).unwrap();
    assert_eq!(decoded, pcm);
}

#[test]
fn stereo_raw_round_trip_recovers_pcm() {
    let pcm: Vec<i32> = vec![0, 0, 1, -1, 100, -100, -5, 5, 32767, -32768, 7, 7];
    let block = encode_block_stereo(&pcm, 2, 0, (pcm.len() / 2) as u32).unwrap();
    let decoded = decode_stream(&block).unwrap();
    assert_eq!(decoded, pcm);
}

#[test]
fn mono_block_header_round_trips_through_parser() {
    let pcm: Vec<i32> = vec![1, 2, 3, 4, 5];
    let block = encode_block_mono(&pcm, 3, 17, 99).unwrap();
    let (hdr, _payload) = parse_block_header(&block).unwrap();
    assert_eq!(hdr.version, ENCODE_VERSION);
    assert_eq!(hdr.block_samples, 5);
    assert_eq!(hdr.block_index, 17);
    assert_eq!(hdr.total_samples, 99);
    assert!(hdr.flags.mono);
    assert_eq!(hdr.flags.bytes_per_sample(), 3);

    assert_eq!(hdr.ck_size as usize + 8, block.len());

    assert!(!hdr.flags.is_multichannel_member());
}

#[test]
fn encoded_block_passes_crc_gate() {
    let pcm: Vec<i32> = vec![3, -2, 5, 0, -7, 42, -42, 1000];
    let block = encode_block_mono(&pcm, 2, 0, pcm.len() as u32).unwrap();
    let (decoded, all_ok) = decode_stream_muted(&block).unwrap();
    assert!(all_ok, "encoded block must pass its own CRC gate");
    assert_eq!(decoded, pcm);
}

#[test]
fn mono_metadata_region_is_entropy_then_packed_samples() {
    let pcm: Vec<i32> = vec![10, 20, 30];
    let block = encode_block_mono(&pcm, 2, 0, 3).unwrap();
    let (_hdr, mut payload) = parse_block_header(&block).unwrap();
    let (first, rest) = parse_metadata_sub_block(payload).unwrap();
    assert_eq!(first.id, SubBlockId::EntropyInfo);
    assert_eq!(first.payload.len(), 6);
    payload = rest;
    let (second, rest2) = parse_metadata_sub_block(payload).unwrap();
    assert_eq!(second.id, SubBlockId::PackedSamples);
    assert!(
        rest2.is_empty(),
        "no trailing bytes after the two sub-blocks"
    );
}

#[test]
fn empty_pcm_is_rejected() {
    assert!(matches!(
        encode_block_mono(&[], 2, 0, 0),
        Err(Error::EncodeEmptyAudio)
    ));
    assert!(matches!(
        encode_block_stereo(&[], 2, 0, 0),
        Err(Error::EncodeEmptyAudio)
    ));
}

#[test]
fn stereo_odd_length_is_rejected() {
    assert!(matches!(
        encode_block_stereo(&[1, 2, 3], 2, 0, 1),
        Err(Error::EncodeStereoOddLength(3))
    ));
}

#[test]
fn unknown_total_samples_round_trips() {
    let pcm: Vec<i32> = vec![7, 8, 9, 10];
    let block = encode_block_mono(&pcm, 2, 0, TOTAL_SAMPLES_UNKNOWN).unwrap();
    let (hdr, _) = parse_block_header(&block).unwrap();
    assert_eq!(hdr.total_samples_in_file(), None);
    assert_eq!(decode_stream(&block).unwrap(), pcm);
}

#[test]
fn mono_zero_run_heavy_round_trips() {
    let mut pcm = vec![0i32; 64];
    pcm[0] = 1;
    pcm[40] = -3;
    pcm[63] = 7;
    let block = encode_block_mono(&pcm, 2, 0, pcm.len() as u32).unwrap();
    assert_eq!(decode_stream(&block).unwrap(), pcm);
}

#[test]
fn mono_large_pseudo_random_round_trips() {
    let mut pcm = Vec::with_capacity(500);
    let mut state: u32 = 0x1234_5678;
    for _ in 0..500 {
        state = state.wrapping_mul(1_664_525).wrapping_add(1_013_904_223);

        pcm.push((state >> 16) as i16 as i32 / 3);
    }
    let block = encode_block_mono(&pcm, 2, 0, pcm.len() as u32).unwrap();
    assert_eq!(decode_stream(&block).unwrap(), pcm);
}

#[test]
fn stereo_large_pseudo_random_round_trips() {
    let mut pcm = Vec::with_capacity(600);
    let mut state: u32 = 0x9E37_79B9;
    for _ in 0..600 {
        state = state.wrapping_mul(1_103_515_245).wrapping_add(12_345);
        pcm.push((state >> 17) as i16 as i32 / 2);
    }
    let block = encode_block_stereo(&pcm, 2, 0, (pcm.len() / 2) as u32).unwrap();
    assert_eq!(decode_stream(&block).unwrap(), pcm);
}

#[test]
fn mono_multi_block_stream_round_trips() {
    let mut pcm = Vec::with_capacity(1000);
    let mut state: u32 = 0xDEAD_BEEF;
    for _ in 0..1000 {
        state = state.wrapping_mul(1_664_525).wrapping_add(1_013_904_223);
        pcm.push((state >> 18) as i16 as i32 / 4);
    }

    let stream = encode_stream_mono(&pcm, 7, 2).unwrap();
    assert_eq!(decode_stream(&stream).unwrap(), pcm);

    assert!(audio_block_count(&stream).unwrap() > 1);
}

#[test]
fn mono_stream_block_indices_advance() {
    let pcm: Vec<i32> = (0..25).collect();
    let stream = encode_stream_mono(&pcm, 10, 2).unwrap();
    let mut payload = stream.as_slice();
    let mut expected_index = 0u32;
    let mut seen = 0;
    while !payload.is_empty() {
        let (hdr, _) = parse_block_header(payload).unwrap();
        assert_eq!(hdr.block_index, expected_index);
        assert_eq!(hdr.total_samples, 25);
        expected_index += hdr.block_samples;
        payload = &payload[8 + hdr.ck_size as usize..];
        seen += 1;
    }
    assert_eq!(seen, 3);
    assert_eq!(expected_index, 25);
}

#[test]
fn stereo_multi_block_stream_round_trips() {
    let mut pcm = Vec::with_capacity(800);
    let mut state: u32 = 0x0BAD_F00D;
    for _ in 0..800 {
        state = state.wrapping_mul(1_103_515_245).wrapping_add(12_345);
        pcm.push((state >> 19) as i16 as i32 / 3);
    }

    let stream = encode_stream_stereo(&pcm, 11, 2).unwrap();
    assert_eq!(decode_stream(&stream).unwrap(), pcm);
    assert!(audio_block_count(&stream).unwrap() > 1);
}

#[test]
fn empty_stream_is_empty_not_an_error() {
    assert!(encode_stream_mono(&[], 0, 2).unwrap().is_empty());
    assert!(encode_stream_stereo(&[], 0, 2).unwrap().is_empty());
}

#[test]
fn zero_block_samples_uses_default_chunk() {
    let pcm: Vec<i32> = vec![1, 2, 3, 4, 5];
    let stream = encode_stream_mono(&pcm, 0, 2).unwrap();
    assert_eq!(decode_stream(&stream).unwrap(), pcm);
    assert_eq!(audio_block_count(&stream).unwrap(), 1);
}

#[test]
fn stereo_stream_odd_length_is_rejected() {
    assert!(matches!(
        encode_stream_stereo(&[1, 2, 3], 0, 2),
        Err(Error::EncodeStereoOddLength(3))
    ));
}

#[test]
fn mono_shifted_round_trips() {
    let narrow = [0i32, 1, -1, 2047, -2048, 100, -100, 500];
    let pcm: Vec<i32> = narrow.iter().map(|&v| v << 4).collect();
    let block = encode_block_mono_shifted(&pcm, 4, 2, 0, pcm.len() as u32).unwrap();
    assert_eq!(decode_stream(&block).unwrap(), pcm);
    let (hdr, _) = parse_block_header(&block).unwrap();
    assert_eq!(hdr.flags.left_shift, 4);
}

#[test]
fn stereo_shifted_round_trips() {
    let narrow = [0i32, 5, -7, 1000, -1000, 524287, -524288, 42];
    let pcm: Vec<i32> = narrow.iter().map(|&v| v << 12).collect();
    let block = encode_block_stereo_shifted(&pcm, 12, 4, 0, (pcm.len() / 2) as u32).unwrap();
    assert_eq!(decode_stream(&block).unwrap(), pcm);
    let (hdr, _) = parse_block_header(&block).unwrap();
    assert_eq!(hdr.flags.left_shift, 12);
}

#[test]
fn shifted_rejects_zero_shift() {
    assert!(matches!(
        encode_block_mono_shifted(&[16, 32], 0, 2, 0, 2),
        Err(Error::EncodeLeftShiftZero)
    ));
    assert!(matches!(
        encode_block_stereo_shifted(&[16, 32], 0, 2, 0, 1),
        Err(Error::EncodeLeftShiftZero)
    ));
}

#[test]
fn shifted_rejects_lossy_low_bits() {
    assert!(matches!(
        encode_block_mono_shifted(&[0b100, 0b101], 2, 2, 0, 2),
        Err(Error::EncodeLeftShiftLosesData(0b101))
    ));
}

#[test]
fn forward_joint_stereo_inverts_undo() {
    for left in [-32768, -1000, -1, 0, 1, 7, 1000, 32767, 1_000_000] {
        for right in [-32768, -3, 0, 5, 999, 32767, -1_000_000] {
            let (mid, side) = forward_joint_stereo(left, right);
            let (l2, r2) = undo_joint_stereo(mid, side);
            assert_eq!((l2, r2), (left, right), "pair ({left}, {right})");
        }
    }
}

#[test]
fn joint_stereo_block_round_trips() {
    let pcm: Vec<i32> = vec![100, 98, 105, 103, 110, 108, 90, 92, 0, 0, -50, -48];
    let block = encode_block_stereo_joint(&pcm, 2, 0, (pcm.len() / 2) as u32).unwrap();
    assert_eq!(decode_stream(&block).unwrap(), pcm);
}

#[test]
fn joint_stereo_block_sets_flag_and_passes_crc() {
    let pcm: Vec<i32> = vec![10, 11, 12, 13, 14, 15];
    let block = encode_block_stereo_joint(&pcm, 2, 0, (pcm.len() / 2) as u32).unwrap();
    let (hdr, _) = parse_block_header(&block).unwrap();
    assert!(hdr.flags.joint_stereo);
    assert!(!hdr.flags.mono);
    let (decoded, ok) = decode_stream_muted(&block).unwrap();
    assert!(ok);
    assert_eq!(decoded, pcm);
}

#[test]
fn joint_stereo_correlated_round_trips() {
    let mut pcm = Vec::with_capacity(400);
    let mut state: u32 = 0xFEED_FACE;
    for _ in 0..200 {
        state = state.wrapping_mul(1_664_525).wrapping_add(1_013_904_223);
        let l = (state >> 20) as i16 as i32 / 8;

        let r = l + ((state >> 8) as i8 as i32 % 5);
        pcm.push(l);
        pcm.push(r);
    }
    let block = encode_block_stereo_joint(&pcm, 2, 0, (pcm.len() / 2) as u32).unwrap();
    assert_eq!(decode_stream(&block).unwrap(), pcm);
}

#[test]
fn joint_stereo_rejects_empty_and_odd() {
    assert!(matches!(
        encode_block_stereo_joint(&[], 2, 0, 0),
        Err(Error::EncodeEmptyAudio)
    ));
    assert!(matches!(
        encode_block_stereo_joint(&[1, 2, 3], 2, 0, 1),
        Err(Error::EncodeStereoOddLength(3))
    ));
}

fn term_byte(term: i8, delta: u8) -> u8 {
    (((term + 5) as u8) & 0x1f) | (delta << 5)
}

fn seed_word(v: i32) -> [u8; 2] {
    [v as i8 as u8, 9]
}

#[test]
fn mono_single_fixedlag_decorr_round_trips() {
    let pcm: Vec<i32> = vec![5, 9, 14, 20, 27, 35, 30, 22, 10, -4, -20];
    let terms = vec![term_byte(1, 2)];
    let weights = vec![40u8];
    let samples = seed_word(3).to_vec();
    let block =
        encode_block_mono_with_decorr(&pcm, &terms, &weights, &samples, 2, 0, pcm.len() as u32)
            .unwrap();
    assert_eq!(decode_stream(&block).unwrap(), pcm);
}

#[test]
fn mono_multi_pass_decorr_round_trips() {
    let mut pcm = Vec::with_capacity(300);
    let mut state: u32 = 0xCAFE_F00D;
    for _ in 0..300 {
        state = state.wrapping_mul(1_664_525).wrapping_add(1_013_904_223);
        pcm.push((state >> 20) as i16 as i32 / 8);
    }

    let terms = vec![term_byte(2, 1), term_byte(1, 1)];
    let weights = vec![30u8, 50u8];

    let mut samples = Vec::new();
    samples.extend_from_slice(&seed_word(1));
    samples.extend_from_slice(&seed_word(-2));
    samples.extend_from_slice(&seed_word(4));
    let block =
        encode_block_mono_with_decorr(&pcm, &terms, &weights, &samples, 2, 0, pcm.len() as u32)
            .unwrap();
    assert_eq!(decode_stream(&block).unwrap(), pcm);
}

#[test]
fn mono_extrapolate_term_round_trips() {
    let pcm: Vec<i32> = vec![100, 110, 119, 127, 134, 140, 145, 149, 150];
    let terms = vec![term_byte(17, 1)];
    let weights = vec![60u8];
    let mut samples = Vec::new();
    samples.extend_from_slice(&seed_word(2));
    samples.extend_from_slice(&seed_word(1));
    let block =
        encode_block_mono_with_decorr(&pcm, &terms, &weights, &samples, 2, 0, pcm.len() as u32)
            .unwrap();
    assert_eq!(decode_stream(&block).unwrap(), pcm);
}

#[test]
fn stereo_decorr_round_trips() {
    let mut pcm = Vec::with_capacity(240);
    let mut state: u32 = 0x1357_9BDF;
    for _ in 0..240 {
        state = state.wrapping_mul(1_103_515_245).wrapping_add(12_345);
        pcm.push((state >> 21) as i16 as i32 / 6);
    }
    let terms = vec![term_byte(1, 1)];

    let weights = vec![45u8, 35u8];

    let mut samples = Vec::new();
    samples.extend_from_slice(&seed_word(2));
    samples.extend_from_slice(&seed_word(-1));
    let block = encode_block_stereo_with_decorr(
        &pcm,
        &terms,
        &weights,
        &samples,
        2,
        0,
        (pcm.len() / 2) as u32,
    )
    .unwrap();
    assert_eq!(decode_stream(&block).unwrap(), pcm);
}

#[test]
fn stereo_cross_term_round_trips() {
    let pcm: Vec<i32> = vec![10, 12, 14, 11, 9, 13, 8, 16, 6, 18, 4, 20];
    let terms = vec![term_byte(-2, 1)];
    let weights = vec![20u8, 25u8];

    let mut samples = Vec::new();
    samples.extend_from_slice(&seed_word(1));
    samples.extend_from_slice(&seed_word(1));
    let block = encode_block_stereo_with_decorr(
        &pcm,
        &terms,
        &weights,
        &samples,
        2,
        0,
        (pcm.len() / 2) as u32,
    )
    .unwrap();
    assert_eq!(decode_stream(&block).unwrap(), pcm);
}

#[test]
fn decorr_block_sub_block_order() {
    let pcm: Vec<i32> = vec![1, 2, 3, 4, 5];
    let terms = vec![term_byte(1, 0)];
    let weights = vec![0u8];
    let samples = seed_word(0).to_vec();
    let block =
        encode_block_mono_with_decorr(&pcm, &terms, &weights, &samples, 2, 0, 5).unwrap();
    let (_hdr, mut payload) = parse_block_header(&block).unwrap();
    let expected = [
        SubBlockId::EntropyInfo,
        SubBlockId::DecorrelationTerms,
        SubBlockId::DecorrelationWeights,
        SubBlockId::DecorrelationSamples,
        SubBlockId::PackedSamples,
    ];
    for want in expected {
        let (sub, rest) = parse_metadata_sub_block(payload).unwrap();
        assert_eq!(sub.id, want);
        payload = rest;
    }
    assert!(payload.is_empty());
}

#[test]
fn decorr_invalid_term_is_rejected() {
    let pcm: Vec<i32> = vec![1, 2, 3];

    let terms = vec![term_byte(0, 0)];
    let weights = vec![0u8];
    let samples: Vec<u8> = Vec::new();
    assert!(matches!(
        encode_block_mono_with_decorr(&pcm, &terms, &weights, &samples, 2, 0, 3),
        Err(Error::InvalidDecorrelationTerm(0))
    ));
}

#[test]
fn encoder_sets_max_magnitude_flag_bits() {
    let wv = encode_block_mono(&[0; 8], 2, 0, 8).unwrap();
    let (b, _) = parse_block(&wv).unwrap();
    assert_eq!(b.flags().max_magnitude, 0);

    let wv = encode_block_mono(&[4, -1], 2, 0, 2).unwrap();
    let (b, _) = parse_block(&wv).unwrap();
    assert_eq!(b.flags().max_magnitude, 3);

    let wv = encode_block_mono(&[-32768], 2, 0, 1).unwrap();
    let (b, _) = parse_block(&wv).unwrap();
    assert_eq!(b.flags().max_magnitude, 15);

    let wv = encode_block_stereo_joint(&[20000, -20000], 2, 0, 1).unwrap();
    let (b, _) = parse_block(&wv).unwrap();
    assert!(b.flags().max_magnitude >= 15, "{}", b.flags().max_magnitude);
}

#[test]
fn multichannel_first_member_carries_0x0d_info() {
    let pcm: Vec<i32> = (0..4 * 6).collect();
    let wv = encode_multichannel_stream(&pcm, 4, 3, 2).unwrap();
    let blocks = parse_blocks(&wv).unwrap();
    assert_eq!(blocks.len(), 8);
    for (i, b) in blocks.iter().enumerate() {
        let info = b.find_multichannel_info_sub_block();
        if i % 4 == 0 {
            let payload = info.expect("first member carries 0x0D").payload;
            assert_eq!(payload, &[4u8, 0u8]);
        } else {
            assert!(info.is_none(), "member {i} must not carry 0x0D");
        }
    }

    let mono = encode_multichannel_stream(&pcm[..6], 1, 3, 2).unwrap();
    for b in parse_blocks(&mono).unwrap() {
        assert!(b.find_multichannel_info_sub_block().is_none());
    }
}

#[test]
fn encoder_stereo_entropy_info_is_all_zero_canonical() {
    let wv = encode_block_stereo(&[5, -3, 2, 2], 2, 0, 2).unwrap();
    let (b, _) = parse_block(&wv).unwrap();
    let sub = b.find_entropy_info_sub_block().expect("0x05 present");
    assert_eq!(sub.payload, &[0u8; 12]);

    assert_eq!(b.decode_samples().unwrap(), vec![5, -3, 2, 2]);
}

#[test]
fn multichannel_three_channel_round_trips() {
    let pcm: Vec<i32> = vec![
        10, 20, 30,
        11, 21, 31,
        -12, 22, -32,
        13, -23, 33,
    ];
    let out = encode_multichannel_stream(&pcm, 3, 0, 2).unwrap();
    let decoded = decode_multichannel_stream(&out).unwrap();
    assert_eq!(decoded.channels, 3);
    assert_eq!(decoded.samples, pcm);
}

#[test]
fn multichannel_six_channel_round_trips() {
    let mut pcm = Vec::new();
    for f in 0..3i32 {
        for ch in 0..6i32 {
            pcm.push(f * 100 + ch);
        }
    }
    let out = encode_multichannel_stream(&pcm, 6, 0, 2).unwrap();
    let decoded = decode_multichannel_stream(&out).unwrap();
    assert_eq!(decoded.channels, 6);
    assert_eq!(decoded.samples, pcm);
}

#[test]
fn multichannel_split_into_multiple_sets_round_trips() {
    let mut pcm = Vec::new();
    for f in 0..5i32 {
        for ch in 0..4i32 {
            pcm.push(f * 10 + ch);
        }
    }
    let out = encode_multichannel_stream(&pcm, 4, 2, 2).unwrap();
    let decoded = decode_multichannel_stream(&out).unwrap();
    assert_eq!(decoded.channels, 4);
    assert_eq!(decoded.samples, pcm);
}

#[test]
fn multichannel_single_channel_is_plain_mono() {
    let pcm: Vec<i32> = vec![3, -2, 5, 0, -7, 9];
    let out = encode_multichannel_stream(&pcm, 1, 0, 2).unwrap();
    let decoded = decode_multichannel_stream(&out).unwrap();
    assert_eq!(decoded.channels, 1);
    assert_eq!(decoded.samples, pcm);

    assert_eq!(decode_stream(&out).unwrap(), pcm);
}

#[test]
fn multichannel_at_zero_offset_equals_plain_encoder() {
    let mut pcm = Vec::new();
    for f in 0..5i32 {
        for ch in 0..3i32 {
            pcm.push(f * 10 + ch);
        }
    }
    let plain = encode_multichannel_stream(&pcm, 3, 2, 2).unwrap();
    let at = encode_multichannel_stream_at(&pcm, 3, 2, 2, 0, 5).unwrap();
    assert_eq!(plain, at);
}

#[test]
fn multichannel_at_streaming_chunks_concatenate_seekably() {
    let channels = 4usize;
    let frames = 10usize;
    let pcm: Vec<i32> = (0..frames * channels)
        .map(|i| (i as i32 * 13) % 200 - 100)
        .collect();
    let split = 6 * channels;
    let mut wv =
        encode_multichannel_stream_at(&pcm[..split], channels, 3, 2, 0, TOTAL_SAMPLES_UNKNOWN)
            .unwrap();
    wv.extend_from_slice(
        &encode_multichannel_stream_at(&pcm[split..], channels, 3, 2, 6, TOTAL_SAMPLES_UNKNOWN)
            .unwrap(),
    );
    let decoded = decode_multichannel_stream(&wv).unwrap();
    assert_eq!(decoded.channels, channels);
    assert_eq!(decoded.samples, pcm);
    let index = StreamIndex::scan(&wv).unwrap();
    assert!(
        index.is_seekable(),
        "running offsets make the chain contiguous"
    );
    assert_eq!(index.frame_count(), frames as u64);

    let mut flat =
        encode_multichannel_stream_at(&pcm[..split], channels, 3, 2, 0, TOTAL_SAMPLES_UNKNOWN)
            .unwrap();
    flat.extend_from_slice(
        &encode_multichannel_stream_at(&pcm[split..], channels, 3, 2, 0, TOTAL_SAMPLES_UNKNOWN)
            .unwrap(),
    );
    assert!(!StreamIndex::scan(&flat).unwrap().is_seekable());
}

#[test]
fn multichannel_at_index_overflow_is_refused() {
    let pcm: Vec<i32> = vec![1, 2, 3, 4];
    assert!(matches!(
        encode_multichannel_stream_at(&pcm, 2, 1, 2, u32::MAX, u32::MAX),
        Err(Error::EncodeBlockTooLarge(_))
    ));
}

#[test]
fn multichannel_empty_pcm_yields_empty_stream() {
    let out = encode_multichannel_stream(&[], 3, 0, 2).unwrap();
    assert!(out.is_empty());
}

#[test]
fn multichannel_zero_channels_is_refused() {
    assert!(matches!(
        encode_multichannel_stream(&[1, 2, 3], 0, 0, 2),
        Err(Error::MultichannelTooManyChannels(0))
    ));
}

#[test]
fn multichannel_ragged_buffer_is_refused() {
    assert!(matches!(
        encode_multichannel_stream(&[1, 2, 3, 4, 5, 6, 7], 3, 0, 2),
        Err(Error::EncodeStereoOddLength(7))
    ));
}

#[test]
fn multichannel_round_trips_under_muted_member_crc() {
    let pcm: Vec<i32> = vec![1, 2, 3, 4, 5, 6, 7, 8];
    let out = encode_multichannel_stream(&pcm, 4, 0, 2).unwrap();
    let decoded = decode_multichannel_stream(&out).unwrap();
    assert_eq!(decoded.channels, 4);
    assert_eq!(decoded.samples, pcm);
}

fn smooth_mono(len: usize) -> Vec<i32> {
    (0..len)
        .map(|i| {
            let i = i as i32;
            i * 13 - 1500 + ((i % 7) - 3)
        })
        .collect()
}

fn smooth_stereo(pairs: usize) -> Vec<i32> {
    let mut pcm = Vec::with_capacity(pairs * 2);
    for i in 0..pairs {
        let i = i as i32;
        let l = i * 9 - 1000 + ((i % 5) - 2);
        pcm.push(l);
        pcm.push(l + 37 + ((i % 3) - 1));
    }
    pcm
}

#[test]
fn mono_auto_round_trips_all_profiles() {
    let pcm = smooth_mono(400);
    for profile in [
        DecorrProfile::Fast,
        DecorrProfile::Normal,
        DecorrProfile::High,
    ] {
        let block = encode_block_mono_auto(&pcm, profile, 2, 0, pcm.len() as u32).unwrap();
        assert_eq!(
            decode_stream(&block).unwrap(),
            pcm,
            "profile {profile:?} must round-trip"
        );
        let (_, all_ok) = decode_stream_muted(&block).unwrap();
        assert!(all_ok, "profile {profile:?} must pass its CRC gate");
    }
}

#[test]
fn stereo_auto_round_trips_all_profiles() {
    let pcm = smooth_stereo(300);
    for profile in [
        DecorrProfile::Fast,
        DecorrProfile::Normal,
        DecorrProfile::High,
    ] {
        let block =
            encode_block_stereo_auto(&pcm, profile, 2, 0, (pcm.len() / 2) as u32).unwrap();
        assert_eq!(
            decode_stream(&block).unwrap(),
            pcm,
            "profile {profile:?} must round-trip"
        );
    }
}

#[test]
fn auto_round_trips_pseudo_random_input() {
    let mut pcm = Vec::with_capacity(600);
    let mut state: u32 = 0xC0FF_EE01;
    for _ in 0..600 {
        state = state.wrapping_mul(1_664_525).wrapping_add(1_013_904_223);
        pcm.push((state >> 16) as i16 as i32);
    }
    let mono = encode_block_mono_auto(&pcm, DecorrProfile::Normal, 2, 0, 600).unwrap();
    assert_eq!(decode_stream(&mono).unwrap(), pcm);
    let stereo = encode_block_stereo_auto(&pcm, DecorrProfile::High, 2, 0, 300).unwrap();
    assert_eq!(decode_stream(&stereo).unwrap(), pcm);
}

#[test]
fn auto_beats_raw_on_smooth_signal() {
    let pcm = smooth_mono(1000);
    let raw = encode_block_mono(&pcm, 2, 0, 1000).unwrap();
    let auto = encode_block_mono_auto(&pcm, DecorrProfile::Normal, 2, 0, 1000).unwrap();
    assert!(
        auto.len() < raw.len(),
        "decorrelated block ({}) must be smaller than raw ({}) on a smooth signal",
        auto.len(),
        raw.len()
    );

    let stereo = smooth_stereo(500);
    let raw_s = encode_block_stereo(&stereo, 2, 0, 500).unwrap();
    let auto_s = encode_block_stereo_auto(&stereo, DecorrProfile::Normal, 2, 0, 500).unwrap();
    assert!(
        auto_s.len() < raw_s.len(),
        "stereo decorrelated block ({}) must be smaller than raw ({})",
        auto_s.len(),
        raw_s.len()
    );
}

#[test]
fn derived_passes_are_trained_and_quantized() {
    let pcm: Vec<i32> = (0..500).map(|i| i * 11 - 2700).collect();
    let passes = derive_mono_passes(&pcm, DecorrProfile::Fast).unwrap();
    assert_eq!(passes.len(), 2);
    assert!(
        passes[0].weight_a > 256,
        "ramp training must push the extrapolate weight up (got {})",
        passes[0].weight_a
    );
    for p in &passes {
        assert_eq!(
            quantize_weight(p.weight_a),
            p.weight_a,
            "derived weight must be storable verbatim"
        );
    }

    assert!(serialize_mono_passes(&passes).is_ok());
}

#[test]
fn derived_stereo_passes_cover_both_channels() {
    let pcm = smooth_stereo(400);
    let passes = derive_stereo_passes(&pcm, DecorrProfile::Normal).unwrap();
    assert_eq!(passes.len(), 6);
    assert!(passes.iter().any(|p| p.term < 0), "cross pass present");
    for p in &passes {
        assert_eq!(quantize_weight(p.weight_a), p.weight_a);
        assert_eq!(quantize_weight(p.weight_b), p.weight_b);
    }
    assert!(serialize_stereo_passes(&passes).is_ok());
}

#[test]
fn joint_with_decorr_round_trips_with_both_features() {
    let pcm = smooth_stereo(300);

    let mut joint = pcm.clone();
    for pair in joint.chunks_exact_mut(2) {
        let (mid, side) = forward_joint_stereo(pair[0], pair[1]);
        pair[0] = mid;
        pair[1] = side;
    }
    let passes = derive_stereo_passes(&joint, DecorrProfile::Normal).unwrap();
    let (t, w, s) = serialize_stereo_passes(&passes).unwrap();
    let block =
        encode_block_stereo_joint_with_decorr(&pcm, &t, &w, &s, 2, 0, (pcm.len() / 2) as u32)
            .unwrap();

    let (hdr, _) = parse_block_header(&block).unwrap();
    assert!(hdr.flags.joint_stereo, "joint flag set");
    assert_eq!(decode_stream(&block).unwrap(), pcm);
    let (_, all_ok) = decode_stream_muted(&block).unwrap();
    assert!(all_ok, "CRC folds over true L/R");

    let (_hdr, payload) = parse_block_header(&block).unwrap();
    let ids: Vec<SubBlockId> = {
        let mut rest = payload;
        let mut out = Vec::new();
        while !rest.is_empty() {
            let (sb, tail) = parse_metadata_sub_block(rest).unwrap();
            out.push(sb.id);
            rest = tail;
        }
        out
    };
    assert_eq!(
        ids,
        vec![
            SubBlockId::EntropyInfo,
            SubBlockId::DecorrelationTerms,
            SubBlockId::DecorrelationWeights,
            SubBlockId::DecorrelationSamples,
            SubBlockId::PackedSamples,
        ]
    );
}

#[test]
fn joint_auto_round_trips_all_profiles() {
    let pcm = smooth_stereo(250);
    for profile in [
        DecorrProfile::Fast,
        DecorrProfile::Normal,
        DecorrProfile::High,
    ] {
        let block = encode_block_stereo_joint_auto(&pcm, profile, 2, 0, 250).unwrap();
        assert_eq!(
            decode_stream(&block).unwrap(),
            pcm,
            "profile {profile:?} must round-trip"
        );
    }
}

#[test]
fn joint_auto_beats_plain_auto_on_identical_channels() {
    let mut pcm = Vec::with_capacity(600);
    for i in 0..300 {
        let v = i * 6 - 900 + ((i % 4) - 2);
        pcm.push(v);
        pcm.push(v);
    }
    let plain = encode_block_stereo_auto(&pcm, DecorrProfile::Normal, 2, 0, 300).unwrap();
    let joint = encode_block_stereo_joint_auto(&pcm, DecorrProfile::Normal, 2, 0, 300).unwrap();
    assert!(
        joint.len() < plain.len(),
        "joint auto ({}) must beat plain auto ({}) on identical channels",
        joint.len(),
        plain.len()
    );
    assert_eq!(decode_stream(&joint).unwrap(), pcm);
}

#[test]
fn joint_auto_round_trips_pseudo_random() {
    let mut pcm = Vec::with_capacity(500);
    let mut state: u32 = 0x1357_9BDF;
    for _ in 0..500 {
        state = state.wrapping_mul(1_103_515_245).wrapping_add(12_345);
        pcm.push((state >> 15) as i16 as i32);
    }
    let block = encode_block_stereo_joint_auto(&pcm, DecorrProfile::High, 2, 0, 250).unwrap();
    assert_eq!(decode_stream(&block).unwrap(), pcm);
}

#[test]
fn joint_combined_refusal_arms() {
    assert!(matches!(
        encode_block_stereo_joint_with_decorr(&[], &[], &[], &[], 2, 0, 0),
        Err(Error::EncodeEmptyAudio)
    ));
    assert!(matches!(
        encode_block_stereo_joint_auto(&[1, 2, 3], DecorrProfile::Fast, 2, 0, 1),
        Err(Error::EncodeStereoOddLength(3))
    ));
}

#[test]
fn detect_left_shift_arms() {
    assert_eq!(detect_left_shift(&[]), 0);
    assert_eq!(detect_left_shift(&[0, 0, 0]), 0);
    assert_eq!(detect_left_shift(&[1, 2, 3]), 0);

    assert_eq!(detect_left_shift(&[16, -32, 4096, 0]), 4);

    assert_eq!(detect_left_shift(&[64, 128, 8]), 3);

    assert_eq!(detect_left_shift(&[i32::MIN]), 31);
}

#[test]
fn mono_best_detects_shift_and_beats_unshifted_auto() {
    let pcm: Vec<i32> = smooth_mono(600).iter().map(|&v| v << 4).collect();
    let best = encode_block_mono_best(&pcm, DecorrProfile::Normal, 2, 0, 600).unwrap();
    let (hdr, _) = parse_block_header(&best).unwrap();
    assert_eq!(hdr.flags.left_shift, 4, "detected shift stored in flags");
    assert_eq!(decode_stream(&best).unwrap(), pcm);

    let auto = encode_block_mono_auto(&pcm, DecorrProfile::Normal, 2, 0, 600).unwrap();
    assert!(
        best.len() < auto.len(),
        "shift-aware best ({}) must beat unshifted auto ({})",
        best.len(),
        auto.len()
    );
}

#[test]
fn best_is_no_larger_than_any_single_mode() {
    let mono = smooth_mono(500);
    let best = encode_block_mono_best(&mono, DecorrProfile::Normal, 2, 0, 500).unwrap();
    let raw = encode_block_mono(&mono, 2, 0, 500).unwrap();
    let auto = encode_block_mono_auto(&mono, DecorrProfile::Normal, 2, 0, 500).unwrap();
    assert!(best.len() <= raw.len() && best.len() <= auto.len());
    assert_eq!(decode_stream(&best).unwrap(), mono);

    let stereo = smooth_stereo(400);
    let best = encode_block_stereo_best(&stereo, DecorrProfile::Normal, 2, 0, 400).unwrap();
    for candidate in [
        encode_block_stereo(&stereo, 2, 0, 400).unwrap(),
        encode_block_stereo_auto(&stereo, DecorrProfile::Normal, 2, 0, 400).unwrap(),
        encode_block_stereo_joint(&stereo, 2, 0, 400).unwrap(),
        encode_block_stereo_joint_auto(&stereo, DecorrProfile::Normal, 2, 0, 400).unwrap(),
    ] {
        assert!(
            best.len() <= candidate.len(),
            "best ({}) lost to a single-mode candidate ({})",
            best.len(),
            candidate.len()
        );
    }
    assert_eq!(decode_stream(&best).unwrap(), stereo);
}

#[test]
fn stereo_best_combines_shift_joint_decorr() {
    let mut pcm = Vec::with_capacity(500);
    for i in 0..250 {
        let v = (i * 5 - 600 + ((i % 6) - 3)) << 3;
        pcm.push(v);
        pcm.push(v);
    }
    let best = encode_block_stereo_best(&pcm, DecorrProfile::Normal, 2, 0, 250).unwrap();
    let (hdr, _) = parse_block_header(&best).unwrap();
    assert_eq!(hdr.flags.left_shift, 3, "detected shift stored");
    assert_eq!(decode_stream(&best).unwrap(), pcm);
    let (_, all_ok) = decode_stream_muted(&best).unwrap();
    assert!(all_ok);
}

#[test]
fn best_round_trips_pseudo_random() {
    let mut pcm = Vec::with_capacity(400);
    let mut state: u32 = 0xFEED_5EED;
    for _ in 0..400 {
        state = state.wrapping_mul(1_664_525).wrapping_add(1_013_904_223);
        pcm.push((state >> 16) as i16 as i32);
    }
    let mono = encode_block_mono_best(&pcm, DecorrProfile::High, 2, 0, 400).unwrap();
    assert_eq!(decode_stream(&mono).unwrap(), pcm);
    let stereo = encode_block_stereo_best(&pcm, DecorrProfile::High, 2, 0, 200).unwrap();
    assert_eq!(decode_stream(&stereo).unwrap(), pcm);
}

#[test]
fn stream_mono_best_round_trips_and_compresses() {
    let pcm = smooth_mono(2000);
    let best = encode_stream_mono_best(&pcm, 250, 2, DecorrProfile::Normal).unwrap();
    assert_eq!(decode_stream(&best).unwrap(), pcm);
    assert!(audio_block_count(&best).unwrap() > 1);

    let raw = encode_stream_mono(&pcm, 250, 2).unwrap();
    assert!(
        best.len() < raw.len(),
        "best stream ({}) must beat raw stream ({}) on smooth audio",
        best.len(),
        raw.len()
    );
    let (_, all_ok) = decode_stream_muted(&best).unwrap();
    assert!(all_ok, "every block passes its CRC gate");
}

#[test]
fn stream_stereo_best_round_trips_and_compresses() {
    let pcm = smooth_stereo(1200);
    let best = encode_stream_stereo_best(&pcm, 200, 2, DecorrProfile::Normal).unwrap();
    assert_eq!(decode_stream(&best).unwrap(), pcm);
    assert!(audio_block_count(&best).unwrap() > 1);

    let raw = encode_stream_stereo(&pcm, 200, 2).unwrap();
    assert!(
        best.len() < raw.len(),
        "best stream ({}) must beat raw stream ({})",
        best.len(),
        raw.len()
    );
}

#[test]
fn stream_stereo_best_mixed_material_round_trips() {
    let mut pcm = Vec::with_capacity(1200);
    for i in 0..300 {
        let v = i * 4 - 600;
        pcm.push(v);
        pcm.push(v);
    }
    let mut state: u32 = 0xABCD_EF01;
    for _ in 0..300 {
        state = state.wrapping_mul(1_664_525).wrapping_add(1_013_904_223);
        pcm.push((state >> 16) as i16 as i32);
        state = state.wrapping_mul(1_664_525).wrapping_add(1_013_904_223);
        pcm.push((state >> 16) as i16 as i32);
    }
    let best = encode_stream_stereo_best(&pcm, 150, 2, DecorrProfile::Normal).unwrap();
    assert_eq!(decode_stream(&best).unwrap(), pcm);
    assert_eq!(audio_block_count(&best).unwrap(), 4);
}

#[test]
fn stream_best_header_contract() {
    let pcm = smooth_mono(55);
    let stream = encode_stream_mono_best(&pcm, 20, 2, DecorrProfile::Fast).unwrap();
    let mut payload = stream.as_slice();
    let mut expected_index = 0u32;
    let mut seen = 0;
    while !payload.is_empty() {
        let (hdr, _) = parse_block_header(payload).unwrap();
        assert_eq!(hdr.block_index, expected_index);
        assert_eq!(hdr.total_samples, 55);
        expected_index += hdr.block_samples;
        payload = &payload[8 + hdr.ck_size as usize..];
        seen += 1;
    }
    assert_eq!(seen, 3);
    assert_eq!(expected_index, 55);
}

#[test]
fn stream_best_edge_arms() {
    assert!(encode_stream_mono_best(&[], 0, 2, DecorrProfile::Fast)
        .unwrap()
        .is_empty());
    assert!(encode_stream_stereo_best(&[], 0, 2, DecorrProfile::Fast)
        .unwrap()
        .is_empty());
    assert!(matches!(
        encode_stream_stereo_best(&[1, 2, 3], 0, 2, DecorrProfile::Fast),
        Err(Error::EncodeStereoOddLength(3))
    ));
}

#[test]
fn profile_search_sets_nest() {
    assert_eq!(DecorrProfile::Fast.search_set(), &[DecorrProfile::Fast]);
    assert_eq!(
        DecorrProfile::Normal.search_set(),
        &[DecorrProfile::Fast, DecorrProfile::Normal]
    );
    assert_eq!(
        DecorrProfile::High.search_set(),
        &[
            DecorrProfile::Fast,
            DecorrProfile::Normal,
            DecorrProfile::High
        ]
    );
    assert_eq!(
        DecorrProfile::Extra.search_set(),
        &[
            DecorrProfile::Fast,
            DecorrProfile::Normal,
            DecorrProfile::High,
            DecorrProfile::Extra
        ]
    );
}

#[test]
fn extra_profile_is_the_max_nterms_ceiling() {
    let mono = smooth_mono(400);
    let passes = derive_mono_passes(&mono, DecorrProfile::Extra).unwrap();
    assert_eq!(passes.len(), MAX_NTERMS);
    serialize_mono_passes(&passes).unwrap();

    let stereo = smooth_stereo(200);
    let passes = derive_stereo_passes(&stereo, DecorrProfile::Extra).unwrap();
    assert_eq!(passes.len(), MAX_NTERMS);
    serialize_stereo_passes(&passes).unwrap();
}

#[test]
fn extra_profile_auto_round_trips_bit_exact() {
    let mono = smooth_mono(500);
    let block = encode_block_mono_auto(&mono, DecorrProfile::Extra, 2, 0, 500).unwrap();
    assert_eq!(decode_stream(&block).unwrap(), mono);

    let stereo = smooth_stereo(250);
    let plain = encode_block_stereo_auto(&stereo, DecorrProfile::Extra, 2, 0, 250).unwrap();
    assert_eq!(decode_stream(&plain).unwrap(), stereo);
    let joint =
        encode_block_stereo_joint_auto(&stereo, DecorrProfile::Extra, 2, 0, 250).unwrap();
    assert_eq!(decode_stream(&joint).unwrap(), stereo);
}

#[test]
fn extra_ceiling_dominates_high() {
    let mono = smooth_mono(700);
    let high = encode_block_mono_best(&mono, DecorrProfile::High, 2, 0, 700).unwrap();
    let extra = encode_block_mono_best(&mono, DecorrProfile::Extra, 2, 0, 700).unwrap();
    assert!(extra.len() <= high.len());
    assert_eq!(decode_stream(&extra).unwrap(), mono);

    let stereo = smooth_stereo(350);
    let high = encode_block_stereo_best(&stereo, DecorrProfile::High, 2, 0, 350).unwrap();
    let extra = encode_block_stereo_best(&stereo, DecorrProfile::Extra, 2, 0, 350).unwrap();
    assert!(extra.len() <= high.len());
    assert_eq!(decode_stream(&extra).unwrap(), stereo);
}

#[test]
fn iterated_once_matches_single_sweep_derivation() {
    let mono = smooth_mono(400);
    assert_eq!(
        derive_mono_passes_iterated(&mono, DecorrProfile::High, 1).unwrap(),
        derive_mono_passes(&mono, DecorrProfile::High).unwrap()
    );

    assert_eq!(
        derive_mono_passes_iterated(&mono, DecorrProfile::Normal, 0).unwrap(),
        derive_mono_passes(&mono, DecorrProfile::Normal).unwrap()
    );

    let stereo = smooth_stereo(200);
    assert_eq!(
        derive_stereo_passes_iterated(&stereo, DecorrProfile::High, 1).unwrap(),
        derive_stereo_passes(&stereo, DecorrProfile::High).unwrap()
    );
}

#[test]
fn iterated_derivation_round_trips_bit_exact() {
    let mono = smooth_mono(500);
    for iterations in [2u32, 3, 5] {
        let passes =
            derive_mono_passes_iterated(&mono, DecorrProfile::High, iterations).unwrap();
        let (terms, weights, samples) = serialize_mono_passes(&passes).unwrap();
        let block = encode_block_mono_with_decorr(&mono, &terms, &weights, &samples, 2, 0, 500)
            .unwrap();
        assert_eq!(decode_stream(&block).unwrap(), mono);
    }

    let stereo = smooth_stereo(250);
    let passes = derive_stereo_passes_iterated(&stereo, DecorrProfile::Extra, 3).unwrap();
    let (terms, weights, samples) = serialize_stereo_passes(&passes).unwrap();
    let block = encode_block_stereo_with_decorr(&stereo, &terms, &weights, &samples, 2, 0, 250)
        .unwrap();
    assert_eq!(decode_stream(&block).unwrap(), stereo);
}

#[test]
fn iterated_derivation_keeps_the_term_stack() {
    let mono = smooth_mono(300);
    let one = derive_mono_passes_iterated(&mono, DecorrProfile::Normal, 1).unwrap();
    let three = derive_mono_passes_iterated(&mono, DecorrProfile::Normal, 3).unwrap();
    assert_eq!(one.len(), three.len());
    let (terms_one, _, _) = serialize_mono_passes(&one).unwrap();
    let (terms_three, _, _) = serialize_mono_passes(&three).unwrap();
    assert_eq!(terms_one, terms_three);
}

#[test]
fn searched_derivation_respects_caps_and_stays_valid() {
    let mono = smooth_mono(400);
    for cap in [1usize, 3, 16, 64] {
        let passes = derive_mono_passes_searched(&mono, cap).unwrap();
        assert!(passes.len() <= cap.min(MAX_NTERMS));
        serialize_mono_passes(&passes).unwrap();
    }
    let stereo = smooth_stereo(200);
    let passes = derive_stereo_passes_searched(&stereo, 64).unwrap();
    assert!(passes.len() <= MAX_NTERMS);
    serialize_stereo_passes(&passes).unwrap();
}

#[test]
fn searched_derivation_picks_nothing_on_zeros() {
    let zeros = vec![0i32; 128];
    assert!(derive_mono_passes_searched(&zeros, 16).unwrap().is_empty());
    let out = encode_block_mono_searched(&zeros, 16, 2, 0, 128).unwrap();
    assert_eq!(decode_stream(&out).unwrap(), zeros);
}

#[test]
fn searched_encode_round_trips_and_beats_raw() {
    let mono = smooth_mono(600);
    let searched = encode_block_mono_searched(&mono, 16, 2, 0, 600).unwrap();
    let raw = encode_block_mono(&mono, 2, 0, 600).unwrap();
    assert!(searched.len() <= raw.len());
    assert_eq!(decode_stream(&searched).unwrap(), mono);

    let stereo = smooth_stereo(300);
    let searched = encode_block_stereo_searched(&stereo, 16, 2, 0, 300).unwrap();
    let raw = encode_block_stereo(&stereo, 2, 0, 300).unwrap();
    assert!(searched.len() <= raw.len());
    assert_eq!(decode_stream(&searched).unwrap(), stereo);
}

#[test]
fn searched_encode_compresses_correlated_signal() {
    let mono = smooth_mono(800);
    let passes = derive_mono_passes_searched(&mono, 16).unwrap();
    assert!(!passes.is_empty(), "smooth signal must pick terms");
    let searched = encode_block_mono_searched(&mono, 16, 2, 0, 800).unwrap();
    let raw = encode_block_mono(&mono, 2, 0, 800).unwrap();
    assert!(
        searched.len() < raw.len(),
        "searched ({}) must beat raw ({}) on a smooth signal",
        searched.len(),
        raw.len()
    );
}

#[test]
fn searched_encode_shift_and_refusals() {
    let mono: Vec<i32> = smooth_mono(300).iter().map(|s| s << 3).collect();
    let out = encode_block_mono_searched(&mono, 16, 2, 0, 300).unwrap();
    assert_eq!(decode_stream(&out).unwrap(), mono);

    assert!(matches!(
        encode_block_mono_searched(&[], 16, 2, 0, 0),
        Err(Error::EncodeEmptyAudio)
    ));
    assert!(matches!(
        encode_block_stereo_searched(&[1, 2, 3], 16, 2, 0, 1),
        Err(Error::EncodeStereoOddLength(3))
    ));
}

#[test]
fn smallest_union_dominates_both_searches() {
    let mono = smooth_mono(700);
    let best = encode_block_mono_best(&mono, DecorrProfile::Extra, 2, 0, 700).unwrap();
    let searched = encode_block_mono_searched(&mono, 16, 2, 0, 700).unwrap();
    let smallest = encode_block_mono_smallest(&mono, 2, 0, 700).unwrap();
    assert!(smallest.len() <= best.len());
    assert!(smallest.len() <= searched.len());
    assert_eq!(decode_stream(&smallest).unwrap(), mono);

    let stereo = smooth_stereo(350);
    let best = encode_block_stereo_best(&stereo, DecorrProfile::Extra, 2, 0, 350).unwrap();
    let searched = encode_block_stereo_searched(&stereo, 16, 2, 0, 350).unwrap();
    let smallest = encode_block_stereo_smallest(&stereo, 2, 0, 350).unwrap();
    assert!(smallest.len() <= best.len());
    assert!(smallest.len() <= searched.len());
    assert_eq!(decode_stream(&smallest).unwrap(), stereo);
}

#[test]
fn stream_smallest_round_trips_multi_block() {
    let mono = smooth_mono(700);
    let stream = encode_stream_mono_smallest(&mono, 256, 2).unwrap();
    assert!(block_count(&stream).unwrap() > 1);
    assert_eq!(decode_stream(&stream).unwrap(), mono);

    let stereo = smooth_stereo(300);
    let stream = encode_stream_stereo_smallest(&stereo, 128, 2).unwrap();
    assert!(block_count(&stream).unwrap() > 1);
    assert_eq!(decode_stream(&stream).unwrap(), stereo);

    let one = encode_stream_mono_smallest(&mono, 0, 2).unwrap();
    assert_eq!(block_count(&one).unwrap(), 1);
    assert_eq!(decode_stream(&one).unwrap(), mono);

    assert!(encode_stream_mono_smallest(&[], 0, 2).unwrap().is_empty());
    assert!(matches!(
        encode_stream_stereo_smallest(&[1, 2, 3], 0, 2),
        Err(Error::EncodeStereoOddLength(3))
    ));
}

#[test]
fn stream_smallest_dominates_stream_best() {
    let mono = smooth_mono(600);
    let best = encode_stream_mono_best(&mono, 200, 2, DecorrProfile::Extra).unwrap();
    let smallest = encode_stream_mono_smallest(&mono, 200, 2).unwrap();
    assert!(smallest.len() <= best.len());
    assert_eq!(decode_stream(&smallest).unwrap(), mono);
}

#[test]
fn residual_cost_orders_by_magnitude_bits() {
    assert_eq!(residual_cost(&[0, 0, 0]), 0);
    assert_eq!(residual_cost(&[1, -1]), 2);
    assert_eq!(residual_cost(&[3]), 2);
    assert_eq!(residual_cost(&[4]), 3);
    assert_eq!(residual_cost(&[i32::MIN]), 32);
    assert!(residual_cost(&[100, 100]) < residual_cost(&[10_000, 10_000]));
}

#[test]
fn best_is_monotone_in_the_search_ceiling() {
    let mono = smooth_mono(700);
    let fast = encode_block_mono_best(&mono, DecorrProfile::Fast, 2, 0, 700).unwrap();
    let normal = encode_block_mono_best(&mono, DecorrProfile::Normal, 2, 0, 700).unwrap();
    let high = encode_block_mono_best(&mono, DecorrProfile::High, 2, 0, 700).unwrap();
    assert!(normal.len() <= fast.len());
    assert!(high.len() <= normal.len());
    for out in [fast, normal, high] {
        assert_eq!(decode_stream(&out).unwrap(), mono);
    }

    let stereo = smooth_stereo(350);
    let fast = encode_block_stereo_best(&stereo, DecorrProfile::Fast, 2, 0, 350).unwrap();
    let high = encode_block_stereo_best(&stereo, DecorrProfile::High, 2, 0, 350).unwrap();
    assert!(high.len() <= fast.len());
    assert_eq!(decode_stream(&high).unwrap(), stereo);
}

#[test]
fn best_dominates_all_autos_in_ceiling() {
    let mono = smooth_mono(600);
    let best = encode_block_mono_best(&mono, DecorrProfile::High, 2, 0, 600).unwrap();
    for p in [
        DecorrProfile::Fast,
        DecorrProfile::Normal,
        DecorrProfile::High,
    ] {
        let auto = encode_block_mono_auto(&mono, p, 2, 0, 600).unwrap();
        assert!(
            best.len() <= auto.len(),
            "best-High ({}) lost to auto-{p:?} ({})",
            best.len(),
            auto.len()
        );
    }
    assert_eq!(decode_stream(&best).unwrap(), mono);
}

#[test]
fn best_refusal_arms() {
    assert!(matches!(
        encode_block_mono_best(&[], DecorrProfile::Fast, 2, 0, 0),
        Err(Error::EncodeEmptyAudio)
    ));
    assert!(matches!(
        encode_block_stereo_best(&[], DecorrProfile::Fast, 2, 0, 0),
        Err(Error::EncodeEmptyAudio)
    ));
    assert!(matches!(
        encode_block_stereo_best(&[1, 2, 3], DecorrProfile::Fast, 2, 0, 1),
        Err(Error::EncodeStereoOddLength(3))
    ));
}

#[test]
fn auto_refusal_arms() {
    assert!(matches!(
        encode_block_mono_auto(&[], DecorrProfile::Fast, 2, 0, 0),
        Err(Error::EncodeEmptyAudio)
    ));
    assert!(matches!(
        encode_block_stereo_auto(&[], DecorrProfile::Fast, 2, 0, 0),
        Err(Error::EncodeEmptyAudio)
    ));
    assert!(matches!(
        encode_block_stereo_auto(&[1, 2, 3], DecorrProfile::Fast, 2, 0, 1),
        Err(Error::EncodeStereoOddLength(3))
    ));
}

#[test]
fn stamp_standard_rate_patches_every_header_and_stays_decodable() {
    let pcm: Vec<i32> = (0..3000).map(|i| ((i * 37) % 4001) - 2000).collect();

    let stream = encode_stream_mono(&pcm, 1000, 2).unwrap();
    let stamped = set_stream_sample_rate(&stream, 44_100).unwrap();
    assert_eq!(stamped.len(), stream.len(), "standard rate is a pure patch");
    assert_eq!(decode_stream(&stamped).unwrap(), pcm, "PCM unchanged");
    assert_eq!(stream_sample_rate(&stamped).unwrap(), Some(44_100));

    for block in parse_blocks(&stamped).unwrap() {
        assert_eq!(block.header().flags.standard_sample_rate(), Some(44_100));
    }
}

#[test]
fn stamp_custom_rate_appends_0x27_to_the_first_block_only() {
    let pcm: Vec<i32> = (0..2500).map(|i| ((i * 91) % 801) - 400).collect();
    let stream = encode_stream_mono(&pcm, 1000, 2).unwrap();
    let stamped = set_stream_sample_rate(&stream, 12_345).unwrap();
    assert_eq!(
        stamped.len(),
        stream.len() + 6,
        "custom rate appends one 6-byte 0x27 sub-block"
    );
    assert_eq!(decode_stream(&stamped).unwrap(), pcm, "PCM unchanged");
    assert_eq!(stream_sample_rate(&stamped).unwrap(), Some(12_345));
    let mut with_27 = 0;
    for block in parse_blocks(&stamped).unwrap() {
        assert!(block.header().flags.has_custom_sample_rate());
        if find_non_standard_sample_rate(block.sub_blocks()).is_some() {
            with_27 += 1;
            assert_eq!(block.sample_rate().unwrap(), Some(12_345));
        }
    }
    assert_eq!(with_27, 1, "0x27 is emitted once, with the first block");
}

#[test]
fn stamp_custom_rate_mid_stream_chain_sets_sentinel_only() {
    let pcm: Vec<i32> = (0..500).map(|i| (i % 101) - 50).collect();

    let stream = encode_block_mono(&pcm, 2, 5_000, TOTAL_SAMPLES_UNKNOWN).unwrap();
    let stamped = set_stream_sample_rate(&stream, 12_345).unwrap();
    assert_eq!(stamped.len(), stream.len(), "no 0x27 on a mid-stream chain");
    let (block, _) = parse_block(&stamped).unwrap();
    assert!(block.header().flags.has_custom_sample_rate());
    assert_eq!(
        block.sample_rate().unwrap(),
        None,
        "rate deferred to the stream head"
    );
}

#[test]
fn stamp_refuses_out_of_range_rates() {
    let stream = encode_stream_mono(&[1, 2, 3, 4], 0, 2).unwrap();
    assert_eq!(
        set_stream_sample_rate(&stream, 0),
        Err(Error::CustomSampleRateOutOfRange(0))
    );
    assert_eq!(
        set_stream_sample_rate(&stream, 0x0100_0000),
        Err(Error::CustomSampleRateOutOfRange(0x0100_0000))
    );

    let stamped = set_stream_sample_rate(&stream, 0x00FF_FFFF).unwrap();
    assert_eq!(
        stream_sample_rate(&stamped).unwrap(),
        Some(0x00FF_FFFF)
    );
}

#[test]
fn stamp_round_trips_through_the_reference_shaped_decoders() {
    let pcm: Vec<i32> = (0..2000)
        .map(|i| (((i * 13) % 997) - 498) * ((i % 2) * 2 - 1))
        .collect();
    let stream = encode_stream_stereo_best(&pcm, 0, 2, DecorrProfile::Normal).unwrap();
    for rate in [8000u32, 96_000, 12_345] {
        let stamped = set_stream_sample_rate(&stream, rate).unwrap();
        assert_eq!(decode_stream(&stamped).unwrap(), pcm, "rate {rate}");
        let (_, ok) = decode_stream_muted(&stamped).unwrap();
        assert!(ok, "CRC gate must still pass at rate {rate}");
        assert_eq!(stream_sample_rate(&stamped).unwrap(), Some(rate));
    }
}

fn splitmix(seed: u64, n: usize) -> Vec<i64> {
    let mut x = seed;
    (0..n)
        .map(|_| {
            x = x.wrapping_mul(0xd1342543de82ef95).wrapping_add(1);
            x as i64
        })
        .collect()
}

fn float_signal(n: usize) -> Vec<f32> {
    splitmix(0x9e3779b9, n)
        .iter()
        .enumerate()
        .map(|(i, &r)| {
            if i % 37 == 0 {
                0.0
            } else {
                let t = i as f32 * 0.037;
                t.sin() * 0.7 + (r as f32 / i64::MAX as f32) * 0.01
            }
        })
        .collect()
}

fn bits_of(pcm: &[f32]) -> Vec<u32> {
    pcm.iter().map(|s| s.to_bits()).collect()
}

#[test]
fn float_mono_block_round_trips_bit_exactly() {
    let pcm = float_signal(500);
    let block = encode_block_mono_float(&bits_of(&pcm), 0, 500).unwrap();
    let decoded = decode_stream_f32(&block).unwrap();
    assert_eq!(bits_of(&decoded), bits_of(&pcm));

    let (parsed, _) = parse_block(&block).unwrap();
    assert!(parsed.is_float());
    assert_eq!(parsed.flags().bytes_per_sample(), 4);

    assert!(parsed.verify_decoded_crc().unwrap());
}

#[test]
fn float_stereo_block_round_trips_bit_exactly() {
    let mono = float_signal(400);
    let pcm: Vec<f32> = mono.iter().flat_map(|&s| [s, -s * 0.5 + 0.001]).collect();
    let block = encode_block_stereo_float(&bits_of(&pcm), 0, 400).unwrap();
    let decoded = decode_stream_f32(&block).unwrap();
    assert_eq!(bits_of(&decoded), bits_of(&pcm));
    let (parsed, _) = parse_block(&block).unwrap();
    assert!(parsed.verify_decoded_crc().unwrap());
}

#[test]
fn float_best_search_round_trips_and_never_loses_to_raw() {
    let pcm = float_signal(600);
    let raw = encode_block_mono_float(&bits_of(&pcm), 0, 600).unwrap();
    let best = encode_block_mono_float_best(&bits_of(&pcm), DecorrProfile::High, 0, 600).unwrap();
    assert!(best.len() <= raw.len(), "best must never lose to raw");
    assert_eq!(
        bits_of(&decode_stream_f32(&best).unwrap()),
        bits_of(&pcm)
    );

    let stereo: Vec<f32> = pcm.iter().flat_map(|&s| [s, s * 0.9]).collect();
    let sraw = encode_block_stereo_float(&bits_of(&stereo), 0, 600).unwrap();
    let sbest = encode_block_stereo_float_best(&bits_of(&stereo), DecorrProfile::High, 0, 600).unwrap();
    assert!(sbest.len() <= sraw.len());
    assert_eq!(
        bits_of(&decode_stream_f32(&sbest).unwrap()),
        bits_of(&stereo)
    );
}

#[test]
fn float_special_values_round_trip_through_a_block() {
    let pcm = [
        0.0f32,
        -0.0,
        f32::INFINITY,
        f32::NEG_INFINITY,
        f32::from_bits(0x7f95_5555),
        f32::from_bits(0xffc0_0001),
        f32::from_bits(0x0000_0123),
        f32::MIN_POSITIVE,
        1.0,
        -1.0e-30,
        0.5,
    ];
    let block = encode_block_mono_float(&bits_of(&pcm), 0, pcm.len() as u32).unwrap();
    let decoded = decode_stream_f32(&block).unwrap();
    assert_eq!(bits_of(&decoded), bits_of(&pcm));
    let (parsed, _) = parse_block(&block).unwrap();
    assert!(parsed.verify_decoded_crc().unwrap());
}

#[test]
fn float_stream_chunks_round_trip() {
    let pcm = float_signal(1000);
    let wv = encode_stream_mono_float(&bits_of(&pcm), 256, DecorrProfile::Normal).unwrap();
    assert_eq!(audio_block_count(&wv).unwrap(), 4);
    assert_eq!(
        bits_of(&decode_stream_f32(&wv).unwrap()),
        bits_of(&pcm)
    );
    let (_, all_ok) = decode_stream_muted(&wv).unwrap();
    assert!(all_ok, "every chunk passes both CRC gates");

    let stereo: Vec<f32> = pcm.iter().flat_map(|&s| [s, s * -0.25]).collect();
    let wv = encode_stream_stereo_float(&bits_of(&stereo), 300, DecorrProfile::Normal).unwrap();
    assert_eq!(
        bits_of(&decode_stream_f32(&wv).unwrap()),
        bits_of(&stereo)
    );
}

#[test]
fn float_extension_crc_corruption_trips_the_mute_gate() {
    let pcm = float_signal(300);
    let block = encode_block_mono_float(&bits_of(&pcm), 0, 300).unwrap();
    let (_, ok) = parse_block(&block)
        .unwrap()
        .0
        .decode_samples_muted()
        .unwrap();
    assert!(ok);

    let mut broken = block.clone();
    let pos = broken.len() - 3;
    broken[pos] ^= 0x40;
    let parsed = parse_block(&broken).unwrap().0;
    if let Ok((muted, ok)) = parsed.decode_samples_muted() {
        if !ok {
            assert!(muted.iter().all(|&s| s == 0), "muted buffer is zeroed");
        }
    }
}

fn int32_signal(n: usize) -> Vec<i32> {
    splitmix(0xfeed, n).iter().map(|&r| r as i32).collect()
}

#[test]
fn int32_mono_block_round_trips_full_range() {
    let pcm = int32_signal(400);
    let block = encode_block_mono_int32(&pcm, 0, 400).unwrap();
    assert_eq!(decode_stream(&block).unwrap(), pcm);
    let (parsed, _) = parse_block(&block).unwrap();
    assert!(parsed.flags().int32_mode);
    assert!(parsed.verify_decoded_crc().unwrap());
}

#[test]
fn int32_stereo_block_round_trips_full_range() {
    let pcm: Vec<i32> = int32_signal(300)
        .iter()
        .flat_map(|&v| [v, v.wrapping_mul(3) ^ 0x55])
        .collect();
    let block = encode_block_stereo_int32(&pcm, 0, 300).unwrap();
    assert_eq!(decode_stream(&block).unwrap(), pcm);
    assert!(parse_block(&block)
        .unwrap()
        .0
        .verify_decoded_crc()
        .unwrap());
}

#[test]
fn int32_trailing_zero_profile_needs_no_extension() {
    let pcm: Vec<i32> = int32_signal(300).iter().map(|&v| (v >> 8) << 8).collect();
    let block = encode_block_mono_int32(&pcm, 0, 300).unwrap();
    assert_eq!(decode_stream(&block).unwrap(), pcm);
    let (parsed, _) = parse_block(&block).unwrap();
    assert!(!parsed.has_packed_overflow_bits());
}

#[test]
fn int32_best_search_round_trips() {
    let mut acc = 0i64;
    let pcm: Vec<i32> = splitmix(0xabc, 500)
        .iter()
        .map(|&r| {
            acc += (r >> 48) << 9;
            acc as i32
        })
        .collect();
    let raw = encode_block_mono_int32(&pcm, 0, 500).unwrap();
    let best = encode_block_mono_int32_best(&pcm, DecorrProfile::High, 0, 500).unwrap();
    assert!(best.len() <= raw.len());
    assert_eq!(decode_stream(&best).unwrap(), pcm);

    let stereo: Vec<i32> = pcm.iter().flat_map(|&v| [v, v ^ 0xFF]).collect();
    let sbest = encode_block_stereo_int32_best(&stereo, DecorrProfile::High, 0, 500).unwrap();
    assert_eq!(decode_stream(&sbest).unwrap(), stereo);
}

#[test]
fn int32_stream_chunks_round_trip() {
    let pcm = int32_signal(900);
    let wv = encode_stream_mono_int32(&pcm, 256, DecorrProfile::Normal).unwrap();
    assert_eq!(decode_stream(&wv).unwrap(), pcm);
    let (_, all_ok) = decode_stream_muted(&wv).unwrap();
    assert!(all_ok);

    let stereo: Vec<i32> = pcm.iter().flat_map(|&v| [v, !v]).collect();
    let wv = encode_stream_stereo_int32(&stereo, 200, DecorrProfile::Normal).unwrap();
    assert_eq!(decode_stream(&wv).unwrap(), stereo);
}

#[test]
fn format_blocks_refuse_empty_and_odd_stereo() {
    assert_eq!(
        encode_block_mono_float(&bits_of(&[]), 0, 0),
        Err(Error::EncodeEmptyAudio)
    );
    assert_eq!(
        encode_block_stereo_float(&bits_of(&[1.0]), 0, 1),
        Err(Error::EncodeStereoOddLength(1))
    );
    assert_eq!(
        encode_block_mono_int32(&[], 0, 0),
        Err(Error::EncodeEmptyAudio)
    );
    assert_eq!(
        encode_block_stereo_int32(&[1], 0, 1),
        Err(Error::EncodeStereoOddLength(1))
    );
}
