//! Metadata sub-blocks.
use oxideav_wavpack::{Error, ID_FLAG_LARGE_SIZE, ID_FLAG_ODD_SIZE, SubBlockFlags, SubBlockId, find_audio_payload, find_decorrelation_triple, find_entropy_info, find_first, find_hybrid_profile, find_md5_checksum_block, find_multichannel_info, find_noise_shaping_profile, find_non_standard_sample_rate, find_packed_correction_data, find_packed_correction_data_sub_block, find_packed_overflow_bits, find_packed_overflow_bits_sub_block, find_packed_samples, parse_md5_checksum, parse_metadata_sub_block, parse_non_standard_sample_rate, walk_metadata};

fn synth_small(id_byte: u8, payload: &[u8]) -> Vec<u8> {
    assert!(id_byte & ID_FLAG_LARGE_SIZE == 0);
    let mut on_wire_payload = payload.to_vec();

    if id_byte & ID_FLAG_ODD_SIZE != 0 {
        on_wire_payload.push(0);
    }
    assert!(on_wire_payload.len() % 2 == 0, "metadata is even-length");
    let words = on_wire_payload.len() / 2;
    assert!(words <= 0xFF, "use synth_large for >255-word payloads");
    let mut out = Vec::with_capacity(2 + on_wire_payload.len());
    out.push(id_byte);
    out.push(words as u8);
    out.extend_from_slice(&on_wire_payload);
    out
}

fn synth_large(id_byte: u8, payload: &[u8]) -> Vec<u8> {
    assert!(id_byte & ID_FLAG_LARGE_SIZE != 0);
    let mut on_wire_payload = payload.to_vec();
    if id_byte & ID_FLAG_ODD_SIZE != 0 {
        on_wire_payload.push(0);
    }
    assert!(on_wire_payload.len() % 2 == 0);
    let words = on_wire_payload.len() / 2;
    assert!(words <= 0xFF_FFFF);
    let mut out = Vec::with_capacity(4 + on_wire_payload.len());
    out.push(id_byte);
    out.push((words & 0xFF) as u8);
    out.push(((words >> 8) & 0xFF) as u8);
    out.push(((words >> 16) & 0xFF) as u8);
    out.extend_from_slice(&on_wire_payload);
    out
}

#[test]
fn id_byte_decoded_into_id_and_flags() {
    let f = SubBlockFlags::from_id_byte(0x02);
    assert!(!f.optional);
    assert!(!f.odd_size);
    assert!(!f.large_size);
    assert_eq!(
        SubBlockId::from_id_byte(0x02),
        SubBlockId::DecorrelationTerms
    );

    let f = SubBlockFlags::from_id_byte(0x20);
    assert!(f.optional);
    assert!(!f.odd_size);
    assert!(!f.large_size);
    assert_eq!(SubBlockId::from_id_byte(0x20), SubBlockId::RiffHeader);

    let f = SubBlockFlags::from_id_byte(0x66);
    assert!(f.optional);
    assert!(f.odd_size);
    assert!(!f.large_size);
    assert_eq!(SubBlockId::from_id_byte(0x66), SubBlockId::Md5Checksum);

    let f = SubBlockFlags::from_id_byte(0x82);
    assert!(!f.optional);
    assert!(!f.odd_size);
    assert!(f.large_size);
    assert_eq!(
        SubBlockId::from_id_byte(0x82),
        SubBlockId::DecorrelationTerms
    );
}

#[test]
fn documented_ids_round_trip_through_as_id_byte() {
    let ids: &[(u8, SubBlockId)] = &[
        (0x00, SubBlockId::Dummy),
        (0x02, SubBlockId::DecorrelationTerms),
        (0x03, SubBlockId::DecorrelationWeights),
        (0x04, SubBlockId::DecorrelationSamples),
        (0x05, SubBlockId::EntropyInfo),
        (0x06, SubBlockId::HybridProfile),
        (0x07, SubBlockId::NoiseShapingProfile),
        (0x08, SubBlockId::FloatInfo),
        (0x09, SubBlockId::Int32Info),
        (0x0A, SubBlockId::PackedSamples),
        (0x0B, SubBlockId::PackedCorrectionData),
        (0x0C, SubBlockId::PackedOverflowBits),
        (0x0D, SubBlockId::MultichannelInfo),
        (0x20, SubBlockId::RiffHeader),
        (0x21, SubBlockId::RiffTrailer),
        (0x25, SubBlockId::EncodingDetails),
        (0x26, SubBlockId::Md5Checksum),
        (0x27, SubBlockId::NonStandardSampleRate),
    ];
    for (raw, want) in ids {
        assert_eq!(SubBlockId::from_id_byte(*raw), *want);
        assert_eq!(want.as_id_byte(), *raw);
    }
}

#[test]
fn unlisted_id_numbers_fall_into_unknown() {
    assert_eq!(SubBlockId::from_id_byte(0x01), SubBlockId::Unknown(0x01));
    assert_eq!(SubBlockId::from_id_byte(0x0E), SubBlockId::Unknown(0x0E));
    assert_eq!(SubBlockId::from_id_byte(0x1F), SubBlockId::Unknown(0x1F));
    assert_eq!(SubBlockId::from_id_byte(0x22), SubBlockId::Unknown(0x22));
    assert_eq!(SubBlockId::from_id_byte(0x24), SubBlockId::Unknown(0x24));

    assert_eq!(
        SubBlockId::from_id_byte(0x44),
        SubBlockId::DecorrelationSamples
    );
}

#[test]
fn parses_small_decorrelation_terms_sub_block() {
    let wire = synth_small(0x02, &[0xAA, 0xBB]);
    let (sub, tail) = parse_metadata_sub_block(&wire).unwrap();
    assert_eq!(sub.id, SubBlockId::DecorrelationTerms);
    assert!(!sub.flags.optional);
    assert!(!sub.flags.odd_size);
    assert!(!sub.flags.large_size);
    assert_eq!(sub.size_words, 1);
    assert_eq!(sub.payload, &[0xAA, 0xBB]);
    assert!(tail.is_empty());
}

#[test]
fn parses_md5_checksum_sub_block() {
    let md5 = [0x11u8; 16];
    let wire = synth_small(0x26, &md5);
    let (sub, tail) = parse_metadata_sub_block(&wire).unwrap();
    assert_eq!(sub.id, SubBlockId::Md5Checksum);
    assert!(sub.flags.optional);
    assert_eq!(sub.size_words, 8);
    assert_eq!(sub.payload, &md5);
    assert!(tail.is_empty());
}

#[test]
fn parses_odd_size_sub_block_and_strips_padding() {
    let id_byte = 0x05 | ID_FLAG_ODD_SIZE;
    let wire = synth_small(id_byte, &[0xDE, 0xAD, 0xBE]);
    let (sub, tail) = parse_metadata_sub_block(&wire).unwrap();
    assert_eq!(sub.id, SubBlockId::EntropyInfo);
    assert!(sub.flags.odd_size);
    assert_eq!(sub.size_words, 2);
    assert_eq!(sub.payload, &[0xDE, 0xAD, 0xBE]);
    assert!(tail.is_empty());
}

#[test]
fn parses_large_sub_block_with_3_byte_size_field() {
    let payload = vec![0x7A; 600];
    let id_byte = 0x0A | ID_FLAG_LARGE_SIZE;
    let wire = synth_large(id_byte, &payload);
    let (sub, tail) = parse_metadata_sub_block(&wire).unwrap();
    assert_eq!(sub.id, SubBlockId::PackedSamples);
    assert!(sub.flags.large_size);
    assert!(!sub.flags.odd_size);
    assert_eq!(sub.size_words, 300);
    assert_eq!(sub.payload, &payload[..]);
    assert!(tail.is_empty());
}

#[test]
fn parses_large_odd_sub_block_strips_padding() {
    let payload = vec![0x42; 601];
    let id_byte = 0x0A | ID_FLAG_LARGE_SIZE | ID_FLAG_ODD_SIZE;
    let wire = synth_large(id_byte, &payload);
    let (sub, tail) = parse_metadata_sub_block(&wire).unwrap();
    assert_eq!(sub.id, SubBlockId::PackedSamples);
    assert!(sub.flags.large_size);
    assert!(sub.flags.odd_size);
    assert_eq!(sub.size_words, 301);
    assert_eq!(sub.payload, &payload[..]);
    assert!(tail.is_empty());
}

#[test]
fn walks_back_to_back_sub_blocks_until_exhausted() {
    let mut stream = Vec::new();
    stream.extend(synth_small(0x02, &[0x01, 0x02]));
    stream.extend(synth_small(0x03, &[0x10, 0x20, 0x30, 0x40]));
    stream.extend(synth_small(0x26, &[0xAB; 16]));
    stream.extend(synth_small(0x00, &[]));

    let subs = walk_metadata(&stream).unwrap();
    assert_eq!(subs.len(), 4);
    assert_eq!(subs[0].id, SubBlockId::DecorrelationTerms);
    assert_eq!(subs[0].payload, &[0x01, 0x02]);
    assert_eq!(subs[1].id, SubBlockId::DecorrelationWeights);
    assert_eq!(subs[1].payload, &[0x10, 0x20, 0x30, 0x40]);
    assert_eq!(subs[2].id, SubBlockId::Md5Checksum);
    assert_eq!(subs[2].payload.len(), 16);
    assert_eq!(subs[3].id, SubBlockId::Dummy);
    assert!(subs[3].payload.is_empty());
}

#[test]
fn riff_wrapper_and_sample_rate_sub_blocks_decode() {
    let mut stream = Vec::new();
    stream.extend(synth_small(0x20, b"RIFF\x00\x00\x00\x00WAVEfmt "));
    stream.extend(synth_small(0x27, &96000u32.to_le_bytes()));
    let subs = walk_metadata(&stream).unwrap();
    assert_eq!(subs.len(), 2);
    assert_eq!(subs[0].id, SubBlockId::RiffHeader);
    assert!(subs[0].flags.optional);
    assert_eq!(subs[0].payload, b"RIFF\x00\x00\x00\x00WAVEfmt ");
    assert_eq!(subs[1].id, SubBlockId::NonStandardSampleRate);
    assert_eq!(subs[1].payload, &96000u32.to_le_bytes());
}

#[test]
fn unknown_id_is_walked_not_rejected() {
    let wire = synth_small(0x10, &[0xCA, 0xFE]);
    let (sub, tail) = parse_metadata_sub_block(&wire).unwrap();
    assert_eq!(sub.id, SubBlockId::Unknown(0x10));
    assert_eq!(sub.payload, &[0xCA, 0xFE]);
    assert!(tail.is_empty());
}

#[test]
fn truncated_inputs_are_reported() {
    assert_eq!(parse_metadata_sub_block(&[]), Err(Error::Truncated));

    assert_eq!(parse_metadata_sub_block(&[0x02]), Err(Error::Truncated));

    assert_eq!(
        parse_metadata_sub_block(&[0x82, 0x00]),
        Err(Error::Truncated)
    );
    assert_eq!(
        parse_metadata_sub_block(&[0x82, 0x00, 0x00]),
        Err(Error::Truncated)
    );

    assert_eq!(
        parse_metadata_sub_block(&[0x02, 0x01, 0xAA]),
        Err(Error::Truncated)
    );
}

#[test]
fn is_optional_mirrors_flag_bit() {
    let wire = synth_small(0x05, &[0x00, 0x00, 0x00, 0x00, 0x00, 0x00]);
    let (sub, _) = parse_metadata_sub_block(&wire).unwrap();
    assert!(!sub.is_optional());

    let wire = synth_small(0x25, b"oxideav-");
    let (sub, _) = parse_metadata_sub_block(&wire).unwrap();
    assert!(sub.is_optional());
}

#[test]
fn is_decorrelation_payload_covers_terms_weights_samples() {
    for id in [0x02u8, 0x03, 0x04] {
        let wire = synth_small(id, &[0u8; 2]);
        let (sub, _) = parse_metadata_sub_block(&wire).unwrap();
        assert!(
            sub.is_decorrelation_payload(),
            "id 0x{id:02x} should be a decorrelation payload"
        );
        assert!(!sub.is_audio_payload());
        assert!(!sub.is_correction_payload());
        assert!(!sub.is_riff_payload());
    }
}

#[test]
fn is_audio_payload_only_for_0x0a_packed_samples() {
    let wire = synth_small(0x0A, &[0u8; 2]);
    let (sub, _) = parse_metadata_sub_block(&wire).unwrap();
    assert!(sub.is_audio_payload());
    assert!(!sub.is_decorrelation_payload());
    assert!(!sub.is_correction_payload());
    assert!(!sub.is_riff_payload());

    let wire = synth_small(0x0B, &[0u8; 2]);
    let (sub, _) = parse_metadata_sub_block(&wire).unwrap();
    assert!(!sub.is_audio_payload());
}

#[test]
fn is_correction_payload_covers_noise_shaping_and_packed_correction() {
    for id in [0x07u8, 0x0B] {
        let wire = synth_small(id, &[0u8; 2]);
        let (sub, _) = parse_metadata_sub_block(&wire).unwrap();
        assert!(
            sub.is_correction_payload(),
            "id 0x{id:02x} should be a correction-stream payload"
        );
        assert!(!sub.is_audio_payload());
        assert!(!sub.is_decorrelation_payload());
    }
}

#[test]
fn is_riff_payload_covers_0x20_and_0x21() {
    for id in [0x20u8, 0x21] {
        let wire = synth_small(id, b"RIFF");
        let (sub, _) = parse_metadata_sub_block(&wire).unwrap();
        assert!(
            sub.is_riff_payload(),
            "id 0x{id:02x} should be a RIFF payload"
        );
        assert!(sub.is_optional());
    }

    let wire = synth_small(0x25, b"oxideav-");
    let (sub, _) = parse_metadata_sub_block(&wire).unwrap();
    assert!(!sub.is_riff_payload());
}

#[test]
fn sub_block_id_is_decorrelation_covers_terms_weights_samples() {
    for id in [
        SubBlockId::DecorrelationTerms,
        SubBlockId::DecorrelationWeights,
        SubBlockId::DecorrelationSamples,
    ] {
        assert!(id.is_decorrelation(), "{id:?} should be a decorrelation ID");
        assert!(!id.is_correction_stream());
        assert!(!id.is_riff_wrapper());
        assert!(!id.is_audio());
    }

    assert!(!SubBlockId::EntropyInfo.is_decorrelation());
}

#[test]
fn sub_block_id_is_correction_stream_covers_0x07_and_0x0b() {
    for id in [
        SubBlockId::NoiseShapingProfile,
        SubBlockId::PackedCorrectionData,
    ] {
        assert!(
            id.is_correction_stream(),
            "{id:?} should be correction-stream"
        );
        assert!(!id.is_audio());
        assert!(!id.is_decorrelation());
    }

    assert!(!SubBlockId::PackedSamples.is_correction_stream());
}

#[test]
fn sub_block_id_is_riff_wrapper_only_for_0x20_and_0x21() {
    assert!(SubBlockId::RiffHeader.is_riff_wrapper());
    assert!(SubBlockId::RiffTrailer.is_riff_wrapper());

    assert!(!SubBlockId::EncodingDetails.is_riff_wrapper());
    assert!(!SubBlockId::Md5Checksum.is_riff_wrapper());
    assert!(!SubBlockId::NonStandardSampleRate.is_riff_wrapper());

    assert!(!SubBlockId::Dummy.is_riff_wrapper());
}

#[test]
fn sub_block_id_is_audio_only_for_packed_samples() {
    assert!(SubBlockId::PackedSamples.is_audio());

    assert!(!SubBlockId::PackedCorrectionData.is_audio());
    assert!(!SubBlockId::PackedOverflowBits.is_audio());
    assert!(!SubBlockId::EntropyInfo.is_audio());
}

fn parse_non_main_bucket(id_byte: u8, payload: &[u8]) -> Vec<u8> {
    let wire = synth_small(id_byte, payload);
    let (sub, _) = parse_metadata_sub_block(&wire).unwrap();
    assert!(
        !sub.is_decorrelation_payload(),
        "id 0x{id_byte:02x} should not be decorrelation"
    );
    assert!(
        !sub.is_audio_payload(),
        "id 0x{id_byte:02x} should not be audio"
    );
    assert!(
        !sub.is_correction_payload(),
        "id 0x{id_byte:02x} should not be correction"
    );
    assert!(
        !sub.is_riff_payload(),
        "id 0x{id_byte:02x} should not be RIFF"
    );
    if id_byte != 0x26 {
        assert!(
            !sub.is_md5_payload(),
            "id 0x{id_byte:02x} should not be MD5"
        );
    }
    wire
}

#[test]
fn metadata_kind_predicates_one_hot() {
    let stub = [0u8; 2];

    let wire = parse_non_main_bucket(0x00, &[]);
    let (sub, _) = parse_metadata_sub_block(&wire).unwrap();
    assert!(sub.is_dummy_payload());

    let wire = parse_non_main_bucket(0x06, &stub);
    let (sub, _) = parse_metadata_sub_block(&wire).unwrap();
    assert!(sub.is_hybrid_profile_payload());

    let wire = parse_non_main_bucket(0x08, &stub);
    let (sub, _) = parse_metadata_sub_block(&wire).unwrap();
    assert!(sub.is_float_payload());

    let wire = parse_non_main_bucket(0x09, &stub);
    let (sub, _) = parse_metadata_sub_block(&wire).unwrap();
    assert!(sub.is_int32_payload());

    let wire = parse_non_main_bucket(0x0C, &stub);
    let (sub, _) = parse_metadata_sub_block(&wire).unwrap();
    assert!(sub.is_overflow_bits_payload());

    let wire = parse_non_main_bucket(0x0D, &stub);
    let (sub, _) = parse_metadata_sub_block(&wire).unwrap();
    assert!(sub.is_multichannel_info_payload());

    let wire = parse_non_main_bucket(0x25, &stub);
    let (sub, _) = parse_metadata_sub_block(&wire).unwrap();
    assert!(sub.is_encoding_details_payload());

    let wire = parse_non_main_bucket(0x27, &stub);
    let (sub, _) = parse_metadata_sub_block(&wire).unwrap();
    assert!(sub.is_sample_rate_payload());
}

#[test]
fn is_md5_payload_only_for_0x26() {
    let md5 = [0xABu8; 16];
    let wire = synth_small(0x26, &md5);
    let (sub, _) = parse_metadata_sub_block(&wire).unwrap();
    assert!(sub.is_md5_payload());
    assert!(sub.is_optional());

    let wire = synth_small(0x06, &[0u8; 2]);
    let (sub, _) = parse_metadata_sub_block(&wire).unwrap();
    assert!(!sub.is_md5_payload());
    assert!(sub.is_hybrid_profile_payload());
}

#[test]
fn is_dummy_payload_only_for_0x00() {
    let wire = synth_small(0x00, &[]);
    let (sub, _) = parse_metadata_sub_block(&wire).unwrap();
    assert!(sub.is_dummy_payload());
    assert!(!sub.is_riff_payload());

    let wire = synth_small(0x20, b"RIFF");
    let (sub, _) = parse_metadata_sub_block(&wire).unwrap();
    assert!(!sub.is_dummy_payload());
    assert!(sub.is_riff_payload());
}

#[test]
fn parse_md5_checksum_accepts_exact_16_bytes() {
    let digest = [
        0xD4u8, 0x1D, 0x8C, 0xD9, 0x8F, 0x00, 0xB2, 0x04, 0xE9, 0x80, 0x09, 0x98, 0xEC, 0xF8,
        0x42, 0x7E,
    ];
    let md5 = parse_md5_checksum(&digest).unwrap();
    assert_eq!(md5.as_bytes(), &digest);
    assert_eq!(md5.0, digest);
}

#[test]
fn parse_md5_checksum_rejects_other_lengths() {
    assert_eq!(parse_md5_checksum(&[]), Err(Error::Md5ChecksumLength(0)));

    assert_eq!(
        parse_md5_checksum(&[0u8; 15]),
        Err(Error::Md5ChecksumLength(15))
    );

    assert_eq!(
        parse_md5_checksum(&[0u8; 17]),
        Err(Error::Md5ChecksumLength(17))
    );

    assert_eq!(
        parse_md5_checksum(&[0u8; 64]),
        Err(Error::Md5ChecksumLength(64))
    );
}

#[test]
fn md5_checksum_round_trips_through_sub_block_payload() {
    let digest = [
        0x9Eu8, 0x10, 0x7D, 0x9D, 0x37, 0x2B, 0xB6, 0x82, 0x6B, 0xD8, 0x1D, 0x35, 0x42, 0xA4,
        0x19, 0xD6,
    ];
    let wire = synth_small(0x26, &digest);
    let (sub, _) = parse_metadata_sub_block(&wire).unwrap();
    assert!(sub.is_md5_payload());
    let md5 = parse_md5_checksum(sub.payload).unwrap();
    assert_eq!(md5.as_bytes(), &digest);
}

#[test]
fn parse_non_standard_sample_rate_reads_three_le_bytes() {
    assert_eq!(
        parse_non_standard_sample_rate(&[0x39, 0x30, 0x00]),
        Ok(12345)
    );
    assert_eq!(parse_non_standard_sample_rate(&[0x00, 0x00, 0x00]), Ok(0));
    assert_eq!(
        parse_non_standard_sample_rate(&[0xFF, 0xFF, 0xFF]),
        Ok(16_777_215)
    );
}

#[test]
fn parse_non_standard_sample_rate_rejects_wrong_lengths() {
    for n in [0usize, 1, 2, 4, 5, 8] {
        let payload = vec![0u8; n];
        assert_eq!(
            parse_non_standard_sample_rate(&payload),
            Err(Error::SampleRatePayloadLength(n)),
            "len {n}"
        );
    }
}

#[test]
fn find_non_standard_sample_rate_locates_0x27() {
    let mut stream = synth_small(0x05, &[0u8; 6]);

    stream.extend(synth_small(0x27 | ID_FLAG_ODD_SIZE, &[0x39, 0x30, 0x00]));
    let subs = walk_metadata(&stream).unwrap();
    let sub = find_non_standard_sample_rate(&subs).expect("0x27 present");
    assert!(sub.is_sample_rate_payload());
    assert_eq!(parse_non_standard_sample_rate(sub.payload), Ok(12345));

    let bare = synth_small(0x05, &[0u8; 6]);
    let subs = walk_metadata(&bare).unwrap();
    assert!(find_non_standard_sample_rate(&subs).is_none());
}

fn synth_full_stream() -> Vec<u8> {
    let mut stream = Vec::new();
    stream.extend(synth_small(0x02, &[0x01, 0x02]));
    stream.extend(synth_small(0x03, &[0x10, 0x20, 0x30, 0x40]));
    stream.extend(synth_small(0x04, &[0u8; 4]));
    stream.extend(synth_small(0x05, &[0u8; 6]));
    stream.extend(synth_small(0x0A, &[0xAA, 0xBB, 0xCC, 0xDD]));
    stream.extend(synth_small(0x0D, &[0x01, 0x02, 0x03, 0x04]));
    stream.extend(synth_small(0x26, &[0x42u8; 16]));
    stream
}

#[test]
fn find_first_returns_matching_sub_block() {
    let stream = synth_full_stream();
    let subs = walk_metadata(&stream).unwrap();

    let entropy = find_first(&subs, SubBlockId::EntropyInfo);
    assert!(entropy.is_some());
    assert_eq!(entropy.unwrap().id, SubBlockId::EntropyInfo);

    let missing = find_first(&subs, SubBlockId::HybridProfile);
    assert!(missing.is_none());
}

#[test]
fn find_audio_payload_returns_packed_samples_block() {
    let stream = synth_full_stream();
    let subs = walk_metadata(&stream).unwrap();
    let audio = find_audio_payload(&subs).expect("audio block present");
    assert_eq!(audio.id, SubBlockId::PackedSamples);
    assert_eq!(audio.payload, &[0xAA, 0xBB, 0xCC, 0xDD]);

    let mut without_audio = Vec::new();
    without_audio.extend(synth_small(0x02, &[0x01, 0x02]));
    without_audio.extend(synth_small(0x05, &[0u8; 6]));
    let subs = walk_metadata(&without_audio).unwrap();
    assert!(find_audio_payload(&subs).is_none());
}

#[test]
fn find_entropy_info_returns_0x05_block() {
    let stream = synth_full_stream();
    let subs = walk_metadata(&stream).unwrap();
    let entropy = find_entropy_info(&subs).expect("entropy block present");
    assert_eq!(entropy.id, SubBlockId::EntropyInfo);
    assert_eq!(entropy.payload.len(), 6);
}

#[test]
fn find_md5_checksum_block_returns_0x26_block() {
    let stream = synth_full_stream();
    let subs = walk_metadata(&stream).unwrap();
    let md5_block = find_md5_checksum_block(&subs).expect("md5 block present");
    assert_eq!(md5_block.id, SubBlockId::Md5Checksum);
    let md5 = parse_md5_checksum(md5_block.payload).unwrap();
    assert_eq!(md5.0, [0x42u8; 16]);
}

#[test]
fn find_multichannel_info_returns_0x0d_block() {
    let stream = synth_full_stream();
    let subs = walk_metadata(&stream).unwrap();
    let info = find_multichannel_info(&subs).expect("multichannel-info present");
    assert_eq!(info.id, SubBlockId::MultichannelInfo);
    assert_eq!(info.payload, &[0x01, 0x02, 0x03, 0x04]);
}

#[test]
fn find_decorrelation_triple_returns_terms_weights_samples_in_order() {
    let stream = synth_full_stream();
    let subs = walk_metadata(&stream).unwrap();
    let (terms, weights, samples) = find_decorrelation_triple(&subs).expect("triple present");
    assert_eq!(terms.id, SubBlockId::DecorrelationTerms);
    assert_eq!(weights.id, SubBlockId::DecorrelationWeights);
    assert_eq!(samples.id, SubBlockId::DecorrelationSamples);
    assert_eq!(terms.payload, &[0x01, 0x02]);
    assert_eq!(weights.payload, &[0x10, 0x20, 0x30, 0x40]);
    assert_eq!(samples.payload.len(), 4);
}

#[test]
fn find_decorrelation_triple_returns_none_when_any_id_is_missing() {
    let mut stream = Vec::new();
    stream.extend(synth_small(0x02, &[0x01, 0x02]));

    stream.extend(synth_small(0x04, &[0u8; 4]));
    let subs = walk_metadata(&stream).unwrap();
    assert!(find_decorrelation_triple(&subs).is_none());

    let mut stream = Vec::new();
    stream.extend(synth_small(0x02, &[0x01, 0x02]));
    stream.extend(synth_small(0x03, &[0x10, 0x20, 0x30, 0x40]));

    let subs = walk_metadata(&stream).unwrap();
    assert!(find_decorrelation_triple(&subs).is_none());
}

#[test]
fn odd_flag_with_zero_word_payload_is_invalid() {
    let wire = [0x02 | ID_FLAG_ODD_SIZE, 0x00];
    assert_eq!(
        parse_metadata_sub_block(&wire),
        Err(Error::MetadataOddSizeWithoutPayload)
    );
}

#[test]
fn find_packed_samples_returns_typed_view_over_audio_payload() {
    let stream = synth_full_stream();
    let subs = walk_metadata(&stream).unwrap();
    let ps = find_packed_samples(&subs).expect("packed samples present");

    assert_eq!(ps.bytes(), &[0xAA, 0xBB, 0xCC, 0xDD]);
    assert_eq!(ps.len(), 4);
    assert!(!ps.is_empty());
}

#[test]
fn find_packed_samples_returns_none_when_no_audio_block() {
    let mut stream = Vec::new();
    stream.extend(synth_small(0x05, &[0u8; 6]));
    let subs = walk_metadata(&stream).unwrap();
    assert!(find_packed_samples(&subs).is_none());
}

#[test]
fn find_packed_correction_data_typed_view_returns_view_when_0x0b_present() {
    let mut stream = Vec::new();
    stream.extend(synth_small(0x05, &[0u8; 6]));
    stream.extend(synth_small(0x0A, &[0x00, 0x00]));
    stream.extend(synth_small(0x0B, &[0xAA, 0xBB, 0xCC, 0xDD]));
    let subs = walk_metadata(&stream).unwrap();
    let view = find_packed_correction_data(&subs).expect("0x0B present");
    assert_eq!(view.bytes(), &[0xAA, 0xBB, 0xCC, 0xDD]);
    assert_eq!(view.len(), 4);
}

#[test]
fn find_packed_correction_data_typed_view_returns_none_when_0x0b_absent() {
    let mut stream = Vec::new();
    stream.extend(synth_small(0x05, &[0u8; 6]));
    stream.extend(synth_small(0x0A, &[0x00, 0x00]));
    let subs = walk_metadata(&stream).unwrap();
    assert!(find_packed_correction_data(&subs).is_none());
}

#[test]
fn find_packed_correction_data_sub_block_returns_metadata_borrow() {
    let mut stream = Vec::new();
    stream.extend(synth_small(0x05, &[0u8; 6]));
    stream.extend(synth_small(0x0B, &[0x11, 0x22]));
    let subs = walk_metadata(&stream).unwrap();
    let sub = find_packed_correction_data_sub_block(&subs).expect("0x0B");
    assert_eq!(sub.id, SubBlockId::PackedCorrectionData);
    assert_eq!(sub.payload, &[0x11, 0x22]);
}

#[test]
fn find_noise_shaping_profile_returns_metadata_borrow_when_0x07_present() {
    let mut stream = Vec::new();
    stream.extend(synth_small(0x05, &[0u8; 6]));
    stream.extend(synth_small(0x07, &[0x33, 0x44]));
    let subs = walk_metadata(&stream).unwrap();
    let sub = find_noise_shaping_profile(&subs).expect("0x07");
    assert_eq!(sub.id, SubBlockId::NoiseShapingProfile);
    assert_eq!(sub.payload, &[0x33, 0x44]);
}

#[test]
fn find_noise_shaping_profile_returns_none_when_0x07_absent() {
    let mut stream = Vec::new();
    stream.extend(synth_small(0x05, &[0u8; 6]));
    let subs = walk_metadata(&stream).unwrap();
    assert!(find_noise_shaping_profile(&subs).is_none());
}

#[test]
fn find_hybrid_profile_returns_metadata_borrow_when_0x06_present() {
    let mut stream = Vec::new();
    stream.extend(synth_small(0x05, &[0u8; 6]));
    stream.extend(synth_small(0x06, &[0x55, 0x66]));
    let subs = walk_metadata(&stream).unwrap();
    let sub = find_hybrid_profile(&subs).expect("0x06");
    assert_eq!(sub.id, SubBlockId::HybridProfile);
    assert_eq!(sub.payload, &[0x55, 0x66]);
}

#[test]
fn find_hybrid_profile_returns_none_when_0x06_absent() {
    let mut stream = Vec::new();
    stream.extend(synth_small(0x05, &[0u8; 6]));
    let subs = walk_metadata(&stream).unwrap();
    assert!(find_hybrid_profile(&subs).is_none());
}

#[test]
fn find_packed_overflow_bits_typed_view_returns_view_when_0x0c_present() {
    let mut stream = Vec::new();
    stream.extend(synth_small(0x05, &[0u8; 6]));
    stream.extend(synth_small(0x0A, &[0x00, 0x00]));
    stream.extend(synth_small(0x0C, &[0x77, 0x88, 0x99, 0xAA]));
    let subs = walk_metadata(&stream).unwrap();
    let view = find_packed_overflow_bits(&subs).expect("0x0C present");
    assert_eq!(view.bytes(), &[0x77, 0x88, 0x99, 0xAA]);
    assert_eq!(view.len(), 4);
}

#[test]
fn find_packed_overflow_bits_typed_view_returns_none_when_0x0c_absent() {
    let mut stream = Vec::new();
    stream.extend(synth_small(0x05, &[0u8; 6]));
    stream.extend(synth_small(0x0A, &[0x00, 0x00]));
    let subs = walk_metadata(&stream).unwrap();
    assert!(find_packed_overflow_bits(&subs).is_none());
}

#[test]
fn find_packed_overflow_bits_sub_block_returns_metadata_borrow() {
    let mut stream = Vec::new();
    stream.extend(synth_small(0x05, &[0u8; 6]));
    stream.extend(synth_small(0x0C, &[0x33, 0x44]));
    let subs = walk_metadata(&stream).unwrap();
    let sub = find_packed_overflow_bits_sub_block(&subs).expect("0x0C");
    assert_eq!(sub.id, SubBlockId::PackedOverflowBits);
    assert_eq!(sub.payload, &[0x33, 0x44]);
}

#[test]
fn find_packed_overflow_bits_sub_block_returns_none_when_0x0c_absent() {
    let mut stream = Vec::new();
    stream.extend(synth_small(0x05, &[0u8; 6]));
    let subs = walk_metadata(&stream).unwrap();
    assert!(find_packed_overflow_bits_sub_block(&subs).is_none());
}
