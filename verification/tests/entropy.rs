//! Entropy payloads.
use oxideav_wavpack::{EntropyInfo, Error, MONO_PAYLOAD_BYTES, STEREO_PAYLOAD_BYTES, expand_entropy};

fn median_word(mantissa: u8, exponent: u8) -> [u8; 2] {
    [mantissa, exponent]
}

#[test]
fn mono_payload_decodes_one_set_and_zeros_right() {
    let mut bytes = Vec::new();
    bytes.extend_from_slice(&median_word(0x10, 0x09));
    bytes.extend_from_slice(&median_word(0x20, 0x09));
    bytes.extend_from_slice(&median_word(0x40, 0x09));

    let info = expand_entropy(&bytes).unwrap();
    assert_eq!(info.medians_left, [16, 32, 64]);
    assert_eq!(info.medians_right, [0, 0, 0]);
    assert!(info.is_mono());
}

#[test]
fn stereo_payload_decodes_two_sets_in_left_then_right_order() {
    let mut bytes = Vec::new();

    bytes.extend_from_slice(&median_word(0x01, 0x09));
    bytes.extend_from_slice(&median_word(0x02, 0x09));
    bytes.extend_from_slice(&median_word(0x03, 0x09));

    bytes.extend_from_slice(&median_word(0x04, 0x09));
    bytes.extend_from_slice(&median_word(0x05, 0x09));
    bytes.extend_from_slice(&median_word(0x06, 0x09));

    let info = expand_entropy(&bytes).unwrap();
    assert_eq!(info.medians_left, [1, 2, 3]);
    assert_eq!(info.medians_right, [4, 5, 6]);
    assert!(!info.is_mono());
}

#[test]
fn stereo_payload_handles_negative_mantissa_via_sign_extension() {
    let mut bytes = Vec::new();

    bytes.extend_from_slice(&median_word(0xFF, 0x09));
    bytes.extend_from_slice(&median_word(0xFE, 0x09));
    bytes.extend_from_slice(&median_word(0xFD, 0x09));

    bytes.extend_from_slice(&median_word(0x07, 0x09));
    bytes.extend_from_slice(&median_word(0x08, 0x09));
    bytes.extend_from_slice(&median_word(0x09, 0x09));

    let info = expand_entropy(&bytes).unwrap();
    assert_eq!(info.medians_left, [-1, -2, -3]);
    assert_eq!(info.medians_right, [7, 8, 9]);
}

#[test]
fn log_pack_shift_left_branch_applies_to_medians() {
    let mut bytes = Vec::new();
    bytes.extend_from_slice(&median_word(0x04, 0x0B));
    bytes.extend_from_slice(&median_word(0x01, 0x0C));
    bytes.extend_from_slice(&median_word(0x02, 0x0A));

    let info = expand_entropy(&bytes).unwrap();
    assert_eq!(info.medians_left, [16, 8, 4]);
}

#[test]
fn log_pack_shift_right_branch_applies_to_medians() {
    let mut bytes = Vec::new();
    bytes.extend_from_slice(&median_word(0x40, 0x07));
    bytes.extend_from_slice(&median_word(0x20, 0x08));
    bytes.extend_from_slice(&median_word(0x10, 0x09));

    let info = expand_entropy(&bytes).unwrap();
    assert_eq!(info.medians_left, [16, 16, 16]);
}

#[test]
fn empty_payload_is_rejected() {
    let err = expand_entropy(&[]).unwrap_err();
    assert_eq!(err, Error::EntropyInfoLength(0));
}

#[test]
fn payload_short_of_mono_size_is_rejected() {
    let payload = [0u8; MONO_PAYLOAD_BYTES - 1];
    let err = expand_entropy(&payload).unwrap_err();
    assert_eq!(err, Error::EntropyInfoLength(MONO_PAYLOAD_BYTES - 1));
}

#[test]
fn payload_between_mono_and_stereo_is_rejected() {
    for n in (MONO_PAYLOAD_BYTES + 1)..STEREO_PAYLOAD_BYTES {
        let payload = vec![0u8; n];
        let err = expand_entropy(&payload).unwrap_err();
        assert_eq!(err, Error::EntropyInfoLength(n), "n = {n}");
    }
}

#[test]
fn payload_longer_than_stereo_size_is_rejected() {
    let payload = [0u8; STEREO_PAYLOAD_BYTES + 1];
    let err = expand_entropy(&payload).unwrap_err();
    assert_eq!(err, Error::EntropyInfoLength(STEREO_PAYLOAD_BYTES + 1));
}

#[test]
fn mono_helper_zeroes_right_set() {
    let info = EntropyInfo::mono([10, 20, 30]);
    assert_eq!(info.medians_left, [10, 20, 30]);
    assert_eq!(info.medians_right, [0, 0, 0]);
    assert!(info.is_mono());
}

#[test]
fn is_mono_returns_false_when_any_right_median_is_nonzero() {
    let info = EntropyInfo {
        medians_left: [0, 0, 0],
        medians_right: [0, 0, 1],
    };
    assert!(!info.is_mono());
}

#[test]
fn zero_word_decodes_to_zero_median() {
    let bytes = [0u8; STEREO_PAYLOAD_BYTES];
    let info = expand_entropy(&bytes).unwrap();
    assert_eq!(info.medians_left, [0, 0, 0]);
    assert_eq!(info.medians_right, [0, 0, 0]);

    assert!(info.is_mono());
}

#[test]
fn is_stereo_inverts_is_mono() {
    let mono = EntropyInfo::mono([1, 2, 3]);
    assert!(!mono.is_stereo());
    let stereo = EntropyInfo {
        medians_left: [1, 2, 3],
        medians_right: [4, 5, 6],
    };
    assert!(stereo.is_stereo());
}

#[test]
fn channels_returns_one_for_mono_two_for_stereo() {
    let mono = EntropyInfo::mono([1, 2, 3]);
    assert_eq!(mono.channels(), 1);
    let stereo = EntropyInfo {
        medians_left: [1, 2, 3],
        medians_right: [4, 5, 6],
    };
    assert_eq!(stereo.channels(), 2);
}

#[test]
fn medians_for_channel_yields_left_on_zero_and_right_on_one_for_stereo() {
    let stereo = EntropyInfo {
        medians_left: [10, 20, 30],
        medians_right: [40, 50, 60],
    };
    assert_eq!(stereo.medians_for_channel(0), Some([10, 20, 30]));
    assert_eq!(stereo.medians_for_channel(1), Some([40, 50, 60]));
}

#[test]
fn medians_for_channel_one_is_none_on_mono() {
    let mono = EntropyInfo::mono([7, 8, 9]);
    assert_eq!(mono.medians_for_channel(0), Some([7, 8, 9]));

    assert_eq!(mono.medians_for_channel(1), None);
}

#[test]
fn medians_for_channel_rejects_out_of_range_indices() {
    let stereo = EntropyInfo {
        medians_left: [1, 2, 3],
        medians_right: [4, 5, 6],
    };

    assert_eq!(stereo.medians_for_channel(2), None);
    assert_eq!(stereo.medians_for_channel(3), None);
    assert_eq!(stereo.medians_for_channel(255), None);
}

#[test]
fn stereo_helper_populates_both_sets() {
    let info = EntropyInfo::stereo([10, 20, 30], [40, 50, 60]);
    assert_eq!(info.medians_left, [10, 20, 30]);
    assert_eq!(info.medians_right, [40, 50, 60]);
    assert!(info.is_stereo());
    assert_eq!(info.channels(), 2);
}

#[test]
fn stereo_helper_matches_struct_literal() {
    let from_helper = EntropyInfo::stereo([1, 2, 3], [4, 5, 6]);
    let from_literal = EntropyInfo {
        medians_left: [1, 2, 3],
        medians_right: [4, 5, 6],
    };
    assert_eq!(from_helper, from_literal);
}

#[test]
fn stereo_helper_with_zero_right_reports_mono_by_content() {
    let info = EntropyInfo::stereo([1, 2, 3], [0, 0, 0]);
    assert!(info.is_mono());
    assert_eq!(info.channels(), 1);
}
