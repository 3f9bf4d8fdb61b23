//! Hybrid profiles, levels and shaping.
use oxideav_wavpack::hybrid::{CROSS_DECORR_FLAG, HYBRID_FLAG, HYBRID_SHAPE_FLAG, NEW_SHAPING_FLAG, flags_select_shaping, fold_correction_pre_decorrelation, fold_correction_pre_decorrelation_pair};
use oxideav_wavpack::{CorrectionFold, Error, HybridState, ShapingState, expand_hybrid_profile, fold_correction, fold_correction_pair, split_correction, wp_exp2s, wp_log2};

#[test]
fn shaping_seed_layouts_unpack_log_words() {
    let mut p = Vec::new();
    for w in [0i16, -6736, -3602] {
        p.extend_from_slice(&w.to_le_bytes());
    }
    let st = ShapingState::from_shaping_words(Some(&p), false);
    assert_eq!(st.error(0), 0);
    let mut probe = st;

    assert_eq!(probe.advance(0), 0, "zero error seed gives zero temp");

    let mut p = Vec::new();
    for w in [-1825i16, -6716, -1825, -6716] {
        p.extend_from_slice(&w.to_le_bytes());
    }
    let st = ShapingState::from_shaping_words(Some(&p), true);
    assert_eq!(st.error(0), -wp_exp2s(-1825));
    assert_eq!(st.error(0), 70, "negated log-packed error seed");
    assert_eq!(st.error(1), 70);
}

#[test]
fn shaping_absent_payload_is_the_raw_fold() {
    let mut st = ShapingState::from_shaping_words(None, false);
    for _ in 0..8 {
        assert_eq!(st.advance(0), 0);
        st.update(0, 123, 120, 0);

        assert_eq!(st.advance(0), 0);
    }
}

#[test]
fn shaping_advance_wraps_on_adversarial_seeds() {
    let mut st = ShapingState {
        error_a: i32::MIN,
        error_b: 5,
        acc_a: i32::MAX,
        acc_b: i32::MIN,
        delta_a: i32::MAX,
        delta_b: i32::MIN,
    };
    for _ in 0..8 {
        let t0 = st.advance(0);
        let t1 = st.advance(1);
        st.update(0, i32::MIN, i32::MAX, t0);
        st.update(1, i32::MAX, i32::MIN, t1);
    }

    let mut nudge = ShapingState {
        error_a: i32::MIN,
        error_b: 0,
        acc_a: i32::MIN,
        acc_b: 0,
        delta_a: 0,
        delta_b: 0,
    };
    let t = nudge.advance(0);

    assert!(t.unsigned_abs() < (i32::MIN).unsigned_abs());
}

#[test]
fn shaping_seed_expansion_accepts_every_log_word() {
    for w in i16::MIN..=i16::MAX {
        let b = w.to_le_bytes();
        let payload = [b[0], b[1], b[0], b[1], b[0], b[1]];
        let _ = ShapingState::from_shaping_words(Some(&payload), false);
        let _ = ShapingState::from_shaping_words(Some(&payload), true);
    }
}

#[test]
fn shaping_recurrence_matches_the_black_box_pins() {
    let mut p = Vec::new();
    for w in [0i16, -6736, -3602] {
        p.extend_from_slice(&w.to_le_bytes());
    }
    let mut st = ShapingState::from_shaping_words(Some(&p), false);

    st.update(0, 62, 0, 0);
    assert_eq!(st.advance(0), 39);
    st.update(0, -55, 0, 0);
    assert_eq!(st.advance(0), -34);
}

#[test]
fn shaping_unit_magnitude_nudge_caps_small_errors() {
    let mut p = Vec::new();

    for w in [0i16, -6806, 0] {
        p.extend_from_slice(&w.to_le_bytes());
    }
    let mut st = ShapingState::from_shaping_words(Some(&p), false);
    assert_eq!(wp_exp2s(-6806), -768 << 16);
    st.update(0, 1, 0, 0);
    assert_eq!(st.advance(0), 0, "unit error is inert");
    st.update(0, -1, 0, 0);
    assert_eq!(st.advance(0), 0);
    st.update(0, 2, 0, 0);
    assert_eq!(st.advance(0), 1, "capped strictly below |error|");
    st.update(0, 90, 0, 0);
    assert_eq!(st.advance(0), 68, "half products round away from zero");
}

#[test]
fn shaping_error_update_branches_on_weight_sign() {
    let mut p = Vec::new();
    for w in [0i16, 6806, 0] {
        p.extend_from_slice(&w.to_le_bytes());
    }
    let mut pos = ShapingState::from_shaping_words(Some(&p), false);
    pos.update(0, 100, 60, 7);
    assert_eq!(pos.error(0), 100 - 60 - 7);

    let mut p = Vec::new();
    for w in [0i16, -6806, 0] {
        p.extend_from_slice(&w.to_le_bytes());
    }
    let mut neg = ShapingState::from_shaping_words(Some(&p), false);
    neg.update(0, 100, 60, 7);
    assert_eq!(neg.error(0), 40);
}

#[test]
fn expand_mono_profile_reads_level_and_bitrate() {
    let p = expand_hybrid_profile(&[0x3f, 0x14, 0xc8, 0x01], false).unwrap();
    assert_eq!(p.level_words, [0x143f, 0]);
    assert_eq!(p.bitrate, 456);
    assert_eq!(p.balance, 0);
    assert!(!p.stereo);
}

#[test]
fn expand_stereo_profile_reads_levels_rate_and_balance() {
    let p =
        expand_hybrid_profile(&[0x12, 0x14, 0xe3, 0x13, 0xc8, 0x01, 0x00, 0x01], true).unwrap();
    assert_eq!(p.level_words, [0x1412, 0x13e3]);
    assert_eq!(p.bitrate, 456);
    assert_eq!(p.balance, 256);
    assert!(p.stereo);
}

#[test]
fn expand_rejects_shape_mismatched_lengths() {
    for (payload, stereo) in [
        (&[0u8; 4][..], true),
        (&[0u8; 8][..], false),
        (&[0u8; 2][..], false),
        (&[0u8; 6][..], true),
        (&[0u8; 0][..], false),
    ] {
        assert_eq!(
            expand_hybrid_profile(payload, stereo),
            Err(Error::HybridProfileLength(payload.len())),
            "len {} stereo {stereo}",
            payload.len()
        );
    }
}

#[test]
fn mono_state_seeds_and_derives_the_pinned_limit() {
    let p = expand_hybrid_profile(&[0x3f, 0x14, 0xc8, 0x01], false).unwrap();
    let state = HybridState::from_profile(&p);
    assert_eq!(state.slow_level(0), wp_exp2s(0x143f) as u32);
    assert_eq!(state.slow_level(0), 622_592);
    assert_eq!(state.frame_limits(), [210, 0]);
}

#[test]
fn update_applies_the_slow_level_recurrence() {
    let p = expand_hybrid_profile(&[0x3f, 0x14, 0xc8, 0x01], false).unwrap();
    let mut state = HybridState::from_profile(&p);
    let sl = state.slow_level(0);
    state.update(0, 1000);
    let expect = sl - ((sl + 128) >> 8) + wp_log2(1000) as u32;
    assert_eq!(state.slow_level(0), expect);

    let sl = state.slow_level(0);
    state.update(0, 0);
    assert_eq!(state.slow_level(0), sl - ((sl + 128) >> 8));
}

#[test]
fn update_signed_uses_the_complement_magnitude() {
    let p = expand_hybrid_profile(&[0x3f, 0x14, 0xc8, 0x01], false).unwrap();
    let mut a = HybridState::from_profile(&p);
    let mut b = HybridState::from_profile(&p);
    a.update_signed(0, -1000);
    b.update(0, 999);
    assert_eq!(a.slow_level(0), b.slow_level(0));
}

#[test]
fn stereo_limits_redistribute_around_the_balance_word() {
    let p =
        expand_hybrid_profile(&[0x12, 0x14, 0xe3, 0x13, 0xc8, 0x01, 0x00, 0x01], true).unwrap();
    let state = HybridState::from_profile(&p);
    let ema0 = ((state.slow_level(0) + 128) >> 8) as i32;
    let ema1 = ((state.slow_level(1) + 128) >> 8) as i32;
    let delta = (ema0 - ema1 - 256) >> 1;
    let expect0 = wp_exp2s(ema0 - delta - 456 + 256) as u32;
    let expect1 = wp_exp2s(ema1 + delta - 456 + 256) as u32;
    assert_eq!(state.frame_limits(), [expect0, expect1]);
}

#[test]
fn non_positive_limit_argument_means_lossless() {
    let p = expand_hybrid_profile(&[0x3f, 0x14, 0xff, 0x7f], false).unwrap();
    let state = HybridState::from_profile(&p);
    assert_eq!(state.frame_limits(), [0, 0]);
}

#[test]
fn negative_level_words_clamp_to_zero() {
    let p = expand_hybrid_profile(&[0x00, 0x80, 0x00, 0x00], false).unwrap();
    let state = HybridState::from_profile(&p);
    assert_eq!(state.slow_level(0), 0);
}

#[test]
fn flag_constants_match_spec_section_6() {
    assert_eq!(HYBRID_FLAG, 0x08);
    assert_eq!(CROSS_DECORR_FLAG, 0x20);
    assert_eq!(HYBRID_SHAPE_FLAG, 0x40);
    assert_eq!(NEW_SHAPING_FLAG, 0x2000_0000);
}

#[test]
fn fold_recovers_original_from_lossy_and_correction() {
    for original in [-1000i32, -7, -1, 0, 1, 5, 1000] {
        for lossy in [-2000i32, -3, 0, 4, 2000] {
            let correction = split_correction(original, lossy);
            assert_eq!(fold_correction(lossy, correction), original);
        }
    }
}

#[test]
fn fold_is_plain_addition() {
    assert_eq!(fold_correction(10, 3), 13);
    assert_eq!(fold_correction(10, -3), 7);
    assert_eq!(fold_correction(-10, 3), -7);
    assert_eq!(fold_correction(0, 0), 0);
}

#[test]
fn split_is_plain_subtraction() {
    assert_eq!(split_correction(13, 10), 3);
    assert_eq!(split_correction(7, 10), -3);
    assert_eq!(split_correction(0, 0), 0);
}

#[test]
fn zero_correction_is_the_identity() {
    for v in [-5i32, 0, 5, i32::MIN, i32::MAX] {
        assert_eq!(fold_correction(v, 0), v);
        assert_eq!(fold_correction_pre_decorrelation(v, 0), v);
    }
}

#[test]
fn fold_wraps_past_i32_bounds_like_the_decoder_register() {
    assert_eq!(fold_correction(i32::MAX, 1), i32::MIN);
    assert_eq!(fold_correction(i32::MIN, -1), i32::MAX);
}

#[test]
fn split_wraps_past_i32_bounds() {
    assert_eq!(split_correction(i32::MIN, 1), i32::MAX);
    assert_eq!(split_correction(i32::MAX, -1), i32::MIN);
}

#[test]
fn fold_and_split_round_trip_at_the_extremes() {
    for original in [i32::MIN, i32::MIN + 1, -1, 0, 1, i32::MAX - 1, i32::MAX] {
        for lossy in [i32::MIN, -1, 0, 1, i32::MAX] {
            let c = split_correction(original, lossy);
            assert_eq!(fold_correction(lossy, c), original);
        }
    }
}

#[test]
fn pre_decorrelation_fold_matches_post_arithmetic() {
    for a in [-100i32, -1, 0, 7, 100] {
        for b in [-50i32, 0, 3, 50] {
            assert_eq!(
                fold_correction_pre_decorrelation(a, b),
                fold_correction(a, b)
            );
        }
    }
}

#[test]
fn pair_fold_applies_per_channel() {
    let reconstructed = (10i32, -20i32);
    let correction = (3i32, 5i32);
    assert_eq!(fold_correction_pair(reconstructed, correction), (13, -15));
}

#[test]
fn pre_decorrelation_pair_fold_applies_per_channel() {
    let lossy = (100i32, -200i32);
    let correction = (-1i32, 2i32);
    assert_eq!(
        fold_correction_pre_decorrelation_pair(lossy, correction),
        (99, -198)
    );
}

#[test]
fn pair_fold_recovers_original_pair() {
    let original = (1234i32, -5678i32);
    let lossy = (1200i32, -5700i32);
    let correction = (
        split_correction(original.0, lossy.0),
        split_correction(original.1, lossy.1),
    );
    assert_eq!(fold_correction_pair(lossy, correction), original);
}

#[test]
fn shaping_detection_keys_on_the_shape_bits() {
    assert!(!flags_select_shaping(0));
    assert!(!flags_select_shaping(HYBRID_FLAG));
    assert!(!flags_select_shaping(CROSS_DECORR_FLAG));
    assert!(flags_select_shaping(HYBRID_SHAPE_FLAG));
    assert!(flags_select_shaping(NEW_SHAPING_FLAG));
    assert!(flags_select_shaping(HYBRID_SHAPE_FLAG | NEW_SHAPING_FLAG));

    assert!(flags_select_shaping(HYBRID_FLAG | HYBRID_SHAPE_FLAG));
}

#[test]
fn placement_defaults_to_post_decorrelation() {
    assert_eq!(
        CorrectionFold::from_flags(HYBRID_FLAG),
        CorrectionFold::PostDecorrelation
    );
    assert_eq!(
        CorrectionFold::from_flags(0),
        CorrectionFold::PostDecorrelation
    );
    assert!(CorrectionFold::from_flags(HYBRID_FLAG).is_supported_raw_fold());
}

#[test]
fn placement_selects_cross_for_cross_decorr() {
    assert_eq!(
        CorrectionFold::from_flags(HYBRID_FLAG | CROSS_DECORR_FLAG),
        CorrectionFold::PreDecorrelationCross
    );

    assert!(CorrectionFold::from_flags(HYBRID_FLAG | CROSS_DECORR_FLAG).is_supported_raw_fold());
}

#[test]
fn placement_selects_shaped_when_shaping_bits_set() {
    assert_eq!(
        CorrectionFold::from_flags(HYBRID_FLAG | HYBRID_SHAPE_FLAG),
        CorrectionFold::NoiseShaped
    );
    assert_eq!(
        CorrectionFold::from_flags(HYBRID_FLAG | NEW_SHAPING_FLAG),
        CorrectionFold::NoiseShaped
    );

    assert_eq!(
        CorrectionFold::from_flags(HYBRID_FLAG | CROSS_DECORR_FLAG | HYBRID_SHAPE_FLAG),
        CorrectionFold::NoiseShaped
    );
    assert!(
        !CorrectionFold::from_flags(HYBRID_FLAG | HYBRID_SHAPE_FLAG).is_supported_raw_fold()
    );
}
