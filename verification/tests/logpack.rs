//! Log words.
use oxideav_wavpack::logpack::{EXP2_TABLE, LOG2_TABLE, MAX_LOG2_INPUT, MAX_LOG_WORD};
use oxideav_wavpack::{expand_log_word, pack_log_word, quantize_log_value, wp_exp2s, wp_log2};

#[test]
fn zero_log_word_is_canonical_zero_both_directions() {
    assert_eq!(wp_log2(0), 0);
    assert_eq!(wp_exp2s(0), 0);
    assert_eq!(expand_log_word(0, 0), 0);
    assert_eq!(pack_log_word(0), [0, 0]);
}

#[test]
fn exp2s_of_256_is_one() {
    assert_eq!(wp_exp2s(256), 1);
}

#[test]
fn worked_example_log2_of_1000() {
    assert_eq!(LOG2_TABLE[0xf4], 0xf7);
    assert_eq!(wp_log2(1000), 2807);
}

#[test]
fn worked_example_exp2s_of_2807() {
    assert_eq!(EXP2_TABLE[0xf7], 0xf4);
    assert_eq!(wp_exp2s(2807), 1000);
}

#[test]
fn exp2s_is_odd() {
    for l in [1, 255, 256, 257, 1000, 2807, 4096, MAX_LOG_WORD] {
        assert_eq!(wp_exp2s(-l), -wp_exp2s(l), "l = {l}");
    }

    assert_eq!(
        wp_exp2s(i32::from(i16::MIN)),
        wp_exp2s(32768).wrapping_neg()
    );
}

#[test]
fn table_anchor_bytes_match_the_staged_meta() {
    assert_eq!(
        &LOG2_TABLE[..8],
        &[0x00, 0x01, 0x03, 0x04, 0x06, 0x07, 0x09, 0x0a]
    );
    assert_eq!(LOG2_TABLE[255], 0xff);
    assert_eq!(
        &EXP2_TABLE[..8],
        &[0x00, 0x01, 0x01, 0x02, 0x03, 0x03, 0x04, 0x05]
    );
    assert_eq!(EXP2_TABLE[255], 0xff);
}

#[test]
fn tables_are_monotonic_non_decreasing() {
    for i in 1..256 {
        assert!(LOG2_TABLE[i] >= LOG2_TABLE[i - 1], "log2 at {i}");
        assert!(EXP2_TABLE[i] >= EXP2_TABLE[i - 1], "exp2 at {i}");
    }
}

#[test]
fn log2_result_is_monotonic_in_the_magnitude() {
    let mut prev = wp_log2(0);
    for v in 1..4096u32 {
        let cur = wp_log2(v);
        assert!(cur >= prev, "wp_log2 must be monotonic at {v}");
        prev = cur;
    }
}

#[test]
fn max_input_yields_max_log_word() {
    assert_eq!(wp_log2(MAX_LOG2_INPUT), MAX_LOG_WORD);
    assert_eq!(wp_log2(u32::MAX), MAX_LOG_WORD);
}

#[test]
fn round_trip_is_exact_for_small_magnitudes() {
    for v in 0..=114i32 {
        assert_eq!(wp_exp2s(wp_log2(v as u32)), v, "round trip at {v}");
        assert_eq!(quantize_log_value(v), v, "quantize at {v}");
        assert_eq!(quantize_log_value(-v), -v, "quantize at -{v}");
    }
    assert_eq!(quantize_log_value(115), 114);
    for v in 115..=4096i32 {
        let back = wp_exp2s(wp_log2(v as u32));
        assert!((back - v).abs() <= v / 100 + 3, "err at {v}: {back}");
    }
}

#[test]
fn round_trip_is_within_a_tenth_percent_across_the_range() {
    let mut v = 1u64;
    while v <= 0x7fff_ff00 {
        for probe in [v, v + v / 3, v + v / 2] {
            if probe > 0x7fff_ff00 {
                continue;
            }
            let back = wp_exp2s(wp_log2(probe as u32)) as i64 as f64;
            let orig = probe as f64;
            let rel = ((back - orig) / orig).abs();
            assert!(rel < 0.001, "rel err {rel} at {probe}");
        }
        v *= 2;
    }
}

#[test]
fn quantize_is_idempotent() {
    for v in [
        0i32,
        1,
        -1,
        100,
        -100,
        1000,
        65535,
        -65535,
        1 << 20,
        i32::MAX,
        i32::MIN + 1,
    ] {
        let q = quantize_log_value(v);
        assert_eq!(quantize_log_value(q), q, "idempotent at {v}");
    }
}

#[test]
fn pack_log_word_writes_sign_into_the_word() {
    assert_eq!(pack_log_word(1000), 2807i16.to_le_bytes());
    assert_eq!(pack_log_word(-1000), (-2807i16).to_le_bytes());
    assert_eq!(expand_log_word(0xf7, 0x0a), 1000);
    let [lo, hi] = (-2807i16).to_le_bytes();
    assert_eq!(expand_log_word(lo, hi), -1000);
}

#[test]
fn expand_log_word_sign_extends_the_wire_field() {
    let word = -256i16;
    let [lo, hi] = word.to_le_bytes();
    assert_eq!(expand_log_word(lo, hi), -1);
}

#[test]
fn log2_bit_length_integer_part() {
    assert_eq!(wp_log2(1) >> 8, 1);
    assert_eq!(wp_log2(2) >> 8, 2);
    assert_eq!(wp_log2(4) >> 8, 3);
    assert_eq!(wp_log2(255) >> 8, 8);
    assert_eq!(wp_log2(256) >> 8, 9);

    for k in 0..20 {
        assert_eq!(wp_log2(1 << k), (k + 1) << 8, "power 2^{k}");
    }
}

#[test]
fn exp2s_shift_pivot_behaviour() {
    assert_eq!(wp_exp2s(9 << 8), 0x100);
    assert_eq!(wp_exp2s(10 << 8), 0x200);
    assert_eq!(wp_exp2s(8 << 8), 0x80);
}

#[test]
fn max_log_word_expands_to_the_documented_max_magnitude() {
    assert_eq!(wp_exp2s(MAX_LOG_WORD) as u32, MAX_LOG2_INPUT);
}

#[test]
fn hostile_words_beyond_the_conformant_range_do_not_panic() {
    for l in [
        i32::from(i16::MAX),
        i32::from(i16::MIN),
        MAX_LOG_WORD + 1,
        0x7f00,
        -0x7f00,
    ] {
        let _ = wp_exp2s(l);
    }
}
