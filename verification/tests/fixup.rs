//! Shifting samples up to the scale of their container.
use oxideav_wavpack::{apply_left_shift, apply_left_shift_buffer};

#[test]
fn zero_shift_is_identity() {
    for s in [-100_000i32, -1, 0, 1, 7, 100_000, i32::MIN, i32::MAX] {
        assert_eq!(apply_left_shift(s, 0), s);
    }
}

#[test]
fn shift_scales_by_power_of_two() {
    assert_eq!(apply_left_shift(5, 4), 80);
    assert_eq!(apply_left_shift(1, 1), 2);
    assert_eq!(apply_left_shift(3, 8), 768);
}

#[test]
fn shift_preserves_sign_for_in_range_values() {
    assert_eq!(apply_left_shift(-5, 4), -80);
    assert_eq!(apply_left_shift(-1, 1), -2);
    assert_eq!(apply_left_shift(-3, 8), -768);
}

#[test]
fn shift_is_inverse_of_encoder_right_shift() {
    for left_shift in 0u8..=12 {
        for original in [-8192i32, -64, 0, 64, 4096, 1_000_000] {
            let mask = !((1i32 << left_shift) - 1);
            let aligned = original & mask;
            let narrow = aligned >> left_shift;
            assert_eq!(apply_left_shift(narrow, left_shift), aligned);
        }
    }
}

#[test]
fn large_shift_wraps_instead_of_panicking() {
    let _ = apply_left_shift(1, 32);
    let _ = apply_left_shift(-1, 33);
    let _ = apply_left_shift(i32::MAX, 31);
}

#[test]
fn buffer_zero_shift_leaves_buffer_untouched() {
    let mut buf = [1i32, -2, 3, -4, 5];
    let original = buf;
    apply_left_shift_buffer(&mut buf, 0);
    assert_eq!(buf, original);
}

#[test]
fn buffer_applies_shift_to_every_element() {
    let mut buf = [1i32, -2, 3, -4, 5];
    apply_left_shift_buffer(&mut buf, 3);
    assert_eq!(buf, [8, -16, 24, -32, 40]);
}

#[test]
fn buffer_matches_per_element_application() {
    let original = [7i32, -11, 0, 123, -456, 789];
    let mut buf = original;
    apply_left_shift_buffer(&mut buf, 5);
    for (i, &o) in original.iter().enumerate() {
        assert_eq!(buf[i], apply_left_shift(o, 5));
    }
}

#[test]
fn empty_buffer_is_a_noop() {
    let mut buf: [i32; 0] = [];
    apply_left_shift_buffer(&mut buf, 7);
    assert_eq!(buf, [] as [i32; 0]);
}
