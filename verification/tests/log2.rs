//! The logarithms that come from series.
use oxideav_wavpack::log2::{wp_exp2, wp_log2};

#[test]
fn exp2_zero_round_trips() {
    assert_eq!(wp_exp2(0), 0);
    assert_eq!(wp_log2(0), 0);
}

#[test]
fn exp2_log2_round_trip_powers_of_two() {
    for n in 0..16i32 {
        let v = 1i32 << n;
        let lg = wp_log2(v);
        let back = wp_exp2(lg);
        let tolerance = (v / 8).max(2);
        assert!(
            (back - v).abs() <= tolerance,
            "round-trip drift at v={v}: log2={lg} back={back}"
        );
    }
}

#[test]
fn exp2_log2_round_trip_negative() {
    for v in [-1, -10, -100, -1000, -10_000, -100_000].iter() {
        let lg = wp_log2(*v);
        let back = wp_exp2(lg);
        let tolerance = ((-*v) / 8).max(2);
        assert!(
            (back - *v).abs() <= tolerance,
            "round-trip drift at v={v}: log2={lg} back={back}"
        );
    }
}
