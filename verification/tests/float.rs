//! Floating-point samples.
use oxideav_wavpack::float::{FLOAT_EXCEPTIONS, FLOAT_NEG_ZEROS, FLOAT_SHIFT_ONES, FLOAT_SHIFT_SAME, FLOAT_SHIFT_SENT, FLOAT_ZEROS_SENT, update_float_extension};
use oxideav_wavpack::{BitReader, CRC_INIT, Error, FloatInfo, deconstruct_float, expand_float_info, reassemble_float};

fn bits_of(pcm: &[f32]) -> Vec<u32> {
    pcm.iter().map(|s| s.to_bits()).collect()
}

fn info(flags: u8, shift: u8, max_exp: u8, norm_exp: u8) -> FloatInfo {
    FloatInfo {
        float_flags: flags,
        float_shift: shift,
        float_max_exp: max_exp,
        float_norm_exp: norm_exp,
    }
}

#[test]
fn float_expand_reads_the_four_wire_fields() {
    let fi = expand_float_info(&[0x04, 9, 126, 127]).unwrap();
    assert_eq!(fi, info(0x04, 9, 126, 127));
    assert!(fi.requires_extension());
    assert!(fi.is_supported());
    let fi = expand_float_info(&[0, 9, 126, 127]).unwrap();
    assert!(!fi.requires_extension());
}

#[test]
fn float_expand_rejects_wrong_lengths() {
    for n in [0usize, 1, 2, 3, 5, 8] {
        let payload = vec![0u8; n];
        assert_eq!(
            expand_float_info(&payload),
            Err(Error::FloatInfoLength(n)),
            "len {n}"
        );
    }
}

#[test]
fn every_documented_flag_shape_is_supported() {
    for flags in [
        0,
        FLOAT_SHIFT_SAME,
        FLOAT_EXCEPTIONS,
        FLOAT_SHIFT_SENT | FLOAT_ZEROS_SENT | FLOAT_NEG_ZEROS | FLOAT_EXCEPTIONS,
    ] {
        assert!(info(flags, 0, 126, 127).is_supported(), "flags {flags:#x}");
    }

    assert!(info(FLOAT_SHIFT_SAME, 0, 126, 127).requires_extension());
    assert!(!info(FLOAT_EXCEPTIONS, 0, 126, 127).requires_extension());
}

#[test]
fn integer_valued_floats_reconstruct_without_an_extension_stream() {
    let fi = info(0, 9, 126, 127);

    let mut pcm = [16384i32, -16384, 8192, 0];
    reassemble_float(&mut pcm, &fi, None).unwrap();
    assert_eq!(f32::from_bits(pcm[0] as u32), 0.5);
    assert_eq!(f32::from_bits(pcm[1] as u32), -0.5);
    assert_eq!(f32::from_bits(pcm[2] as u32), 0.25);
    assert_eq!(pcm[3], 0, "implied zero is +0.0");
}

#[test]
fn shift_ones_fills_the_vacated_low_bits() {
    let fi = info(FLOAT_SHIFT_ONES, 0, 126, 127);
    let mut pcm = [1i32 << 20];
    reassemble_float(&mut pcm, &fi, None).unwrap();
    let bits = pcm[0] as u32;
    assert_eq!(bits & 0x7, 0x7, "low bits are ones");
    assert_eq!((bits >> 23) & 0xff, 123, "exponent 126 - 3");
}

#[test]
fn shift_sent_reads_the_vacated_bits_from_the_extension_stream() {
    let fi = info(FLOAT_SHIFT_SENT, 0, 126, 127);

    let ext_bytes = [0b101u8];
    let mut reader = BitReader::new(&ext_bytes);
    let mut pcm = [1i32 << 20];
    reassemble_float(&mut pcm, &fi, Some(&mut reader)).unwrap();
    let bits = pcm[0] as u32;
    assert_eq!(bits & 0x7, 0b101, "literal low bits");
}

#[test]
fn shift_sent_without_a_stream_is_refused() {
    let fi = info(FLOAT_SHIFT_SENT, 0, 126, 127);
    let mut pcm = [1i32 << 20];
    assert_eq!(
        reassemble_float(&mut pcm, &fi, None),
        Err(Error::BlockMissingOverflowBits)
    );
}

#[test]
fn zeros_sent_marker_bit_selects_a_zero_or_a_literal() {
    let fi = info(FLOAT_ZEROS_SENT | FLOAT_NEG_ZEROS, 0, 126, 127);

    let mut wire_bits = vec![0u8, 0, 0, 1, 1];

    for k in 0..23 {
        wire_bits.push(((0x123u32 >> k) & 1) as u8);
    }

    wire_bits.extend(std::iter::repeat_n(0u8, 9));
    let mut bytes = vec![0u8; wire_bits.len().div_ceil(8)];
    for (i, &b) in wire_bits.iter().enumerate() {
        bytes[i / 8] |= b << (i % 8);
    }
    let mut reader = BitReader::new(&bytes);
    let mut pcm = [0i32, 0, 0];
    reassemble_float(&mut pcm, &fi, Some(&mut reader)).unwrap();
    assert_eq!(pcm[0] as u32, 0, "+0.0");
    assert_eq!(pcm[1] as u32, 0x8000_0000, "-0.0");
    assert_eq!(pcm[2] as u32, 0x0000_0123, "literal denormal");
}

#[test]
fn zeros_without_neg_zeros_read_no_sign_bit() {
    let fi = info(FLOAT_ZEROS_SENT, 0, 126, 127);

    let bytes = [0b00u8];
    let mut reader = BitReader::new(&bytes);
    let mut pcm = [0i32, 0];
    reassemble_float(&mut pcm, &fi, Some(&mut reader)).unwrap();
    assert_eq!(pcm, [0, 0]);
    assert_eq!(reader.bits_consumed(), 2);
}

#[test]
fn shift_same_carrier_bit_selects_all_ones_or_all_zeros() {
    let fi = info(FLOAT_SHIFT_SAME, 0, 126, 127);

    let wire = [0b01u8];
    let mut reader = BitReader::new(&wire);
    let mut pcm = [1i32 << 20, 0, 1 << 22, 1 << 23];
    reassemble_float(&mut pcm, &fi, Some(&mut reader)).unwrap();
    assert_eq!(pcm[0] as u32 & 0x7, 0x7, "carrier 1 fills with ones");
    assert_eq!(pcm[1], 0, "zero sample is implied +0.0");
    assert_eq!(pcm[2] as u32 & 0x1, 0, "carrier 0 fills with zeros");
    assert_eq!((pcm[3] as u32 >> 23) & 0xFF, 126, "full-window sample");
    assert_eq!(
        reader.bits_consumed(),
        2,
        "exactly one bit per fillable sample"
    );
}

#[test]
fn shift_same_without_a_stream_is_refused() {
    let fi = info(FLOAT_SHIFT_SAME, 0, 126, 127);
    let mut pcm = [1i32 << 20];
    assert_eq!(
        reassemble_float(&mut pcm, &fi, None),
        Err(Error::BlockMissingOverflowBits)
    );
}

#[test]
fn exceptions_sentinel_reads_marker_and_nan_mantissa() {
    let fi = info(FLOAT_EXCEPTIONS, 0, 126, 127);

    let mut bits = vec![0u8, 0, 1];
    bits.extend((0..23).map(|k| ((0x155555u32 >> k) & 1) as u8));
    let mut bytes = vec![0u8; bits.len().div_ceil(8)];
    for (i, &b) in bits.iter().enumerate() {
        bytes[i / 8] |= b << (i % 8);
    }
    let mut reader = BitReader::new(&bytes);
    let mut pcm = [1i32 << 24, -(1i32 << 24), 1 << 24, 16384];
    reassemble_float(&mut pcm, &fi, Some(&mut reader)).unwrap();
    assert_eq!(pcm[0] as u32, 0x7F80_0000, "+infinity");
    assert_eq!(pcm[1] as u32, 0xFF80_0000, "-infinity (normal sign path)");
    assert_eq!(pcm[2] as u32, 0x7F95_5555, "NaN payload preserved");

    assert_eq!((pcm[3] as u32 >> 23) & 0xFF, 117, "finite exponent anchor");
}

#[test]
fn exceptions_respect_the_static_shift_in_the_sentinel() {
    let fi = info(FLOAT_EXCEPTIONS, 23, 126, 127);
    let bytes = [0b0u8];
    let mut reader = BitReader::new(&bytes);
    let mut pcm = [2i32];
    reassemble_float(&mut pcm, &fi, Some(&mut reader)).unwrap();
    assert_eq!(pcm[0] as u32, 0x7F80_0000);
}

#[test]
fn exception_without_a_stream_is_refused() {
    let fi = info(FLOAT_EXCEPTIONS, 0, 126, 127);
    let mut pcm = [1i32 << 24];
    assert_eq!(
        reassemble_float(&mut pcm, &fi, None),
        Err(Error::BlockMissingOverflowBits)
    );
}

#[test]
fn deep_overflow_is_still_refused_with_exceptions_set() {
    let fi = info(FLOAT_EXCEPTIONS, 0, 126, 127);
    let bytes = [0u8];
    let mut reader = BitReader::new(&bytes);
    let mut pcm = [1i32 << 26];
    assert_eq!(
        reassemble_float(&mut pcm, &fi, Some(&mut reader)),
        Err(Error::FloatMagnitudeOverflow(1u32 << 26))
    );
}

#[test]
fn magnitude_overflowing_the_mantissa_window_is_refused() {
    let fi = info(0, 9, 126, 127);
    let mut pcm = [1i32 << 22];
    assert_eq!(
        reassemble_float(&mut pcm, &fi, None),
        Err(Error::FloatMagnitudeOverflow((1u32 << 22) << 9))
    );
}

fn assert_deconstruction_round_trips(pcm: &[f32]) -> FloatInfo {
    let d = deconstruct_float(&bits_of(pcm));
    let mut slots = d.integers.clone();
    match &d.extension {
        Some(payload) => {
            let stored = u32::from_le_bytes(payload[..4].try_into().unwrap());
            let mut reader = BitReader::new(&payload[4..]);
            let crc = reassemble_float(&mut slots, &d.info, Some(&mut reader)).unwrap();
            assert_eq!(crc, stored, "crc_wvx must match the decoder's fold");
        }
        None => {
            reassemble_float(&mut slots, &d.info, None).unwrap();
        }
    }
    let got: Vec<u32> = slots.iter().map(|&s| s as u32).collect();
    let want: Vec<u32> = pcm.iter().map(|s| s.to_bits()).collect();
    assert_eq!(got, want, "bit patterns must survive the round trip");
    d.info
}

#[test]
fn deconstruct_integer_valued_floats_needs_no_extension() {
    let pcm = [0.5f32, -0.5, 0.25, 0.0, 0.125];
    let info = assert_deconstruction_round_trips(&pcm);
    assert_eq!(info.float_flags, 0);
    assert_eq!(info.float_max_exp, 126);
    assert!(deconstruct_float(&bits_of(&pcm)).extension.is_none());
}

#[test]
fn deconstruct_full_precision_floats_uses_shift_sent() {
    let mut pcm = Vec::new();
    let mut x = 0x9e3779b97f4a7c15u64;
    for _ in 0..200 {
        x = x.wrapping_mul(0xd1342543de82ef95).wrapping_add(1);
        let exp = 120 + ((x >> 58) as u32 & 7);
        let sign = ((x & 1) as u32) << 31;
        let bits = sign | (exp << 23) | ((x >> 40) as u32 & 0x007f_ffff);
        pcm.push(f32::from_bits(bits));
    }
    let info = assert_deconstruction_round_trips(&pcm);
    assert_eq!(info.float_flags & FLOAT_SHIFT_SENT, FLOAT_SHIFT_SENT);
}

#[test]
fn deconstruct_uniform_windows_uses_shift_same_with_raised_anchor() {
    let pcm = [
        0.5f32,
        0.25f32,
        f32::from_bits(0x3EFF_FFFF),
        -0.5f32,
        0.0f32,
    ];
    let info = assert_deconstruction_round_trips(&pcm);
    assert_eq!(info.float_flags & FLOAT_SHIFT_SAME, FLOAT_SHIFT_SAME);
    assert_eq!(info.float_max_exp, 127, "anchor one above the largest e");
}

#[test]
fn deconstruct_zeros_and_denormals_use_the_literal_path() {
    let pcm = [
        1.0f32,
        0.0,
        -0.0,
        f32::from_bits(0x0000_0123),
        f32::from_bits(0x8000_4567),
        1.0e-30,
    ];
    let info = assert_deconstruction_round_trips(&pcm);
    assert_eq!(
        info.float_flags & (FLOAT_ZEROS_SENT | FLOAT_NEG_ZEROS),
        FLOAT_ZEROS_SENT | FLOAT_NEG_ZEROS
    );
}

#[test]
fn deconstruct_exceptions_ride_the_sentinel() {
    let pcm = [
        f32::INFINITY,
        f32::NEG_INFINITY,
        f32::from_bits(0x7f95_5555),
        f32::from_bits(0xffc0_0001),
        0.75,
        -0.375,
    ];
    let info = assert_deconstruction_round_trips(&pcm);
    assert_eq!(info.float_flags & FLOAT_EXCEPTIONS, FLOAT_EXCEPTIONS);
}

#[test]
fn deconstruct_all_zero_buffer_is_trivial() {
    let pcm = [0.0f32; 16];
    let info = assert_deconstruction_round_trips(&pcm);
    assert_eq!(info.float_flags, 0);
    assert!(deconstruct_float(&bits_of(&pcm)).integers.iter().all(|&i| i == 0));
}

#[test]
fn deconstruct_common_trailing_zeros_become_float_shift() {
    let pcm: Vec<f32> = (1..=64).map(|k| k as f32 / 32768.0).collect();
    let info = assert_deconstruction_round_trips(&pcm);
    assert_eq!(info.float_flags, 0);
    assert!(info.float_shift > 0, "shared trailing zeros stripped");
}

#[test]
fn deconstruct_wide_dynamic_range_round_trips() {
    let pcm = [1.0e30f32, 1.0, 1.0e-30, -1.0e-38, 3.5e28, -7.0];
    let info = assert_deconstruction_round_trips(&pcm);
    assert_eq!(info.float_flags & FLOAT_ZEROS_SENT, FLOAT_ZEROS_SENT);
}

#[test]
fn crc_x_folds_mantissa_exponent_sign_triples() {
    let fi = info(0, 9, 126, 127);
    let mut pcm = [16384i32, -16384];
    let crc = reassemble_float(&mut pcm, &fi, None).unwrap();
    let mut expect = CRC_INIT;
    for bits in [0.5f32.to_bits(), (-0.5f32).to_bits()] {
        expect = update_float_extension(expect, bits);
    }
    assert_eq!(crc, expect);

    let base = update_float_extension(0, 0x3f40_0000);
    assert_eq!(update_float_extension(0, 0x3f40_0001).wrapping_sub(base), 9);
    assert_eq!(update_float_extension(0, 0x3fc0_0000).wrapping_sub(base), 3);
    assert_eq!(update_float_extension(0, 0xbf40_0000).wrapping_sub(base), 1);
}
