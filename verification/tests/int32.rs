//! Wide integers.
use oxideav_wavpack::int32::INT32_TARGET_MAGNITUDE_BITS;
use oxideav_wavpack::{BitReader, Error, ExtensionCrc, Int32Info, deconstruct_int32, expand_int32_info, reassemble_int32};

#[test]
fn int32_expand_reads_the_four_wire_fields() {
    let info = expand_int32_info(&[7, 0, 0, 0]).unwrap();
    assert_eq!(
        info,
        Int32Info {
            sent_bits: 7,
            zeros: 0,
            ones: 0,
            dups: 0
        }
    );
    assert!(info.requires_extension());
    assert_eq!(info.total_shift(), 7);

    let info = expand_int32_info(&[0, 8, 0, 0]).unwrap();
    assert_eq!(info.zeros, 8);
    assert!(!info.requires_extension());
    assert_eq!(info.redundancy_bits(), 8);
    assert_eq!(info.total_shift(), 8);
}

#[test]
fn int32_expand_rejects_wrong_lengths() {
    for n in [0usize, 1, 2, 3, 5, 8] {
        let payload = vec![0u8; n];
        assert_eq!(
            expand_int32_info(&payload),
            Err(Error::Int32InfoLength(n)),
            "len {n}"
        );
    }
}

#[test]
fn expand_rejects_conflicting_redundancy_fields() {
    assert_eq!(
        expand_int32_info(&[0, 4, 2, 0]),
        Err(Error::Int32InfoConflict {
            zeros: 4,
            ones: 2,
            dups: 0
        })
    );
    assert_eq!(
        expand_int32_info(&[3, 0, 1, 1]),
        Err(Error::Int32InfoConflict {
            zeros: 0,
            ones: 1,
            dups: 1
        })
    );
}

#[test]
fn zeros_reinsertion_appends_zero_bits() {
    let info = expand_int32_info(&[0, 8, 0, 0]).unwrap();
    assert_eq!(info.reinsert_redundancy(1), 256);
    assert_eq!(info.reinsert_redundancy(-1), -256);
    assert_eq!(info.reinsert_redundancy(0), 0);
}

#[test]
fn ones_reinsertion_appends_one_bits() {
    let info = expand_int32_info(&[0, 0, 4, 0]).unwrap();

    assert_eq!(info.reinsert_redundancy(1), 0x1F);
    assert_eq!(info.reinsert_redundancy(0), 0x0F);

    assert_eq!(info.reinsert_redundancy(-1), -1);
}

#[test]
fn dups_reinsertion_copies_the_low_bit() {
    let info = expand_int32_info(&[0, 0, 0, 3]).unwrap();

    assert_eq!(info.reinsert_redundancy(0b101), 0b101_111);

    assert_eq!(info.reinsert_redundancy(0b100), 0b100_000);
    assert_eq!(info.reinsert_redundancy(0), 0);
    assert_eq!(info.reinsert_redundancy(-1), -1);
    assert_eq!(info.reinsert_redundancy(-2), -16);
}

#[test]
fn reassemble_reads_sent_bits_lsb_first_per_sample() {
    let info = expand_int32_info(&[4, 0, 0, 0]).unwrap();
    let ext_bytes = [0x3Au8];
    let mut reader = BitReader::new(&ext_bytes);
    let mut pcm = [1i32, -1];
    let crc = reassemble_int32(&mut pcm, &info, Some(&mut reader)).unwrap();

    assert_eq!(pcm, [26, -13]);

    let mut expect = ExtensionCrc::new();
    expect.push(26);
    expect.push(-13);
    assert_eq!(crc, expect.value());
}

#[test]
fn reassemble_combines_sent_bits_and_redundancy() {
    let info = expand_int32_info(&[2, 3, 0, 0]).unwrap();
    let ext_bytes = [0b11u8];
    let mut reader = BitReader::new(&ext_bytes);
    let mut pcm = [1i32];
    reassemble_int32(&mut pcm, &info, Some(&mut reader)).unwrap();
    assert_eq!(pcm, [((1 << 2) | 0b11) << 3]);
}

#[test]
fn reassemble_without_extension_when_only_redundancy() {
    let info = expand_int32_info(&[0, 0, 0, 2]).unwrap();
    let mut pcm = [0b11i32, 0b10];
    let crc = reassemble_int32(&mut pcm, &info, None).unwrap();
    assert_eq!(pcm, [0b1111, 0b1000]);
    let mut expect = ExtensionCrc::new();
    expect.push(0b1111);
    expect.push(0b1000);
    assert_eq!(crc, expect.value());
}

#[test]
fn reassemble_requires_a_reader_when_bits_were_sent() {
    let info = expand_int32_info(&[4, 0, 0, 0]).unwrap();
    let mut pcm = [1i32];
    assert_eq!(
        reassemble_int32(&mut pcm, &info, None),
        Err(Error::BlockMissingOverflowBits)
    );
}

fn assert_deconstruction_round_trips(pcm: &[i32]) -> Int32Info {
    let d = deconstruct_int32(pcm);

    expand_int32_info(&[d.info.sent_bits, d.info.zeros, d.info.ones, d.info.dups]).unwrap();
    let mut slots = d.reduced.clone();
    match &d.extension {
        Some(payload) => {
            let stored = u32::from_le_bytes(payload[..4].try_into().unwrap());
            let mut reader = BitReader::new(&payload[4..]);
            let crc = reassemble_int32(&mut slots, &d.info, Some(&mut reader)).unwrap();
            assert_eq!(crc, stored, "crc_wvx must match the decoder's fold");
        }
        None => {
            reassemble_int32(&mut slots, &d.info, None).unwrap();
        }
    }
    assert_eq!(slots, pcm, "values must survive the round trip");
    d.info
}

fn splitmix(seed: u64, n: usize) -> Vec<i32> {
    let mut x = seed;
    (0..n)
        .map(|_| {
            x = x.wrapping_mul(0xd1342543de82ef95).wrapping_add(1);
            (x >> 32) as i32
        })
        .collect()
}

#[test]
fn deconstruct_full_range_uses_sent_bits() {
    let pcm = splitmix(7, 300);
    let info = assert_deconstruction_round_trips(&pcm);
    assert_eq!(info.redundancy_bits(), 0, "random data has no redundancy");
    assert_eq!(u32::from(info.sent_bits), 31 - INT32_TARGET_MAGNITUDE_BITS);
}

#[test]
fn deconstruct_trailing_zeros_are_free() {
    let pcm: Vec<i32> = splitmix(11, 300).iter().map(|&v| (v >> 16) << 8).collect();
    let info = assert_deconstruction_round_trips(&pcm);
    assert_eq!(info.zeros, 8);
    assert_eq!(info.sent_bits, 0);
    assert!(deconstruct_int32(&pcm).extension.is_none());
}

#[test]
fn deconstruct_trailing_ones_are_free() {
    let pcm: Vec<i32> = splitmix(13, 200)
        .iter()
        .map(|&v| ((v >> 16) << 4) | 0xF)
        .collect();
    let info = assert_deconstruction_round_trips(&pcm);
    assert_eq!(info.ones, 4);
    assert_eq!(info.sent_bits, 0);
}

#[test]
fn deconstruct_duplicated_low_bits_are_free() {
    let pcm: Vec<i32> = splitmix(17, 200)
        .iter()
        .map(|&v| {
            let hi = (v >> 16) << 4;
            if hi & 0x10 != 0 {
                hi | 0xF
            } else {
                hi
            }
        })
        .collect();
    let info = assert_deconstruction_round_trips(&pcm);
    assert!(
        info.dups >= 3,
        "dups {} should cover the low bits",
        info.dups
    );
    assert_eq!(info.sent_bits, 0);
}

#[test]
fn deconstruct_narrow_data_derives_the_zero_profile() {
    let pcm: Vec<i32> = splitmix(19, 100).iter().map(|&v| v >> 16).collect();
    let d = deconstruct_int32(&pcm);

    assert_eq!(d.info.sent_bits, 0);
    assert_deconstruction_round_trips(&pcm);
}

#[test]
fn deconstruct_extremes_round_trip() {
    let pcm = [i32::MIN, i32::MAX, 0, -1, 1, i32::MIN + 1, i32::MAX - 1];
    assert_deconstruction_round_trips(&pcm);
}

#[test]
fn deconstruct_all_zero_buffer_round_trips() {
    assert_deconstruction_round_trips(&[0i32; 64]);
}

#[test]
fn reassemble_propagates_extension_truncation() {
    let info = expand_int32_info(&[8, 0, 0, 0]).unwrap();
    let ext_bytes = [0xFFu8];
    let mut reader = BitReader::new(&ext_bytes);
    let mut pcm = [1i32, 2];
    assert_eq!(
        reassemble_int32(&mut pcm, &info, Some(&mut reader)),
        Err(Error::Truncated)
    );
}
