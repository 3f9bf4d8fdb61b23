//! The laws of the codec on concrete values.
use oxideav_wavpack::block_writer::{join_stereo, narrow_left_shift};
use oxideav_wavpack::derive::residual_cost;
use oxideav_wavpack::encode_limits::SAFE_MAGNITUDE;
use oxideav_wavpack::entropy::expand_sample_word;
use oxideav_wavpack::error::Result;
use oxideav_wavpack::float::{deconstruct_float_raised, reassemble_float_implied};
use oxideav_wavpack::int32::deconstruct_int32;
use oxideav_wavpack::log2;
use oxideav_wavpack::metadata::{append_sub_block, find_first, walk_metadata, SubBlockId};
use oxideav_wavpack::passes::{
    assemble_stereo_passes, expand_weight, pack_weight, quantize_weight, serialize_stereo_passes,
};
use oxideav_wavpack::samples::AdaptiveMedians;
use oxideav_wavpack::stream::patterns;
use oxideav_wavpack::{
    apply_left_shift, audio_block_count, crc_mono, crc_stereo_interleaved, decode_multichannel_stream,
    decode_packed_samples, decode_stream, decode_stream_muted, decode_stream_patterns,
    decode_stream_with_correction_muted, decode_stream_with_correction_patterns, derive_mono_passes_searched,
    derive_stereo_passes_iterated, detect_left_shift, encode_block_mono, encode_block_mono_auto,
    encode_block_mono_best, encode_block_mono_float, encode_block_mono_float_best, encode_block_mono_hybrid,
    encode_block_mono_hybrid_int32, encode_block_mono_int32, encode_block_mono_int32_best, encode_block_mono_searched,
    encode_block_mono_smallest, encode_block_stereo_best, encode_block_stereo_float, encode_block_stereo_float_best,
    encode_block_stereo_hybrid, encode_block_stereo_hybrid_float, encode_block_stereo_int32,
    encode_block_stereo_int32_best, encode_block_stereo_joint, encode_block_stereo_joint_auto,
    encode_multichannel_stream_at, encode_packed_samples, encode_stream_mono, encode_stream_mono_best,
    encode_stream_mono_float, encode_stream_mono_hybrid, encode_stream_mono_hybrid_float,
    encode_stream_mono_hybrid_int32, encode_stream_mono_int32, encode_stream_mono_smallest, encode_stream_stereo,
    encode_stream_stereo_best, encode_stream_stereo_float, encode_stream_stereo_hybrid,
    encode_stream_stereo_hybrid_float, encode_stream_stereo_hybrid_int32, encode_stream_stereo_int32,
    encode_stream_stereo_smallest, expand_log_word, fold_correction, forward_joint_stereo, pack_log_word, parse_block,
    parse_metadata_sub_block, quantize_log_value, set_stream_sample_rate, split_correction, stream_sample_rate,
    undo_joint_stereo, wp_exp2s, wp_log2, DecorrProfile, Error, HybridOptions, HybridShaping, StreamIndex,
};

fn noise(seed: u32, n: usize, bits: u32) -> Vec<i32> {
    let mut s = seed;
    (0..n)
        .map(|_| {
            s = s.wrapping_mul(1_664_525).wrapping_add(1_013_904_223);
            (s as i32) >> (32 - bits)
        })
        .collect()
}

fn ramp(n: i32) -> Vec<i32> {
    (0..n).map(|i| i * 11 - 900 + (i % 7)).collect()
}

fn holds(stream: Result<Vec<u8>>, pcm: &[i32]) {
    let bytes = stream.unwrap();
    assert_eq!(decode_stream(&bytes).unwrap(), pcm);
    assert_eq!(decode_stream_muted(&bytes).unwrap(), (pcm.to_vec(), true));
}

#[test]
fn rounding_to_log_words_twice_is_rounding_once() {
    let mut values: Vec<i32> = (-3000..3000).collect();
    values.extend(noise(1, 3000, 32));
    values.extend([i32::MAX, i32::MIN, i32::MIN + 1, 0x7fc0_0000, 0x7fbf_ffff]);
    for v in values {
        let q = quantize_log_value(v);
        assert_eq!(quantize_log_value(q), q, "{v}");
    }
    assert_eq!(quantize_log_value(i32::MAX), 0x7fc0_0000);
    assert_eq!(quantize_log_value(i32::MIN + 1), i32::MIN);
}

#[test]
fn the_largest_values_keep_their_sign() {
    assert_eq!(pack_log_word(i32::MAX), [0xFF, 0x1F]);
    assert_eq!(expand_log_word(0xFF, 0x1F), 0x7fc0_0000);
    assert_eq!(pack_log_word(i32::MIN), [0x00, 0xE0]);
    assert_eq!(expand_log_word(0x00, 0xE0), i32::MIN);
    assert_eq!(pack_log_word(0x7fc0_0000), [0xFF, 0x1F]);
}

#[test]
fn small_values_are_log_words_and_others_come_close() {
    for v in -114..=114 {
        assert_eq!(quantize_log_value(v), v);
    }
    assert_eq!(quantize_log_value(115), 114);
    assert_eq!(quantize_log_value(-115), -114);
    assert_eq!(quantize_log_value(3226), 3240);
    let mut values = noise(14, 4000, 32);
    values.extend(noise(15, 4000, 13));
    values.extend([i32::MAX, i32::MIN, i32::MIN + 1]);
    for v in values {
        let miss = (i64::from(quantize_log_value(v)) - i64::from(v)).abs();
        assert!(200 * miss <= i64::from(v).abs() + 200, "{v}");
        assert_eq!(quantize_log_value(v).signum(), v.signum(), "{v}");
    }
}

#[test]
fn logs_and_their_values_keep_order() {
    let mut sizes: Vec<u32> = noise(16, 4000, 32).iter().map(|&v| v as u32).collect();
    sizes.extend(0..3000);
    sizes.extend([0xff80_0000, u32::MAX]);
    sizes.sort_unstable();
    for w in sizes.windows(2) {
        assert!(wp_log2(w[0]) <= wp_log2(w[1]), "{} {}", w[0], w[1]);
    }
    assert_eq!((wp_log2(0), wp_log2(1), wp_log2(u32::MAX)), (0, 256, 8447));
    for l in 0..8191 {
        assert!(0 <= wp_exp2s(l) && wp_exp2s(l) <= wp_exp2s(l + 1), "{l}");
    }
    assert_eq!(wp_exp2s(8191), 0x7fc0_0000);
}

#[test]
fn tables_hold_rounded_values() {
    for i in 0..=255u8 {
        let x = f64::from(i) / 256.0;
        assert_eq!(f64::from(log2::log2_entry(i)), ((1.0 + x).log2() * 256.0).round(), "{i}");
        assert_eq!(f64::from(log2::exp2_entry(i)), (x.exp2() * 256.0).round() - 256.0, "{i}");
    }
    assert_eq!(log2::log2_entry(255), 255);
    assert_eq!(log2::exp2_entry(255), 255);
}

#[test]
fn short_mantissas_round_up_from_a_half() {
    assert_eq!(log2::wp_exp2(150), 2);
    assert_eq!(log2::wp_exp2(-150), -2);
    assert_eq!(log2::wp_exp2(149), 1);
    assert_eq!(log2::wp_exp2(1), 1);
    assert_eq!(log2::wp_exp2(256), 2);
    assert_eq!(log2::wp_exp2(2047), 256);
    assert_eq!(log2::wp_exp2(2048), 256);
    assert_eq!(log2::wp_exp2(2049), 257);
    assert_eq!(log2::wp_exp2(i16::MAX), i32::MAX);
    assert_eq!(log2::wp_log2(511), 2303);
    assert_eq!(log2::wp_log2(i32::MIN), -7936);
}

#[test]
fn log_words_of_the_other_sign_are_values_of_the_other_sign() {
    for l in 0..9000 {
        assert_eq!(wp_exp2s(-l), wp_exp2s(l).wrapping_neg());
    }
    assert_eq!(wp_log2(1000), 2807);
    assert_eq!(log2::wp_log2(-1000), -log2::wp_log2(1000));
    assert_eq!(log2::wp_exp2(-2560), -1024);
    assert_eq!(log2::wp_log2(1024), 2560);
    assert_eq!(log2::exp2_entry(128), 106);
    assert_eq!(log2::log2_entry(0), 0);
    assert_eq!(wp_exp2s(0), 0);
}

#[test]
fn weights_round_once() {
    for b in 0..=255u8 {
        let w = expand_weight(b);
        assert_eq!(quantize_weight(w), w);
        assert_eq!(expand_weight(pack_weight(w)), w);
    }
    assert_eq!(quantize_weight(5000), 1024);
    assert_eq!(quantize_weight(-5000), -1024);
}

#[test]
fn mid_and_side_come_apart_again() {
    let pcm = noise(3, 400, 32);
    let joint = join_stereo(&pcm);
    for (p, q) in pcm.chunks(2).zip(joint.chunks(2)) {
        assert_eq!(forward_joint_stereo(p[0], p[1]), (q[0], q[1]));
        assert_eq!(undo_joint_stereo(q[0], q[1]), (p[0], p[1]));
    }
}

#[test]
fn narrowed_samples_shift_back() {
    for k in 0..32u8 {
        let pcm: Vec<i32> = noise(4, 50, 32).iter().map(|&v| apply_left_shift(v, k)).collect();
        let narrow = narrow_left_shift(&pcm, k).unwrap();
        for (n, p) in narrow.iter().zip(&pcm) {
            assert_eq!(apply_left_shift(*n, k), *p);
        }
        assert!(detect_left_shift(&pcm) >= k.min(detect_left_shift(&pcm)));
    }
    assert_eq!(narrow_left_shift(&[8, 12], 3), Err(Error::EncodeLeftShiftLosesData(12)));
}

#[test]
fn corrections_fold_back() {
    for (a, b) in noise(5, 200, 32).into_iter().zip(noise(6, 200, 32)) {
        assert_eq!(fold_correction(b, split_correction(a, b)), a);
    }
}

#[test]
fn sub_blocks_read_back_and_are_even() {
    for n in [0usize, 1, 2, 509, 510, 511, 512, 70_001] {
        let payload: Vec<u8> = (0..n).map(|i| i as u8).collect();
        let mut out = Vec::new();
        append_sub_block(&mut out, 0x0A, &payload).unwrap();
        assert_eq!(out.len() % 2, 0);
        out.push(0xEE);
        let (sub, rest) = parse_metadata_sub_block(&out).unwrap();
        assert_eq!(sub.payload, &payload[..]);
        assert_eq!(rest, &[0xEE]);
    }
}

#[test]
fn chains_join_and_are_covered() {
    let mut a = Vec::new();
    append_sub_block(&mut a, 0x02, &[1, 2, 3]).unwrap();
    append_sub_block(&mut a, 0x25, &vec![7; 600]).unwrap();
    let mut b = Vec::new();
    append_sub_block(&mut b, 0x0A, &[4, 5]).unwrap();
    append_sub_block(&mut b, 0x02, &[6]).unwrap();
    let (xs, ys) = (walk_metadata(&a).unwrap(), walk_metadata(&b).unwrap());
    let joined = [a.clone(), b.clone()].concat();
    let both = walk_metadata(&joined).unwrap();
    assert_eq!(both[..2], xs[..]);
    assert_eq!(both[2..], ys[..]);
    let len: usize = both
        .iter()
        .map(|s| if s.flags.large_size { 4 } else { 2 } + 2 * s.size_words as usize)
        .sum();
    assert_eq!(len, joined.len());
    assert!(both[0].flags.odd_size && !both[0].flags.large_size && !both[0].flags.optional);
    assert!(both[1].flags.large_size && both[1].flags.optional && !both[1].flags.odd_size);
    assert_eq!(walk_metadata(&[a, vec![0x42, 0x00]].concat()), Err(Error::MetadataOddSizeWithoutPayload));
    assert_eq!(walk_metadata(&[]), Ok(Vec::new()));
    let first = find_first(&both, SubBlockId::DecorrelationTerms).unwrap();
    assert!(std::ptr::eq(first, &both[0]));
    assert_eq!(find_first(&both, SubBlockId::Dummy), None);
}

#[test]
fn packed_samples_read_back() {
    let zero = AdaptiveMedians::new([0, 0, 0]);
    let seeded = AdaptiveMedians::new([700, 900, 1100]);
    for stereo in [false, true] {
        for pcm in [noise(7, 300, 16), vec![0; 90], noise(8, 64, 2), ramp(200)] {
            let payload = encode_packed_samples(&pcm, stereo, zero, seeded).unwrap();
            assert_eq!(payload.len() % 2, 0);
            assert_eq!(decode_packed_samples(&payload, pcm.len(), stereo, zero, seeded).unwrap(), pcm);
        }
    }
}

#[test]
fn passes_read_back() {
    let pcm = ramp(400);
    for profile in [DecorrProfile::Fast, DecorrProfile::Normal, DecorrProfile::High, DecorrProfile::Extra] {
        let passes = derive_stereo_passes_iterated(&pcm, profile, 3).unwrap();
        let (t, w, s) = serialize_stereo_passes(&passes).unwrap();
        assert_eq!(assemble_stereo_passes(&t, &w, &s).unwrap(), passes);
    }
}

#[test]
fn every_stream_reads_back() {
    let pcm = noise(9, 700, 15);
    let p = DecorrProfile::Normal;
    holds(encode_stream_mono(&pcm, 123, 2), &pcm);
    holds(encode_stream_stereo(&pcm, 99, 2), &pcm);
    holds(encode_stream_mono_best(&pcm, 350, 2, p), &pcm);
    holds(encode_stream_stereo_best(&pcm, 200, 2, p), &pcm);
    holds(encode_stream_mono_smallest(&pcm[..200], 100, 2), &pcm[..200]);
    holds(encode_stream_stereo_smallest(&pcm[..200], 50, 2), &pcm[..200]);
    let wide = noise(10, 400, 32);
    holds(encode_stream_mono_int32(&wide, 150, p), &wide);
    holds(encode_stream_stereo_int32(&wide, 90, p), &wide);
    let bits = patterns(&wide);
    let wv = encode_stream_mono_float(&bits, 150, p).unwrap();
    assert_eq!(decode_stream_patterns(&wv).unwrap(), bits);
    let wv = encode_stream_stereo_float(&bits, 150, p).unwrap();
    assert_eq!(decode_stream_patterns(&wv).unwrap(), bits);
    holds(Ok(Vec::new()), &[]);
}

#[test]
fn streams_behind_one_another_decode_behind_one_another() {
    let a = noise(11, 90, 12);
    let b = ramp(70);
    let mut wv = encode_stream_mono(&a, 40, 2).unwrap();
    wv.extend(encode_stream_stereo(&b, 40, 2).unwrap());
    let both: Vec<i32> = a.iter().chain(&b).copied().collect();
    holds(Ok(wv), &both);
}

#[test]
fn a_broken_check_silences_its_block_alone() {
    let pcm = ramp(60);
    let mut wv = encode_stream_mono(&pcm, 20, 2).unwrap();
    wv[28] ^= 1;
    let (muted, ok) = decode_stream_muted(&wv).unwrap();
    assert!(!ok);
    assert_eq!(muted[..20], [0; 20]);
    assert_eq!(muted[20..], pcm[20..]);
    assert_eq!(decode_stream(&wv).unwrap(), pcm);
    let (first, _) = parse_block(&wv).unwrap();
    assert_eq!(first.verify_decoded_crc(), Ok(false));
    assert_eq!(first.decode_samples_muted().unwrap(), (vec![0; 20], false));
}

#[test]
fn multichannel_streams_chain_and_concatenate() {
    let pcm = noise(12, 60, 14);
    for channels in [1usize, 2, 3, 5] {
        let frames = 60 / channels as u32;
        let whole = encode_multichannel_stream_at(&pcm, channels, 7, 2, 0, frames).unwrap();
        let decoded = decode_multichannel_stream(&whole).unwrap();
        assert_eq!((decoded.channels, decoded.samples), (channels, pcm.clone()));
        let index = StreamIndex::scan(&whole).unwrap();
        assert!(index.is_seekable());
        assert_eq!(index.frame_count(), u64::from(frames));
        let mut twice = whole.clone();
        twice.extend(encode_multichannel_stream_at(&pcm, channels, 7, 2, frames, frames).unwrap());
        let decoded = decode_multichannel_stream(&twice).unwrap();
        assert_eq!(decoded.samples, [pcm.clone(), pcm.clone()].concat());
        assert!(StreamIndex::scan(&twice).unwrap().is_seekable());
        assert!(!StreamIndex::scan(&twice[whole.len()..]).unwrap().is_seekable());
    }
}

#[test]
fn multichannel_parts_make_the_whole() {
    let pcm = noise(17, 66, 14);
    for channels in [1usize, 2, 3] {
        let cut = 3 * 4 * channels;
        let total = 66 / channels as u32;
        let mut parts = encode_multichannel_stream_at(&pcm[..cut], channels, 4, 2, 5, total).unwrap();
        parts.extend(encode_multichannel_stream_at(&pcm[cut..], channels, 4, 2, 17, total).unwrap());
        assert_eq!(parts, encode_multichannel_stream_at(&pcm, channels, 4, 2, 5, total).unwrap());
    }
}

#[test]
fn the_last_standard_rate_stays() {
    let wv = encode_stream_mono(&ramp(100), 30, 2).unwrap();
    let once = set_stream_sample_rate(&wv, 44_100).unwrap();
    let last = set_stream_sample_rate(&wv, 96_000).unwrap();
    assert_eq!(set_stream_sample_rate(&once, 96_000).unwrap(), last);
    assert_eq!(set_stream_sample_rate(&once, 44_100).unwrap(), once);
    assert_ne!(once, last);
    assert_eq!(once.len(), wv.len());
    let mut at = 0;
    while at < wv.len() {
        let word = |s: &[u8], k: usize| u32::from_le_bytes([s[at + k], s[at + k + 1], s[at + k + 2], s[at + k + 3]]);
        let size = 8 + word(&wv, 4) as usize;
        assert_eq!(wv[at..at + 24], once[at..at + 24]);
        assert_eq!(wv[at + 28..at + size], once[at + 28..at + size]);
        assert_eq!((word(&wv, 24) ^ word(&once, 24)) & !(15 << 23), 0);
        assert_eq!(word(&once, 24) >> 23 & 15, 9);
        at += size;
    }
    assert_eq!(at, wv.len());
}

#[test]
fn stamped_rates_read_back_and_change_no_sample() {
    let pcm = ramp(100);
    let wv = encode_stream_mono(&pcm, 30, 2).unwrap();
    assert_eq!(stream_sample_rate(&wv), Ok(Some(6000)));
    for (rate, more) in [(44_100u32, 0usize), (192_000, 0), (1, 6), (0xFF_FFFF, 6), (44_101, 6)] {
        let stamped = set_stream_sample_rate(&wv, rate).unwrap();
        assert_eq!(stamped.len(), wv.len() + more);
        assert_eq!(stream_sample_rate(&stamped), Ok(Some(rate)));
        holds(Ok(stamped), &pcm);
    }
}

#[test]
fn searches_keep_their_promises() {
    let pcm = ramp(300);
    let raw = encode_block_mono(&pcm, 2, 0, 300).unwrap();
    let mut last = raw.len();
    for p in [DecorrProfile::Fast, DecorrProfile::Normal, DecorrProfile::High, DecorrProfile::Extra] {
        let best = encode_block_mono_best(&pcm, p, 2, 0, 300).unwrap();
        assert!(best.len() <= last);
        assert!(best.len() <= encode_block_mono_auto(&pcm, p, 2, 0, 300).unwrap().len());
        last = best.len();
        let stereo = encode_block_stereo_best(&pcm, p, 2, 0, 150).unwrap();
        assert!(stereo.len() <= encode_block_stereo_joint_auto(&pcm, p, 2, 0, 150).unwrap().len());
    }
    let searched = encode_block_mono_searched(&pcm, 16, 2, 0, 300).unwrap();
    assert!(searched.len() <= raw.len());
    let smallest = encode_block_mono_smallest(&pcm, 2, 0, 300).unwrap();
    assert!(smallest.len() <= last && smallest.len() <= searched.len());
    assert!(derive_mono_passes_searched(&pcm, 3).unwrap().len() <= 3);
    assert_eq!(residual_cost(&[7, -8, 0]), 7);
}

#[test]
fn samples_below_the_safe_magnitude_always_encode() {
    let top = SAFE_MAGNITUDE as i32 - 1;
    let pcm: Vec<i32> = (0..400).map(|i| if i % 3 == 0 { top } else { -top }).collect();
    holds(encode_stream_mono(&pcm, 0, 4), &pcm);
    holds(encode_stream_stereo(&pcm, 0, 4), &pcm);
    let full: Vec<i32> = (0..400).map(|i| if i % 2 == 0 { i32::MAX } else { i32::MIN }).collect();
    holds(encode_stream_mono_int32(&full, 0, DecorrProfile::Fast), &full);
}

#[test]
fn hybrid_streams_read_back_with_their_correction() {
    let pcm = noise(13, 1200, 14);
    for joint in [false, true] {
        for shaping in [
            HybridShaping::Off,
            HybridShaping::Static(-600),
            HybridShaping::Ramp {
                weight: 300,
                delta: 40_000,
            },
        ] {
            let opts = HybridOptions {
                joint,
                ..HybridOptions::from_rate_units(700).with_shaping(shaping)
            };
            for enc in [
                encode_stream_mono_hybrid(&pcm, 500, 2, &opts).unwrap(),
                encode_stream_stereo_hybrid(&pcm, 250, 2, &opts).unwrap(),
                encode_stream_stereo_hybrid_int32(&pcm, 250, &opts).unwrap(),
            ] {
                let wvc = enc.wvc.unwrap();
                assert_eq!(
                    decode_stream_with_correction_muted(&enc.wv, &wvc).unwrap(),
                    (pcm.clone(), true)
                );
                let (lossy, ok) = decode_stream_muted(&enc.wv).unwrap();
                assert!(ok);
                assert_eq!(lossy.len(), pcm.len());
                assert_eq!(audio_block_count(&enc.wv), audio_block_count(&wvc));
            }
        }
    }
    let bits: Vec<u32> = pcm.iter().map(|&v| (v as f32 / 9000.0).to_bits()).collect();
    let enc = encode_stream_mono_hybrid_float(&bits, 400, &HybridOptions::default()).unwrap();
    assert_eq!(
        decode_stream_with_correction_patterns(&enc.wv, &enc.wvc.unwrap()).unwrap(),
        bits
    );
}

#[test]
fn checks_and_words_have_known_values() {
    assert_eq!(crc_mono(&[]), 0xffff_ffff);
    assert_eq!(crc_mono(&[1]), 0xffff_fffe);
    assert_eq!(crc_stereo_interleaved(&[1, 2]), crc_mono(&[1, 2]));
    assert_eq!(expand_sample_word(0x10, 9), 16);
    assert_eq!(expand_sample_word(0xFF, 10), -2);
    let m = AdaptiveMedians::new([256, 256, 256]);
    assert_eq!(m.get_med(0), 17);
    let zone = m.interval(3);
    assert_eq!((zone.low, zone.high), (51, 67));
    assert_eq!(m.zone_for_magnitude(33), 1);
    assert_eq!(m.zone_for_magnitude(34), 2);
}

#[test]
fn main_streams_alone_give_the_lossy_samples() {
    let base = HybridOptions {
        correction: false,
        ..HybridOptions::from_rate_units(600)
    };
    for shaping in [HybridShaping::Off, HybridShaping::Static(-500)] {
        let opts = base.with_shaping(shaping);
        let wide = noise(18, 600, 31);
        let d = deconstruct_int32(&wide);
        let enc = encode_block_mono_hybrid_int32(&wide, &opts, 0, 600).unwrap();
        assert_eq!(enc.wvc, None);
        let plain = encode_block_mono_hybrid(&d.reduced, 4, &opts, 0, 600).unwrap();
        let (coarse, ok) = decode_stream_muted(&plain.wv).unwrap();
        assert!(ok);
        assert_ne!(coarse, d.reduced);
        let shift = d.info.total_shift() as u8;
        let want: Vec<i32> = coarse.iter().map(|&v| apply_left_shift(v, shift)).collect();
        assert_eq!(decode_stream_muted(&enc.wv).unwrap(), (want.clone(), true));
        let stream = encode_stream_mono_hybrid_int32(&wide, 600, &opts).unwrap();
        assert_eq!(decode_stream_muted(&stream.wv).unwrap(), (want, true));

        let bits: Vec<u32> = noise(19, 600, 20).iter().map(|&v| (v as f32 / 3.0e5).to_bits()).collect();
        let f = deconstruct_float_raised(&bits);
        let plain = encode_block_stereo_hybrid(&f.integers, 4, &opts, 0, 300).unwrap();
        let mut want = decode_stream(&plain.wv).unwrap();
        reassemble_float_implied(&mut want, &f.info).unwrap();
        let enc = encode_block_stereo_hybrid_float(&bits, &opts, 0, 300).unwrap();
        assert_eq!(decode_stream_patterns(&enc.wv).unwrap(), patterns(&want));
        assert_ne!(patterns(&want), bits);
        let stream = encode_stream_stereo_hybrid_float(&bits, 300, &opts).unwrap();
        assert_eq!(decode_stream_patterns(&stream.wv).unwrap(), patterns(&want));
    }
}

#[test]
fn a_correction_stream_changes_no_lossy_sample() {
    let pcm = noise(20, 900, 15);
    let with = HybridOptions::from_rate_units(500);
    let without = HybridOptions {
        correction: false,
        ..with
    };
    let a = encode_stream_mono_hybrid(&pcm, 250, 2, &with).unwrap();
    let b = encode_stream_mono_hybrid(&pcm, 250, 2, &without).unwrap();
    let (lossy, ok) = decode_stream_muted(&a.wv).unwrap();
    assert!(ok);
    assert_eq!(decode_stream_muted(&b.wv).unwrap(), (lossy.clone(), true));
    assert_ne!(lossy, pcm);
    let first = encode_block_mono_hybrid(&pcm[..250], 2, &without, 0, 900).unwrap();
    assert_eq!(decode_stream(&first.wv).unwrap(), lossy[..250]);
    let silence = encode_stream_mono_hybrid(&[0; 40], 16, 2, &without).unwrap();
    assert_eq!(decode_stream(&silence.wv).unwrap(), [0; 40]);
}

#[test]
fn format_searches_never_lose_to_raw() {
    let wide = noise(21, 300, 30);
    let bits: Vec<u32> = ramp(300).iter().map(|&v| (v as f32 / 4096.0).to_bits()).collect();
    for p in [DecorrProfile::Fast, DecorrProfile::High] {
        let best = encode_block_mono_int32_best(&wide, p, 0, 300).unwrap();
        assert!(best.len() <= encode_block_mono_int32(&wide, 0, 300).unwrap().len());
        let best = encode_block_stereo_int32_best(&wide, p, 0, 150).unwrap();
        assert!(best.len() <= encode_block_stereo_int32(&wide, 0, 150).unwrap().len());
        let best = encode_block_mono_float_best(&bits, p, 0, 300).unwrap();
        assert!(best.len() < encode_block_mono_float(&bits, 0, 300).unwrap().len());
        let best = encode_block_stereo_float_best(&bits, p, 0, 150).unwrap();
        assert!(best.len() <= encode_block_stereo_float(&bits, 0, 150).unwrap().len());
        let pcm = ramp(300);
        let best = encode_block_stereo_best(&pcm, p, 2, 0, 150).unwrap();
        assert!(best.len() <= encode_block_stereo_joint(&pcm, 2, 0, 150).unwrap().len());
    }
}

#[test]
fn narrowed_wide_integers_keep_23_bits() {
    for pcm in [noise(22, 400, 32), vec![i32::MIN, i32::MAX, 0], vec![i32::MAX, -2, 5], vec![0x80_0000, 1]] {
        let d = deconstruct_int32(&pcm);
        for &v in &d.reduced {
            assert!((-0x80_0000..0x80_0000).contains(&v), "{v}");
        }
    }
    assert_eq!(deconstruct_int32(&[0x7F_FFFF, 0]).info.sent_bits, 0);
    assert_eq!(deconstruct_int32(&[0x80_0000, 1]).info.sent_bits, 1);
    assert_eq!(deconstruct_int32(&[i32::MIN, i32::MAX, 0]).info.sent_bits, 8);
}
