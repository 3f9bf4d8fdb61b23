//! Hybrid encoders.
use oxideav_wavpack::hybrid::{HYBRID_SHAPE_FLAG, NEW_SHAPING_FLAG};
use oxideav_wavpack::{DecorrProfile, Error, HybridEncoded, HybridOptions, HybridShaping, Result, ShapingState, SubBlockId, audio_block_count, crc_mono, decode_stream_muted, decode_stream_patterns, decode_stream_with_correction, decode_stream_with_correction_muted, decode_stream_with_correction_patterns, encode_block_mono, encode_block_mono_hybrid, encode_block_mono_hybrid_float, encode_block_mono_hybrid_int32, encode_block_stereo_hybrid, encode_block_stereo_hybrid_float, encode_block_stereo_hybrid_int32, encode_stream_mono_hybrid, encode_stream_mono_hybrid_float, encode_stream_stereo_hybrid, encode_stream_stereo_hybrid_float, encode_stream_stereo_hybrid_int32, expand_int32_info, parse_block, wp_exp2s};

fn decode_stream_f32(bytes: &[u8]) -> Result<Vec<f32>> {
    let words = decode_stream_patterns(bytes)?;
    Ok(words.iter().map(|&w| f32::from_bits(w)).collect())
}

fn decode_stream_with_correction_f32(main: &[u8], fix: &[u8]) -> Result<Vec<f32>> {
    let words = decode_stream_with_correction_patterns(main, fix)?;
    Ok(words.iter().map(|&w| f32::from_bits(w)).collect())
}

fn from_weight(weight: f64) -> HybridShaping {
    HybridShaping::from_units((weight.clamp(-1.0, 1.0) * 1024.0).round() as i32)
}

fn from_bits_per_sample(bits: f64) -> HybridOptions {
    HybridOptions::from_rate_units((bits * 256.0).round() as i32)
}

fn splitmix(seed: u64, n: usize) -> Vec<i64> {
    let mut x = seed;
    (0..n)
        .map(|_| {
            x = x.wrapping_mul(0xd1342543de82ef95).wrapping_add(1);
            x as i64
        })
        .collect()
}

fn signal16(n: usize, seed: u64) -> Vec<i32> {
    splitmix(seed, n)
        .iter()
        .enumerate()
        .map(|(i, &r)| {
            if i > n / 3 && i < n / 3 + 400 {
                0
            } else {
                let t = i as f64 * 0.05;
                let smooth = (t.sin() * 9000.0) as i32;
                smooth + ((r >> 56) as i32)
            }
        })
        .collect()
}

fn opts(bitrate_word: i32, joint: bool, profile: Option<DecorrProfile>) -> HybridOptions {
    HybridOptions {
        bitrate_word,
        correction: true,
        joint,
        profile,
        shaping: HybridShaping::Off,
    }
}

fn assert_pair_round_trip(pcm: &[i32], enc: &HybridEncoded) -> Vec<i32> {
    let wvc = enc.wvc.as_ref().expect("correction requested");

    let exact = decode_stream_with_correction(&enc.wv, wvc).unwrap();
    assert_eq!(exact, pcm, "pair decode must reproduce the input");

    let (muted, ok) = decode_stream_with_correction_muted(&enc.wv, wvc).unwrap();
    assert!(ok, "pair CRC gate");
    assert_eq!(muted, pcm);

    let (lossy, ok) = decode_stream_muted(&enc.wv).unwrap();
    assert!(ok, "lossy CRC gate");
    lossy
}

fn max_err(a: &[i32], b: &[i32]) -> i64 {
    a.iter()
        .zip(b)
        .map(|(&x, &y)| (i64::from(x) - i64::from(y)).abs())
        .max()
        .unwrap()
}

#[test]
fn mono_raw_hybrid_pair_is_lossless_and_lossy_is_close() {
    let pcm = signal16(3000, 0x1234);
    let enc = encode_block_mono_hybrid(&pcm, 2, &opts(456, false, None), 0, 3000).unwrap();
    let lossy = assert_pair_round_trip(&pcm, &enc);
    assert_eq!(lossy.len(), pcm.len());
    let err = max_err(&lossy, &pcm);
    assert!(err > 0, "b4 on 16-bit content is genuinely lossy");
    assert!(err < 4096, "noise stays well under the signal ({err})");

    let lossless = encode_block_mono(&pcm, 2, 0, 3000).unwrap();
    assert!(enc.wv.len() < lossless.len());
}

#[test]
fn mono_decorrelated_hybrid_pair_is_lossless() {
    let pcm = signal16(3000, 0x777);
    let raw = encode_block_mono_hybrid(&pcm, 2, &opts(456, false, None), 0, 3000).unwrap();
    let dec = encode_block_mono_hybrid(
        &pcm,
        2,
        &opts(456, false, Some(DecorrProfile::Normal)),
        0,
        3000,
    )
    .unwrap();
    assert_pair_round_trip(&pcm, &dec);

    let total = |e: &HybridEncoded| e.wv.len() + e.wvc.as_ref().unwrap().len();
    assert!(
        total(&dec) < total(&raw),
        "decorr pair {} vs raw pair {}",
        total(&dec),
        total(&raw)
    );
}

#[test]
fn stereo_left_right_hybrid_pair_is_lossless() {
    let mono = signal16(2000, 0xabc);
    let pcm: Vec<i32> = mono.iter().flat_map(|&s| [s, s / 2 - 17]).collect();
    for profile in [None, Some(DecorrProfile::Normal)] {
        let enc =
            encode_block_stereo_hybrid(&pcm, 2, &opts(456, false, profile), 0, 2000).unwrap();
        assert_pair_round_trip(&pcm, &enc);
    }
}

#[test]
fn stereo_joint_hybrid_pair_is_lossless() {
    let mono = signal16(2000, 0x555);
    let pcm: Vec<i32> = mono
        .iter()
        .enumerate()
        .flat_map(|(i, &s)| [s, s + (i as i32 % 23) - 11])
        .collect();
    for profile in [None, Some(DecorrProfile::High)] {
        let enc =
            encode_block_stereo_hybrid(&pcm, 2, &opts(456, true, profile), 0, 2000).unwrap();
        let (parsed, _) = parse_block(&enc.wv).unwrap();
        assert!(parsed.flags().joint_stereo);
        assert!(parsed.flags().hybrid);
        assert_pair_round_trip(&pcm, &enc);
    }
}

#[test]
fn higher_bitrate_words_mean_less_noise_and_more_bytes() {
    let pcm = signal16(2500, 0x9e37);
    let mut last_err = i64::MAX;
    let mut last_len = 0usize;
    for word in [0i32, 200, 456, 800] {
        let enc = encode_block_mono_hybrid(
            &pcm,
            2,
            &opts(word, false, Some(DecorrProfile::Normal)),
            0,
            2500,
        )
        .unwrap();
        let lossy = assert_pair_round_trip(&pcm, &enc);
        let err = max_err(&lossy, &pcm);
        assert!(err > 0, "word {word} is genuinely lossy on this content");
        assert!(err <= last_err, "noise decreases as the word rises");
        assert!(
            enc.wv.len() >= last_len,
            "the lossy stream grows as the word rises ({} vs {last_len})",
            enc.wv.len()
        );
        last_err = err;
        last_len = enc.wv.len();
    }

    let enc = encode_block_mono_hybrid(
        &pcm,
        2,
        &opts(8000, false, Some(DecorrProfile::Normal)),
        0,
        2500,
    )
    .unwrap();
    let lossy = assert_pair_round_trip(&pcm, &enc);
    assert_eq!(max_err(&lossy, &pcm), 0, "degenerate lossless words");
}

#[test]
fn silence_stretch_takes_the_zero_run_path_losslessly() {
    let silent = vec![0i32; 1200];
    let enc = encode_block_mono_hybrid(&silent, 2, &opts(456, false, None), 0, 1200).unwrap();
    let lossy = assert_pair_round_trip(&silent, &enc);
    assert_eq!(
        lossy, silent,
        "silence is lossless even in the lossy stream"
    );

    let mut pcm = vec![0i32; 600];
    pcm.extend(signal16(800, 0x31).iter());
    pcm.extend(std::iter::repeat_n(0i32, 500));
    let n = pcm.len() as u32;
    let enc =
        encode_block_mono_hybrid(&pcm, 2, &opts(456, false, Some(DecorrProfile::Fast)), 0, n)
            .unwrap();
    assert_pair_round_trip(&pcm, &enc);
}

#[test]
fn multi_block_hybrid_streams_carry_the_level_state() {
    let pcm = signal16(5000, 0x40);
    let enc = encode_stream_mono_hybrid(
        &pcm,
        1024,
        2,
        &opts(456, false, Some(DecorrProfile::Normal)),
    )
    .unwrap();
    assert_eq!(audio_block_count(&enc.wv).unwrap(), 5);
    assert_pair_round_trip(&pcm, &enc);

    let stereo: Vec<i32> = pcm.iter().flat_map(|&s| [s, -s]).collect();
    let enc = encode_stream_stereo_hybrid(
        &stereo,
        900,
        2,
        &opts(456, true, Some(DecorrProfile::Normal)),
    )
    .unwrap();
    assert_pair_round_trip(&stereo, &enc);
}

#[test]
fn lossy_only_mode_omits_the_correction_stream() {
    let pcm = signal16(1500, 0x99);
    let mut o = opts(456, false, Some(DecorrProfile::Normal));
    o.correction = false;
    let enc = encode_block_mono_hybrid(&pcm, 2, &o, 0, 1500).unwrap();
    assert!(enc.wvc.is_none());
    let (_, ok) = decode_stream_muted(&enc.wv).unwrap();
    assert!(ok);
    let (parsed, _) = parse_block(&enc.wv).unwrap();
    assert!(!parsed.has_packed_correction_data());
    assert!(parsed.expects_correction(), "hybrid flag set");
}

#[test]
fn hybrid_options_bitrate_mapping_matches_the_reference_scale() {
    assert_eq!(from_bits_per_sample(4.0).bitrate_word, 456);
    assert_eq!(from_bits_per_sample(2.0).bitrate_word, 0);
    assert_eq!(HybridOptions::default().bitrate_word, 456);
}

#[test]
fn hybrid_refuses_empty_and_odd_stereo() {
    let o = HybridOptions::default();
    assert!(matches!(
        encode_block_mono_hybrid(&[], 2, &o, 0, 0),
        Err(Error::EncodeEmptyAudio)
    ));
    assert!(matches!(
        encode_block_stereo_hybrid(&[1], 2, &o, 0, 1),
        Err(Error::EncodeStereoOddLength(1))
    ));
}

#[test]
fn wvc_twin_mirrors_the_header_and_carries_the_lossless_crc() {
    let pcm = signal16(1000, 0x11);
    let enc = encode_block_mono_hybrid(&pcm, 2, &opts(456, false, None), 0, 1000).unwrap();
    let (wv_blk, _) = parse_block(&enc.wv).unwrap();
    let (wvc_blk, _) = parse_block(enc.wvc.as_ref().unwrap()).unwrap();
    assert_eq!(wv_blk.flags().raw, wvc_blk.flags().raw);
    assert_eq!(wv_blk.block_index(), wvc_blk.block_index());
    assert_eq!(wv_blk.block_samples(), wvc_blk.block_samples());
    assert_eq!(wvc_blk.crc(), crc_mono(&pcm), "lossless CRC");
    assert_ne!(wv_blk.crc(), wvc_blk.crc(), "lossy vs lossless CRCs differ");
    assert!(wvc_blk.has_packed_correction_data());
}

fn float_signal(n: usize, seed: u64) -> Vec<f32> {
    splitmix(seed, n)
        .iter()
        .enumerate()
        .map(|(i, &r)| {
            if i % 41 == 0 {
                0.0
            } else {
                let t = i as f32 * 0.037;
                t.sin() * 0.6 + (r as f32 / i64::MAX as f32) * 0.02
            }
        })
        .collect()
}

fn bits_of(pcm: &[f32]) -> Vec<u32> {
    pcm.iter().map(|s| s.to_bits()).collect()
}

#[test]
fn float_hybrid_pair_is_bit_exact_and_lossy_decodes() {
    let pcm = float_signal(2000, 0x5eed);
    for (joint, profile) in [(false, None), (true, Some(DecorrProfile::Normal))] {
        let enc =
            encode_block_mono_hybrid_float(&bits_of(&pcm), &opts(456, joint, profile), 0, 2000).unwrap();
        let wvc = enc.wvc.as_ref().unwrap();
        let exact = decode_stream_with_correction_f32(&enc.wv, wvc).unwrap();
        assert_eq!(bits_of(&exact), bits_of(&pcm), "pair decode bit patterns");
        let (_, ok) = decode_stream_with_correction_muted(&enc.wv, wvc).unwrap();
        assert!(ok, "pair CRC gate (incl. extension crc_x)");

        let lossy = decode_stream_f32(&enc.wv).unwrap();
        let max_err = lossy
            .iter()
            .zip(&pcm)
            .map(|(a, b)| (a - b).abs())
            .fold(0.0f32, f32::max);
        assert!(
            max_err > 0.0 && max_err < 0.2,
            "float noise bounded ({max_err})"
        );
        let (parsed, _) = parse_block(&enc.wv).unwrap();
        assert!(parsed.is_float());
        assert!(!parsed.has_packed_overflow_bits(), "wvx rides the wvc twin");
        let (cblk, _) = parse_block(wvc).unwrap();
        assert!(cblk.has_packed_overflow_bits());
    }
}

#[test]
fn float_hybrid_stereo_pair_with_specials_is_bit_exact() {
    let mut pcm: Vec<f32> = float_signal(1200, 0x77)
        .iter()
        .flat_map(|&s| [s, -s * 0.5])
        .collect();
    pcm[100] = f32::INFINITY;
    pcm[101] = f32::from_bits(0x7f95_5555);
    pcm[200] = -0.0;
    pcm[201] = f32::from_bits(0x0000_0123);
    let enc = encode_block_stereo_hybrid_float(
        &bits_of(&pcm),
        &opts(456, true, Some(DecorrProfile::Fast)),
        0,
        1200,
    )
    .unwrap();
    let wvc = enc.wvc.as_ref().unwrap();
    let exact = decode_stream_with_correction_f32(&enc.wv, wvc).unwrap();
    assert_eq!(bits_of(&exact), bits_of(&pcm));
}

#[test]
fn float_hybrid_streams_round_trip() {
    let pcm = float_signal(3000, 0x31);
    let enc = encode_stream_mono_hybrid_float(
        &bits_of(&pcm),
        800,
        &opts(456, false, Some(DecorrProfile::Normal)),
    )
    .unwrap();
    let wvc = enc.wvc.as_ref().unwrap();
    assert_eq!(audio_block_count(&enc.wv).unwrap(), 4);
    let exact = decode_stream_with_correction_f32(&enc.wv, wvc).unwrap();
    assert_eq!(bits_of(&exact), bits_of(&pcm));

    let stereo: Vec<f32> = pcm.iter().flat_map(|&s| [s, s * 0.9]).collect();
    let enc = encode_stream_stereo_hybrid_float(
        &bits_of(&stereo),
        700,
        &opts(456, true, Some(DecorrProfile::Normal)),
    )
    .unwrap();
    let exact =
        decode_stream_with_correction_f32(&enc.wv, enc.wvc.as_ref().unwrap())
            .unwrap();
    assert_eq!(bits_of(&exact), bits_of(&stereo));
}

#[test]
fn int32_hybrid_pair_is_bit_exact_full_range() {
    let pcm: Vec<i32> = splitmix(0xfeed, 1500).iter().map(|&r| r as i32).collect();
    let enc = encode_block_mono_hybrid_int32(&pcm, &opts(456, false, None), 0, 1500).unwrap();
    let wvc = enc.wvc.as_ref().unwrap();
    assert_eq!(
        decode_stream_with_correction(&enc.wv, wvc).unwrap(),
        pcm,
        "full-range int32 pair decode"
    );
    let (_, ok) = decode_stream_with_correction_muted(&enc.wv, wvc).unwrap();
    assert!(ok);

    let (lossy, ok) = decode_stream_muted(&enc.wv).unwrap();
    assert!(ok);
    assert_eq!(lossy.len(), pcm.len());
}

#[test]
fn int32_hybrid_stereo_stream_round_trips() {
    let mut acc = 0i64;
    let base: Vec<i32> = splitmix(0xabc, 2600)
        .iter()
        .map(|&r| {
            acc += (r >> 48) << 9;
            acc as i32
        })
        .collect();
    let pcm: Vec<i32> = base.iter().flat_map(|&v| [v, v ^ 0x1FF]).collect();
    let enc = encode_stream_stereo_hybrid_int32(
        &pcm,
        800,
        &opts(456, true, Some(DecorrProfile::Normal)),
    )
    .unwrap();
    let wvc = enc.wvc.as_ref().unwrap();
    assert_eq!(decode_stream_with_correction(&enc.wv, wvc).unwrap(), pcm);
}

#[test]
fn clipping_adjacent_content_clamps_the_lossy_decode_only() {
    let pcm: Vec<i32> = (0..3000)
        .map(|i| {
            let t = f64::from(i) * 0.03;
            ((t.sin() * 32300.0) as i32 + (i % 997) - 498).clamp(-32768, 32767)
        })
        .collect();
    let enc = encode_block_mono_hybrid(
        &pcm,
        2,
        &opts(0, false, Some(DecorrProfile::Normal)),
        0,
        3000,
    )
    .unwrap();
    let lossy = assert_pair_round_trip(&pcm, &enc);
    assert!(
        lossy.iter().all(|&s| (-32768..=32767).contains(&s)),
        "lossy output clamps to the 16-bit range"
    );

    assert!(
        lossy.iter().any(|&s| s == 32767 || s == -32768),
        "clamp exercised"
    );
}

#[test]
fn redundancy_only_int32_hybrid_pair_restores_the_pattern() {
    let pcm: Vec<i32> = splitmix(0x0e5, 1500)
        .iter()
        .map(|&r| (((r >> 44) as i32) & !0xF) | 0xF)
        .collect();
    let enc = encode_block_mono_hybrid_int32(&pcm, &opts(456, false, None), 0, 1500).unwrap();
    let (parsed, _) = parse_block(&enc.wv).unwrap();
    let info_sub = parsed.find_sub_block(SubBlockId::Int32Info).unwrap();
    let info = expand_int32_info(info_sub.payload).unwrap();
    assert_eq!(info.sent_bits, 0, "redundancy-only profile");
    assert_eq!(info.ones, 4);
    let lossy = assert_pair_round_trip(&pcm, &enc);
    assert!(
        lossy.iter().all(|&s| s & 0xF == 0),
        "lossy window zero-fills"
    );
}

fn shaped(sh: HybridShaping, joint: bool) -> HybridOptions {
    opts(456, joint, Some(DecorrProfile::Normal)).with_shaping(sh)
}

fn noise_autocorr1(lossy: &[i32], orig: &[i32]) -> f64 {
    let n: Vec<i64> = lossy
        .iter()
        .zip(orig)
        .map(|(&a, &b)| i64::from(a) - i64::from(b))
        .collect();
    let num: i64 = n.windows(2).map(|w| w[0] * w[1]).sum();
    let den: i64 = n.iter().map(|&v| v * v).sum();
    num as f64 / den.max(1) as f64
}

#[test]
fn shaped_mono_pair_is_lossless_and_flags_the_shape() {
    let pcm = signal16(3000, 0x420);
    let enc =
        encode_block_mono_hybrid(&pcm, 2, &shaped(HybridShaping::Static(717), false), 0, 3000)
            .unwrap();
    assert_pair_round_trip(&pcm, &enc);
    let (wv_blk, _) = parse_block(&enc.wv).unwrap();
    let flags = wv_blk.flags().raw;
    assert_ne!(flags & HYBRID_SHAPE_FLAG, 0, "bit 6");
    assert_ne!(flags & NEW_SHAPING_FLAG, 0, "bit 29");
    assert!(
        wv_blk.find_noise_shaping_profile_sub_block().is_none(),
        "0x07 rides the wvc twin, not the lossy stream"
    );
    let wvc = enc.wvc.as_ref().unwrap();
    let (wvc_blk, _) = parse_block(wvc).unwrap();
    assert_eq!(wvc_blk.flags().raw, flags, "twin mirrors the flag word");
    let sp = wvc_blk
        .find_noise_shaping_profile_sub_block()
        .expect("0x07 in the correction block");

    assert_eq!(sp.payload.len(), 4);
    let st = ShapingState::from_shaping_words(Some(sp.payload), false);
    assert_eq!(st.error(0), 0);

    assert_eq!(wvc[32] & 0x3f, 0x07);

    let plain = encode_block_mono_hybrid(
        &pcm,
        2,
        &opts(456, false, Some(DecorrProfile::Normal)),
        0,
        3000,
    )
    .unwrap();
    let (pb, _) = parse_block(&plain.wv).unwrap();
    assert_eq!(
        pb.flags().raw & (HYBRID_SHAPE_FLAG | NEW_SHAPING_FLAG),
        0
    );
    let (pc, _) = parse_block(plain.wvc.as_ref().unwrap()).unwrap();
    assert!(pc.find_noise_shaping_profile_sub_block().is_none());
}

#[test]
fn shaped_noise_spectrum_tilts_with_the_weight() {
    let pcm = signal16(4000, 0x7171);
    let mut corr = Vec::new();
    for sh in [
        HybridShaping::Static(717),
        HybridShaping::Off,
        HybridShaping::Static(-717),
    ] {
        let enc = encode_block_mono_hybrid(&pcm, 2, &shaped(sh, false), 0, 4000).unwrap();
        let lossy = assert_pair_round_trip(&pcm, &enc);
        corr.push(noise_autocorr1(&lossy, &pcm));
    }
    assert!(
        corr[0] < corr[1] && corr[1] < corr[2],
        "lag-1 noise autocorrelation orders with the weight: {corr:?}"
    );
    assert!(corr[0] < -0.2, "positive weight pushes noise upward");
    assert!(corr[2] > 0.2, "negative weight pushes noise downward");
}

#[test]
fn shaped_stereo_pairs_are_lossless_lr_and_joint() {
    let mono = signal16(2400, 0xbeef);
    let pcm: Vec<i32> = mono
        .iter()
        .enumerate()
        .flat_map(|(i, &s)| [s, s / 2 + (i as i32 % 37) - 18])
        .collect();
    for joint in [false, true] {
        for sh in [
            HybridShaping::Static(717),
            HybridShaping::Static(-717),
            HybridShaping::Static(1024),
        ] {
            let enc = encode_block_stereo_hybrid(&pcm, 2, &shaped(sh, joint), 0, 2400).unwrap();
            assert_pair_round_trip(&pcm, &enc);
            let (blk, _) = parse_block(&enc.wv).unwrap();
            assert_eq!(blk.flags().joint_stereo, joint);
            let (cblk, _) = parse_block(enc.wvc.as_ref().unwrap()).unwrap();
            let sp = cblk.find_noise_shaping_profile_sub_block().unwrap();
            assert_eq!(sp.payload.len(), 8, "stereo static layout: 4 log words");
        }
    }
}

#[test]
fn ramp_shaping_carries_delta_words_and_state_across_blocks() {
    let pcm = signal16(5000, 0x9a);
    let sh = HybridShaping::Ramp {
        weight: -512,
        delta: 9000,
    };
    let enc = encode_stream_mono_hybrid(&pcm, 1000, 2, &shaped(sh, false)).unwrap();
    assert_pair_round_trip(&pcm, &enc);

    let wvc = enc.wvc.as_ref().unwrap();
    let mut payloads = Vec::new();
    let mut rest: &[u8] = wvc;
    while !rest.is_empty() {
        let (blk, next) = parse_block(rest).unwrap();
        let sp = blk.find_noise_shaping_profile_sub_block().unwrap();
        assert_eq!(sp.payload.len(), 6, "mono dynamic layout: 3 log words");
        payloads.push(sp.payload.to_vec());
        rest = next;
    }
    assert_eq!(payloads.len(), 5);
    assert_ne!(payloads[0], payloads[4], "acc state ramps across blocks");

    let stereo: Vec<i32> = pcm.iter().flat_map(|&s| [s, s / 3 - 7]).collect();
    let enc = encode_stream_stereo_hybrid(&stereo, 900, 2, &shaped(sh, true)).unwrap();
    assert_pair_round_trip(&stereo, &enc);
    let (cblk, _) = parse_block(enc.wvc.as_ref().unwrap()).unwrap();
    let sp = cblk.find_noise_shaping_profile_sub_block().unwrap();
    assert_eq!(sp.payload.len(), 12, "stereo dynamic layout: 6 log words");
}

#[test]
fn ramp_delta_words_saturate_at_the_full_scale_rail() {
    let rail = i64::from(1024i32 << 16);
    let pcm = signal16(6000, 0x420);
    for (w0, d) in [
        (-1000, -60_000),
        (1000, 60_000),
        (-1024, -600),
        (0, 600_000),
    ] {
        let sh = HybridShaping::Ramp {
            weight: w0,
            delta: d,
        };
        let enc = encode_stream_mono_hybrid(&pcm, 750, 2, &shaped(sh, false)).unwrap();
        assert_pair_round_trip(&pcm, &enc);
        let mut rest: &[u8] = enc.wvc.as_ref().unwrap();
        let mut last_delta = i32::MAX;
        while !rest.is_empty() {
            let (blk, next) = parse_block(rest).unwrap();
            let sp = blk.find_noise_shaping_profile_sub_block().unwrap();
            let word = |i: usize| {
                i32::from(i16::from_le_bytes([
                    sp.payload[2 * i],
                    sp.payload[2 * i + 1],
                ]))
            };
            let acc = i64::from(wp_exp2s(word(1)));
            let delta = i64::from(wp_exp2s(word(2)));
            let frames = i64::from(blk.block_samples());
            assert!(acc.abs() <= rail, "block seed acc {acc} within the rail");
            assert!(
                (acc + delta * frames).abs() <= rail,
                "whole-block excursion within the rail (acc {acc}, delta {delta}, n {frames})"
            );
            last_delta = delta as i32;
            rest = next;
        }

        assert_eq!(last_delta, 0, "w0={w0} d={d}: ramp holds at the rail");
    }
}

#[test]
fn shaped_silence_and_lossless_dispatch_paths_stay_exact() {
    let mut pcm = vec![0i32; 700];
    pcm.extend(signal16(900, 0x51).iter());
    pcm.extend(std::iter::repeat_n(0i32, 600));
    let n = pcm.len() as u32;
    for joint in [false, true] {
        let stereo: Vec<i32> = pcm.iter().flat_map(|&s| [s, s / 2]).collect();
        let enc = encode_block_stereo_hybrid(
            &stereo,
            2,
            &shaped(HybridShaping::Static(717), joint),
            0,
            n,
        )
        .unwrap();
        assert_pair_round_trip(&stereo, &enc);
    }

    let enc =
        encode_block_mono_hybrid(&pcm, 2, &shaped(HybridShaping::Static(717), false), 0, n)
            .unwrap();
    assert_pair_round_trip(&pcm, &enc);
    let mut o = shaped(HybridShaping::Static(-717), false);
    o.bitrate_word = 8000;
    let enc = encode_block_mono_hybrid(&pcm, 2, &o, 0, n).unwrap();
    let lossy = assert_pair_round_trip(&pcm, &enc);
    assert_eq!(lossy, pcm, "degenerate lossless words under shaping");
}

#[test]
fn shaped_float_and_int32_pairs_are_bit_exact() {
    let pcm = float_signal(1600, 0x420f);
    let enc = encode_block_mono_hybrid_float(
        &bits_of(&pcm),
        &shaped(HybridShaping::Static(717), false),
        0,
        1600,
    )
    .unwrap();
    let wvc = enc.wvc.as_ref().unwrap();
    let exact = decode_stream_with_correction_f32(&enc.wv, wvc).unwrap();
    assert_eq!(bits_of(&exact), bits_of(&pcm));

    let stereo: Vec<f32> = pcm.iter().flat_map(|&s| [s, -s * 0.4]).collect();
    let enc = encode_stream_stereo_hybrid_float(
        &bits_of(&stereo),
        700,
        &shaped(HybridShaping::Static(-717), true),
    )
    .unwrap();
    let exact =
        decode_stream_with_correction_f32(&enc.wv, enc.wvc.as_ref().unwrap())
            .unwrap();
    assert_eq!(bits_of(&exact), bits_of(&stereo));

    let wide: Vec<i32> = splitmix(0x32, 1400).iter().map(|&r| r as i32).collect();
    let enc = encode_block_mono_hybrid_int32(
        &wide,
        &shaped(HybridShaping::Static(717), false),
        0,
        1400,
    )
    .unwrap();
    assert_eq!(
        decode_stream_with_correction(&enc.wv, enc.wvc.as_ref().unwrap()).unwrap(),
        wide
    );
}

#[test]
fn extreme_imbalance_joint_content_round_trips_across_bitrate_words() {
    let l = signal16(2600, 0x1338);
    for mk in [0, 1] {
        let pcm: Vec<i32> = l
            .iter()
            .flat_map(|&s| if mk == 0 { [s, -s + 3] } else { [s, s + 3] })
            .collect();
        for word in [200, 456, 800] {
            let enc =
                encode_block_stereo_hybrid(&pcm, 2, &opts(word, true, None), 0, 2600).unwrap();
            assert_pair_round_trip(&pcm, &enc);
        }
    }
}

#[test]
fn shaped_clipping_content_keeps_the_unclamped_crc_contract() {
    let pcm: Vec<i32> = (0..3000)
        .map(|i| {
            let t = f64::from(i) * 0.03;
            (((t.sin() * 32300.0) as i32) + (i % 997) - 498).clamp(-32768, 32767)
        })
        .collect();
    let mut o =
        opts(0, false, Some(DecorrProfile::Normal)).with_shaping(HybridShaping::Static(717));
    o.bitrate_word = 0;
    let enc = encode_block_mono_hybrid(&pcm, 2, &o, 0, 3000).unwrap();
    let lossy = assert_pair_round_trip(&pcm, &enc);
    assert!(lossy.iter().all(|&s| (-32768..=32767).contains(&s)));
    assert!(lossy.iter().any(|&s| s == 32767 || s == -32768));
}

#[test]
fn shaped_trailing_ones_int32_pair_restores_the_pattern() {
    let pcm: Vec<i32> = splitmix(0x0e5e, 2000)
        .iter()
        .map(|&r| (((r >> 40) as i32) & !0xF) | 0xF)
        .collect();
    let enc = encode_block_stereo_hybrid_int32(
        &pcm,
        &shaped(HybridShaping::Static(-717), true),
        0,
        1000,
    )
    .unwrap();
    let wvc = enc.wvc.as_ref().unwrap();
    assert_eq!(decode_stream_with_correction(&enc.wv, wvc).unwrap(), pcm);
    let (lossy, ok) = decode_stream_muted(&enc.wv).unwrap();
    assert!(ok);
    assert!(
        lossy.iter().all(|&s| s & 0xF == 0),
        "lossy window zero-fills"
    );
}

#[test]
fn shaping_from_weight_maps_the_reference_scale() {
    assert_eq!(from_weight(0.0), HybridShaping::Off);
    assert_eq!(from_weight(0.7), HybridShaping::Static(717));
    assert_eq!(
        from_weight(-0.7),
        HybridShaping::Static(-717)
    );
    assert_eq!(from_weight(3.0), HybridShaping::Static(1024));
    assert_eq!(
        from_weight(-3.0),
        HybridShaping::Static(-1024)
    );

    let pcm = signal16(1200, 0x5);
    let enc = encode_block_mono_hybrid(
        &pcm,
        2,
        &shaped(HybridShaping::Static(30000), false),
        0,
        1200,
    )
    .unwrap();
    assert_pair_round_trip(&pcm, &enc);
}

#[test]
fn format_hybrid_refuses_empty_and_odd_stereo() {
    let o = HybridOptions::default();
    assert!(matches!(
        encode_block_mono_hybrid_float(&bits_of(&[]), &o, 0, 0),
        Err(Error::EncodeEmptyAudio)
    ));
    assert!(matches!(
        encode_block_stereo_hybrid_float(&bits_of(&[1.0]), &o, 0, 1),
        Err(Error::EncodeStereoOddLength(1))
    ));
    assert!(matches!(
        encode_block_mono_hybrid_int32(&[], &o, 0, 0),
        Err(Error::EncodeEmptyAudio)
    ));
    assert!(matches!(
        encode_block_stereo_hybrid_int32(&[1], &o, 0, 1),
        Err(Error::EncodeStereoOddLength(1))
    ));
}
