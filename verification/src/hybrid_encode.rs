//! Hybrid encoders: a lossy main stream, and a correction stream that makes
//! it lossless.
use vstd::prelude::*;
use crate::block::{copy_samples, second_passes, second_sides, undo_joint, undo_joint_buffer};
use crate::block_header::{Flags, flag_word};
use crate::block_law::int32_format;
use crate::block_writer::{Entry, Format, FormatExtras, build_block, chain_bytes, copy_bytes, decorr_entries, entries_view, entry_if, extension_in, framed, frames_of, ids_fit, join_stereo, lemma_ids_concat, magnitude_bits, profile_entries, push_entry, top_magnitude, working, write_chain, zero_coder, zero_entropy, zero_seed_payload};
use crate::crc::{CRC_INIT, crc_mono, crc_over, crc_stereo_interleaved};
use crate::decorrelation::{DecorrPass, mono_ready, states};
use crate::encode::{float_format_extras, int32_format_extras, shape_error};
use crate::encode_stream::{DEFAULT_BLOCK_SAMPLES, block_frames, block_step, signed_patterns, window};
use crate::error::{Error, Result};
use crate::float::{FloatDeconstruction, deconstruct_float_raised, float_extension, float_integers, float_plan, plan_info, signed_all};
use crate::hybrid::{HybridProfile, HybridState, ShapingState};
use crate::hybrid_carry::{HybridCarry, HybridOptions, JOINT_BALANCE_WORD, clamped_rate, codes_joint, copy_slice, derive_hybrid_passes, hybrid_passes, hybrid_payloads, triple_view};
use crate::hybrid_stream::{HybridMachine, HybridStreams, hybrid_entropy, hybrid_start, streams_match};
use crate::hybrid_words::{HybridCoder, HybridOut, Layout, encode_hybrid};
use crate::int32::{Int32Deconstruction, deconstruct_int32, int32_reduced, optional_bytes, words_of};
use crate::bits::pack_bits;
use crate::logpack::word_bytes;
use crate::packed_samples::{Coder, bytes_of, padded};
use crate::passes::Payloads;
use crate::samples::AdaptiveMedians;
use crate::stream::{decode_stream, patterns, stream_samples};

verus! {

// ---------------------------------------------------------------------------
// One block
// ---------------------------------------------------------------------------

/// The samples of a hybrid block as they are coded.
pub open spec fn hybrid_coded_samples(x: Seq<i32>, mono: bool, opts: HybridOptions) -> Seq<i32> {
    working(x, codes_joint(mono, opts))
}

/// The balance word of a block.
pub open spec fn balance_word(joint: bool) -> int {
    if joint {
        JOINT_BALANCE_WORD as int
    } else {
        0
    }
}

/// The rate profile of a block.
pub open spec fn profile_payload(mono: bool, opts: HybridOptions, level: (i16, i16)) -> Seq<u8> {
    let rate = word_bytes(clamped_rate(opts.bitrate_word as int));
    if mono {
        word_bytes(level.0 as int) + rate
    } else {
        word_bytes(level.0 as int) + word_bytes(level.1 as int) + rate + word_bytes(
            balance_word(codes_joint(mono, opts)),
        )
    }
}

/// The levels that a block starts from.
pub open spec fn start_levels(mono: bool, opts: HybridOptions, level: (i16, i16)) -> HybridState {
    HybridState::seeded(
        level.0,
        if mono {
            0
        } else {
            level.1
        },
        clamped_rate(opts.bitrate_word as int) as i32,
        balance_word(codes_joint(mono, opts)) as i32,
        !mono,
    )
}

/// The state that a block starts from.
pub open spec fn block_start(
    x: Seq<i32>,
    mono: bool,
    opts: HybridOptions,
    level: (i16, i16),
    shaping: Option<Seq<u8>>,
) -> HybridCoder {
    let ps = hybrid_passes(hybrid_coded_samples(x, mono, opts), mono, opts.profile);
    hybrid_start(
        zero_coder(),
        start_levels(mono, opts, level),
        ps,
        second_sides(ps),
        ShapingState::seeded(shaping, !mono),
    )
}

/// The layout of a hybrid block.
pub open spec fn hybrid_layout(mono: bool, opts: HybridOptions) -> Layout {
    Layout { stereo: !mono, joint: codes_joint(mono, opts) }
}

/// What coding a block's samples gives.
pub open spec fn coded_block_bits(
    x: Seq<i32>,
    mono: bool,
    opts: HybridOptions,
    level: (i16, i16),
    shaping: Option<Seq<u8>>,
) -> core::result::Result<HybridOut, Error> {
    encode_hybrid(
        hybrid_coded_samples(x, mono, opts),
        0,
        hybrid_layout(mono, opts),
        block_start(x, mono, opts, level, shaping),
        opts.correction,
    )
}

/// The lossy samples as they come out.
pub open spec fn lossy_samples(o: HybridOut, mono: bool, opts: HybridOptions) -> Seq<i32> {
    if codes_joint(mono, opts) {
        undo_joint(o.lossy)
    } else {
        o.lossy
    }
}

/// The greater of two bit lengths.
pub open spec fn greater(a: nat, b: nat) -> nat {
    if a >= b {
        a
    } else {
        b
    }
}

/// The fields of a hybrid block's flag word.
pub open spec fn hybrid_flags(
    mono: bool,
    joint: bool,
    bytes_per_sample: u8,
    shaped: bool,
    format: Option<Format>,
    top: nat,
) -> Flags {
    Flags {
        raw: 0,
        bytes_minus_one: if bytes_per_sample <= 1 {
            0
        } else if bytes_per_sample >= 4 {
            3
        } else {
            (bytes_per_sample - 1) as u8
        },
        mono,
        hybrid: true,
        joint_stereo: joint,
        cross_decorrelation: false,
        hybrid_noise_shaping: shaped,
        float_data: format is Some && format->Some_0.float,
        int32_mode: format is Some && !format->Some_0.float,
        hybrid_bitrate_noise: true,
        hybrid_balance_noise: !mono,
        multichannel_start: true,
        multichannel_end: true,
        left_shift: 0,
        max_magnitude: if top >= 31 {
            31
        } else {
            top as u8
        },
        sample_rate_index: 0,
        new_shaping: shaped,
        false_stereo: false,
    }
}

/// The sub-blocks of a main block.
pub open spec fn main_entries(
    mono: bool,
    decorr: Option<Payloads>,
    profile: Seq<u8>,
    format: Option<Format>,
    packed: Seq<u8>,
) -> Seq<(u8, Seq<u8>)> {
    decorr_entries(decorr) + seq![(0x05u8, zero_entropy(mono))] + seq![(0x06u8, profile)] + profile_entries(format) + seq![
        (0x0Au8, packed),
    ]
}

/// A payload, where it holds anything.
pub open spec fn unless_empty(p: Seq<u8>) -> Option<Seq<u8>> {
    if p.len() == 0 {
        None
    } else {
        Some(p)
    }
}

/// The sub-blocks of a correction block.
pub open spec fn fix_entries(shaping: Option<Seq<u8>>, fix: Seq<u8>, format: Option<Format>) -> Seq<(u8, Seq<u8>)> {
    entry_if(0x07u8, shaping) + entry_if(0x0Bu8, unless_empty(fix)) + entry_if(0x0Cu8, extension_in(format))
}

/// A hybrid block, with the states that it ends in.
#[verifier::ext_equal]
pub struct HybridParts {
    /// The main block.
    pub main: Seq<u8>,
    /// The correction block.
    pub fix: Option<Seq<u8>>,
    /// The levels at the end.
    pub level: HybridState,
    /// The shaping filter at the end.
    pub shape: ShapingState,
}

/// The bytes of a chain behind a header.
pub open spec fn framed_chain(
    es: Seq<(u8, Seq<u8>)>,
    block_index: u32,
    total_samples: u32,
    block_samples: u32,
    flags: u32,
    crc: u32,
) -> core::result::Result<Seq<u8>, Error> {
    match chain_bytes(es) {
        Err(e) => Err(e),
        Ok(meta) => framed(meta, block_index, total_samples, block_samples, flags, crc),
    }
}

/// The flag word of a hybrid block.
pub open spec fn hybrid_raw(
    x: Seq<i32>,
    o: HybridOut,
    mono: bool,
    bytes_per_sample: u8,
    opts: HybridOptions,
    shaping: Option<Seq<u8>>,
    format: Option<Format>,
) -> Flags {
    hybrid_flags(
        mono,
        codes_joint(mono, opts),
        bytes_per_sample,
        shaping is Some,
        format,
        greater(greater(top_magnitude(x), top_magnitude(lossy_samples(o, mono, opts))), o.width),
    )
}

/// The main block of coded bits.
pub open spec fn main_block(
    x: Seq<i32>,
    o: HybridOut,
    mono: bool,
    bytes_per_sample: u8,
    opts: HybridOptions,
    level: (i16, i16),
    shaping: Option<Seq<u8>>,
    format: Option<Format>,
    block_index: u32,
    total_samples: u32,
) -> core::result::Result<Seq<u8>, Error> {
    let coded = hybrid_coded_samples(x, mono, opts);
    match chain_bytes(
        main_entries(
            mono,
            hybrid_payloads(coded, mono, opts.profile),
            profile_payload(mono, opts, level),
            format,
            padded(pack_bits(o.main)),
        ),
    ) {
        Err(e) => Err(e),
        Ok(meta) => if frames_of(x, mono) > u32::MAX {
            Err(Error::EncodeBlockTooLarge(x.len() as usize))
        } else {
            framed(
                meta,
                block_index,
                total_samples,
                frames_of(x, mono) as u32,
                flag_word(hybrid_raw(x, o, mono, bytes_per_sample, opts, shaping, format)) as u32,
                crc_over(lossy_samples(o, mono, opts), CRC_INIT),
            )
        },
    }
}

/// The correction block of coded bits.
pub open spec fn fix_block(
    x: Seq<i32>,
    o: HybridOut,
    mono: bool,
    bytes_per_sample: u8,
    opts: HybridOptions,
    shaping: Option<Seq<u8>>,
    format: Option<Format>,
    block_index: u32,
    total_samples: u32,
) -> core::result::Result<Seq<u8>, Error> {
    framed_chain(
        fix_entries(shaping, padded(pack_bits(o.fix)), format),
        block_index,
        total_samples,
        frames_of(x, mono) as u32,
        flag_word(hybrid_raw(x, o, mono, bytes_per_sample, opts, shaping, format)) as u32,
        crc_over(x, CRC_INIT),
    )
}

/// A hybrid block.
#[verifier::opaque]
pub open spec fn hybrid_block(
    x: Seq<i32>,
    mono: bool,
    bytes_per_sample: u8,
    opts: HybridOptions,
    level: (i16, i16),
    shaping: Option<Seq<u8>>,
    format: Option<Format>,
    block_index: u32,
    total_samples: u32,
) -> core::result::Result<HybridParts, Error> {
    match shape_error(x, mono) {
        Some(e) => Err(e),
        None => match coded_block_bits(x, mono, opts, level, shaping) {
            Err(e) => Err(e),
            Ok(o) => match main_block(
                x,
                o,
                mono,
                bytes_per_sample,
                opts,
                level,
                shaping,
                format,
                block_index,
                total_samples,
            ) {
                Err(e) => Err(e),
                Ok(main) => if !opts.correction {
                    Ok(HybridParts { main, fix: None, level: o.end.level, shape: o.end.shape })
                } else {
                    match fix_block(
                        x,
                        o,
                        mono,
                        bytes_per_sample,
                        opts,
                        shaping,
                        format,
                        block_index,
                        total_samples,
                    ) {
                        Err(e) => Err(e),
                        Ok(fix) => Ok(
                            HybridParts { main, fix: Some(fix), level: o.end.level, shape: o.end.shape },
                        ),
                    }
                },
            },
        },
    }
}

fn push_word(out: &mut Vec<u8>, word: i16)
    ensures
        final(out)@ == old(out)@ + word_bytes(word as int),
{
    let raw: i32 = word as i32;
    let w: i32 = if raw < 0 {
        raw + 65536
    } else {
        raw
    };
    assert(w == word as int % 65536);
    out.push((w % 256) as u8);
    out.push((w / 256) as u8);
    assert(out@ =~= old(out)@ + word_bytes(word as int));
}

fn rate_word(opts: &HybridOptions) -> (r: i16)
    ensures
        r == clamped_rate(opts.bitrate_word as int),
{
    if opts.bitrate_word < 0 {
        0
    } else if opts.bitrate_word > 32767 {
        32767
    } else {
        opts.bitrate_word as i16
    }
}

fn make_profile_payload(mono: bool, opts: &HybridOptions, level: (i16, i16)) -> (r: Vec<u8>)
    ensures
        r@ == profile_payload(mono, *opts, level),
{
    let mut out: Vec<u8> = Vec::new();
    push_word(&mut out, level.0);
    if !mono {
        push_word(&mut out, level.1);
    }
    push_word(&mut out, rate_word(opts));
    if !mono {
        push_word(
            &mut out,
            if opts.joint {
                256
            } else {
                0
            },
        );
    }
    assert(out@ =~= profile_payload(mono, *opts, level));
    out
}

fn make_machine(
    mono: bool,
    opts: &HybridOptions,
    level: (i16, i16),
    shaping: Option<&[u8]>,
    passes: Vec<DecorrPass>,
) -> (r: HybridMachine)
    requires
        mono_ready(states(passes@)),
    ensures
        r@ == hybrid_start(
            zero_coder(),
            start_levels(mono, *opts, level),
            states(passes@),
            second_sides(states(passes@)),
            ShapingState::seeded(crate::block::slice_view(shaping), !mono),
        ),
        r@.wf(),
{
    let profile = HybridProfile {
        level_words: [
            level.0,
            if mono {
                0
            } else {
                level.1
            },
        ],
        bitrate: rate_word(opts) as i32,
        balance: if !mono && opts.joint {
            JOINT_BALANCE_WORD
        } else {
            0
        },
        stereo: !mono,
    };
    let levels: HybridState = HybridState::from_profile(&profile);
    let shape: ShapingState = ShapingState::from_shaping_words(shaping, !mono);
    let zero = AdaptiveMedians { m0: 0, m1: 0, m2: 0 };
    let seconds: Vec<DecorrPass> = second_passes(&passes);
    proof {
        assert(!crate::block::some_cross(states(passes@)));
        crate::block::lemma_sides_ready(states(passes@), !mono);
    }
    HybridMachine::new(Coder::new(zero, zero), levels, passes, seconds, shape)
}

/// Codes a mono block.
fn hybrid_entropy_mono(coded: &[i32], machine: &mut HybridMachine, correction: bool) -> (r: Result<HybridStreams>)
    requires
        old(machine)@.wf(),
        !old(machine)@.coder.run.last_zero,
        !old(machine)@.coder.run.last_one,
    ensures
        match encode_hybrid(coded@, 0, Layout { stereo: false, joint: false }, old(machine)@, correction) {
            Err(e) => r is Err && r->Err_0 == e,
            Ok(o) => r is Ok && streams_match(r->Ok_0, o, correction) && final(machine)@ == o.end
                && r->Ok_0.max_res_bits <= 32,
        },
{
    hybrid_entropy(coded, Layout { stereo: false, joint: false }, machine, correction)
}

/// Codes a stereo block; shaping works on the output channels of a joint one.
fn hybrid_entropy_stereo(coded: &[i32], joint: bool, machine: &mut HybridMachine, correction: bool) -> (r: Result<
    HybridStreams,
>)
    requires
        old(machine)@.wf(),
        !old(machine)@.coder.run.last_zero,
        !old(machine)@.coder.run.last_one,
    ensures
        match encode_hybrid(coded@, 0, Layout { stereo: true, joint }, old(machine)@, correction) {
            Err(e) => r is Err && r->Err_0 == e,
            Ok(o) => r is Ok && streams_match(r->Ok_0, o, correction) && final(machine)@ == o.end
                && r->Ok_0.max_res_bits <= 32,
        },
{
    hybrid_entropy(coded, Layout { stereo: true, joint }, machine, correction)
}

fn make_hybrid_flags(
    mono: bool,
    joint: bool,
    bytes_per_sample: u8,
    shaped: bool,
    format: Option<&FormatExtras>,
    top: u32,
) -> (r: u32)
    ensures
        r == flag_word(
            hybrid_flags(
                mono,
                joint,
                bytes_per_sample,
                shaped,
                match format {
                    Some(f) => Some(f@),
                    None => None,
                },
                top as nat,
            ),
        ),
{
    let flags = Flags {
        raw: 0,
        bytes_minus_one: if bytes_per_sample <= 1 {
            0
        } else if bytes_per_sample >= 4 {
            3
        } else {
            bytes_per_sample - 1
        },
        mono,
        hybrid: true,
        joint_stereo: joint,
        cross_decorrelation: false,
        hybrid_noise_shaping: shaped,
        float_data: match format {
            Some(f) => f.float,
            None => false,
        },
        int32_mode: match format {
            Some(f) => !f.float,
            None => false,
        },
        hybrid_bitrate_noise: true,
        hybrid_balance_noise: !mono,
        multichannel_start: true,
        multichannel_end: true,
        left_shift: 0,
        max_magnitude: if top >= 31 {
            31
        } else {
            top as u8
        },
        sample_rate_index: 0,
        new_shaping: shaped,
        false_stereo: false,
    };
    flags.to_raw()
}

/// The optional value of a format.
pub open spec fn format_view(format: Option<&FormatExtras>) -> Option<Format> {
    match format {
        Some(f) => Some(f@),
        None => None,
    }
}

fn gather_main_entries(
    mono: bool,
    decorr: Option<(Vec<u8>, Vec<u8>, Vec<u8>)>,
    profile: Vec<u8>,
    format: Option<&FormatExtras>,
    packed: Vec<u8>,
) -> (r: Vec<Entry>)
    ensures
        entries_view(r@) == main_entries(mono, triple_view(decorr), profile@, format_view(format), packed@),
        ids_fit(entries_view(r@)),
{
    let mut es: Vec<Entry> = Vec::new();
    assert(entries_view(es@) =~= Seq::empty());
    let ghost triple = triple_view(decorr);
    if let Some((terms, weights, samples)) = decorr {
        push_entry(&mut es, 0x02, terms);
        push_entry(&mut es, 0x03, weights);
        push_entry(&mut es, 0x04, samples);
    }
    let ghost part1 = decorr_entries(triple);
    assert(entries_view(es@) =~= part1);
    push_entry(&mut es, 0x05, zero_seed_payload(mono));
    push_entry(&mut es, 0x06, profile);
    let ghost part2 = part1 + seq![(0x05u8, zero_entropy(mono))] + seq![(0x06u8, profile@)];
    assert(entries_view(es@) =~= part2);
    if let Some(f) = format {
        push_entry(
            &mut es,
            if f.float {
                0x08
            } else {
                0x09
            },
            copy_bytes(f.profile.as_slice()),
        );
    }
    let ghost part3 = part2 + profile_entries(format_view(format));
    assert(entries_view(es@) =~= part3);
    push_entry(&mut es, 0x0A, packed);
    proof {
        lemma_main_ids(mono, triple, profile@, format_view(format), packed@);
    }
    es
}

/// The IDs of a main block lie within six bits.
pub proof fn lemma_main_ids(
    mono: bool,
    decorr: Option<Payloads>,
    profile: Seq<u8>,
    format: Option<Format>,
    packed: Seq<u8>,
)
    ensures
        ids_fit(main_entries(mono, decorr, profile, format, packed)),
{
    let a = decorr_entries(decorr);
    let b = seq![(0x05u8, zero_entropy(mono))];
    let c = seq![(0x06u8, profile)];
    let d = profile_entries(format);
    let e = seq![(0x0Au8, packed)];
    lemma_ids_concat(a, b);
    lemma_ids_concat(a + b, c);
    lemma_ids_concat(a + b + c, d);
    lemma_ids_concat(a + b + c + d, e);
}

fn gather_fix_entries(shaping: Option<&[u8]>, fix: Vec<u8>, format: Option<&FormatExtras>) -> (r: Vec<Entry>)
    ensures
        entries_view(r@) == fix_entries(crate::block::slice_view(shaping), fix@, format_view(format)),
        ids_fit(entries_view(r@)),
{
    let mut es: Vec<Entry> = Vec::new();
    assert(entries_view(es@) =~= Seq::empty());
    let ghost held = fix@;
    if let Some(p) = shaping {
        push_entry(&mut es, 0x07, copy_bytes(p));
    }
    let ghost part1 = entry_if(0x07u8, crate::block::slice_view(shaping));
    assert(entries_view(es@) =~= part1);
    if fix.len() > 0 {
        push_entry(&mut es, 0x0B, fix);
    }
    let ghost part2 = part1 + entry_if(0x0Bu8, unless_empty(held));
    assert(entries_view(es@) =~= part2);
    if let Some(f) = format {
        if let Some(extension) = &f.extension {
            push_entry(&mut es, 0x0C, copy_bytes(extension.as_slice()));
        }
    }
    assert(entries_view(es@) =~= part2 + entry_if(0x0Cu8, extension_in(format_view(format))));
    proof {
        lemma_fix_ids(crate::block::slice_view(shaping), held, format_view(format));
    }
    es
}

/// The IDs of a correction block lie within six bits.
pub proof fn lemma_fix_ids(shaping: Option<Seq<u8>>, fix: Seq<u8>, format: Option<Format>)
    ensures
        ids_fit(fix_entries(shaping, fix, format)),
{
    let a = entry_if(0x07u8, shaping);
    let b = entry_if(0x0Bu8, unless_empty(fix));
    let c = entry_if(0x0Cu8, extension_in(format));
    lemma_ids_concat(a, b);
    lemma_ids_concat(a + b, c);
}

/// A hybrid block, with the states that it ends in.
#[derive(Debug)]
pub struct HybridBlock {
    /// The main block.
    pub main: Vec<u8>,
    /// The correction block.
    pub fix: Option<Vec<u8>>,
    /// The levels at the end.
    pub level: HybridState,
    /// The shaping filter at the end.
    pub shape: ShapingState,
}

impl View for HybridBlock {
    type V = HybridParts;

    open spec fn view(&self) -> HybridParts {
        HybridParts { main: self.main@, fix: optional_bytes(self.fix), level: self.level, shape: self.shape }
    }
}

/// The parts of a result.
pub open spec fn parts_of(r: Result<HybridBlock>) -> core::result::Result<HybridParts, Error> {
    match r {
        Ok(b) => Ok(b@),
        Err(e) => Err(e),
    }
}

fn frame_chain(
    entries: &Vec<Entry>,
    block_index: u32,
    total_samples: u32,
    block_samples: u32,
    flags: u32,
    crc: u32,
) -> (r: Result<Vec<u8>>)
    requires
        ids_fit(entries_view(entries@)),
    ensures
        bytes_of(r) == framed_chain(
            entries_view(entries@),
            block_index,
            total_samples,
            block_samples,
            flags,
            crc,
        ),
{
    match write_chain(entries) {
        Err(e) => Err(e),
        Ok(meta) => build_block(&meta, block_index, total_samples, block_samples, flags, crc),
    }
}

fn code_samples(
    coded: &Vec<i32>,
    mono: bool,
    opts: &HybridOptions,
    level: (i16, i16),
    shaping: Option<&[u8]>,
    passes: Vec<DecorrPass>,
) -> (r: Result<(HybridStreams, HybridState, ShapingState)>)
    requires
        mono_ready(states(passes@)),
    ensures
        match encode_hybrid(
            coded@,
            0,
            hybrid_layout(mono, *opts),
            hybrid_start(
                zero_coder(),
                start_levels(mono, *opts, level),
                states(passes@),
                second_sides(states(passes@)),
                ShapingState::seeded(crate::block::slice_view(shaping), !mono),
            ),
            opts.correction,
        ) {
            Err(e) => r is Err && r->Err_0 == e,
            Ok(o) => r is Ok && streams_match(r->Ok_0.0, o, opts.correction) && r->Ok_0.0.max_res_bits <= 32
                && r->Ok_0.1 == o.end.level && r->Ok_0.2 == o.end.shape,
        },
{
    let mut machine: HybridMachine = make_machine(mono, opts, level, shaping, passes);
    let coding: Result<HybridStreams> = if mono {
        hybrid_entropy_mono(coded.as_slice(), &mut machine, opts.correction)
    } else {
        hybrid_entropy_stereo(coded.as_slice(), opts.joint, &mut machine, opts.correction)
    };
    match coding {
        Err(e) => Err(e),
        Ok(streams) => Ok((streams, machine.levels(), machine.shaping())),
    }
}

/// Writes a hybrid block of integers.
pub fn encode_hybrid_block_ints(
    pcm: &[i32],
    mono: bool,
    bytes_per_sample: u8,
    opts: &HybridOptions,
    level: (i16, i16),
    shaping: Option<&[u8]>,
    format: Option<&FormatExtras>,
    block_index: u32,
    total_samples: u32,
) -> (r: Result<HybridBlock>)
    ensures
        parts_of(r) == hybrid_block(
            pcm@,
            mono,
            bytes_per_sample,
            *opts,
            level,
            crate::block::slice_view(shaping),
            format_view(format),
            block_index,
            total_samples,
        ),
{
    proof {
        reveal(hybrid_block);
    }
    if pcm.len() == 0 {
        return Err(Error::EncodeEmptyAudio);
    }
    if !mono && pcm.len() % 2 != 0 {
        return Err(Error::EncodeStereoOddLength(pcm.len()));
    }
    let joint: bool = !mono && opts.joint;
    let ghost shaping_view = crate::block::slice_view(shaping);
    let coded: Vec<i32> = if joint {
        join_stereo(pcm)
    } else {
        copy_slice(pcm)
    };
    let (decorr, passes) = derive_hybrid_passes(coded.as_slice(), mono, opts.profile);
    let ghost coding = coded_block_bits(pcm@, mono, *opts, level, shaping_view);
    let (streams, end_level, end_shape): (HybridStreams, HybridState, ShapingState) = match code_samples(
        &coded,
        mono,
        opts,
        level,
        shaping,
        passes,
    ) {
        Err(e) => {
            return Err(e);
        }
        Ok(s) => s,
    };
    let ghost o = coding->Ok_0;
    proof {
        lemma_lossy_len(pcm@, mono, *opts, level, shaping_view);
    }
    let mut lossy: Vec<i32> = streams.coarse_out;
    if joint {
        undo_joint_buffer(&mut lossy);
    }
    let lossy_crc: u32 = if mono {
        crc_mono(lossy.as_slice())
    } else {
        crc_stereo_interleaved(lossy.as_slice())
    };
    let lossless_crc: u32 = if mono {
        crc_mono(pcm)
    } else {
        crc_stereo_interleaved(pcm)
    };
    let a: u32 = magnitude_bits(pcm);
    let b: u32 = magnitude_bits(lossy.as_slice());
    let ab: u32 = if a >= b {
        a
    } else {
        b
    };
    let top: u32 = if ab >= streams.max_res_bits {
        ab
    } else {
        streams.max_res_bits
    };
    let flags: u32 = make_hybrid_flags(mono, joint, bytes_per_sample, shaping.is_some(), format, top);
    assert(flags == flag_word(
        hybrid_raw(pcm@, o, mono, bytes_per_sample, *opts, shaping_view, format_view(format)),
    ));
    let profile: Vec<u8> = make_profile_payload(mono, opts, level);
    let entries: Vec<Entry> = gather_main_entries(mono, decorr, profile, format, streams.main);
    let meta: Vec<u8> = match write_chain(&entries) {
        Err(e) => {
            return Err(e);
        }
        Ok(m) => m,
    };
    let frames: usize = if mono {
        pcm.len()
    } else {
        pcm.len() / 2
    };
    if frames as u64 > u32::MAX as u64 {
        return Err(Error::EncodeBlockTooLarge(pcm.len()));
    }
    let main: Vec<u8> = match build_block(&meta, block_index, total_samples, frames as u32, flags, lossy_crc) {
        Err(e) => {
            return Err(e);
        }
        Ok(m) => m,
    };
    match streams.wvc {
        None => Ok(HybridBlock { main, fix: None, level: end_level, shape: end_shape }),
        Some(payload) => {
            let fix_list: Vec<Entry> = gather_fix_entries(shaping, payload, format);
            match frame_chain(&fix_list, block_index, total_samples, frames as u32, flags, lossless_crc) {
                Err(e) => Err(e),
                Ok(fix) => Ok(HybridBlock { main, fix: Some(fix), level: end_level, shape: end_shape }),
            }
        }
    }
}

/// A coded block has a lossy sample for every sample.
pub proof fn lemma_lossy_len(
    x: Seq<i32>,
    mono: bool,
    opts: HybridOptions,
    level: (i16, i16),
    shaping: Option<Seq<u8>>,
)
    requires
        coded_block_bits(x, mono, opts, level, shaping) is Ok,
    ensures
        coded_block_bits(x, mono, opts, level, shaping)->Ok_0.lossy.len() == x.len(),
{
    lemma_hybrid_out_len(
        hybrid_coded_samples(x, mono, opts),
        0,
        hybrid_layout(mono, opts),
        block_start(x, mono, opts, level, shaping),
        opts.correction,
    );
}

proof fn lemma_hybrid_out_len(x: Seq<i32>, i: int, m: Layout, st: HybridCoder, correction: bool)
    requires
        0 <= i <= x.len(),
        encode_hybrid(x, i, m, st, correction) is Ok,
    ensures
        encode_hybrid(x, i, m, st, correction)->Ok_0.lossy.len() == x.len() - i,
    decreases x.len() - i,
{
    if i < x.len() {
        if crate::hybrid_words::opens_run(x, i, m, st) {
            let n = crate::hybrid_words::residual_run(x, i, m, st);
            crate::hybrid_words::lemma_residual_run(x, i, m, st);
            crate::block::lemma_zero_slots_len(st, i, n, m);
            let zero = crate::hybrid_words::zero_slots(st, i, n, m);
            lemma_hybrid_out_len(x, i + n, m, zero.0.cleared(), correction);
        } else {
            let w = crate::hybrid_words::slot_word(x, i, m, st, correction)->Ok_0;
            lemma_hybrid_out_len(x, i + 1, m, w.after, correction);
        }
    }
}

// ---------------------------------------------------------------------------
// Units of a stream
// ---------------------------------------------------------------------------

/// What the samples of a hybrid stream are.
#[derive(Debug, Clone, Copy, PartialEq, Eq, Structural)]
pub enum SampleKind {
    /// Integers of some bytes per sample.
    Plain(u8),
    /// Floating-point patterns.
    Float,
    /// Wide integers.
    Int32,
}

impl SampleKind {
    /// Bytes per sample.
    pub open spec fn bytes(self) -> u8 {
        match self {
            SampleKind::Plain(n) => n,
            _ => 4,
        }
    }

    /// The integers that stand for the samples.
    pub open spec fn integers(self, x: Seq<i32>) -> Seq<i32> {
        match self {
            SampleKind::Plain(_) => x,
            SampleKind::Float => float_integers(words_of(x), float_plan(words_of(x), true)),
            SampleKind::Int32 => int32_reduced(x),
        }
    }

    /// The format of the samples.
    pub open spec fn format(self, x: Seq<i32>) -> Option<Format> {
        match self {
            SampleKind::Plain(_) => None,
            SampleKind::Float => Some(raised_format(words_of(x))),
            SampleKind::Int32 => Some(int32_format(x)),
        }
    }
}

/// The format of patterns in a lossy stream.
pub open spec fn raised_format(x: Seq<u32>) -> Format {
    let i = plan_info(float_plan(x, true));
    Format {
        float: true,
        profile: seq![i.float_flags, i.float_shift, i.float_max_exp, i.float_norm_exp],
        extension: float_extension(x, float_plan(x, true)),
    }
}

/// One block of a hybrid stream, and what is carried behind it.
#[verifier::ext_equal]
pub struct HybridUnit {
    /// The main block.
    pub main: Seq<u8>,
    /// The correction block.
    pub fix: Option<Seq<u8>>,
    /// What is carried on.
    pub carry: HybridCarry,
}

/// A hybrid block of some samples behind what is carried.
pub open spec fn unit_block(
    x: Seq<i32>,
    mono: bool,
    kind: SampleKind,
    opts: HybridOptions,
    carry: HybridCarry,
    block_index: u32,
    total_samples: u32,
) -> core::result::Result<HybridParts, Error> {
    let ints = kind.integers(x);
    hybrid_block(
        ints,
        mono,
        kind.bytes(),
        opts,
        carry.levels(ints, mono, opts),
        carry.payload(frames_of(x, mono) as nat),
        kind.format(x),
        block_index,
        total_samples,
    )
}

/// One block of a hybrid stream. A block of patterns is refused where its main
/// block alone does not decode.
#[verifier::opaque]
pub open spec fn hybrid_unit(
    x: Seq<i32>,
    mono: bool,
    kind: SampleKind,
    opts: HybridOptions,
    carry: HybridCarry,
    block_index: u32,
    total_samples: u32,
) -> core::result::Result<HybridUnit, Error> {
    match shape_error(x, mono) {
        Some(e) => Err(e),
        None => match unit_block(x, mono, kind, opts, carry, block_index, total_samples) {
            Err(e) => Err(e),
            Ok(p) => match (kind, stream_samples(p.main, false)) {
                (SampleKind::Float, Err(e)) => Err(e),
                _ => Ok(HybridUnit { main: p.main, fix: p.fix, carry: carry.after(p.level, p.shape) }),
            },
        },
    }
}

/// A carry whose step fits.
pub open spec fn carry_ok(carry: HybridCarry) -> bool {
    i32::MIN <= carry.requested_delta <= i32::MAX
}

/// The integers and the format of a buffer.
fn store_samples(x: &[i32], kind: SampleKind) -> (r: (Vec<i32>, Option<FormatExtras>))
    ensures
        r.0@ == kind.integers(x@),
        kind.format(x@) == (match r.1 {
            Some(f) => Some(f@),
            None => None,
        }),
{
    match kind {
        SampleKind::Plain(_) => (copy_slice(x), None),
        SampleKind::Float => {
            let words: Vec<u32> = patterns(x);
            let d: FloatDeconstruction = deconstruct_float_raised(words.as_slice());
            let ints: Vec<i32> = copy_samples(&d.integers);
            let format: FormatExtras = float_format_extras(d);
            assert(format@ =~= raised_format(words_of(x@)));
            (ints, Some(format))
        }
        SampleKind::Int32 => {
            let d: Int32Deconstruction = deconstruct_int32(x);
            let ints: Vec<i32> = copy_samples(&d.reduced);
            let format: FormatExtras = int32_format_extras(d);
            assert(format@ =~= int32_format(x@));
            (ints, Some(format))
        }
    }
}

fn encode_unit(
    x: &[i32],
    mono: bool,
    kind: SampleKind,
    opts: &HybridOptions,
    carry: &mut HybridCarry,
    block_index: u32,
    total_samples: u32,
) -> (r: Result<(Vec<u8>, Option<Vec<u8>>)>)
    requires
        carry_ok(*old(carry)),
    ensures
        carry_ok(*final(carry)),
        match hybrid_unit(x@, mono, kind, *opts, *old(carry), block_index, total_samples) {
            Err(e) => r is Err && r->Err_0 == e,
            Ok(u) => r is Ok && r->Ok_0.0@ == u.main && optional_bytes(r->Ok_0.1) == u.fix && *final(carry) == u.carry,
        },
{
    proof {
        reveal(hybrid_unit);
    }
    if x.len() == 0 {
        return Err(Error::EncodeEmptyAudio);
    }
    if !mono && x.len() % 2 != 0 {
        return Err(Error::EncodeStereoOddLength(x.len()));
    }
    let (ints, extras) = store_samples(x, kind);
    let format: Option<&FormatExtras> = match &extras {
        Some(f) => Some(f),
        None => None,
    };
    let frames: usize = if mono {
        x.len()
    } else {
        x.len() / 2
    };
    let level: (i16, i16) = carry.level_words(ints.as_slice(), mono, opts);
    let shaping: Option<Vec<u8>> = carry.payload_for_block(frames);
    let shaping_slice: Option<&[u8]> = match &shaping {
        Some(v) => Some(v.as_slice()),
        None => None,
    };
    let bytes: u8 = match kind {
        SampleKind::Plain(n) => n,
        _ => 4,
    };
    match encode_hybrid_block_ints(
        ints.as_slice(),
        mono,
        bytes,
        opts,
        level,
        shaping_slice,
        format,
        block_index,
        total_samples,
    ) {
        Err(e) => Err(e),
        Ok(block) => {
            if let SampleKind::Float = kind {
                if let Err(e) = decode_stream(block.main.as_slice()) {
                    return Err(e);
                }
            }
            carry.absorb(&block.level, &block.shape);
            Ok((block.main, block.fix))
        }
    }
}

// ---------------------------------------------------------------------------
// Blocks and streams
// ---------------------------------------------------------------------------

/// An encoded hybrid stream, or one block of it.
#[derive(Debug, Clone, PartialEq, Eq)]
pub struct HybridEncoded {
    /// The main stream.
    pub wv: Vec<u8>,
    /// The correction stream, where one was asked for.
    pub wvc: Option<Vec<u8>>,
}

/// An encoded hybrid stream as a value.
#[verifier::ext_equal]
pub struct HybridFiles {
    /// The main stream.
    pub main: Seq<u8>,
    /// The correction stream, where one was asked for.
    pub fix: Option<Seq<u8>>,
}

/// The streams of a result.
pub open spec fn files_of(r: Result<HybridEncoded>) -> core::result::Result<HybridFiles, Error> {
    match r {
        Ok(e) => Ok(HybridFiles { main: e.wv@, fix: optional_bytes(e.wvc) }),
        Err(e) => Err(e),
    }
}

/// One hybrid block on its own.
pub open spec fn hybrid_single(
    x: Seq<i32>,
    mono: bool,
    kind: SampleKind,
    opts: HybridOptions,
    block_index: u32,
    total_samples: u32,
) -> core::result::Result<HybridFiles, Error> {
    match hybrid_unit(x, mono, kind, opts, HybridCarry::start(opts, mono), block_index, total_samples) {
        Err(e) => Err(e),
        Ok(u) => Ok(HybridFiles { main: u.main, fix: u.fix }),
    }
}

fn encode_single(
    x: &[i32],
    mono: bool,
    kind: SampleKind,
    opts: &HybridOptions,
    block_index: u32,
    total_samples: u32,
) -> (r: Result<HybridEncoded>)
    ensures
        files_of(r) == hybrid_single(x@, mono, kind, *opts, block_index, total_samples),
{
    let mut carry: HybridCarry = HybridCarry::new(opts, mono);
    match encode_unit(x, mono, kind, opts, &mut carry, block_index, total_samples) {
        Err(e) => Err(e),
        Ok((wv, wvc)) => Ok(HybridEncoded { wv, wvc }),
    }
}

/// A hybrid stream on its way out.
#[verifier::ext_equal]
pub struct HybridProgress {
    /// The main stream so far.
    pub main: Seq<u8>,
    /// The correction stream so far.
    pub fix: Seq<u8>,
    /// What is carried on.
    pub carry: HybridCarry,
    /// Frames so far.
    pub index: int,
}

/// A stream with one more block.
pub open spec fn progress_with(done: HybridProgress, u: HybridUnit, frames: int) -> HybridProgress {
    HybridProgress {
        main: done.main + u.main,
        fix: done.fix + (match u.fix {
            Some(f) => f,
            None => Seq::empty(),
        }),
        carry: u.carry,
        index: done.index + frames,
    }
}

/// A stream with the blocks of more samples, `step` samples to a block.
pub open spec fn hybrid_from(
    x: Seq<i32>,
    step: int,
    mono: bool,
    kind: SampleKind,
    opts: HybridOptions,
    total_samples: u32,
    done: HybridProgress,
) -> core::result::Result<HybridProgress, Error>
    decreases x.len(),
{
    if x.len() == 0 || step <= 0 {
        Ok(done)
    } else {
        let w = window(x, step);
        match hybrid_unit(w, mono, kind, opts, done.carry, done.index as u32, total_samples) {
            Err(e) => Err(e),
            Ok(u) => hybrid_from(
                x.skip(w.len() as int),
                step,
                mono,
                kind,
                opts,
                total_samples,
                progress_with(done, u, frames_of(w, mono)),
            ),
        }
    }
}

/// A stream before its first block.
pub open spec fn progress_start(opts: HybridOptions, mono: bool) -> HybridProgress {
    HybridProgress { main: Seq::empty(), fix: Seq::empty(), carry: HybridCarry::start(opts, mono), index: 0 }
}

/// The bytes of a hybrid stream.
pub open spec fn hybrid_files(x: Seq<i32>, block_samples: usize, mono: bool, kind: SampleKind, opts: HybridOptions) -> core::result::Result<
    HybridFiles,
    Error,
> {
    if !mono && x.len() % 2 != 0 {
        Err(Error::EncodeStereoOddLength(x.len() as usize))
    } else if frames_of(x, mono) > u32::MAX {
        Err(Error::EncodeBlockTooLarge(x.len() as usize))
    } else {
        match hybrid_from(
            x,
            block_step(block_samples, mono),
            mono,
            kind,
            opts,
            frames_of(x, mono) as u32,
            progress_start(opts, mono),
        ) {
            Err(e) => Err(e),
            Ok(p) => Ok(
                HybridFiles {
                    main: p.main,
                    fix: if opts.correction {
                        Some(p.fix)
                    } else {
                        None
                    },
                },
            ),
        }
    }
}

fn encode_files(x: &[i32], block_samples: usize, mono: bool, kind: SampleKind, opts: &HybridOptions) -> (r: Result<
    HybridEncoded,
>)
    ensures
        files_of(r) == hybrid_files(x@, block_samples, mono, kind, *opts),
{
    if !mono && x.len() % 2 != 0 {
        return Err(Error::EncodeStereoOddLength(x.len()));
    }
    let frames: usize = if mono {
        x.len()
    } else {
        x.len() / 2
    };
    if frames as u64 > u32::MAX as u64 {
        return Err(Error::EncodeBlockTooLarge(x.len()));
    }
    let total: u32 = frames as u32;
    let chunk: usize = if block_samples == 0 {
        DEFAULT_BLOCK_SAMPLES
    } else {
        block_samples
    };
    let ghost step = block_step(block_samples, mono);
    let ghost whole = hybrid_from(x@, step, mono, kind, *opts, total, progress_start(*opts, mono));
    let mut main: Vec<u8> = Vec::new();
    let mut fix: Vec<u8> = Vec::new();
    let mut carry: HybridCarry = HybridCarry::new(opts, mono);
    let mut at: usize = 0;
    let mut index: u32 = 0;
    let ghost mut done: HybridProgress = progress_start(*opts, mono);
    proof {
        assert(x@.skip(0) =~= x@);
        assert(main@ =~= done.main);
        assert(fix@ =~= done.fix);
    }
    while at < x.len()
        invariant
            at <= x.len(),
            !mono ==> x@.len() % 2 == 0 && at % 2 == 0,
            frames == frames_of(x@, mono),
            total == frames,
            chunk > 0,
            chunk == block_frames(block_samples),
            step == block_step(block_samples, mono),
            mono ==> index == at,
            !mono ==> index == at / 2,
            carry_ok(carry),
            done == (HybridProgress { main: main@, fix: fix@, carry, index: index as int }),
            whole == hybrid_from(x@, step, mono, kind, *opts, total, progress_start(*opts, mono)),
            whole == hybrid_from(x@.skip(at as int), step, mono, kind, *opts, total, done),
        decreases x.len() - at,
    {
        let left: usize = x.len() - at;
        let left_frames: usize = if mono {
            left
        } else {
            left / 2
        };
        let n: usize = if left_frames <= chunk {
            left
        } else if mono {
            chunk
        } else {
            2 * chunk
        };
        let part = &x[at..at + n];
        let ghost rest = x@.skip(at as int);
        let ghost before = done;
        proof {
            assert(part@ =~= window(rest, step));
            assert(rest.skip(n as int) =~= x@.skip(at + n));
        }
        match encode_unit(part, mono, kind, opts, &mut carry, index, total) {
            Err(e) => {
                return Err(e);
            }
            Ok((m, f)) => {
                let ghost u = HybridUnit { main: m@, fix: optional_bytes(f), carry };
                main.extend_from_slice(m.as_slice());
                if let Some(c) = f {
                    fix.extend_from_slice(c.as_slice());
                }
                proof {
                    done = progress_with(before, u, frames_of(part@, mono));
                    assert(main@ =~= done.main);
                    assert(fix@ =~= done.fix);
                }
            }
        }
        index = index + if mono {
            n as u32
        } else {
            (n / 2) as u32
        };
        at = at + n;
    }
    assert(x@.skip(at as int) =~= Seq::empty());
    Ok(
        HybridEncoded {
            wv: main,
            wvc: if opts.correction {
                Some(fix)
            } else {
                None
            },
        },
    )
}

/// Writes a mono hybrid block.
pub fn encode_block_mono_hybrid(
    pcm: &[i32],
    bytes_per_sample: u8,
    opts: &HybridOptions,
    block_index: u32,
    total_samples: u32,
) -> (r: Result<HybridEncoded>)
    ensures
        files_of(r) == hybrid_single(pcm@, true, SampleKind::Plain(bytes_per_sample), *opts, block_index, total_samples),
{
    encode_single(pcm, true, SampleKind::Plain(bytes_per_sample), opts, block_index, total_samples)
}

/// Writes a stereo hybrid block.
pub fn encode_block_stereo_hybrid(
    pcm: &[i32],
    bytes_per_sample: u8,
    opts: &HybridOptions,
    block_index: u32,
    total_samples: u32,
) -> (r: Result<HybridEncoded>)
    ensures
        files_of(r) == hybrid_single(pcm@, false, SampleKind::Plain(bytes_per_sample), *opts, block_index, total_samples),
{
    encode_single(pcm, false, SampleKind::Plain(bytes_per_sample), opts, block_index, total_samples)
}

/// Writes a mono hybrid stream.
pub fn encode_stream_mono_hybrid(pcm: &[i32], block_samples: usize, bytes_per_sample: u8, opts: &HybridOptions) -> (r: Result<HybridEncoded>)
    ensures
        files_of(r) == hybrid_files(pcm@, block_samples, true, SampleKind::Plain(bytes_per_sample), *opts),
{
    encode_files(pcm, block_samples, true, SampleKind::Plain(bytes_per_sample), opts)
}

/// Writes a stereo hybrid stream.
pub fn encode_stream_stereo_hybrid(pcm: &[i32], block_samples: usize, bytes_per_sample: u8, opts: &HybridOptions) -> (r: Result<HybridEncoded>)
    ensures
        files_of(r) == hybrid_files(pcm@, block_samples, false, SampleKind::Plain(bytes_per_sample), *opts),
{
    encode_files(pcm, block_samples, false, SampleKind::Plain(bytes_per_sample), opts)
}

/// Writes a mono hybrid block of floating-point patterns.
pub fn encode_block_mono_hybrid_float(
    pcm: &[u32],
    opts: &HybridOptions,
    block_index: u32,
    total_samples: u32,
) -> (r: Result<HybridEncoded>)
    ensures
        files_of(r) == hybrid_single(signed_all(pcm@), true, SampleKind::Float, *opts, block_index, total_samples),
{
    let x: Vec<i32> = signed_patterns(pcm);
    encode_single(x.as_slice(), true, SampleKind::Float, opts, block_index, total_samples)
}

/// Writes a stereo hybrid block of floating-point patterns.
pub fn encode_block_stereo_hybrid_float(
    pcm: &[u32],
    opts: &HybridOptions,
    block_index: u32,
    total_samples: u32,
) -> (r: Result<HybridEncoded>)
    ensures
        files_of(r) == hybrid_single(signed_all(pcm@), false, SampleKind::Float, *opts, block_index, total_samples),
{
    let x: Vec<i32> = signed_patterns(pcm);
    encode_single(x.as_slice(), false, SampleKind::Float, opts, block_index, total_samples)
}

/// Writes a mono hybrid block of wide integers.
pub fn encode_block_mono_hybrid_int32(
    pcm: &[i32],
    opts: &HybridOptions,
    block_index: u32,
    total_samples: u32,
) -> (r: Result<HybridEncoded>)
    ensures
        files_of(r) == hybrid_single(pcm@, true, SampleKind::Int32, *opts, block_index, total_samples),
{
    encode_single(pcm, true, SampleKind::Int32, opts, block_index, total_samples)
}

/// Writes a stereo hybrid block of wide integers.
pub fn encode_block_stereo_hybrid_int32(
    pcm: &[i32],
    opts: &HybridOptions,
    block_index: u32,
    total_samples: u32,
) -> (r: Result<HybridEncoded>)
    ensures
        files_of(r) == hybrid_single(pcm@, false, SampleKind::Int32, *opts, block_index, total_samples),
{
    encode_single(pcm, false, SampleKind::Int32, opts, block_index, total_samples)
}

/// Writes a mono hybrid stream of floating-point patterns.
pub fn encode_stream_mono_hybrid_float(pcm: &[u32], block_samples: usize, opts: &HybridOptions) -> (r: Result<HybridEncoded>)
    ensures
        files_of(r) == hybrid_files(signed_all(pcm@), block_samples, true, SampleKind::Float, *opts),
{
    let x: Vec<i32> = signed_patterns(pcm);
    encode_files(x.as_slice(), block_samples, true, SampleKind::Float, opts)
}

/// Writes a stereo hybrid stream of floating-point patterns.
pub fn encode_stream_stereo_hybrid_float(pcm: &[u32], block_samples: usize, opts: &HybridOptions) -> (r: Result<HybridEncoded>)
    ensures
        files_of(r) == hybrid_files(signed_all(pcm@), block_samples, false, SampleKind::Float, *opts),
{
    let x: Vec<i32> = signed_patterns(pcm);
    encode_files(x.as_slice(), block_samples, false, SampleKind::Float, opts)
}

/// Writes a mono hybrid stream of wide integers.
pub fn encode_stream_mono_hybrid_int32(pcm: &[i32], block_samples: usize, opts: &HybridOptions) -> (r: Result<HybridEncoded>)
    ensures
        files_of(r) == hybrid_files(pcm@, block_samples, true, SampleKind::Int32, *opts),
{
    encode_files(pcm, block_samples, true, SampleKind::Int32, opts)
}

/// Writes a stereo hybrid stream of wide integers.
pub fn encode_stream_stereo_hybrid_int32(pcm: &[i32], block_samples: usize, opts: &HybridOptions) -> (r: Result<HybridEncoded>)
    ensures
        files_of(r) == hybrid_files(pcm@, block_samples, false, SampleKind::Int32, *opts),
{
    encode_files(pcm, block_samples, false, SampleKind::Int32, opts)
}

} // verus!
