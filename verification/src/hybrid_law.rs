//! What reading a written hybrid stream gives.
//!
//! The main stream alone decodes to the lossy samples that the encoder
//! computed. With the correction stream it decodes to the samples that were
//! encoded.
use vstd::prelude::*;
use crate::bits::{byte_bits, pack_bits};
use crate::block::{Block, Decoded, MAX_DECODE_SAMPLES_PER_BLOCK, block_of, blocks_of, clamped_all, coded_samples, decode_block, decode_pair, layout_of, lemma_restored_len, levels_in, passes_in, payload_or_empty, restored_format, slot_count, some_cross};
use crate::block_header::{Flags, MIN_CK_SIZE, WavPackBlockHeader, flag_word, flag_word_roundtrip};
use crate::block_law::{int32_format, lemma_framed, lemma_shift_none, lemma_single, lemma_zero_medians};
use crate::block_writer::{ENCODE_VERSION, Format, chain_bytes, chain_subs, decorr_entries, entry_if, extension_in, frames_of, joint_stereo_inverse, lemma_chain_lookup, lemma_entry_concat, profile_entries, zero_entropy};
use crate::crc::{CRC_INIT, crc_over};
use crate::decorrelation::{PassState, cross};
use crate::encode_stream::{block_step, blocks_small, stream_holds, window};
use crate::error::Error;
use crate::fixup::shifted_all;
use crate::float::{FloatInfo, float_info_of, float_plan, plan_info, restore_floats, signed_all};
use crate::hybrid::{HybridState, ShapingState};
use crate::hybrid_carry::{HybridCarry, HybridOptions, codes_joint, hybrid_passes, hybrid_payloads, lemma_hybrid_passes};
use crate::hybrid_encode::{HybridParts, HybridProgress, HybridUnit, SampleKind, balance_word, block_start, coded_block_bits, fix_entries, hybrid_block, hybrid_coded_samples, hybrid_files, hybrid_from, hybrid_layout, hybrid_raw, hybrid_single, hybrid_unit, lemma_fix_ids, lemma_lossy_len, lemma_main_ids, lossy_samples, main_entries, profile_payload, progress_start, progress_with, raised_format, start_levels, unless_empty};
use crate::hybrid_stream::hybrid_start;
use crate::hybrid_words::{HybridOut, decode_hybrid, lemma_hybrid_roundtrip};
use crate::int32::{Int32Info, int32_info_of, int32_profile, words_of};
use crate::logpack::{word_bytes, word_of};
use crate::metadata::{Sub, SubBlockId, id_named, payload_in};
use crate::packed_samples::{lemma_padded_bits, padded};
use crate::passes::{Payloads, describable, passes_roundtrip, storable};
use crate::stream::{Paired, all_float, audio_of, corrected_patterns, corrected_samples, decoded_blocks, paired_blocks, stream_patterns, stream_samples};
use crate::stream_law::lemma_audio_of_concat;

verus! {

// ---------------------------------------------------------------------------
// The blocks as they read
// ---------------------------------------------------------------------------

/// A header that an encoder writes.
pub open spec fn written_header(
    meta: nat,
    block_index: u32,
    total_samples: u32,
    block_samples: u32,
    flags: Flags,
    crc: u32,
) -> WavPackBlockHeader {
    WavPackBlockHeader {
        ck_size: (meta + MIN_CK_SIZE) as u32,
        version: ENCODE_VERSION,
        track_number: 0,
        track_sub_index: 0,
        total_samples,
        block_index,
        block_samples,
        flags: Flags { raw: flag_word(flags) as u32, ..flags },
        crc,
    }
}

/// What a hybrid block is written from.
#[verifier::ext_equal]
pub struct HybridSource {
    /// The integers.
    pub x: Seq<i32>,
    /// One channel.
    pub mono: bool,
    /// Bytes per sample.
    pub bytes_per_sample: u8,
    /// What was asked for.
    pub opts: HybridOptions,
    /// Level words.
    pub level: (i16, i16),
    /// The shaping payload.
    pub shaping: Option<Seq<u8>>,
    /// The sample format.
    pub format: Option<Format>,
    /// Index of the first frame.
    pub index: u32,
    /// Frames in the file.
    pub total: u32,
}

impl HybridSource {
    /// The block that is written.
    pub open spec fn block(self) -> core::result::Result<HybridParts, Error> {
        hybrid_block(
            self.x,
            self.mono,
            self.bytes_per_sample,
            self.opts,
            self.level,
            self.shaping,
            self.format,
            self.index,
            self.total,
        )
    }

    /// What coding the samples gives.
    pub open spec fn out(self) -> HybridOut {
        coded_block_bits(self.x, self.mono, self.opts, self.level, self.shaping)->Ok_0
    }

    /// The samples as they are coded.
    pub open spec fn coded(self) -> Seq<i32> {
        hybrid_coded_samples(self.x, self.mono, self.opts)
    }

    /// The fields of the flag word.
    pub open spec fn flags(self) -> Flags {
        hybrid_raw(self.x, self.out(), self.mono, self.bytes_per_sample, self.opts, self.shaping, self.format)
    }

    /// The main block's sub-blocks.
    pub open spec fn main_list(self) -> Seq<(u8, Seq<u8>)> {
        main_entries(
            self.mono,
            hybrid_payloads(self.coded(), self.mono, self.opts.profile),
            profile_payload(self.mono, self.opts, self.level),
            self.format,
            padded(pack_bits(self.out().main)),
        )
    }

    /// The correction block's sub-blocks.
    pub open spec fn fix_list(self) -> Seq<(u8, Seq<u8>)> {
        fix_entries(self.shaping, padded(pack_bits(self.out().fix)), self.format)
    }

    /// The main block as it reads.
    pub open spec fn main_read(self) -> Block {
        Block {
            header: written_header(
                chain_bytes(self.main_list())->Ok_0.len(),
                self.index,
                self.total,
                frames_of(self.x, self.mono) as u32,
                self.flags(),
                crc_over(lossy_samples(self.out(), self.mono, self.opts), CRC_INIT),
            ),
            subs: chain_subs(self.main_list()),
        }
    }

    /// The correction block as it reads.
    pub open spec fn fix_read(self) -> Block {
        Block {
            header: written_header(
                chain_bytes(self.fix_list())->Ok_0.len(),
                self.index,
                self.total,
                frames_of(self.x, self.mono) as u32,
                self.flags(),
                crc_over(self.x, CRC_INIT),
            ),
            subs: chain_subs(self.fix_list()),
        }
    }
}

/// The main block of a hybrid block reads back, and stops at its end.
proof fn lemma_main_reads(s: HybridSource, rest: Seq<u8>)
    requires
        s.block() is Ok,
    ensures
        block_of(s.block()->Ok_0.main + rest) == Ok::<(Block, Seq<u8>), Error>((s.main_read(), rest)),
        s.block()->Ok_0.main.len() > 0,
{
    reveal(hybrid_block);
    let f = s.flags();
    lemma_main_ids(
        s.mono,
        hybrid_payloads(s.coded(), s.mono, s.opts.profile),
        profile_payload(s.mono, s.opts, s.level),
        s.format,
        padded(pack_bits(s.out().main)),
    );
    flag_word_roundtrip(f);
    lemma_framed(
        s.main_list(),
        s.index,
        s.total,
        frames_of(s.x, s.mono) as u32,
        flag_word(f) as u32,
        crc_over(lossy_samples(s.out(), s.mono, s.opts), CRC_INIT),
        rest,
    );
}

/// The correction block of a hybrid block reads back, and stops at its end.
proof fn lemma_fix_reads(s: HybridSource, rest: Seq<u8>)
    requires
        s.block() is Ok,
        s.opts.correction,
    ensures
        s.block()->Ok_0.fix is Some,
        block_of(s.block()->Ok_0.fix->Some_0 + rest) == Ok::<(Block, Seq<u8>), Error>((s.fix_read(), rest)),
        s.block()->Ok_0.fix->Some_0.len() > 0,
{
    reveal(hybrid_block);
    let f = s.flags();
    lemma_fix_ids(s.shaping, padded(pack_bits(s.out().fix)), s.format);
    flag_word_roundtrip(f);
    lemma_framed(
        s.fix_list(),
        s.index,
        s.total,
        frames_of(s.x, s.mono) as u32,
        flag_word(f) as u32,
        crc_over(s.x, CRC_INIT),
        rest,
    );
}

// ---------------------------------------------------------------------------
// Lookups
// ---------------------------------------------------------------------------

/// The payload that a main block's entries hold under an ID.
pub open spec fn main_entry(
    mono: bool,
    decorr: Option<Payloads>,
    profile: Seq<u8>,
    format: Option<Format>,
    packed: Seq<u8>,
    id: u8,
) -> Option<Seq<u8>> {
    if id == 0x05 {
        Some(zero_entropy(mono))
    } else if id == 0x06 {
        Some(profile)
    } else if id == 0x0A {
        Some(packed)
    } else if id == 0x08 {
        match format {
            Some(f) => if f.float {
                Some(f.profile)
            } else {
                None
            },
            None => None,
        }
    } else if id == 0x09 {
        match format {
            Some(f) => if !f.float {
                Some(f.profile)
            } else {
                None
            },
            None => None,
        }
    } else {
        match decorr {
            Some(p) => if id == 0x02 {
                Some(p.terms)
            } else if id == 0x03 {
                Some(p.weights)
            } else if id == 0x04 {
                Some(p.samples)
            } else {
                None
            },
            None => None,
        }
    }
}

proof fn lemma_find_main(
    mono: bool,
    decorr: Option<Payloads>,
    profile: Seq<u8>,
    format: Option<Format>,
    packed: Seq<u8>,
    id: u8,
)
    requires
        id < 64,
    ensures
        payload_in(chain_subs(main_entries(mono, decorr, profile, format, packed)), id_named(id)) == main_entry(
            mono,
            decorr,
            profile,
            format,
            packed,
            id,
        ),
{
    let a = decorr_entries(decorr);
    let b = seq![(0x05u8, zero_entropy(mono))];
    let c = seq![(0x06u8, profile)];
    let d = profile_entries(format);
    let e = seq![(0x0Au8, packed)];
    lemma_main_ids(mono, decorr, profile, format, packed);
    lemma_chain_lookup(main_entries(mono, decorr, profile, format, packed), id);
    crate::block_law::lemma_find_decorr(decorr, id);
    lemma_single((0x05u8, zero_entropy(mono)), id);
    lemma_single((0x06u8, profile), id);
    if let Some(f) = format {
        lemma_single(
            (
                if f.float {
                    0x08u8
                } else {
                    0x09u8
                },
                f.profile,
            ),
            id,
        );
    }
    lemma_single((0x0Au8, packed), id);
    lemma_entry_concat(a, b, id);
    lemma_entry_concat(a + b, c, id);
    lemma_entry_concat(a + b + c, d, id);
    lemma_entry_concat(a + b + c + d, e, id);
}

proof fn lemma_find_fix(shaping: Option<Seq<u8>>, fix: Seq<u8>, format: Option<Format>)
    ensures
        ({
            let subs = chain_subs(fix_entries(shaping, fix, format));
            &&& payload_in(subs, SubBlockId::NoiseShapingProfile) == shaping
            &&& payload_or_empty(subs, SubBlockId::PackedCorrectionData) == fix
            &&& payload_in(subs, SubBlockId::PackedOverflowBits) == extension_in(format)
        }),
{
    lemma_find_fix_id(shaping, fix, format, 0x07);
    lemma_find_fix_id(shaping, fix, format, 0x0B);
    lemma_find_fix_id(shaping, fix, format, 0x0C);
    if fix.len() == 0 {
        assert(fix =~= Seq::empty());
    }
}

proof fn lemma_find_fix_id(shaping: Option<Seq<u8>>, fix: Seq<u8>, format: Option<Format>, id: u8)
    requires
        id < 64,
    ensures
        payload_in(chain_subs(fix_entries(shaping, fix, format)), id_named(id)) == (if id == 0x07 {
            shaping
        } else if id == 0x0B {
            unless_empty(fix)
        } else if id == 0x0C {
            extension_in(format)
        } else {
            None
        }),
{
    let a = entry_if(0x07u8, shaping);
    let b = entry_if(0x0Bu8, unless_empty(fix));
    let c = entry_if(0x0Cu8, extension_in(format));
    lemma_fix_ids(shaping, fix, format);
    lemma_chain_lookup(fix_entries(shaping, fix, format), id);
    crate::block_law::lemma_find_if(0x07, shaping, id);
    crate::block_law::lemma_find_if(0x0B, unless_empty(fix), id);
    crate::block_law::lemma_find_if(0x0C, extension_in(format), id);
    lemma_entry_concat(a, b, id);
    lemma_entry_concat(a + b, c, id);
}

// ---------------------------------------------------------------------------
// Profile, passes, levels
// ---------------------------------------------------------------------------

proof fn lemma_word(w: int)
    requires
        -32768 <= w <= 32767,
    ensures
        word_bytes(w).len() == 2,
        word_of(word_bytes(w)[0], word_bytes(w)[1]) == w,
{
}

/// A written profile seeds the levels that the encoder started from.
proof fn lemma_profile_reads(mono: bool, opts: HybridOptions, level: (i16, i16))
    ensures
        levels_in(profile_payload(mono, opts, level), !mono) == Ok::<HybridState, Error>(
            start_levels(mono, opts, level),
        ),
{
    let p = profile_payload(mono, opts, level);
    let rate = crate::hybrid_carry::clamped_rate(opts.bitrate_word as int);
    let balance = balance_word(codes_joint(mono, opts));
    lemma_word(level.0 as int);
    lemma_word(level.1 as int);
    lemma_word(rate);
    lemma_word(balance);
    let l0 = word_bytes(level.0 as int);
    let l1 = word_bytes(level.1 as int);
    let r = word_bytes(rate);
    let bal = word_bytes(balance);
    assert(p[0] == l0[0] && p[1] == l0[1]);
    if mono {
        assert(p.len() == 4);
        assert(p[2] == r[0] && p[3] == r[1]);
        assert(crate::hybrid::payload_word(p, 0) == level.0);
        assert(crate::hybrid::payload_word(p, 1) == rate);
    } else {
        assert(p.len() == 8);
        assert(p[2] == l1[0] && p[3] == l1[1]);
        assert(p[4] == r[0] && p[5] == r[1]);
        assert(p[6] == bal[0] && p[7] == bal[1]);
        assert(crate::hybrid::payload_word(p, 0) == level.0);
        assert(crate::hybrid::payload_word(p, 1) == level.1);
        assert(crate::hybrid::payload_word(p, 2) == rate);
        assert(crate::hybrid::payload_word(p, 3) == balance);
    }
}

/// The passes of a written block read back.
proof fn lemma_passes_read(s: HybridSource)
    ensures
        passes_in(s.main_read().subs, !s.mono) == Ok::<Seq<PassState>, Error>(
            hybrid_passes(s.coded(), s.mono, s.opts.profile),
        ),
        !some_cross(hybrid_passes(s.coded(), s.mono, s.opts.profile)),
{
    let coded = s.coded();
    let ps = hybrid_passes(coded, s.mono, s.opts.profile);
    let decorr = hybrid_payloads(coded, s.mono, s.opts.profile);
    let profile = profile_payload(s.mono, s.opts, s.level);
    let packed = padded(pack_bits(s.out().main));
    lemma_find_main(s.mono, decorr, profile, s.format, packed, 0x02);
    lemma_find_main(s.mono, decorr, profile, s.format, packed, 0x03);
    lemma_find_main(s.mono, decorr, profile, s.format, packed, 0x04);
    lemma_hybrid_passes(coded, s.mono, s.opts.profile);
    assert forall|k: int| 0 <= k < ps.len() implies !cross(#[trigger] ps[k].term) by {
        assert(ps[k].wf());
    }
    if ps.len() > 0 {
        assert forall|k: int| 0 <= k < ps.len() implies describable(#[trigger] ps[k], !s.mono) by {
            assert(storable(ps[k], !s.mono));
            if s.mono {
                crate::hybrid_carry::lemma_mono_second(coded, s.opts.profile, k);
            }
        }
        passes_roundtrip(ps, !s.mono);
    } else {
        assert(ps =~= Seq::empty());
    }
}

// ---------------------------------------------------------------------------
// Decoding one block
// ---------------------------------------------------------------------------

/// The coded words of a block read back: alone as its lossy samples, with the
/// correction words as the samples that were coded.
proof fn lemma_words_read(s: HybridSource, paired: bool)
    requires
        coded_block_bits(s.x, s.mono, s.opts, s.level, s.shaping) is Ok,
        s.x.len() < 0x1_0000_0000,
        paired ==> s.opts.correction,
    ensures
        ({
            let start = block_start(s.x, s.mono, s.opts, s.level, s.shaping);
            let d = if paired {
                start
            } else {
                hybrid_start(start.coder, start.level, start.a, start.b, ShapingState::seeded(None, !s.mono))
            };
            let r = decode_hybrid(
                byte_bits(padded(pack_bits(s.out().main))),
                if paired {
                    Some(byte_bits(padded(pack_bits(s.out().fix))))
                } else {
                    None
                },
                s.x.len() as int,
                0,
                hybrid_layout(s.mono, s.opts),
                d,
            );
            &&& r is Ok
            &&& r->Ok_0.lossy == s.out().lossy
            &&& paired ==> r->Ok_0.exact == s.coded()
        }),
{
    let m = hybrid_layout(s.mono, s.opts);
    let e = block_start(s.x, s.mono, s.opts, s.level, s.shaping);
    let d = if paired {
        e
    } else {
        hybrid_start(e.coder, e.level, e.a, e.b, ShapingState::seeded(None, !s.mono))
    };
    let x = s.coded();
    let o = s.out();
    lemma_padded_bits(o.main);
    lemma_padded_bits(o.fix);
    let t1 = choose|t: Seq<bool>| byte_bits(padded(pack_bits(o.main))) == o.main + t;
    let t2 = choose|t: Seq<bool>| byte_bits(padded(pack_bits(o.fix))) == o.fix + t;
    lemma_hybrid_roundtrip(x, 0, m, e, d, s.opts.correction, paired, t1, t2);
    assert(x.skip(0) =~= x);
}

/// What a main block holds reads back.
proof fn lemma_coded_reads(s: HybridSource, paired: bool, shape: ShapingState)
    requires
        s.block() is Ok,
        frames_of(s.x, s.mono) <= MAX_DECODE_SAMPLES_PER_BLOCK,
        paired ==> s.opts.correction && shape == ShapingState::seeded(s.shaping, !s.mono),
        !paired ==> shape == ShapingState::seeded(None, !s.mono),
    ensures
        ({
            let r = coded_samples(
                s.main_read(),
                if paired {
                    Some(padded(pack_bits(s.out().fix)))
                } else {
                    None
                },
                shape,
            );
            &&& r is Ok
            &&& r->Ok_0.lossy == s.out().lossy
            &&& paired ==> r->Ok_0.exact == s.coded()
            &&& s.out().lossy.len() == s.x.len()
        }),
{
    reveal(hybrid_block);
    let b = s.main_read();
    let coded = s.coded();
    let decorr = hybrid_payloads(coded, s.mono, s.opts.profile);
    let profile = profile_payload(s.mono, s.opts, s.level);
    let packed = padded(pack_bits(s.out().main));
    lemma_find_main(s.mono, decorr, profile, s.format, packed, 0x05);
    lemma_find_main(s.mono, decorr, profile, s.format, packed, 0x06);
    lemma_find_main(s.mono, decorr, profile, s.format, packed, 0x0A);
    lemma_zero_medians(s.mono);
    lemma_passes_read(s);
    lemma_profile_reads(s.mono, s.opts, s.level);
    lemma_words_read(s, paired);
    lemma_lossy_len(s.x, s.mono, s.opts, s.level, s.shaping);
    assert(slot_count(b.header) == s.x.len());
    assert(layout_of(b.header.flags) == hybrid_layout(s.mono, s.opts));
}

/// The main block alone decodes to its lossy samples, in their format.
proof fn lemma_main_decodes(s: HybridSource)
    requires
        s.block() is Ok,
        frames_of(s.x, s.mono) <= MAX_DECODE_SAMPLES_PER_BLOCK,
    ensures
        ({
            let b = s.main_read();
            decode_block(b) == restored_format(
                lossy_samples(s.out(), s.mono, s.opts),
                b.header.flags,
                b.subs,
                None,
                true,
            )
        }),
{
    let b = s.main_read();
    let decorr = hybrid_payloads(s.coded(), s.mono, s.opts.profile);
    let profile = profile_payload(s.mono, s.opts, s.level);
    let packed = padded(pack_bits(s.out().main));
    lemma_find_main(s.mono, decorr, profile, s.format, packed, 0x0C);
    lemma_coded_reads(s, false, ShapingState::seeded(None, !s.mono));
    reveal(decode_block);
}

/// The main block and its correction block decode to the integers that were
/// coded, in their format.
proof fn lemma_pair_decodes(s: HybridSource)
    requires
        s.block() is Ok,
        s.opts.correction,
        frames_of(s.x, s.mono) <= MAX_DECODE_SAMPLES_PER_BLOCK,
    ensures
        ({
            let b = s.main_read();
            decode_pair(b, s.fix_read()) == restored_format(
                s.x,
                b.header.flags,
                b.subs,
                extension_in(s.format),
                false,
            )
        }),
{
    let b = s.main_read();
    let c = s.fix_read();
    lemma_find_fix(s.shaping, padded(pack_bits(s.out().fix)), s.format);
    lemma_coded_reads(s, true, ShapingState::seeded(s.shaping, !s.mono));
    reveal(hybrid_block);
    if codes_joint(s.mono, s.opts) {
        joint_stereo_inverse(s.x);
    }
    reveal(decode_pair);
}

// ---------------------------------------------------------------------------
// Units
// ---------------------------------------------------------------------------

/// What a unit is written from.
pub open spec fn unit_source(
    x: Seq<i32>,
    mono: bool,
    kind: SampleKind,
    opts: HybridOptions,
    carry: HybridCarry,
    block_index: u32,
    total_samples: u32,
) -> HybridSource {
    let ints = kind.integers(x);
    HybridSource {
        x: ints,
        mono,
        bytes_per_sample: kind.bytes(),
        opts,
        level: carry.levels(ints, mono, opts),
        shaping: carry.payload(frames_of(x, mono) as nat),
        format: kind.format(x),
        index: block_index,
        total: total_samples,
    }
}

/// Lossy integers `y` that stand for the samples `x`, as they come out:
/// integers kept within the range of their depth, patterns and wide integers
/// with zeros in place of what the correction stream holds.
pub open spec fn lossy_output(y: Seq<i32>, kind: SampleKind, x: Seq<i32>, flags: Flags) -> Seq<i32> {
    match kind {
        SampleKind::Plain(_) => clamped_all(y, flags),
        SampleKind::Float => signed_all(
            restore_floats(y, plan_info(float_plan(words_of(x), true)), 0, Seq::empty(), None, true).done,
        ),
        SampleKind::Int32 => shifted_all(y, (int32_profile(x).sent_bits + int32_profile(x).redundancy()) as nat),
    }
}

/// The lossy samples of a unit as they come out of its main block alone.
#[verifier::opaque]
pub open spec fn unit_lossy(x: Seq<i32>, mono: bool, kind: SampleKind, opts: HybridOptions, carry: HybridCarry) -> Seq<
    i32,
> {
    let s = unit_source(x, mono, kind, opts, carry, 0, 0);
    lossy_output(lossy_samples(s.out(), mono, opts), kind, x, s.flags())
}

proof fn lemma_float_restores(x: Seq<i32>, flags: Flags, subs: Seq<Sub>)
    requires
        flags.float_data,
        payload_or_empty(subs, SubBlockId::FloatInfo) == raised_format(crate::int32::words_of(x)).profile,
    ensures
        restored_format(
            SampleKind::Float.integers(x),
            flags,
            subs,
            raised_format(crate::int32::words_of(x)).extension,
            false,
        ) == Ok::<Decoded, Error>(Decoded { samples: x, ok: true }),
{
    let words = crate::int32::words_of(x);
    let plan = crate::float::float_plan(words, true);
    crate::float::float_roundtrip(words, true);
    crate::encode_stream::lemma_words_signed(x);
    if let Some(payload) = crate::float::float_extension(words, plan) {
        crate::int32::lemma_extension_payload(
            crate::float::float_crc_over(words),
            crate::float::float_literals(words, plan),
        );
    }
    assert(crate::float::float_info_of(raised_format(words).profile) == Ok::<crate::float::FloatInfo, Error>(
        crate::float::plan_info(plan),
    ));
}

proof fn lemma_int32_restores(x: Seq<i32>, flags: Flags, subs: Seq<Sub>)
    requires
        !flags.float_data,
        flags.int32_mode,
        flags.left_shift == 0,
        payload_or_empty(subs, SubBlockId::Int32Info) == int32_format(x).profile,
    ensures
        restored_format(SampleKind::Int32.integers(x), flags, subs, int32_format(x).extension, false) == Ok::<
            Decoded,
            Error,
        >(Decoded { samples: x, ok: true }),
{
    let info = crate::int32::int32_profile(x);
    crate::int32::int32_roundtrip(x);
    if let Some(payload) = crate::int32::int32_extension(x) {
        crate::int32::lemma_extension_payload(
            crate::crc::extension_over(crate::int32::words_of(x)),
            crate::int32::literals(x, info),
        );
    }
    assert(info.exclusive());
    assert(crate::int32::int32_info_of(int32_format(x).profile) == Ok::<crate::int32::Int32Info, Error>(info));
    lemma_shift_none(x);
}

/// Integers in their format are the samples again.
proof fn lemma_kind_restores(s: HybridSource, kind: SampleKind, x: Seq<i32>)
    requires
        s.x == kind.integers(x),
        s.format == kind.format(x),
    ensures
        ({
            let b = s.main_read();
            restored_format(s.x, b.header.flags, b.subs, extension_in(s.format), false) == Ok::<Decoded, Error>(
                Decoded { samples: x, ok: true },
            )
        }),
{
    let b = s.main_read();
    let decorr = hybrid_payloads(s.coded(), s.mono, s.opts.profile);
    let profile = profile_payload(s.mono, s.opts, s.level);
    let packed = padded(pack_bits(s.out().main));
    match kind {
        SampleKind::Plain(_) => {
            lemma_shift_none(x);
        },
        SampleKind::Float => {
            lemma_find_main(s.mono, decorr, profile, s.format, packed, 0x08);
            lemma_float_restores(x, b.header.flags, b.subs);
        },
        SampleKind::Int32 => {
            lemma_find_main(s.mono, decorr, profile, s.format, packed, 0x09);
            lemma_int32_restores(x, b.header.flags, b.subs);
        },
    }
}

proof fn lemma_float_lossy(y: Seq<i32>, x: Seq<i32>, flags: Flags, subs: Seq<Sub>)
    requires
        flags.float_data,
        payload_or_empty(subs, SubBlockId::FloatInfo) == raised_format(words_of(x)).profile,
    ensures
        ({
            let r = restored_format(y, flags, subs, None, true);
            r is Ok ==> r == Ok::<Decoded, Error>(
                Decoded { samples: lossy_output(y, SampleKind::Float, x, flags), ok: true },
            )
        }),
{
    let info = plan_info(float_plan(words_of(x), true));
    assert(float_info_of(raised_format(words_of(x)).profile) == Ok::<FloatInfo, Error>(info));
}

proof fn lemma_int32_lossy(y: Seq<i32>, x: Seq<i32>, flags: Flags, subs: Seq<Sub>)
    requires
        !flags.float_data,
        flags.int32_mode,
        flags.left_shift == 0,
        payload_or_empty(subs, SubBlockId::Int32Info) == int32_format(x).profile,
    ensures
        restored_format(y, flags, subs, None, true) == Ok::<Decoded, Error>(
            Decoded { samples: lossy_output(y, SampleKind::Int32, x, flags), ok: true },
        ),
{
    let info = int32_profile(x);
    assert(info.exclusive());
    assert(int32_info_of(int32_format(x).profile) == Ok::<Int32Info, Error>(info));
    lemma_shift_none(lossy_output(y, SampleKind::Int32, x, flags));
}

/// A main block that decodes alone gives its lossy integers as they come out.
proof fn lemma_lossy_restores(s: HybridSource, kind: SampleKind, x: Seq<i32>, y: Seq<i32>)
    requires
        s.format == kind.format(x),
    ensures
        ({
            let b = s.main_read();
            let r = restored_format(y, b.header.flags, b.subs, None, true);
            &&& r is Ok ==> r == Ok::<Decoded, Error>(
                Decoded { samples: lossy_output(y, kind, x, s.flags()), ok: true },
            )
            &&& !(kind is Float) ==> r is Ok
        }),
{
    let b = s.main_read();
    let decorr = hybrid_payloads(s.coded(), s.mono, s.opts.profile);
    let profile = profile_payload(s.mono, s.opts, s.level);
    let packed = padded(pack_bits(s.out().main));
    match kind {
        SampleKind::Plain(_) => {
            let z = clamped_all(y, s.flags());
            assert(clamped_all(y, b.header.flags) =~= z);
            lemma_shift_none(z);
        },
        SampleKind::Float => {
            lemma_find_main(s.mono, decorr, profile, s.format, packed, 0x08);
            lemma_float_lossy(y, x, b.header.flags, b.subs);
        },
        SampleKind::Int32 => {
            lemma_find_main(s.mono, decorr, profile, s.format, packed, 0x09);
            lemma_int32_lossy(y, x, b.header.flags, b.subs);
        },
    }
}

/// The lossy samples of a unit do not depend on where it stands.
pub proof fn lemma_unit_lossy(
    x: Seq<i32>,
    mono: bool,
    kind: SampleKind,
    opts: HybridOptions,
    carry: HybridCarry,
    block_index: u32,
    total_samples: u32,
)
    ensures
        ({
            let s = unit_source(x, mono, kind, opts, carry, block_index, total_samples);
            unit_lossy(x, mono, kind, opts, carry) == lossy_output(
                lossy_samples(s.out(), mono, opts),
                kind,
                x,
                s.flags(),
            )
        }),
{
    reveal(unit_lossy);
}

/// What a unit of a hybrid stream decodes to: its main block alone to `z`, and
/// with its correction block to its samples.
pub open spec fn unit_holds(
    u: HybridUnit,
    b: Block,
    c: Block,
    x: Seq<i32>,
    z: Seq<i32>,
    mono: bool,
    correction: bool,
    float: bool,
    block_index: u32,
) -> bool {
    &&& audio_of(u.main) == Ok::<Seq<Block>, Error>(seq![b])
    &&& decode_block(b) == Ok::<Decoded, Error>(Decoded { samples: z, ok: true })
    &&& b.header.flags.hybrid
    &&& b.header.flags.float_data == float
    &&& b.header.block_index == block_index
    &&& b.header.block_samples == frames_of(x, mono)
    &&& (u.fix is Some) == correction
    &&& correction ==> {
        &&& audio_of(u.fix->Some_0) == Ok::<Seq<Block>, Error>(seq![c])
        &&& c.header.block_index == block_index
        &&& c.header.block_samples == b.header.block_samples
        &&& c.header.flags.mono == b.header.flags.mono
        &&& decode_pair(b, c) == Ok::<Decoded, Error>(Decoded { samples: x, ok: true })
    }
}

proof fn lemma_one_block(bytes: Seq<u8>, b: Block)
    requires
        bytes.len() > 0,
        block_of(bytes + Seq::empty()) == Ok::<(Block, Seq<u8>), Error>((b, Seq::empty())),
        b.header.block_samples != 0,
    ensures
        audio_of(bytes) == Ok::<Seq<Block>, Error>(seq![b]),
{
    assert(bytes + Seq::empty() =~= bytes);
    assert(blocks_of(Seq::<u8>::empty()) == Ok::<Seq<Block>, Error>(Seq::empty()));
    assert(seq![b] + Seq::<Block>::empty() =~= seq![b]);
    crate::encode_stream::lemma_audio_first(b, Seq::empty());
    assert(seq![b] + crate::stream::audio_only(Seq::empty()) =~= seq![b]);
}

/// The integers of a buffer are as many as its samples.
proof fn lemma_integers_len(kind: SampleKind, x: Seq<i32>)
    ensures
        kind.integers(x).len() == x.len(),
{
}

/// A written unit holds its samples.
pub proof fn lemma_unit(
    x: Seq<i32>,
    mono: bool,
    kind: SampleKind,
    opts: HybridOptions,
    carry: HybridCarry,
    block_index: u32,
    total_samples: u32,
)
    requires
        hybrid_unit(x, mono, kind, opts, carry, block_index, total_samples) is Ok,
        frames_of(x, mono) <= MAX_DECODE_SAMPLES_PER_BLOCK,
    ensures
        ({
            let s = unit_source(x, mono, kind, opts, carry, block_index, total_samples);
            unit_holds(
                hybrid_unit(x, mono, kind, opts, carry, block_index, total_samples)->Ok_0,
                s.main_read(),
                s.fix_read(),
                x,
                unit_lossy(x, mono, kind, opts, carry),
                mono,
                opts.correction,
                kind is Float,
                block_index,
            )
        }),
{
    reveal(hybrid_unit);
    let s = unit_source(x, mono, kind, opts, carry, block_index, total_samples);
    let u = hybrid_unit(x, mono, kind, opts, carry, block_index, total_samples)->Ok_0;
    lemma_integers_len(kind, x);
    lemma_main_reads(s, Seq::empty());
    lemma_main_decodes(s);
    lemma_one_block(u.main, s.main_read());
    lemma_lossy_restores(s, kind, x, lossy_samples(s.out(), mono, opts));
    lemma_unit_lossy(x, mono, kind, opts, carry, block_index, total_samples);
    assert(seq![s.main_read()].drop_last() =~= Seq::empty());
    if opts.correction {
        lemma_fix_reads(s, Seq::empty());
        lemma_one_block(u.fix->Some_0, s.fix_read());
        lemma_pair_decodes(s);
        lemma_kind_restores(s, kind, x);
    } else {
        reveal(hybrid_block);
    }
    if kind is Float {
        let bs = seq![s.main_read()];
        assert(bs.last() == s.main_read());
        assert(decoded_blocks(bs, false) is Ok);
    }
}

// ---------------------------------------------------------------------------
// Streams
// ---------------------------------------------------------------------------

/// Buffers one behind the other.
pub open spec fn flat(xs: Seq<Seq<i32>>) -> Seq<i32>
    decreases xs.len(),
{
    if xs.len() == 0 {
        Seq::empty()
    } else {
        flat(xs.drop_last()) + xs.last()
    }
}

/// Whether a main block decodes alone to `z`, with its check right.
pub open spec fn main_holds(b: Block, z: Seq<i32>, float: bool) -> bool {
    &&& decode_block(b) == Ok::<Decoded, Error>(Decoded { samples: z, ok: true })
    &&& b.header.flags.float_data == float
}

/// Whether the main blocks decode alone, each to its samples.
pub open spec fn mains_hold(bs: Seq<Block>, zs: Seq<Seq<i32>>, float: bool) -> bool {
    &&& bs.len() == zs.len()
    &&& forall|i: int| 0 <= i < bs.len() ==> main_holds(#[trigger] bs[i], zs[i], float)
}

/// Whether a main block and a correction block belong together and decode to `x`.
pub open spec fn pair_holds(b: Block, c: Block, x: Seq<i32>) -> bool {
    &&& b.header.flags.hybrid
    &&& c.header.block_index == b.header.block_index
    &&& c.header.block_samples == b.header.block_samples
    &&& c.header.flags.mono == b.header.flags.mono
    &&& decode_pair(b, c) == Ok::<Decoded, Error>(Decoded { samples: x, ok: true })
}

/// Whether the blocks of two lists belong together, pair by pair.
pub open spec fn pairs_hold(bs: Seq<Block>, cs: Seq<Block>, xs: Seq<Seq<i32>>) -> bool {
    &&& bs.len() == xs.len()
    &&& cs.len() >= bs.len()
    &&& forall|i: int| 0 <= i < bs.len() ==> pair_holds(#[trigger] bs[i], cs[i], xs[i])
}

proof fn lemma_mains_decode(bs: Seq<Block>, zs: Seq<Seq<i32>>, float: bool, mute: bool)
    requires
        mains_hold(bs, zs, float),
    ensures
        decoded_blocks(bs, mute) == Ok::<Decoded, Error>(Decoded { samples: flat(zs), ok: true }),
        float ==> all_float(bs),
    decreases bs.len(),
{
    if bs.len() == 0 {
        assert(flat(zs) =~= Seq::empty());
    } else {
        let n = bs.len() - 1;
        let before = bs.drop_last();
        let ys = zs.drop_last();
        assert forall|i: int| 0 <= i < before.len() implies main_holds(#[trigger] before[i], ys[i], float) by {
            assert(before[i] == bs[i] && ys[i] == zs[i]);
        }
        lemma_mains_decode(before, ys, float, mute);
        assert(main_holds(bs[n], zs[n], float));
    }
}

proof fn lemma_pairs_decode(bs: Seq<Block>, cs: Seq<Block>, xs: Seq<Seq<i32>>, mute: bool)
    requires
        pairs_hold(bs, cs, xs),
    ensures
        paired_blocks(bs, cs, mute) == Ok::<Paired, Error>(
            Paired { decoded: Decoded { samples: flat(xs), ok: true }, used: bs.len() },
        ),
    decreases bs.len(),
{
    if bs.len() == 0 {
        assert(flat(xs) =~= Seq::empty());
    } else {
        let n = bs.len() - 1;
        let before = bs.drop_last();
        let ys = xs.drop_last();
        assert forall|i: int| 0 <= i < before.len() implies pair_holds(#[trigger] before[i], cs[i], ys[i]) by {
            assert(before[i] == bs[i] && ys[i] == xs[i]);
        }
        lemma_pairs_decode(before, cs, ys, mute);
        assert(pair_holds(bs[n], cs[n], xs[n]));
    }
}

/// What the streams so far hold.
#[verifier::opaque]
pub open spec fn progress_holds(
    done: HybridProgress,
    bs: Seq<Block>,
    cs: Seq<Block>,
    xs: Seq<Seq<i32>>,
    zs: Seq<Seq<i32>>,
    correction: bool,
    float: bool,
) -> bool {
    &&& audio_of(done.main) == Ok::<Seq<Block>, Error>(bs)
    &&& audio_of(done.fix) == Ok::<Seq<Block>, Error>(cs)
    &&& mains_hold(bs, zs, float)
    &&& correction ==> pairs_hold(bs, cs, xs) && cs.len() == bs.len()
}

/// What finished streams hold.
#[verifier::opaque]
pub open spec fn files_hold(
    p: HybridProgress,
    x: Seq<i32>,
    z: Seq<i32>,
    correction: bool,
    float: bool,
    mute: bool,
) -> bool {
    &&& stream_holds(p.main, z, float, mute)
    &&& correction ==> corrected_samples(p.main, p.fix, mute) == Ok::<Decoded, Error>(
        Decoded { samples: x, ok: true },
    )
}

proof fn lemma_progress_ends(
    done: HybridProgress,
    bs: Seq<Block>,
    cs: Seq<Block>,
    xs: Seq<Seq<i32>>,
    zs: Seq<Seq<i32>>,
    correction: bool,
    float: bool,
    mute: bool,
)
    requires
        progress_holds(done, bs, cs, xs, zs, correction, float),
    ensures
        files_hold(done, flat(xs), flat(zs), correction, float, mute),
{
    reveal(progress_holds);
    reveal(files_hold);
    reveal(stream_holds);
    lemma_mains_decode(bs, zs, float, mute);
    if correction {
        lemma_pairs_decode(bs, cs, xs, mute);
    }
}

proof fn lemma_progress_grows(
    done: HybridProgress,
    bs: Seq<Block>,
    cs: Seq<Block>,
    xs: Seq<Seq<i32>>,
    zs: Seq<Seq<i32>>,
    u: HybridUnit,
    b: Block,
    c: Block,
    w: Seq<i32>,
    z: Seq<i32>,
    mono: bool,
    correction: bool,
    float: bool,
    block_index: u32,
)
    requires
        progress_holds(done, bs, cs, xs, zs, correction, float),
        unit_holds(u, b, c, w, z, mono, correction, float, block_index),
    ensures
        progress_holds(
            progress_with(done, u, frames_of(w, mono)),
            bs + seq![b],
            if correction {
                cs + seq![c]
            } else {
                cs
            },
            xs.push(w),
            zs.push(z),
            correction,
            float,
        ),
{
    reveal(progress_holds);
    lemma_audio_of_concat(done.main, u.main);
    lemma_mains_push(bs, zs, b, z, float);
    if correction {
        lemma_audio_of_concat(done.fix, u.fix->Some_0);
        lemma_pairs_push(bs, cs, xs, b, c, w);
    } else {
        assert(done.fix + Seq::empty() =~= done.fix);
    }
}

/// The lossy samples of a hybrid stream, block by block, behind what is done.
pub open spec fn lossy_from(
    x: Seq<i32>,
    step: int,
    mono: bool,
    kind: SampleKind,
    opts: HybridOptions,
    total_samples: u32,
    done: HybridProgress,
) -> Seq<i32>
    decreases x.len(),
{
    if x.len() == 0 || step <= 0 {
        Seq::empty()
    } else {
        let w = window(x, step);
        unit_lossy(w, mono, kind, opts, done.carry) + (match hybrid_unit(
            w,
            mono,
            kind,
            opts,
            done.carry,
            done.index as u32,
            total_samples,
        ) {
            Err(_) => Seq::empty(),
            Ok(u) => lossy_from(
                x.skip(w.len() as int),
                step,
                mono,
                kind,
                opts,
                total_samples,
                progress_with(done, u, frames_of(w, mono)),
            ),
        })
    }
}

/// The lossy samples of a whole hybrid stream.
pub open spec fn lossy_stream(x: Seq<i32>, block_samples: usize, mono: bool, kind: SampleKind, opts: HybridOptions) -> Seq<
    i32,
> {
    lossy_from(
        x,
        block_step(block_samples, mono),
        mono,
        kind,
        opts,
        frames_of(x, mono) as u32,
        progress_start(opts, mono),
    )
}

proof fn lemma_hybrid_from(
    x: Seq<i32>,
    step: int,
    mono: bool,
    kind: SampleKind,
    opts: HybridOptions,
    total_samples: u32,
    done: HybridProgress,
    bs: Seq<Block>,
    cs: Seq<Block>,
    xs: Seq<Seq<i32>>,
    zs: Seq<Seq<i32>>,
    mute: bool,
)
    requires
        step > 0,
        !mono ==> x.len() % 2 == 0 && step % 2 == 0,
        frames_of(window(x, step), mono) <= MAX_DECODE_SAMPLES_PER_BLOCK,
        hybrid_from(x, step, mono, kind, opts, total_samples, done) is Ok,
        progress_holds(done, bs, cs, xs, zs, opts.correction, kind is Float),
    ensures
        files_hold(
            hybrid_from(x, step, mono, kind, opts, total_samples, done)->Ok_0,
            flat(xs) + x,
            flat(zs) + lossy_from(x, step, mono, kind, opts, total_samples, done),
            opts.correction,
            kind is Float,
            mute,
        ),
    decreases x.len(),
{
    let float = kind is Float;
    let correction = opts.correction;
    if x.len() == 0 {
        lemma_progress_ends(done, bs, cs, xs, zs, correction, float, mute);
        assert(flat(xs) + x =~= flat(xs));
        assert(flat(zs) + Seq::<i32>::empty() =~= flat(zs));
    } else {
        let w = window(x, step);
        let rest = x.skip(w.len() as int);
        let index = done.index as u32;
        let u = hybrid_unit(w, mono, kind, opts, done.carry, index, total_samples)->Ok_0;
        let z = unit_lossy(w, mono, kind, opts, done.carry);
        lemma_unit_blocks(w, z, mono, kind, opts, done.carry, index, total_samples, u, correction, float);
        let (b, c) = choose|b: Block, c: Block| #[trigger]
            unit_holds(u, b, c, w, z, mono, correction, float, index);
        let next = progress_with(done, u, frames_of(w, mono));
        let bs2 = bs + seq![b];
        let cs2 = if correction {
            cs + seq![c]
        } else {
            cs
        };
        let xs2 = xs.push(w);
        let zs2 = zs.push(z);
        lemma_progress_grows(done, bs, cs, xs, zs, u, b, c, w, z, mono, correction, float, index);
        lemma_hybrid_from(rest, step, mono, kind, opts, total_samples, next, bs2, cs2, xs2, zs2, mute);
        assert(xs2.drop_last() =~= xs);
        assert(flat(xs2) + rest =~= flat(xs) + x);
        assert(zs2.drop_last() =~= zs);
        let later = lossy_from(rest, step, mono, kind, opts, total_samples, next);
        assert(lossy_from(x, step, mono, kind, opts, total_samples, done) == z + later);
        assert(flat(zs2) + later =~= flat(zs) + (z + later));
    }
}

proof fn lemma_unit_blocks(
    x: Seq<i32>,
    z: Seq<i32>,
    mono: bool,
    kind: SampleKind,
    opts: HybridOptions,
    carry: HybridCarry,
    block_index: u32,
    total_samples: u32,
    u: HybridUnit,
    correction: bool,
    float: bool,
)
    requires
        hybrid_unit(x, mono, kind, opts, carry, block_index, total_samples) == Ok::<HybridUnit, Error>(u),
        frames_of(x, mono) <= MAX_DECODE_SAMPLES_PER_BLOCK,
        correction == opts.correction,
        float == (kind is Float),
        z == unit_lossy(x, mono, kind, opts, carry),
    ensures
        exists|b: Block, c: Block| #[trigger] unit_holds(u, b, c, x, z, mono, correction, float, block_index),
{
    let s = unit_source(x, mono, kind, opts, carry, block_index, total_samples);
    lemma_unit(x, mono, kind, opts, carry, block_index, total_samples);
    assert(unit_holds(u, s.main_read(), s.fix_read(), x, z, mono, correction, float, block_index));
}

proof fn lemma_mains_push(bs: Seq<Block>, zs: Seq<Seq<i32>>, b: Block, z: Seq<i32>, float: bool)
    requires
        mains_hold(bs, zs, float),
        main_holds(b, z, float),
    ensures
        mains_hold(bs + seq![b], zs.push(z), float),
{
    let bs2 = bs + seq![b];
    let zs2 = zs.push(z);
    assert forall|i: int| 0 <= i < bs2.len() implies main_holds(#[trigger] bs2[i], zs2[i], float) by {
        if i < bs.len() {
            assert(bs2[i] == bs[i] && zs2[i] == zs[i]);
        }
    }
}

proof fn lemma_pairs_push(
    bs: Seq<Block>,
    cs: Seq<Block>,
    xs: Seq<Seq<i32>>,
    b: Block,
    c: Block,
    x: Seq<i32>,
)
    requires
        pairs_hold(bs, cs, xs),
        cs.len() == bs.len(),
        pair_holds(b, c, x),
    ensures
        pairs_hold(bs + seq![b], cs + seq![c], xs.push(x)),
{
    let bs2 = bs + seq![b];
    let cs2 = cs + seq![c];
    let xs2 = xs.push(x);
    assert forall|i: int| 0 <= i < bs2.len() implies pair_holds(#[trigger] bs2[i], cs2[i], xs2[i]) by {
        if i < bs.len() {
            assert(bs2[i] == bs[i] && cs2[i] == cs[i] && xs2[i] == xs[i]);
        }
    }
}

proof fn lemma_hybrid_files(
    x: Seq<i32>,
    block_samples: usize,
    mono: bool,
    kind: SampleKind,
    opts: HybridOptions,
    mute: bool,
)
    requires
        hybrid_files(x, block_samples, mono, kind, opts) is Ok,
        blocks_small(x, block_samples, mono),
    ensures
        ({
            let f = hybrid_files(x, block_samples, mono, kind, opts)->Ok_0;
            &&& stream_holds(f.main, lossy_stream(x, block_samples, mono, kind, opts), kind is Float, mute)
            &&& (f.fix is Some) == opts.correction
            &&& opts.correction ==> corrected_samples(f.main, f.fix->Some_0, mute) == Ok::<Decoded, Error>(
                Decoded { samples: x, ok: true },
            )
        }),
{
    let none = Seq::<Block>::empty();
    let start = progress_start(opts, mono);
    reveal(progress_holds);
    reveal(files_hold);
    assert(blocks_of(Seq::<u8>::empty()) == Ok::<Seq<Block>, Error>(none));
    lemma_hybrid_from(
        x,
        block_step(block_samples, mono),
        mono,
        kind,
        opts,
        frames_of(x, mono) as u32,
        start,
        none,
        none,
        Seq::empty(),
        Seq::empty(),
        mute,
    );
    let z = lossy_stream(x, block_samples, mono, kind, opts);
    assert(flat(Seq::empty()) + x =~= x);
    assert(flat(Seq::empty()) + z =~= z);
}

/// A hybrid stream decoded with its correction stream gives the samples back,
/// and every check holds.
pub proof fn hybrid_roundtrip(
    x: Seq<i32>,
    block_samples: usize,
    mono: bool,
    kind: SampleKind,
    opts: HybridOptions,
    mute: bool,
)
    requires
        opts.correction,
        hybrid_files(x, block_samples, mono, kind, opts) is Ok,
        blocks_small(x, block_samples, mono),
    ensures
        ({
            let f = hybrid_files(x, block_samples, mono, kind, opts)->Ok_0;
            &&& f.fix is Some
            &&& corrected_samples(f.main, f.fix->Some_0, mute) == Ok::<Decoded, Error>(
                Decoded { samples: x, ok: true },
            )
        }),
{
    lemma_hybrid_files(x, block_samples, mono, kind, opts, mute);
}

/// A hybrid stream of patterns decoded with its correction stream gives the
/// patterns back.
pub proof fn hybrid_pattern_roundtrip(x: Seq<u32>, block_samples: usize, mono: bool, opts: HybridOptions)
    requires
        opts.correction,
        hybrid_files(signed_all(x), block_samples, mono, SampleKind::Float, opts) is Ok,
        blocks_small(signed_all(x), block_samples, mono),
    ensures
        ({
            let f = hybrid_files(signed_all(x), block_samples, mono, SampleKind::Float, opts)->Ok_0;
            &&& f.fix is Some
            &&& corrected_patterns(f.main, f.fix->Some_0) == Ok::<Seq<u32>, Error>(x)
        }),
{
    lemma_hybrid_files(signed_all(x), block_samples, mono, SampleKind::Float, opts, false);
    reveal(stream_holds);
    crate::encode_stream::lemma_signed_words(x);
}

/// The main stream of a hybrid stream decoded alone gives the lossy samples
/// that the encoder computed, and every check holds.
pub proof fn hybrid_main_decodes(
    x: Seq<i32>,
    block_samples: usize,
    mono: bool,
    kind: SampleKind,
    opts: HybridOptions,
    mute: bool,
)
    requires
        hybrid_files(x, block_samples, mono, kind, opts) is Ok,
        blocks_small(x, block_samples, mono),
    ensures
        stream_samples(hybrid_files(x, block_samples, mono, kind, opts)->Ok_0.main, mute) == Ok::<Decoded, Error>(
            Decoded { samples: lossy_stream(x, block_samples, mono, kind, opts), ok: true },
        ),
{
    lemma_hybrid_files(x, block_samples, mono, kind, opts, mute);
    reveal(stream_holds);
}

/// The main stream of a hybrid stream of patterns decoded alone gives the
/// lossy patterns.
pub proof fn hybrid_main_patterns(x: Seq<u32>, block_samples: usize, mono: bool, opts: HybridOptions)
    requires
        hybrid_files(signed_all(x), block_samples, mono, SampleKind::Float, opts) is Ok,
        blocks_small(signed_all(x), block_samples, mono),
    ensures
        stream_patterns(hybrid_files(signed_all(x), block_samples, mono, SampleKind::Float, opts)->Ok_0.main) == Ok::<
            Seq<u32>,
            Error,
        >(words_of(lossy_stream(signed_all(x), block_samples, mono, SampleKind::Float, opts))),
{
    lemma_hybrid_files(signed_all(x), block_samples, mono, SampleKind::Float, opts, false);
    reveal(stream_holds);
}

/// Lossy integers come out as many as they are.
proof fn lemma_output_len(s: HybridSource, kind: SampleKind, x: Seq<i32>, y: Seq<i32>)
    requires
        s.format == kind.format(x),
        restored_format(y, s.main_read().header.flags, s.main_read().subs, None, true) is Ok,
    ensures
        lossy_output(y, kind, x, s.flags()).len() == y.len(),
{
    if kind is Float {
        let decorr = hybrid_payloads(s.coded(), s.mono, s.opts.profile);
        let profile = profile_payload(s.mono, s.opts, s.level);
        lemma_find_main(s.mono, decorr, profile, s.format, padded(pack_bits(s.out().main)), 0x08);
        let info = plan_info(float_plan(words_of(x), true));
        assert(float_info_of(raised_format(words_of(x)).profile) == Ok::<FloatInfo, Error>(info));
        lemma_restored_len(y, info, 0, Seq::empty(), None, true);
    }
}

/// The lossy samples of a unit are as many as its samples.
proof fn lemma_unit_len(
    x: Seq<i32>,
    mono: bool,
    kind: SampleKind,
    opts: HybridOptions,
    carry: HybridCarry,
    block_index: u32,
    total_samples: u32,
)
    requires
        hybrid_unit(x, mono, kind, opts, carry, block_index, total_samples) is Ok,
        frames_of(x, mono) <= MAX_DECODE_SAMPLES_PER_BLOCK,
    ensures
        unit_lossy(x, mono, kind, opts, carry).len() == x.len(),
{
    let s = unit_source(x, mono, kind, opts, carry, block_index, total_samples);
    let y = lossy_samples(s.out(), mono, opts);
    lemma_integers_len(kind, x);
    lemma_unit(x, mono, kind, opts, carry, block_index, total_samples);
    assert(s.block() is Ok) by {
        reveal(hybrid_unit);
    }
    assert(coded_block_bits(s.x, s.mono, s.opts, s.level, s.shaping) is Ok) by {
        reveal(hybrid_block);
    }
    lemma_main_decodes(s);
    lemma_lossy_len(s.x, mono, opts, s.level, s.shaping);
    lemma_output_len(s, kind, x, y);
    lemma_unit_lossy(x, mono, kind, opts, carry, block_index, total_samples);
}

proof fn lemma_lossy_from_len(
    x: Seq<i32>,
    step: int,
    mono: bool,
    kind: SampleKind,
    opts: HybridOptions,
    total_samples: u32,
    done: HybridProgress,
)
    requires
        step > 0,
        hybrid_from(x, step, mono, kind, opts, total_samples, done) is Ok,
        frames_of(window(x, step), mono) <= MAX_DECODE_SAMPLES_PER_BLOCK,
    ensures
        lossy_from(x, step, mono, kind, opts, total_samples, done).len() == x.len(),
    decreases x.len(),
{
    if x.len() > 0 {
        let w = window(x, step);
        let index = done.index as u32;
        let u = hybrid_unit(w, mono, kind, opts, done.carry, index, total_samples)->Ok_0;
        lemma_unit_len(w, mono, kind, opts, done.carry, index, total_samples);
        lemma_lossy_from_len(
            x.skip(w.len() as int),
            step,
            mono,
            kind,
            opts,
            total_samples,
            progress_with(done, u, frames_of(w, mono)),
        );
    }
}

/// The lossy samples of a hybrid stream are as many as its samples.
pub proof fn lossy_streams_keep_length(
    x: Seq<i32>,
    block_samples: usize,
    mono: bool,
    kind: SampleKind,
    opts: HybridOptions,
)
    requires
        hybrid_files(x, block_samples, mono, kind, opts) is Ok,
        blocks_small(x, block_samples, mono),
    ensures
        lossy_stream(x, block_samples, mono, kind, opts).len() == x.len(),
{
    lemma_lossy_from_len(
        x,
        block_step(block_samples, mono),
        mono,
        kind,
        opts,
        frames_of(x, mono) as u32,
        progress_start(opts, mono),
    );
}

/// A hybrid block decoded with its correction block gives the samples back.
pub proof fn hybrid_block_roundtrip(
    x: Seq<i32>,
    mono: bool,
    kind: SampleKind,
    opts: HybridOptions,
    block_index: u32,
    total_samples: u32,
    mute: bool,
)
    requires
        opts.correction,
        hybrid_single(x, mono, kind, opts, block_index, total_samples) is Ok,
        frames_of(x, mono) <= MAX_DECODE_SAMPLES_PER_BLOCK,
    ensures
        ({
            let f = hybrid_single(x, mono, kind, opts, block_index, total_samples)->Ok_0;
            &&& f.fix is Some
            &&& corrected_samples(f.main, f.fix->Some_0, mute) == Ok::<Decoded, Error>(
                Decoded { samples: x, ok: true },
            )
        }),
{
    let carry = HybridCarry::start(opts, mono);
    let s = unit_source(x, mono, kind, opts, carry, block_index, total_samples);
    let bs = seq![s.main_read()];
    let cs = seq![s.fix_read()];
    let xs = seq![x];
    lemma_unit(x, mono, kind, opts, carry, block_index, total_samples);
    assert(pairs_hold(bs, cs, xs));
    lemma_pairs_decode(bs, cs, xs, mute);
    lemma_flat_one(x);
}

proof fn lemma_flat_one(x: Seq<i32>)
    ensures
        flat(seq![x]) == x,
{
    let xs = seq![x];
    assert(xs.drop_last() =~= Seq::empty());
    assert(flat(xs.drop_last()) =~= Seq::empty());
    assert(flat(xs) =~= x);
}

/// A hybrid block decoded alone gives the lossy samples that the encoder
/// computed, in any sample format, and its check holds.
pub proof fn hybrid_block_lossy(
    x: Seq<i32>,
    mono: bool,
    kind: SampleKind,
    opts: HybridOptions,
    block_index: u32,
    total_samples: u32,
    mute: bool,
)
    requires
        hybrid_single(x, mono, kind, opts, block_index, total_samples) is Ok,
        frames_of(x, mono) <= MAX_DECODE_SAMPLES_PER_BLOCK,
    ensures
        stream_samples(hybrid_single(x, mono, kind, opts, block_index, total_samples)->Ok_0.main, mute) == Ok::<
            Decoded,
            Error,
        >(Decoded { samples: unit_lossy(x, mono, kind, opts, HybridCarry::start(opts, mono)), ok: true }),
        unit_lossy(x, mono, kind, opts, HybridCarry::start(opts, mono)).len() == x.len(),
{
    let carry = HybridCarry::start(opts, mono);
    let s = unit_source(x, mono, kind, opts, carry, block_index, total_samples);
    let z = unit_lossy(x, mono, kind, opts, carry);
    let bs = seq![s.main_read()];
    lemma_unit(x, mono, kind, opts, carry, block_index, total_samples);
    lemma_unit_len(x, mono, kind, opts, carry, block_index, total_samples);
    assert(mains_hold(bs, seq![z], kind is Float));
    lemma_mains_decode(bs, seq![z], kind is Float, mute);
    lemma_flat_one(z);
}

/// A hybrid block of patterns decoded alone gives its lossy patterns.
pub proof fn hybrid_block_patterns(
    x: Seq<u32>,
    mono: bool,
    opts: HybridOptions,
    block_index: u32,
    total_samples: u32,
)
    requires
        hybrid_single(signed_all(x), mono, SampleKind::Float, opts, block_index, total_samples) is Ok,
        frames_of(signed_all(x), mono) <= MAX_DECODE_SAMPLES_PER_BLOCK,
    ensures
        stream_patterns(
            hybrid_single(signed_all(x), mono, SampleKind::Float, opts, block_index, total_samples)->Ok_0.main,
        ) == Ok::<Seq<u32>, Error>(
            words_of(unit_lossy(signed_all(x), mono, SampleKind::Float, opts, HybridCarry::start(opts, mono))),
        ),
{
    let y = signed_all(x);
    let carry = HybridCarry::start(opts, mono);
    let s = unit_source(y, mono, SampleKind::Float, opts, carry, block_index, total_samples);
    lemma_unit(y, mono, SampleKind::Float, opts, carry, block_index, total_samples);
    hybrid_block_lossy(y, mono, SampleKind::Float, opts, block_index, total_samples, false);
    assert(all_float(seq![s.main_read()]));
}

} // verus!
