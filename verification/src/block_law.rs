//! What reading a written block gives.
use vstd::prelude::*;
use crate::block::{Block, Decoded, MAX_DECODE_SAMPLES_PER_BLOCK, block_of, coded_samples, decode_block, lossless_coded, median_at, medians_at, medians_of, passes_in, payload_or_empty, restored_format, slot_count, zero_medians};
use crate::block_header::{Flags, MIN_CK_SIZE, WavPackBlockHeader, flag_word, flag_word_roundtrip, flags_of, header_bytes, header_roundtrip};
use crate::block_writer::{Config, ENCODE_VERSION, Format, block_bytes, block_entries, block_flags, chain_bytes, chain_roundtrip, chain_subs, config_ok, decorr_entries, entry_if, entry_in, extension_in, framed, frames_of, ids_fit, joint_stereo_inverse, lemma_chain_lookup, lemma_entry_concat, lemma_entry_ids, narrowed, narrowing_inverse, profile_entries, residuals, working, zero_coder, zero_entropy};
use crate::crc::{CRC_INIT, crc_over};
use crate::decorrelation::{PassState, decode_mono_all, decode_stereo_all, decorrelation_mono_inverse, decorrelation_stereo_inverse};
use crate::error::Error;
use crate::float::{float_crc_over, float_extension, float_integers, float_plan, float_roundtrip, plan_info, signed_all};
use crate::int32::{int32_extension, int32_profile, int32_reduced, int32_roundtrip};
use crate::metadata::{SubBlockId, id_named, payload_in};
use crate::packed_samples::{encode_words, payload_of, payload_roundtrip};
use crate::passes::{Payloads, passes_of};

verus! {

/// The narrowed samples of a block.
pub open spec fn block_narrow(x: Seq<i32>, c: Config) -> Seq<i32> {
    narrowed(x, c.left_shift as nat)->Ok_0
}

/// The residuals of a block.
pub open spec fn block_residuals(x: Seq<i32>, c: Config) -> Seq<i32> {
    residuals(working(block_narrow(x, c), c.joint), c.decorr, c.mono)->Ok_0
}

/// The packed samples of a block.
pub open spec fn block_packed(x: Seq<i32>, c: Config) -> Seq<u8> {
    payload_of(encode_words(block_residuals(x, c), 0, !c.mono, zero_coder()))->Ok_0
}

/// The block that reading the bytes of a block gives.
pub open spec fn written_block(x: Seq<i32>, c: Config, block_index: u32, total_samples: u32) -> Block {
    let entries = block_entries(c, block_packed(x, c));
    let flags = block_flags(c, block_narrow(x, c), block_residuals(x, c));
    Block {
        header: WavPackBlockHeader {
            ck_size: (chain_bytes(entries)->Ok_0.len() + MIN_CK_SIZE) as u32,
            version: ENCODE_VERSION,
            track_number: 0,
            track_sub_index: 0,
            total_samples,
            block_index,
            block_samples: frames_of(x, c.mono) as u32,
            flags: Flags { raw: flag_word(flags) as u32, ..flags },
            crc: crc_over(block_narrow(x, c), CRC_INIT),
        },
        subs: chain_subs(entries),
    }
}

/// A framed chain of sub-blocks reads back as its header and entries.
pub proof fn lemma_framed(
    es: Seq<(u8, Seq<u8>)>,
    block_index: u32,
    total_samples: u32,
    block_samples: u32,
    flags: u32,
    crc: u32,
    rest: Seq<u8>,
)
    requires
        ids_fit(es),
        chain_bytes(es) is Ok,
        chain_bytes(es)->Ok_0.len() + MIN_CK_SIZE <= u32::MAX,
    ensures
        ({
            let meta = chain_bytes(es)->Ok_0;
            let bytes = framed(meta, block_index, total_samples, block_samples, flags, crc)->Ok_0;
            &&& bytes.len() == 32 + meta.len()
            &&& block_of(bytes + rest) == Ok::<(Block, Seq<u8>), Error>(
                (
                    Block {
                        header: WavPackBlockHeader {
                            ck_size: (meta.len() + MIN_CK_SIZE) as u32,
                            version: ENCODE_VERSION,
                            track_number: 0,
                            track_sub_index: 0,
                            total_samples,
                            block_index,
                            block_samples,
                            flags: flags_of(flags),
                            crc,
                        },
                        subs: chain_subs(es),
                    },
                    rest,
                ),
            )
        }),
{
    let meta = chain_bytes(es)->Ok_0;
    let ck = (meta.len() + MIN_CK_SIZE) as u32;
    let head = header_bytes(ck, ENCODE_VERSION, total_samples, block_index, block_samples, flags, crc);
    let bytes = head + meta;
    header_roundtrip(ck, ENCODE_VERSION, total_samples, block_index, block_samples, flags, crc, meta + rest);
    assert(bytes + rest =~= head + (meta + rest));
    chain_roundtrip(es);
    assert((bytes + rest).subrange(32, 32 + meta.len() as int) =~= meta);
    assert((bytes + rest).skip(32 + meta.len() as int) =~= rest);
}

/// A block is as long as its header and its sub-blocks.
pub proof fn lemma_block_size(x: Seq<i32>, c: Config, block_index: u32, total_samples: u32)
    requires
        block_bytes(x, c, block_index, total_samples) is Ok,
        config_ok(c),
    ensures
        block_bytes(x, c, block_index, total_samples)->Ok_0.len() == written_block(x, c, block_index, total_samples).header.ck_size
            + 8,
{
    let entries = block_entries(c, block_packed(x, c));
    let flags = block_flags(c, block_narrow(x, c), block_residuals(x, c));
    lemma_entry_ids(c, block_packed(x, c));
    lemma_framed(
        entries,
        block_index,
        total_samples,
        frames_of(x, c.mono) as u32,
        flag_word(flags) as u32,
        crc_over(block_narrow(x, c), CRC_INIT),
        Seq::empty(),
    );
}

/// The bytes of a block read back as that block, and stop at its end.
pub proof fn block_bytes_roundtrip(x: Seq<i32>, c: Config, block_index: u32, total_samples: u32, rest: Seq<u8>)
    requires
        config_ok(c),
        block_bytes(x, c, block_index, total_samples) is Ok,
    ensures
        block_of(block_bytes(x, c, block_index, total_samples)->Ok_0 + rest) == Ok::<(Block, Seq<u8>), Error>(
            (written_block(x, c, block_index, total_samples), rest),
        ),
        block_bytes(x, c, block_index, total_samples)->Ok_0.len() > 0,
{
    let y = block_narrow(x, c);
    let res = block_residuals(x, c);
    let entries = block_entries(c, block_packed(x, c));
    let flags = block_flags(c, y, res);
    lemma_entry_ids(c, block_packed(x, c));
    flag_word_roundtrip(flags);
    lemma_framed(
        entries,
        block_index,
        total_samples,
        frames_of(x, c.mono) as u32,
        flag_word(flags) as u32,
        crc_over(y, CRC_INIT),
        rest,
    );
}

/// What looking up in a block's entries gives.
proof fn lemma_block_lookup(c: Config, packed: Seq<u8>)
    ensures
        ({
            let subs = chain_subs(block_entries(c, packed));
            &&& payload_in(subs, SubBlockId::EntropyInfo) == Some(zero_entropy(c.mono))
            &&& payload_in(subs, SubBlockId::PackedSamples) == Some(packed)
            &&& payload_in(subs, SubBlockId::PackedOverflowBits) == extension_in(c.format)
            &&& payload_in(subs, SubBlockId::MultichannelInfo) == c.multichannel_info
            &&& payload_in(subs, SubBlockId::NonStandardSampleRate) is None
            &&& payload_in(subs, SubBlockId::DecorrelationTerms) == (match c.decorr {
                Some(p) => Some(p.terms),
                None => None,
            })
            &&& payload_in(subs, SubBlockId::DecorrelationWeights) == (match c.decorr {
                Some(p) => Some(p.weights),
                None => None,
            })
            &&& payload_in(subs, SubBlockId::DecorrelationSamples) == (match c.decorr {
                Some(p) => Some(p.samples),
                None => None,
            })
            &&& payload_in(subs, SubBlockId::FloatInfo) == (match c.format {
                Some(f) => if f.float {
                    Some(f.profile)
                } else {
                    None
                },
                None => None,
            })
            &&& payload_in(subs, SubBlockId::Int32Info) == (match c.format {
                Some(f) => if !f.float {
                    Some(f.profile)
                } else {
                    None
                },
                None => None,
            })
        }),
{
    lemma_entry_ids(c, packed);
    let es = block_entries(c, packed);
    lemma_find(c, packed, 0x02);
    lemma_find(c, packed, 0x03);
    lemma_find(c, packed, 0x04);
    lemma_find(c, packed, 0x05);
    lemma_find(c, packed, 0x08);
    lemma_find(c, packed, 0x09);
    lemma_find(c, packed, 0x0A);
    lemma_find(c, packed, 0x0C);
    lemma_find(c, packed, 0x0D);
    lemma_find(c, packed, 0x27);
}

/// The payload that a block's entries hold under an ID.
pub open spec fn entry_of(c: Config, packed: Seq<u8>, id: u8) -> Option<Seq<u8>> {
    if id == 0x05 {
        Some(zero_entropy(c.mono))
    } else if id == 0x0A {
        Some(packed)
    } else if id == 0x0D {
        c.multichannel_info
    } else if id == 0x0C {
        extension_in(c.format)
    } else if id == 0x08 {
        match c.format {
            Some(f) => if f.float {
                Some(f.profile)
            } else {
                None
            },
            None => None,
        }
    } else if id == 0x09 {
        match c.format {
            Some(f) => if !f.float {
                Some(f.profile)
            } else {
                None
            },
            None => None,
        }
    } else {
        match c.decorr {
            Some(p) => if id == 0x02 {
                Some(p.terms)
            } else if id == 0x03 {
                Some(p.weights)
            } else if id == 0x04 {
                Some(p.samples)
            } else {
                None
            },
            None => None,
        }
    }
}

/// Looking up in a chain of one entry.
pub proof fn lemma_single(e: (u8, Seq<u8>), id: u8)
    ensures
        entry_in(seq![e], id) == (if e.0 == id {
            Some(e.1)
        } else {
            None
        }),
{
    assert(seq![e].skip(1) =~= Seq::empty());
    reveal_with_fuel(entry_in, 2);
}

/// Looking up in the decorrelation entries.
pub proof fn lemma_find_decorr(decorr: Option<Payloads>, id: u8)
    ensures
        entry_in(decorr_entries(decorr), id) == (match decorr {
            Some(p) => if id == 0x02 {
                Some(p.terms)
            } else if id == 0x03 {
                Some(p.weights)
            } else if id == 0x04 {
                Some(p.samples)
            } else {
                None
            },
            None => None,
        }),
{
    if let Some(p) = decorr {
        let es = decorr_entries(decorr);
        assert(es =~= seq![(0x02u8, p.terms)] + seq![(0x03u8, p.weights)] + seq![(0x04u8, p.samples)]);
        lemma_single((0x02u8, p.terms), id);
        lemma_single((0x03u8, p.weights), id);
        lemma_single((0x04u8, p.samples), id);
        lemma_entry_concat(seq![(0x02u8, p.terms)], seq![(0x03u8, p.weights)], id);
        lemma_entry_concat(seq![(0x02u8, p.terms)] + seq![(0x03u8, p.weights)], seq![(0x04u8, p.samples)], id);
    }
}

/// Looking up in an optional entry.
pub proof fn lemma_find_if(k: u8, payload: Option<Seq<u8>>, id: u8)
    ensures
        entry_in(entry_if(k, payload), id) == (if k == id {
            payload
        } else {
            None
        }),
{
    if let Some(p) = payload {
        lemma_single((k, p), id);
    }
}

proof fn lemma_find(c: Config, packed: Seq<u8>, id: u8)
    requires
        id < 64,
    ensures
        payload_in(chain_subs(block_entries(c, packed)), id_named(id)) == entry_of(c, packed, id),
{
    let a = seq![(0x05u8, zero_entropy(c.mono))];
    let b = entry_if(0x0Du8, c.multichannel_info);
    let d = profile_entries(c.format);
    let e = decorr_entries(c.decorr);
    let f = seq![(0x0Au8, packed)];
    let g = entry_if(0x0Cu8, extension_in(c.format));
    lemma_entry_ids(c, packed);
    lemma_chain_lookup(block_entries(c, packed), id);
    lemma_single((0x05u8, zero_entropy(c.mono)), id);
    lemma_find_if(0x0D, c.multichannel_info, id);
    if let Some(fmt) = c.format {
        lemma_single(
            (
                if fmt.float {
                    0x08u8
                } else {
                    0x09u8
                },
                fmt.profile,
            ),
            id,
        );
    }
    lemma_find_decorr(c.decorr, id);
    lemma_single((0x0Au8, packed), id);
    lemma_find_if(0x0C, extension_in(c.format), id);
    lemma_entry_concat(a, b, id);
    lemma_entry_concat(a + b, d, id);
    lemma_entry_concat(a + b + d, e, id);
    lemma_entry_concat(a + b + d + e, f, id);
    lemma_entry_concat(a + b + d + e + f, g, id);
}

/// The zero entropy payload holds zero medians.
pub proof fn lemma_zero_medians(mono: bool)
    ensures
        medians_of(zero_entropy(mono), !mono) == Ok::<
            (crate::samples::AdaptiveMedians, crate::samples::AdaptiveMedians),
            Error,
        >((zero_medians(), zero_medians())),
{
    let p = zero_entropy(mono);
    crate::logpack::lemma_quantized_zero();
    assert(median_at(p, 0) == 0 && median_at(p, 1) == 0 && median_at(p, 2) == 0);
    assert(medians_at(p, 0) == Some(zero_medians()));
    if !mono {
        assert(median_at(p, 3) == 0 && median_at(p, 4) == 0 && median_at(p, 5) == 0);
        assert(medians_at(p, 3) == Some(zero_medians()));
    }
}

/// Passes run over packed residuals restore the samples they came from.
proof fn lemma_coded_inverse(work: Seq<i32>, decorr: Option<Payloads>, mono: bool)
    requires
        residuals(work, decorr, mono) is Ok,
        work.len() < 0x1_0000_0000,
        !mono ==> work.len() % 2 == 0,
        payload_of(encode_words(residuals(work, decorr, mono)->Ok_0, 0, !mono, zero_coder())) is Ok,
    ensures
        ({
            let payload = payload_of(encode_words(residuals(work, decorr, mono)->Ok_0, 0, !mono, zero_coder()))->Ok_0;
            let ps = match decorr {
                Some(p) => passes_of(p.terms, p.weights, p.samples, !mono)->Ok_0,
                None => Seq::empty(),
            };
            lossless_coded(payload, work.len() as int, !mono, (zero_medians(), zero_medians()), ps) == Ok::<
                Seq<i32>,
                Error,
            >(work)
        }),
{
    let res = residuals(work, decorr, mono)->Ok_0;
    match decorr {
        Some(p) => {
            let ps = passes_of(p.terms, p.weights, p.samples, !mono)->Ok_0;
            if mono {
                decorrelation_mono_inverse(ps, work);
            } else {
                decorrelation_stereo_inverse(ps, work);
            }
        },
        None => {
            lemma_no_passes(work, mono);
        },
    }
    payload_roundtrip(res, !mono, zero_medians(), zero_medians());
}

/// No passes change nothing.
pub proof fn lemma_no_passes(work: Seq<i32>, mono: bool)
    requires
        !mono ==> work.len() % 2 == 0,
    ensures
        mono ==> decode_mono_all(Seq::empty(), work).1 == work,
        mono ==> decode_mono_all(Seq::empty(), work).0 == Seq::<PassState>::empty(),
        !mono ==> decode_stereo_all(Seq::empty(), work).1 == work,
        !mono ==> decode_stereo_all(Seq::empty(), work).0 == Seq::<PassState>::empty(),
    decreases work.len(),
{
    if mono {
        if work.len() > 0 {
            lemma_no_passes(work.drop_last(), mono);
            assert(decode_mono_all(Seq::empty(), work).1 =~= work);
        } else {
            assert(decode_mono_all(Seq::empty(), work).1 =~= work);
        }
    } else {
        if work.len() >= 2 {
            lemma_no_passes(work.take(work.len() - 2), mono);
            assert(decode_stereo_all(Seq::empty(), work).1 =~= work);
        } else {
            assert(decode_stereo_all(Seq::empty(), work).1 =~= work);
        }
    }
}

/// Decoding a written block gives its narrowed samples, restored to their
/// format, and finds its check right.
pub proof fn lemma_written_block(x: Seq<i32>, c: Config, block_index: u32, total_samples: u32)
    requires
        config_ok(c),
        block_bytes(x, c, block_index, total_samples) is Ok,
        frames_of(x, c.mono) <= MAX_DECODE_SAMPLES_PER_BLOCK,
    ensures
        ({
            let b = written_block(x, c, block_index, total_samples);
            &&& decode_block(b) == restored_format(
                block_narrow(x, c),
                b.header.flags,
                b.subs,
                extension_in(c.format),
                false,
            )
            &&& block_narrow(x, c).len() == x.len()
        }),
{
    reveal(decode_block);
    let b = written_block(x, c, block_index, total_samples);
    let y = block_narrow(x, c);
    let work = working(y, c.joint);
    let packed = block_packed(x, c);
    lemma_block_lookup(c, packed);
    narrowing_inverse(x, c.left_shift as nat);
    lemma_zero_medians(c.mono);
    lemma_coded_inverse(work, c.decorr, c.mono);
    if c.joint {
        joint_stereo_inverse(y);
    }
    let shape = crate::hybrid::ShapingState::seeded(None, !c.mono);
    let ps = match c.decorr {
        Some(p) => passes_of(p.terms, p.weights, p.samples, !c.mono)->Ok_0,
        None => Seq::empty(),
    };
    assert(passes_in(b.subs, !c.mono) == Ok::<Seq<PassState>, Error>(ps));
    assert(slot_count(b.header) == work.len());
    assert(coded_samples(b, None, shape)->Ok_0.lossy == work);
}

// ---------------------------------------------------------------------------
// Blocks that give their samples back
// ---------------------------------------------------------------------------

/// The first block of some bytes.
pub open spec fn first_block(bytes: Seq<u8>) -> Block {
    block_of(bytes)->Ok_0.0
}

/// The fields of a header that a reader of samples goes by.
#[verifier::ext_equal]
pub struct Place {
    /// Frames in the block.
    pub frames: int,
    /// Index of the first frame.
    pub index: u32,
    /// Frames in the file.
    pub total: u32,
    /// One channel.
    pub mono: bool,
    /// Floating-point samples.
    pub float: bool,
    /// First member of a multichannel set.
    pub start: bool,
    /// Last member of a multichannel set.
    pub end: bool,
}

/// Whether bytes are one block, whatever follows them, that decodes to `x` with
/// its checks right.
#[verifier::opaque]
pub open spec fn holds(bytes: Seq<u8>, x: Seq<i32>, at: Place) -> bool {
    let b = first_block(bytes);
    &&& bytes.len() > 0
    &&& forall|rest: Seq<u8>| #[trigger]
        block_of(bytes + rest) == Ok::<(Block, Seq<u8>), Error>((b, rest))
    &&& decode_block(b) == Ok::<Decoded, Error>(Decoded { samples: x, ok: true })
    &&& b.header.block_samples == at.frames
    &&& b.header.block_index == at.index
    &&& b.header.total_samples == at.total
    &&& b.header.flags.mono == at.mono
    &&& b.header.flags.float_data == at.float
    &&& b.header.flags.multichannel_start == at.start
    &&& b.header.flags.multichannel_end == at.end
    &&& !b.header.flags.hybrid
}

/// Where a configured block stands.
pub open spec fn place_of(x: Seq<i32>, c: Config, block_index: u32, total_samples: u32) -> Place {
    Place {
        frames: frames_of(x, c.mono),
        index: block_index,
        total: total_samples,
        mono: c.mono,
        float: c.format is Some && c.format->Some_0.float,
        start: c.start,
        end: c.end,
    }
}

/// A block holds what its narrowed samples are restored to.
proof fn lemma_holds(x: Seq<i32>, c: Config, block_index: u32, total_samples: u32, out: Seq<i32>)
    requires
        config_ok(c),
        block_bytes(x, c, block_index, total_samples) is Ok,
        frames_of(x, c.mono) <= MAX_DECODE_SAMPLES_PER_BLOCK,
        decode_block(written_block(x, c, block_index, total_samples)) == Ok::<Decoded, Error>(
            Decoded { samples: out, ok: true },
        ),
    ensures
        holds(block_bytes(x, c, block_index, total_samples)->Ok_0, out, place_of(x, c, block_index, total_samples)),
{
    reveal(holds);
    let bytes = block_bytes(x, c, block_index, total_samples)->Ok_0;
    let b = written_block(x, c, block_index, total_samples);
    assert forall|rest: Seq<u8>| #[trigger]
        block_of(bytes + rest) == Ok::<(Block, Seq<u8>), Error>((b, rest)) by {
        block_bytes_roundtrip(x, c, block_index, total_samples, rest);
    }
    assert(block_of(bytes + Seq::empty()) == Ok::<(Block, Seq<u8>), Error>((b, Seq::empty())));
    assert(bytes + Seq::empty() =~= bytes);
    block_bytes_roundtrip(x, c, block_index, total_samples, Seq::empty());
}

/// A block of plain integers decodes to its samples.
pub proof fn plain_block_decodes(x: Seq<i32>, c: Config, block_index: u32, total_samples: u32)
    requires
        config_ok(c),
        c.format is None,
        block_bytes(x, c, block_index, total_samples) is Ok,
        frames_of(x, c.mono) <= MAX_DECODE_SAMPLES_PER_BLOCK,
    ensures
        holds(block_bytes(x, c, block_index, total_samples)->Ok_0, x, place_of(x, c, block_index, total_samples)),
{
    lemma_written_block(x, c, block_index, total_samples);
    narrowing_inverse(x, c.left_shift as nat);
    lemma_holds(x, c, block_index, total_samples, x);
}

/// The format of wide integers.
pub open spec fn int32_format(x: Seq<i32>) -> Format {
    let i = int32_profile(x);
    Format {
        float: false,
        profile: seq![i.sent_bits, i.zeros, i.ones, i.dups],
        extension: int32_extension(x),
    }
}

/// The format of floating-point patterns.
pub open spec fn float_format(x: Seq<u32>) -> Format {
    let i = plan_info(float_plan(x, false));
    Format {
        float: true,
        profile: seq![i.float_flags, i.float_shift, i.float_max_exp, i.float_norm_exp],
        extension: float_extension(x, float_plan(x, false)),
    }
}

proof fn lemma_lookup_format(c: Config, packed: Seq<u8>)
    ensures
        ({
            let subs = chain_subs(block_entries(c, packed));
            &&& c.format is Some && c.format->Some_0.float ==> payload_or_empty(subs, SubBlockId::FloatInfo)
                == c.format->Some_0.profile
            &&& c.format is Some && !c.format->Some_0.float ==> payload_or_empty(subs, SubBlockId::Int32Info)
                == c.format->Some_0.profile
        }),
{
    lemma_block_lookup(c, packed);
}

/// A block of wide integers decodes to its samples.
pub proof fn int32_block_decodes(x: Seq<i32>, c: Config, block_index: u32, total_samples: u32)
    requires
        config_ok(c),
        c.left_shift == 0,
        c.format == Some(int32_format(x)),
        block_bytes(int32_reduced(x), c, block_index, total_samples) is Ok,
        frames_of(x, c.mono) <= MAX_DECODE_SAMPLES_PER_BLOCK,
    ensures
        holds(
            block_bytes(int32_reduced(x), c, block_index, total_samples)->Ok_0,
            x,
            place_of(x, c, block_index, total_samples),
        ),
{
    let y = int32_reduced(x);
    let info = int32_profile(x);
    lemma_written_block(y, c, block_index, total_samples);
    lemma_lookup_format(c, block_packed(y, c));
    lemma_narrow_zero(y);
    int32_roundtrip(x);
    assert(info.exclusive());
    if let Some(payload) = int32_extension(x) {
        crate::int32::lemma_extension_payload(
            crate::crc::extension_over(crate::int32::words_of(x)),
            crate::int32::literals(x, info),
        );
    }
    assert(crate::int32::int32_info_of(int32_format(x).profile) == Ok::<crate::int32::Int32Info, Error>(info));
    lemma_shift_none(x);
    lemma_holds(y, c, block_index, total_samples, x);
}

/// A block of floating-point patterns decodes to its patterns.
pub proof fn float_block_decodes(x: Seq<u32>, c: Config, block_index: u32, total_samples: u32)
    requires
        config_ok(c),
        c.left_shift == 0,
        c.format == Some(float_format(x)),
        block_bytes(float_integers(x, float_plan(x, false)), c, block_index, total_samples) is Ok,
        frames_of(signed_all(x), c.mono) <= MAX_DECODE_SAMPLES_PER_BLOCK,
    ensures
        holds(
            block_bytes(float_integers(x, float_plan(x, false)), c, block_index, total_samples)->Ok_0,
            signed_all(x),
            place_of(signed_all(x), c, block_index, total_samples),
        ),
{
    let plan = float_plan(x, false);
    let y = float_integers(x, plan);
    lemma_written_block(y, c, block_index, total_samples);
    lemma_lookup_format(c, block_packed(y, c));
    lemma_narrow_zero(y);
    float_roundtrip(x, false);
    if let Some(payload) = float_extension(x, plan) {
        crate::int32::lemma_extension_payload(float_crc_over(x), crate::float::float_literals(x, plan));
    }
    assert(crate::float::float_info_of(float_format(x).profile) == Ok::<crate::float::FloatInfo, Error>(
        plan_info(plan),
    ));
    lemma_holds(y, c, block_index, total_samples, signed_all(x));
}

/// Nothing is dropped below samples without a shift.
pub proof fn lemma_narrow_zero(x: Seq<i32>)
    ensures
        narrowed(x, 0) is Ok ==> narrowed(x, 0)->Ok_0 == x,
{
    if narrowed(x, 0) is Ok {
        narrowing_inverse(x, 0);
        let y = narrowed(x, 0)->Ok_0;
        lemma_shift_none(y);
    }
}

/// A shift by zero changes no buffer.
pub proof fn lemma_shift_none(x: Seq<i32>)
    ensures
        crate::fixup::shifted_all(x, 0) == x,
{
    assert forall|i: int| 0 <= i < x.len() implies crate::fixup::shifted_all(x, 0)[i] == x[i] by {
        crate::fixup::lemma_shift_zero(x[i]);
    }
    assert(crate::fixup::shifted_all(x, 0) =~= x);
}

/// A written block holds the multichannel payload that it was given, and no
/// rate.
pub proof fn lemma_info_lookup(x: Seq<i32>, c: Config, block_index: u32, total_samples: u32)
    ensures
        ({
            let subs = written_block(x, c, block_index, total_samples).subs;
            &&& payload_in(subs, SubBlockId::MultichannelInfo) == c.multichannel_info
            &&& payload_in(subs, SubBlockId::NonStandardSampleRate) is None
        }),
{
    let packed = block_packed(x, c);
    lemma_entry_ids(c, packed);
    lemma_find(c, packed, 0x0D);
    lemma_find(c, packed, 0x27);
    assert(id_named(0x0D) == SubBlockId::MultichannelInfo);
    assert(id_named(0x27) == SubBlockId::NonStandardSampleRate);
}

} // verus!
