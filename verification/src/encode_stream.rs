//! Streams of lossless blocks.
use vstd::prelude::*;
use crate::block::{Block, Decoded, MAX_DECODE_SAMPLES_PER_BLOCK, block_of, blocks_of, decode_block, heard};
use crate::block_law::{Place, first_block, float_block_decodes, float_format, holds, int32_block_decodes, int32_format, place_of, plain_block_decodes};
use crate::block_writer::{Config, Format, block_bytes, config_ok, frames_of, plain_config};
use crate::derive::DecorrProfile;
use crate::encode::{auto_block, best_block, best_float_block, best_int32_block, best_ints_block, encode_block_mono, encode_block_mono_best, encode_block_mono_float_best, encode_block_mono_int32_best, encode_block_mono_smallest, encode_block_stereo, encode_block_stereo_best, encode_block_stereo_float_best, encode_block_stereo_int32_best, encode_block_stereo_smallest, format_config, pattern_integers, search_base, search_domain, searched_block, smallest_block};
use crate::error::{Error, Result};
use crate::float::signed_all;
use crate::int32::{int32_reduced, words_of};
use crate::metadata::bytes_then;
use crate::packed_samples::bytes_of;
use crate::search::{Plan, best_plans, detected_shift_is_exact, lemma_best_plans, lemma_joint_listed, lemma_searched_plans, plan_block, planned, plans_ok, search_block, search_is_least, searched_plans};
use crate::seek::{FrameRun, contiguous, frames_in, lemma_one_run, lemma_run_first, lemma_runs_concat, runs_from, runs_of};
use crate::stream::{all_float, audio_of, audio_only, decoded_blocks, patterns, stream_patterns, stream_samples};

verus! {

/// Frames per block where a caller does not say.
pub const DEFAULT_BLOCK_SAMPLES: usize = 22_050;

/// How the blocks of a stream are written.
#[derive(Debug, Clone, Copy, PartialEq, Eq, Structural)]
pub enum Coding {
    /// As they are, at some bytes per sample.
    Plain(u8),
    /// By a profile search.
    Best(DecorrProfile, u8),
    /// By both searches.
    Smallest(u8),
    /// As floating-point patterns, by a profile search.
    Float(DecorrProfile),
    /// As wide integers, by a profile search.
    Int32(DecorrProfile),
}

/// The bytes of one block of a stream.
#[verifier::opaque]
pub open spec fn coded_block(x: Seq<i32>, mono: bool, coding: Coding, block_index: u32, total_samples: u32) -> core::result::Result<
    Seq<u8>,
    Error,
> {
    match coding {
        Coding::Plain(n) => block_bytes(x, plain_config(mono, n), block_index, total_samples),
        Coding::Best(profile, n) => best_block(x, profile, mono, n, block_index, total_samples),
        Coding::Smallest(n) => smallest_block(x, mono, n, block_index, total_samples),
        Coding::Float(profile) => best_float_block(words_of(x), profile, mono, block_index, total_samples),
        Coding::Int32(profile) => best_int32_block(x, profile, mono, block_index, total_samples),
    }
}

/// The samples of one block of at most `step` samples.
pub open spec fn window(x: Seq<i32>, step: int) -> Seq<i32> {
    if x.len() <= step {
        x
    } else {
        x.take(step)
    }
}

/// The bytes of the blocks that some samples are split into, the first at
/// frame `index`.
pub open spec fn stream_from(x: Seq<i32>, step: int, mono: bool, coding: Coding, index: int, total_samples: u32) -> core::result::Result<
    Seq<u8>,
    Error,
>
    decreases x.len(),
{
    if x.len() == 0 || step <= 0 {
        Ok(Seq::empty())
    } else {
        let w = window(x, step);
        match coded_block(w, mono, coding, index as u32, total_samples) {
            Err(e) => Err(e),
            Ok(b) => bytes_then(
                b,
                stream_from(
                    x.skip(w.len() as int),
                    step,
                    mono,
                    coding,
                    index + frames_of(w, mono),
                    total_samples,
                ),
            ),
        }
    }
}

/// Frames per block.
pub open spec fn block_frames(block_samples: usize) -> int {
    if block_samples == 0 {
        DEFAULT_BLOCK_SAMPLES as int
    } else {
        block_samples as int
    }
}

/// Samples per block.
pub open spec fn block_step(block_samples: usize, mono: bool) -> int {
    if mono {
        block_frames(block_samples)
    } else {
        2 * block_frames(block_samples)
    }
}

/// The bytes of a stream.
pub open spec fn stream_bytes(x: Seq<i32>, block_samples: usize, mono: bool, coding: Coding) -> core::result::Result<
    Seq<u8>,
    Error,
> {
    if !mono && x.len() % 2 != 0 {
        Err(Error::EncodeStereoOddLength(x.len() as usize))
    } else if frames_of(x, mono) > u32::MAX {
        Err(Error::EncodeBlockTooLarge(x.len() as usize))
    } else {
        stream_from(x, block_step(block_samples, mono), mono, coding, 0, frames_of(x, mono) as u32)
    }
}

fn encode_coded(x: &[i32], mono: bool, coding: Coding, block_index: u32, total_samples: u32) -> (r: Result<Vec<u8>>)
    ensures
        bytes_of(r) == coded_block(x@, mono, coding, block_index, total_samples),
{
    proof {
        reveal(coded_block);
    }
    match coding {
        Coding::Plain(n) => if mono {
            encode_block_mono(x, n, block_index, total_samples)
        } else {
            encode_block_stereo(x, n, block_index, total_samples)
        },
        Coding::Best(profile, n) => if mono {
            encode_block_mono_best(x, profile, n, block_index, total_samples)
        } else {
            encode_block_stereo_best(x, profile, n, block_index, total_samples)
        },
        Coding::Smallest(n) => if mono {
            encode_block_mono_smallest(x, n, block_index, total_samples)
        } else {
            encode_block_stereo_smallest(x, n, block_index, total_samples)
        },
        Coding::Float(profile) => {
            let words: Vec<u32> = patterns(x);
            if mono {
                encode_block_mono_float_best(words.as_slice(), profile, block_index, total_samples)
            } else {
                encode_block_stereo_float_best(words.as_slice(), profile, block_index, total_samples)
            }
        }
        Coding::Int32(profile) => if mono {
            encode_block_mono_int32_best(x, profile, block_index, total_samples)
        } else {
            encode_block_stereo_int32_best(x, profile, block_index, total_samples)
        },
    }
}

fn encode_stream(x: &[i32], block_samples: usize, mono: bool, coding: Coding) -> (r: Result<Vec<u8>>)
    ensures
        bytes_of(r) == stream_bytes(x@, block_samples, mono, coding),
{
    if !mono && x.len() % 2 != 0 {
        return Err(Error::EncodeStereoOddLength(x.len()));
    }
    let frames: usize = if mono {
        x.len()
    } else {
        x.len() / 2
    };
    if frames as u64 > u32::MAX as u64 {
        return Err(Error::EncodeBlockTooLarge(x.len()));
    }
    let total: u32 = frames as u32;
    let chunk: usize = if block_samples == 0 {
        DEFAULT_BLOCK_SAMPLES
    } else {
        block_samples
    };
    let ghost step = block_step(block_samples, mono);
    let ghost whole = stream_from(x@, step, mono, coding, 0, total);
    let mut out: Vec<u8> = Vec::new();
    let mut at: usize = 0;
    let mut index: u32 = 0;
    proof {
        assert(x@.skip(0) =~= x@);
        if whole is Ok {
            assert(out@ + whole->Ok_0 =~= whole->Ok_0);
        }
    }
    while at < x.len()
        invariant
            at <= x.len(),
            !mono ==> x@.len() % 2 == 0 && at % 2 == 0,
            frames == frames_of(x@, mono),
            total == frames,
            chunk > 0,
            chunk == block_frames(block_samples),
            step == block_step(block_samples, mono),
            mono ==> index == at,
            !mono ==> index == at / 2,
            whole == stream_from(x@, step, mono, coding, 0, total),
            stream_bytes(x@, block_samples, mono, coding) == whole,
            whole == bytes_then(out@, stream_from(x@.skip(at as int), step, mono, coding, index as int, total)),
        decreases x.len() - at,
    {
        let ghost before = out@;
        let left: usize = x.len() - at;
        let left_frames: usize = if mono {
            left
        } else {
            left / 2
        };
        let n: usize = if left_frames <= chunk {
            left
        } else if mono {
            chunk
        } else {
            2 * chunk
        };
        let part = &x[at..at + n];
        let ghost rest = x@.skip(at as int);
        proof {
            assert(part@ =~= window(rest, step));
            assert(rest.skip(n as int) =~= x@.skip(at + n));
        }
        match encode_coded(part, mono, coding, index, total) {
            Err(e) => {
                return Err(e);
            }
            Ok(b) => {
                out.extend_from_slice(b.as_slice());
                proof {
                    assert(out@ =~= before + b@);
                    let later = stream_from(
                        x@.skip(at + n),
                        step,
                        mono,
                        coding,
                        index + frames_of(part@, mono),
                        total,
                    );
                    if later is Ok {
                        assert(before + (b@ + later->Ok_0) =~= out@ + later->Ok_0);
                    }
                }
            }
        }
        index = index + if mono {
            n as u32
        } else {
            (n / 2) as u32
        };
        at = at + n;
    }
    assert(x@.skip(at as int) =~= Seq::empty());
    assert(out@ + Seq::<u8>::empty() =~= out@);
    Ok(out)
}

/// Writes mono samples as a stream of blocks of `block_samples` frames.
pub fn encode_stream_mono(pcm: &[i32], block_samples: usize, bytes_per_sample: u8) -> (r: Result<Vec<u8>>)
    ensures
        bytes_of(r) == stream_bytes(pcm@, block_samples, true, Coding::Plain(bytes_per_sample)),
{
    encode_stream(pcm, block_samples, true, Coding::Plain(bytes_per_sample))
}

/// Writes interleaved stereo samples as a stream of blocks of `block_samples` frames.
pub fn encode_stream_stereo(pcm: &[i32], block_samples: usize, bytes_per_sample: u8) -> (r: Result<Vec<u8>>)
    ensures
        bytes_of(r) == stream_bytes(pcm@, block_samples, false, Coding::Plain(bytes_per_sample)),
{
    encode_stream(pcm, block_samples, false, Coding::Plain(bytes_per_sample))
}

/// Writes mono samples as a stream of blocks that a profile search finds.
pub fn encode_stream_mono_best(pcm: &[i32], block_samples: usize, bytes_per_sample: u8, profile: DecorrProfile) -> (r: Result<
    Vec<u8>,
>)
    ensures
        bytes_of(r) == stream_bytes(pcm@, block_samples, true, Coding::Best(profile, bytes_per_sample)),
{
    encode_stream(pcm, block_samples, true, Coding::Best(profile, bytes_per_sample))
}

/// Writes interleaved stereo samples as a stream of blocks that a profile search finds.
pub fn encode_stream_stereo_best(pcm: &[i32], block_samples: usize, bytes_per_sample: u8, profile: DecorrProfile) -> (r: Result<
    Vec<u8>,
>)
    ensures
        bytes_of(r) == stream_bytes(pcm@, block_samples, false, Coding::Best(profile, bytes_per_sample)),
{
    encode_stream(pcm, block_samples, false, Coding::Best(profile, bytes_per_sample))
}

/// Writes mono samples as a stream of blocks, each the smaller of both searches.
pub fn encode_stream_mono_smallest(pcm: &[i32], block_samples: usize, bytes_per_sample: u8) -> (r: Result<Vec<u8>>)
    ensures
        bytes_of(r) == stream_bytes(pcm@, block_samples, true, Coding::Smallest(bytes_per_sample)),
{
    encode_stream(pcm, block_samples, true, Coding::Smallest(bytes_per_sample))
}

/// Writes interleaved stereo samples as a stream of blocks, each the smaller of both searches.
pub fn encode_stream_stereo_smallest(pcm: &[i32], block_samples: usize, bytes_per_sample: u8) -> (r: Result<Vec<u8>>)
    ensures
        bytes_of(r) == stream_bytes(pcm@, block_samples, false, Coding::Smallest(bytes_per_sample)),
{
    encode_stream(pcm, block_samples, false, Coding::Smallest(bytes_per_sample))
}

/// Writes mono wide integers as a stream of blocks that a profile search finds.
pub fn encode_stream_mono_int32(pcm: &[i32], block_samples: usize, profile: DecorrProfile) -> (r: Result<Vec<u8>>)
    ensures
        bytes_of(r) == stream_bytes(pcm@, block_samples, true, Coding::Int32(profile)),
{
    encode_stream(pcm, block_samples, true, Coding::Int32(profile))
}

/// Writes interleaved stereo wide integers as a stream of blocks that a profile search finds.
pub fn encode_stream_stereo_int32(pcm: &[i32], block_samples: usize, profile: DecorrProfile) -> (r: Result<Vec<u8>>)
    ensures
        bytes_of(r) == stream_bytes(pcm@, block_samples, false, Coding::Int32(profile)),
{
    encode_stream(pcm, block_samples, false, Coding::Int32(profile))
}

/// Patterns as signed values.
pub fn signed_patterns(pcm: &[u32]) -> (r: Vec<i32>)
    ensures
        r@ == signed_all(pcm@),
{
    let mut out: Vec<i32> = Vec::new();
    let mut i: usize = 0;
    while i < pcm.len()
        invariant
            i <= pcm.len(),
            out@.len() == i,
            forall|k: int| 0 <= k < i ==> out@[k] == signed_all(pcm@)[k],
        decreases pcm.len() - i,
    {
        out.push(crate::arith::signed_word(pcm[i]));
        i = i + 1;
    }
    assert(out@ =~= signed_all(pcm@));
    out
}

/// Writes mono floating-point patterns as a stream of blocks that a profile search finds.
pub fn encode_stream_mono_float(pcm: &[u32], block_samples: usize, profile: DecorrProfile) -> (r: Result<Vec<u8>>)
    ensures
        bytes_of(r) == stream_bytes(signed_all(pcm@), block_samples, true, Coding::Float(profile)),
{
    let x: Vec<i32> = signed_patterns(pcm);
    encode_stream(x.as_slice(), block_samples, true, Coding::Float(profile))
}

/// Writes interleaved stereo floating-point patterns as a stream of blocks that a profile search finds.
pub fn encode_stream_stereo_float(pcm: &[u32], block_samples: usize, profile: DecorrProfile) -> (r: Result<Vec<u8>>)
    ensures
        bytes_of(r) == stream_bytes(signed_all(pcm@), block_samples, false, Coding::Float(profile)),
{
    let x: Vec<i32> = signed_patterns(pcm);
    encode_stream(x.as_slice(), block_samples, false, Coding::Float(profile))
}

// ---------------------------------------------------------------------------
// Reading streams back
// ---------------------------------------------------------------------------

/// Where a coded block stands.
pub open spec fn coded_place(x: Seq<i32>, mono: bool, coding: Coding, block_index: u32, total_samples: u32) -> Place {
    Place {
        frames: frames_of(x, mono),
        index: block_index,
        total: total_samples,
        mono,
        float: coding is Float,
        start: true,
        end: true,
    }
}

/// The block of a search decodes to its samples, where every block of its plans does.
proof fn lemma_search_holds(
    ints: Seq<i32>,
    base: Config,
    plans: Seq<Plan>,
    block_index: u32,
    total_samples: u32,
    x: Seq<i32>,
    at: Place,
)
    requires
        plans.len() > 0,
        search_block(ints, base, plans, block_index, total_samples) is Ok,
        forall|i: int|
            0 <= i < plans.len() && block_bytes(ints, planned(base, #[trigger] plans[i]), block_index, total_samples) is Ok
                ==> holds(
                block_bytes(ints, planned(base, plans[i]), block_index, total_samples)->Ok_0,
                x,
                at,
            ),
    ensures
        holds(search_block(ints, base, plans, block_index, total_samples)->Ok_0, x, at),
{
    let whole = search_block(ints, base, plans, block_index, total_samples);
    search_is_least(ints, base, plans, block_index, total_samples);
    let i = choose|i: int|
        0 <= i < plans.len() && plan_block(ints, base, #[trigger] plans[i], block_index, total_samples) == whole;
    reveal(plan_block);
    assert(block_bytes(ints, planned(base, plans[i]), block_index, total_samples) == whole);
}

/// The block of a profile search decodes to its samples.
pub proof fn best_block_decodes(
    x: Seq<i32>,
    profile: DecorrProfile,
    mono: bool,
    bytes_per_sample: u8,
    block_index: u32,
    total_samples: u32,
)
    requires
        best_block(x, profile, mono, bytes_per_sample, block_index, total_samples) is Ok,
        frames_of(x, mono) <= MAX_DECODE_SAMPLES_PER_BLOCK,
    ensures
        holds(
            best_block(x, profile, mono, bytes_per_sample, block_index, total_samples)->Ok_0,
            x,
            coded_place(x, mono, Coding::Best(profile, bytes_per_sample), block_index, total_samples),
        ),
{
    let base = search_base(x, mono, bytes_per_sample);
    let plans = best_plans(search_domain(x), profile, mono);
    let at = coded_place(x, mono, Coding::Best(profile, bytes_per_sample), block_index, total_samples);
    lemma_best_plans(search_domain(x), profile, mono);
    lemma_plain_plans(x, base, plans, block_index, total_samples, at);
    lemma_search_holds(x, base, plans, block_index, total_samples, x, at);
}

proof fn lemma_plain_plans(x: Seq<i32>, base: Config, plans: Seq<Plan>, block_index: u32, total_samples: u32, at: Place)
    requires
        plans_ok(plans, base.mono),
        base.format is None,
        base.left_shift < 32,
        base.start && base.end,
        frames_of(x, base.mono) <= MAX_DECODE_SAMPLES_PER_BLOCK,
        at == (Place {
            frames: frames_of(x, base.mono),
            index: block_index,
            total: total_samples,
            mono: base.mono,
            float: false,
            start: true,
            end: true,
        }),
    ensures
        forall|i: int|
            0 <= i < plans.len() && block_bytes(x, planned(base, #[trigger] plans[i]), block_index, total_samples) is Ok
                ==> holds(block_bytes(x, planned(base, plans[i]), block_index, total_samples)->Ok_0, x, at),
{
    assert forall|i: int|
        0 <= i < plans.len() && block_bytes(x, planned(base, #[trigger] plans[i]), block_index, total_samples) is Ok implies holds(
        block_bytes(x, planned(base, plans[i]), block_index, total_samples)->Ok_0,
        x,
        at,
    ) by {
        let c = planned(base, plans[i]);
        assert(config_ok(c));
        plain_block_decodes(x, c, block_index, total_samples);
        assert(place_of(x, c, block_index, total_samples) == at);
    }
}

/// The block of a term search decodes to its samples.
pub proof fn searched_block_decodes(
    x: Seq<i32>,
    max_passes: usize,
    mono: bool,
    bytes_per_sample: u8,
    block_index: u32,
    total_samples: u32,
)
    requires
        searched_block(x, max_passes, mono, bytes_per_sample, block_index, total_samples) is Ok,
        frames_of(x, mono) <= MAX_DECODE_SAMPLES_PER_BLOCK,
    ensures
        holds(
            searched_block(x, max_passes, mono, bytes_per_sample, block_index, total_samples)->Ok_0,
            x,
            coded_place(x, mono, Coding::Plain(bytes_per_sample), block_index, total_samples),
        ),
{
    let base = search_base(x, mono, bytes_per_sample);
    let plans = searched_plans(search_domain(x), max_passes, mono);
    let at = coded_place(x, mono, Coding::Plain(bytes_per_sample), block_index, total_samples);
    lemma_searched_plans(search_domain(x), max_passes, mono);
    lemma_plain_plans(x, base, plans, block_index, total_samples, at);
    lemma_search_holds(x, base, plans, block_index, total_samples, x, at);
}

proof fn lemma_float_plans(x: Seq<u32>, mono: bool, plans: Seq<Plan>, block_index: u32, total_samples: u32, at: Place)
    requires
        plans_ok(plans, mono),
        frames_of(signed_all(x), mono) <= MAX_DECODE_SAMPLES_PER_BLOCK,
        at == (Place {
            frames: frames_of(signed_all(x), mono),
            index: block_index,
            total: total_samples,
            mono,
            float: true,
            start: true,
            end: true,
        }),
    ensures
        ({
            let ints = pattern_integers(x);
            let base = format_config(mono, float_format(x));
            forall|i: int|
                0 <= i < plans.len() && block_bytes(
                    ints,
                    planned(base, #[trigger] plans[i]),
                    block_index,
                    total_samples,
                ) is Ok ==> holds(
                    block_bytes(ints, planned(base, plans[i]), block_index, total_samples)->Ok_0,
                    signed_all(x),
                    at,
                )
        }),
{
    let ints = pattern_integers(x);
    let base = format_config(mono, float_format(x));
    assert forall|i: int|
        0 <= i < plans.len() && block_bytes(
            ints,
            planned(base, #[trigger] plans[i]),
            block_index,
            total_samples,
        ) is Ok implies holds(
        block_bytes(ints, planned(base, plans[i]), block_index, total_samples)->Ok_0,
        signed_all(x),
        at,
    ) by {
        let c = planned(base, plans[i]);
        assert(config_ok(c));
        float_block_decodes(x, c, block_index, total_samples);
        assert(place_of(signed_all(x), c, block_index, total_samples) == at);
    }
}

proof fn lemma_int32_plans(x: Seq<i32>, mono: bool, plans: Seq<Plan>, block_index: u32, total_samples: u32, at: Place)
    requires
        plans_ok(plans, mono),
        frames_of(x, mono) <= MAX_DECODE_SAMPLES_PER_BLOCK,
        at == (Place {
            frames: frames_of(x, mono),
            index: block_index,
            total: total_samples,
            mono,
            float: false,
            start: true,
            end: true,
        }),
    ensures
        ({
            let ints = int32_reduced(x);
            let base = format_config(mono, int32_format(x));
            forall|i: int|
                0 <= i < plans.len() && block_bytes(
                    ints,
                    planned(base, #[trigger] plans[i]),
                    block_index,
                    total_samples,
                ) is Ok ==> holds(
                    block_bytes(ints, planned(base, plans[i]), block_index, total_samples)->Ok_0,
                    x,
                    at,
                )
        }),
{
    let ints = int32_reduced(x);
    let base = format_config(mono, int32_format(x));
    assert forall|i: int|
        0 <= i < plans.len() && block_bytes(
            ints,
            planned(base, #[trigger] plans[i]),
            block_index,
            total_samples,
        ) is Ok implies holds(
        block_bytes(ints, planned(base, plans[i]), block_index, total_samples)->Ok_0,
        x,
        at,
    ) by {
        let c = planned(base, plans[i]);
        assert(config_ok(c));
        int32_block_decodes(x, c, block_index, total_samples);
        assert(place_of(x, c, block_index, total_samples) == at);
    }
}

/// Signed samples come back from their words.
pub proof fn lemma_words_signed(x: Seq<i32>)
    ensures
        signed_all(words_of(x)) == x,
{
    assert forall|i: int| 0 <= i < x.len() implies signed_all(words_of(x))[i] == x[i] by {
        lemma_word_signed(x[i]);
    }
    assert(signed_all(words_of(x)) =~= x);
}

proof fn lemma_word_signed(v: i32)
    ensures
        crate::arith::as_signed(crate::arith::wrap_u32(v as int)) == v,
{
}

/// Words come back from their signed values.
pub proof fn lemma_signed_words(x: Seq<u32>)
    ensures
        words_of(signed_all(x)) == x,
{
    assert forall|i: int| 0 <= i < x.len() implies words_of(signed_all(x))[i] == x[i] by {
        lemma_signed_word(x[i]);
    }
    assert(words_of(signed_all(x)) =~= x);
}

proof fn lemma_signed_word(v: u32)
    ensures
        crate::arith::wrap_u32(crate::arith::as_signed(v) as int) == v,
{
}

/// Every coded block decodes to its samples, and its checks hold.
pub proof fn coded_block_decodes(x: Seq<i32>, mono: bool, coding: Coding, block_index: u32, total_samples: u32)
    requires
        coded_block(x, mono, coding, block_index, total_samples) is Ok,
        frames_of(x, mono) <= MAX_DECODE_SAMPLES_PER_BLOCK,
    ensures
        holds(
            coded_block(x, mono, coding, block_index, total_samples)->Ok_0,
            x,
            coded_place(x, mono, coding, block_index, total_samples),
        ),
{
    reveal(coded_block);
    let at = coded_place(x, mono, coding, block_index, total_samples);
    match coding {
        Coding::Plain(n) => {
            plain_block_decodes(x, plain_config(mono, n), block_index, total_samples);
            assert(place_of(x, plain_config(mono, n), block_index, total_samples) == at);
        },
        Coding::Best(profile, n) => {
            best_block_decodes(x, profile, mono, n, block_index, total_samples);
        },
        Coding::Smallest(n) => {
            best_block_decodes(x, DecorrProfile::Extra, mono, n, block_index, total_samples);
            searched_block_decodes(x, crate::decorrelation::MAX_NTERMS, mono, n, block_index, total_samples);
            assert(at == coded_place(x, mono, Coding::Plain(n), block_index, total_samples));
            assert(at == coded_place(
                x,
                mono,
                Coding::Best(DecorrProfile::Extra, n),
                block_index,
                total_samples,
            ));
        },
        Coding::Float(profile) => {
            let words = words_of(x);
            let ints = pattern_integers(words);
            let plans = best_plans(ints, profile, mono);
            lemma_words_signed(x);
            lemma_best_plans(ints, profile, mono);
            lemma_float_plans(words, mono, plans, block_index, total_samples, at);
            lemma_search_holds(ints, format_config(mono, float_format(words)), plans, block_index, total_samples, x, at);
        },
        Coding::Int32(profile) => {
            let ints = int32_reduced(x);
            let plans = best_plans(ints, profile, mono);
            lemma_best_plans(ints, profile, mono);
            lemma_int32_plans(x, mono, plans, block_index, total_samples, at);
            lemma_search_holds(ints, format_config(mono, int32_format(x)), plans, block_index, total_samples, x, at);
        },
    }
}

/// Reading a block before more bytes.
pub proof fn lemma_read_first(bytes: Seq<u8>, x: Seq<i32>, at: Place, rest: Seq<u8>)
    requires
        holds(bytes, x, at),
        at.frames > 0,
        audio_of(rest) is Ok,
    ensures
        audio_of(bytes + rest) == Ok::<Seq<Block>, Error>(seq![first_block(bytes)] + audio_of(rest)->Ok_0),
{
    reveal(holds);
    let b = first_block(bytes);
    assert(block_of(bytes + rest) == Ok::<(Block, Seq<u8>), Error>((b, rest)));
    let more = blocks_of(rest)->Ok_0;
    lemma_audio_first(b, more);
}

/// The audio blocks of a list behind an audio block.
pub proof fn lemma_audio_first(b: Block, more: Seq<Block>)
    requires
        b.header.block_samples != 0,
    ensures
        audio_only(seq![b] + more) == seq![b] + audio_only(more),
    decreases more.len(),
{
    let all = seq![b] + more;
    if more.len() == 0 {
        assert(all.drop_last() =~= Seq::empty());
        assert(all.last() == b);
        assert(audio_only(all.drop_last()) =~= Seq::empty());
        assert(audio_only(more) =~= Seq::empty());
        assert(audio_only(all) =~= seq![b] + audio_only(more));
    } else {
        lemma_audio_first(b, more.drop_last());
        assert(all.drop_last() =~= seq![b] + more.drop_last());
        assert(all.last() == more.last());
        assert(audio_only(all) =~= seq![b] + audio_only(more));
    }
}

/// The samples of a list behind a block.
pub proof fn lemma_decoded_first(b: Block, x: Seq<i32>, more: Seq<Block>, y: Seq<i32>, mute: bool)
    requires
        decode_block(b) == Ok::<Decoded, Error>(Decoded { samples: x, ok: true }),
        decoded_blocks(more, mute) == Ok::<Decoded, Error>(Decoded { samples: y, ok: true }),
    ensures
        decoded_blocks(seq![b] + more, mute) == Ok::<Decoded, Error>(Decoded { samples: x + y, ok: true }),
{
    lemma_decoded_behind(b, x, more, mute);
}

proof fn lemma_decoded_behind(b: Block, x: Seq<i32>, more: Seq<Block>, mute: bool)
    requires
        decode_block(b) == Ok::<Decoded, Error>(Decoded { samples: x, ok: true }),
    ensures
        match decoded_blocks(more, mute) {
            Err(e) => decoded_blocks(seq![b] + more, mute) == Err::<Decoded, Error>(e),
            Ok(d) => decoded_blocks(seq![b] + more, mute) == Ok::<Decoded, Error>(
                Decoded { samples: x + d.samples, ok: d.ok },
            ),
        },
    decreases more.len(),
{
    let all = seq![b] + more;
    if more.len() == 0 {
        assert(all.drop_last() =~= Seq::empty());
        assert(all.last() == b);
        assert(decoded_blocks(all.drop_last(), mute) == Ok::<Decoded, Error>(
            Decoded { samples: Seq::empty(), ok: true },
        ));
        assert(Seq::<i32>::empty() + x =~= x + Seq::<i32>::empty());
    } else {
        lemma_decoded_behind(b, x, more.drop_last(), mute);
        assert(all.drop_last() =~= seq![b] + more.drop_last());
        assert(all.last() == more.last());
        if let Ok(d) = decoded_blocks(more.drop_last(), mute) {
            if let Ok(e) = decode_block(more.last()) {
                let piece = if mute {
                    heard(e)
                } else {
                    e.samples
                };
                assert((x + d.samples) + piece =~= x + (d.samples + piece));
            }
        }
    }
}

/// A stream that starts with a block.
pub proof fn lemma_stream_first(b: Seq<u8>, w: Seq<i32>, at: Place, tail: Seq<u8>, rest: Seq<i32>, mute: bool)
    requires
        holds(b, w, at),
        at.frames > 0,
        stream_samples(tail, mute) == Ok::<Decoded, Error>(Decoded { samples: rest, ok: true }),
    ensures
        stream_samples(b + tail, mute) == Ok::<Decoded, Error>(Decoded { samples: w + rest, ok: true }),
        audio_of(b + tail) is Ok,
        audio_of(tail) is Ok,
        at.float && all_float(audio_of(tail)->Ok_0) ==> all_float(audio_of(b + tail)->Ok_0),
{
    reveal(holds);
    lemma_read_first(b, w, at, tail);
    let blocks = audio_of(tail)->Ok_0;
    lemma_decoded_first(first_block(b), w, blocks, rest, mute);
    if at.float && all_float(blocks) {
        let all = seq![first_block(b)] + blocks;
        assert forall|i: int| 0 <= i < all.len() implies (#[trigger] all[i]).header.flags.float_data by {
            if i > 0 {
                assert(all[i] == blocks[i - 1]);
            }
        }
    }
}

/// Whether a stream decodes to `x` with its checks right, and is one of
/// patterns where `float` says so.
#[verifier::opaque]
pub open spec fn stream_holds(bytes: Seq<u8>, x: Seq<i32>, float: bool, mute: bool) -> bool {
    &&& stream_samples(bytes, mute) == Ok::<Decoded, Error>(Decoded { samples: x, ok: true })
    &&& audio_of(bytes) is Ok
    &&& float ==> all_float(audio_of(bytes)->Ok_0)
}

proof fn lemma_stream_grows(b: Seq<u8>, w: Seq<i32>, at: Place, tail: Seq<u8>, rest: Seq<i32>, float: bool, mute: bool)
    requires
        holds(b, w, at),
        at.frames > 0,
        at.float == float,
        stream_holds(tail, rest, float, mute),
    ensures
        stream_holds(b + tail, w + rest, float, mute),
{
    reveal(stream_holds);
    lemma_stream_first(b, w, at, tail, rest, mute);
}

proof fn lemma_stream_ends(float: bool, mute: bool)
    ensures
        stream_holds(Seq::empty(), Seq::empty(), float, mute),
{
    reveal(stream_holds);
    assert(blocks_of(Seq::<u8>::empty()) == Ok::<Seq<Block>, Error>(Seq::empty()));
}

proof fn lemma_stream_from(
    x: Seq<i32>,
    step: int,
    mono: bool,
    coding: Coding,
    index: int,
    total_samples: u32,
    mute: bool,
)
    requires
        step > 0,
        !mono ==> x.len() % 2 == 0 && step % 2 == 0,
        frames_of(window(x, step), mono) <= MAX_DECODE_SAMPLES_PER_BLOCK,
        stream_from(x, step, mono, coding, index, total_samples) is Ok,
    ensures
        stream_holds(
            stream_from(x, step, mono, coding, index, total_samples)->Ok_0,
            x,
            coding is Float,
            mute,
        ),
    decreases x.len(),
{
    let bytes = stream_from(x, step, mono, coding, index, total_samples)->Ok_0;
    let float = coding is Float;
    if x.len() == 0 {
        lemma_stream_ends(float, mute);
        assert(x =~= Seq::empty());
    } else {
        let w = window(x, step);
        let rest = x.skip(w.len() as int);
        let later = index + frames_of(w, mono);
        coded_block_decodes(w, mono, coding, index as u32, total_samples);
        let b = coded_block(w, mono, coding, index as u32, total_samples)->Ok_0;
        let tail = stream_from(rest, step, mono, coding, later, total_samples)->Ok_0;
        lemma_stream_from(rest, step, mono, coding, later, total_samples, mute);
        let at = coded_place(w, mono, coding, index as u32, total_samples);
        assert(at.frames > 0);
        lemma_stream_grows(b, w, at, tail, rest, float, mute);
        assert(w + rest =~= x);
        assert(bytes == b + tail);
    }
}

/// Whether no block of a stream holds more frames than are decoded.
pub open spec fn blocks_small(x: Seq<i32>, block_samples: usize, mono: bool) -> bool {
    block_frames(block_samples) <= MAX_DECODE_SAMPLES_PER_BLOCK || frames_of(x, mono) <= MAX_DECODE_SAMPLES_PER_BLOCK
}

/// Decoding an encoded stream gives the samples back, and every check holds.
pub proof fn stream_roundtrip(x: Seq<i32>, block_samples: usize, mono: bool, coding: Coding, mute: bool)
    requires
        stream_bytes(x, block_samples, mono, coding) is Ok,
        blocks_small(x, block_samples, mono),
    ensures
        stream_samples(stream_bytes(x, block_samples, mono, coding)->Ok_0, mute) == Ok::<Decoded, Error>(
            Decoded { samples: x, ok: true },
        ),
{
    reveal(stream_holds);
    lemma_stream_from(
        x,
        block_step(block_samples, mono),
        mono,
        coding,
        0,
        frames_of(x, mono) as u32,
        mute,
    );
}

/// Decoding an encoded stream of patterns gives the patterns back.
pub proof fn pattern_stream_roundtrip(x: Seq<u32>, block_samples: usize, mono: bool, profile: DecorrProfile)
    requires
        stream_bytes(signed_all(x), block_samples, mono, Coding::Float(profile)) is Ok,
        blocks_small(signed_all(x), block_samples, mono),
    ensures
        stream_patterns(stream_bytes(signed_all(x), block_samples, mono, Coding::Float(profile))->Ok_0) == Ok::<
            Seq<u32>,
            Error,
        >(x),
{
    reveal(stream_holds);
    lemma_stream_from(
        signed_all(x),
        block_step(block_samples, mono),
        mono,
        Coding::Float(profile),
        0,
        frames_of(signed_all(x), mono) as u32,
        false,
    );
    lemma_signed_words(x);
}

/// No profile search of fewer profiles finds a smaller block.
pub proof fn wider_search_is_smaller(
    x: Seq<i32>,
    a: DecorrProfile,
    b: DecorrProfile,
    mono: bool,
    bytes_per_sample: u8,
    block_index: u32,
    total_samples: u32,
)
    requires
        a.tried().len() <= b.tried().len(),
        best_block(x, b, mono, bytes_per_sample, block_index, total_samples) is Ok,
    ensures
        best_block(x, a, mono, bytes_per_sample, block_index, total_samples) is Ok,
        best_block(x, b, mono, bytes_per_sample, block_index, total_samples)->Ok_0.len() <= best_block(
            x,
            a,
            mono,
            bytes_per_sample,
            block_index,
            total_samples,
        )->Ok_0.len(),
{
    let base = search_base(x, mono, bytes_per_sample);
    let y = search_domain(x);
    let pa = best_plans(y, a, mono);
    let pb = best_plans(y, b, mono);
    lemma_best_plans(y, a, mono);
    lemma_best_plans(y, b, mono);
    crate::derive::searches_nest(a, b);
    search_is_least(x, base, pb, block_index, total_samples);
    assert forall|i: int| 0 <= i < pa.len() implies exists|j: int| 0 <= j < pb.len() && #[trigger] pa[i] == #[trigger] pb[j] by {
        crate::search::lemma_plans_nest(y, a, b, mono, i);
    }
    crate::search::lemma_search_ok(x, base, pa, pb, block_index, total_samples);
    search_is_least(x, base, pa, block_index, total_samples);
    let whole = search_block(x, base, pa, block_index, total_samples);
    let i = choose|i: int|
        0 <= i < pa.len() && plan_block(x, base, #[trigger] pa[i], block_index, total_samples) == whole;
    let j = choose|j: int| 0 <= j < pb.len() && pa[i] == #[trigger] pb[j];
    assert(plan_block(x, base, pb[j], block_index, total_samples) == whole);
}

/// The smaller of both searches is no larger than either.
pub proof fn smallest_is_least(x: Seq<i32>, mono: bool, bytes_per_sample: u8, block_index: u32, total_samples: u32)
    requires
        smallest_block(x, mono, bytes_per_sample, block_index, total_samples) is Ok,
    ensures
        ({
            let least = smallest_block(x, mono, bytes_per_sample, block_index, total_samples)->Ok_0.len();
            let a = best_block(x, DecorrProfile::Extra, mono, bytes_per_sample, block_index, total_samples);
            let b = searched_block(
                x,
                crate::decorrelation::MAX_NTERMS,
                mono,
                bytes_per_sample,
                block_index,
                total_samples,
            );
            &&& a is Ok && least <= a->Ok_0.len()
            &&& b is Ok && least <= b->Ok_0.len()
        }),
{
}

// ---------------------------------------------------------------------------
// Reading blocks back
// ---------------------------------------------------------------------------

/// A block that holds samples is a stream of those samples.
pub proof fn lemma_holds_stream(bytes: Seq<u8>, x: Seq<i32>, at: Place, mute: bool)
    requires
        holds(bytes, x, at),
        at.frames > 0,
    ensures
        stream_samples(bytes, mute) == Ok::<Decoded, Error>(Decoded { samples: x, ok: true }),
        audio_of(bytes) is Ok,
        at.float ==> all_float(audio_of(bytes)->Ok_0),
{
    let none = Seq::<u8>::empty();
    assert(blocks_of(none) == Ok::<Seq<Block>, Error>(Seq::empty()));
    lemma_stream_first(bytes, x, at, none, Seq::empty(), mute);
    assert(bytes + none =~= bytes);
    assert(x + Seq::<i32>::empty() =~= x);
}

/// Decoding a block of plain integers gives its samples back, and its check
/// holds: whatever its channels, shift, passes and place in a set.
pub proof fn block_roundtrip(x: Seq<i32>, c: Config, block_index: u32, total_samples: u32, mute: bool)
    requires
        config_ok(c),
        c.format is None,
        block_bytes(x, c, block_index, total_samples) is Ok,
        frames_of(x, c.mono) <= MAX_DECODE_SAMPLES_PER_BLOCK,
    ensures
        stream_samples(block_bytes(x, c, block_index, total_samples)->Ok_0, mute) == Ok::<Decoded, Error>(
            Decoded { samples: x, ok: true },
        ),
{
    plain_block_decodes(x, c, block_index, total_samples);
    lemma_holds_stream(
        block_bytes(x, c, block_index, total_samples)->Ok_0,
        x,
        place_of(x, c, block_index, total_samples),
        mute,
    );
}

/// Decoding a block of wide integers gives its samples back, and its checks hold.
pub proof fn int32_block_roundtrip(x: Seq<i32>, mono: bool, block_index: u32, total_samples: u32, mute: bool)
    requires
        block_bytes(int32_reduced(x), format_config(mono, int32_format(x)), block_index, total_samples) is Ok,
        frames_of(x, mono) <= MAX_DECODE_SAMPLES_PER_BLOCK,
    ensures
        stream_samples(
            block_bytes(int32_reduced(x), format_config(mono, int32_format(x)), block_index, total_samples)->Ok_0,
            mute,
        ) == Ok::<Decoded, Error>(Decoded { samples: x, ok: true }),
{
    let c = format_config(mono, int32_format(x));
    int32_block_decodes(x, c, block_index, total_samples);
    lemma_holds_stream(
        block_bytes(int32_reduced(x), c, block_index, total_samples)->Ok_0,
        x,
        place_of(x, c, block_index, total_samples),
        mute,
    );
}

/// Decoding a block of floating-point patterns gives its patterns back.
pub proof fn float_block_roundtrip(x: Seq<u32>, mono: bool, block_index: u32, total_samples: u32)
    requires
        block_bytes(pattern_integers(x), format_config(mono, float_format(x)), block_index, total_samples) is Ok,
        frames_of(signed_all(x), mono) <= MAX_DECODE_SAMPLES_PER_BLOCK,
    ensures
        stream_patterns(
            block_bytes(pattern_integers(x), format_config(mono, float_format(x)), block_index, total_samples)->Ok_0,
        ) == Ok::<Seq<u32>, Error>(x),
{
    let c = format_config(mono, float_format(x));
    float_block_decodes(x, c, block_index, total_samples);
    lemma_holds_stream(
        block_bytes(pattern_integers(x), c, block_index, total_samples)->Ok_0,
        signed_all(x),
        place_of(signed_all(x), c, block_index, total_samples),
        false,
    );
    lemma_signed_words(x);
}

/// Decoding a block that a search finds gives its samples back, and its checks
/// hold: by a profile search, by both searches, in any sample format.
pub proof fn coded_block_roundtrip(
    x: Seq<i32>,
    mono: bool,
    coding: Coding,
    block_index: u32,
    total_samples: u32,
    mute: bool,
)
    requires
        x.len() > 0,
        !mono ==> x.len() % 2 == 0,
        coded_block(x, mono, coding, block_index, total_samples) is Ok,
        frames_of(x, mono) <= MAX_DECODE_SAMPLES_PER_BLOCK,
    ensures
        stream_samples(coded_block(x, mono, coding, block_index, total_samples)->Ok_0, mute) == Ok::<Decoded, Error>(
            Decoded { samples: x, ok: true },
        ),
{
    coded_block_decodes(x, mono, coding, block_index, total_samples);
    lemma_holds_stream(
        coded_block(x, mono, coding, block_index, total_samples)->Ok_0,
        x,
        coded_place(x, mono, coding, block_index, total_samples),
        mute,
    );
}

/// Decoding a block that a term search finds gives its samples back, and its
/// check holds.
pub proof fn searched_block_roundtrip(
    x: Seq<i32>,
    max_passes: usize,
    mono: bool,
    bytes_per_sample: u8,
    block_index: u32,
    total_samples: u32,
    mute: bool,
)
    requires
        searched_block(x, max_passes, mono, bytes_per_sample, block_index, total_samples) is Ok,
        frames_of(x, mono) <= MAX_DECODE_SAMPLES_PER_BLOCK,
    ensures
        stream_samples(
            searched_block(x, max_passes, mono, bytes_per_sample, block_index, total_samples)->Ok_0,
            mute,
        ) == Ok::<Decoded, Error>(Decoded { samples: x, ok: true }),
{
    searched_block_decodes(x, max_passes, mono, bytes_per_sample, block_index, total_samples);
    lemma_holds_stream(
        searched_block(x, max_passes, mono, bytes_per_sample, block_index, total_samples)->Ok_0,
        x,
        coded_place(x, mono, Coding::Plain(bytes_per_sample), block_index, total_samples),
        mute,
    );
}

// ---------------------------------------------------------------------------
// What searches promise
// ---------------------------------------------------------------------------

/// A search is no larger than the block of any plan that it tries.
proof fn lemma_search_beats(
    x: Seq<i32>,
    base: Config,
    plans: Seq<Plan>,
    plan: Plan,
    i: int,
    block_index: u32,
    total_samples: u32,
)
    requires
        0 <= i < plans.len(),
        plans[i] == plan,
        search_block(x, base, plans, block_index, total_samples) is Ok,
    ensures
        ({
            let one = block_bytes(x, planned(base, plan), block_index, total_samples);
            one is Ok && search_block(x, base, plans, block_index, total_samples)->Ok_0.len() <= one->Ok_0.len()
        }),
{
    search_is_least(x, base, plans, block_index, total_samples);
    assert(plan_block(x, base, plans[i], block_index, total_samples) is Ok);
    reveal(plan_block);
}

/// A profile search never loses to the block without passes at its shift, and
/// neither does a term search; on stereo neither loses to that block as mid
/// and side.
pub proof fn searches_never_lose_to_raw(
    x: Seq<i32>,
    profile: DecorrProfile,
    max_passes: usize,
    mono: bool,
    joint: bool,
    bytes_per_sample: u8,
    block_index: u32,
    total_samples: u32,
)
    requires
        joint ==> !mono,
    ensures
        ({
            let base = search_base(x, mono, bytes_per_sample);
            let raw = block_bytes(x, Config { joint, ..base }, block_index, total_samples);
            let best = best_block(x, profile, mono, bytes_per_sample, block_index, total_samples);
            let searched = searched_block(x, max_passes, mono, bytes_per_sample, block_index, total_samples);
            &&& best is Ok ==> raw is Ok && best->Ok_0.len() <= raw->Ok_0.len()
            &&& searched is Ok ==> raw is Ok && searched->Ok_0.len() <= raw->Ok_0.len()
        }),
{
    let base = search_base(x, mono, bytes_per_sample);
    let y = search_domain(x);
    let pa = best_plans(y, profile, mono);
    let pb = searched_plans(y, max_passes, mono);
    let none = Plan { joint, decorr: None };
    assert(planned(base, none) == (Config { joint, ..base }));
    lemma_best_plans(y, profile, mono);
    lemma_searched_plans(y, max_passes, mono);
    if joint {
        lemma_joint_listed(y, profile, max_passes);
    } else {
        assert(pa[0] == none && pb[0] == none);
    }
    let i = choose|i: int| 0 <= i < pa.len() && #[trigger] pa[i] == none;
    let j = choose|j: int| 0 <= j < pb.len() && #[trigger] pb[j] == none;
    if best_block(x, profile, mono, bytes_per_sample, block_index, total_samples) is Ok {
        lemma_search_beats(x, base, pa, none, i, block_index, total_samples);
    }
    if searched_block(x, max_passes, mono, bytes_per_sample, block_index, total_samples) is Ok {
        lemma_search_beats(x, base, pb, none, j, block_index, total_samples);
    }
}

proof fn lemma_format_search_beats(
    ints: Seq<i32>,
    profile: DecorrProfile,
    mono: bool,
    joint: bool,
    format: Format,
    block_index: u32,
    total_samples: u32,
)
    requires
        joint ==> !mono,
        best_ints_block(ints, profile, mono, format, block_index, total_samples) is Ok,
    ensures
        ({
            let c = format_config(mono, format);
            let raw = block_bytes(ints, Config { joint, ..c }, block_index, total_samples);
            raw is Ok && best_ints_block(ints, profile, mono, format, block_index, total_samples)->Ok_0.len()
                <= raw->Ok_0.len()
        }),
{
    let base = format_config(mono, format);
    let plans = best_plans(ints, profile, mono);
    let none = Plan { joint, decorr: None };
    assert(planned(base, none) == (Config { joint, ..base }));
    lemma_best_plans(ints, profile, mono);
    if joint {
        lemma_joint_listed(ints, profile, 0);
    } else {
        assert(plans[0] == none);
    }
    let i = choose|i: int| 0 <= i < plans.len() && #[trigger] plans[i] == none;
    lemma_search_beats(ints, base, plans, none, i, block_index, total_samples);
}

/// A profile search over patterns never loses to the block without passes; on
/// stereo it does not lose to that block as mid and side either.
pub proof fn float_search_never_loses_to_raw(
    x: Seq<u32>,
    profile: DecorrProfile,
    mono: bool,
    joint: bool,
    block_index: u32,
    total_samples: u32,
)
    requires
        joint ==> !mono,
        best_float_block(x, profile, mono, block_index, total_samples) is Ok,
    ensures
        ({
            let c = format_config(mono, float_format(x));
            let raw = block_bytes(pattern_integers(x), Config { joint, ..c }, block_index, total_samples);
            raw is Ok && best_float_block(x, profile, mono, block_index, total_samples)->Ok_0.len()
                <= raw->Ok_0.len()
        }),
{
    lemma_format_search_beats(pattern_integers(x), profile, mono, joint, float_format(x), block_index, total_samples);
}

/// A profile search over wide integers never loses to the block without
/// passes; on stereo it does not lose to that block as mid and side either.
pub proof fn int32_search_never_loses_to_raw(
    x: Seq<i32>,
    profile: DecorrProfile,
    mono: bool,
    joint: bool,
    block_index: u32,
    total_samples: u32,
)
    requires
        joint ==> !mono,
        best_int32_block(x, profile, mono, block_index, total_samples) is Ok,
    ensures
        ({
            let c = format_config(mono, int32_format(x));
            let raw = block_bytes(int32_reduced(x), Config { joint, ..c }, block_index, total_samples);
            raw is Ok && best_int32_block(x, profile, mono, block_index, total_samples)->Ok_0.len()
                <= raw->Ok_0.len()
        }),
{
    lemma_format_search_beats(int32_reduced(x), profile, mono, joint, int32_format(x), block_index, total_samples);
}

/// Where samples have no zero bits below them all, a profile search never
/// loses to a block whose passes are derived under a profile that it tries.
pub proof fn search_never_loses_to_auto(
    x: Seq<i32>,
    profile: DecorrProfile,
    tried: DecorrProfile,
    mono: bool,
    joint: bool,
    bytes_per_sample: u8,
    block_index: u32,
    total_samples: u32,
)
    requires
        joint ==> !mono,
        tried.tried().len() <= profile.tried().len(),
        crate::search::detected(x) == 0,
        best_block(x, profile, mono, bytes_per_sample, block_index, total_samples) is Ok,
    ensures
        ({
            let best = best_block(x, profile, mono, bytes_per_sample, block_index, total_samples);
            let auto = auto_block(x, tried, mono, joint, bytes_per_sample, block_index, total_samples);
            auto is Ok && best->Ok_0.len() <= auto->Ok_0.len()
        }),
{
    let base = search_base(x, mono, bytes_per_sample);
    let y = search_domain(x);
    let plans = best_plans(y, profile, mono);
    detected_shift_is_exact(x);
    crate::block_law::lemma_narrow_zero(x);
    assert(y == x);
    let plan = crate::search::derived_plan(x, tried.terms(!mono), 1, mono, joint);
    crate::search::lemma_plan_listed(y, profile, tried, mono, joint);
    let i = choose|i: int| 0 <= i < plans.len() && #[trigger] plans[i] == plan;
    lemma_best_plans(y, profile, mono);
    search_is_least(x, base, plans, block_index, total_samples);
    assert(plan_block(x, base, plans[i], block_index, total_samples) is Ok);
    reveal(plan_block);
    assert(base == plain_config(mono, bytes_per_sample));
}

/// A stream whose blocks are the smaller of both searches is no larger than
/// the stream of the widest profile search.
pub proof fn smallest_stream_is_least(
    x: Seq<i32>,
    step: int,
    mono: bool,
    bytes_per_sample: u8,
    index: int,
    total_samples: u32,
)
    requires
        stream_from(x, step, mono, Coding::Smallest(bytes_per_sample), index, total_samples) is Ok,
    ensures
        ({
            let best = stream_from(
                x,
                step,
                mono,
                Coding::Best(DecorrProfile::Extra, bytes_per_sample),
                index,
                total_samples,
            );
            &&& best is Ok
            &&& stream_from(x, step, mono, Coding::Smallest(bytes_per_sample), index, total_samples)->Ok_0.len()
                <= best->Ok_0.len()
        }),
    decreases x.len(),
{
    if x.len() > 0 && step > 0 {
        let w = window(x, step);
        reveal(coded_block);
        smallest_is_least(w, mono, bytes_per_sample, index as u32, total_samples);
        smallest_stream_is_least(
            x.skip(w.len() as int),
            step,
            mono,
            bytes_per_sample,
            index + frames_of(w, mono),
            total_samples,
        );
    }
}

// ---------------------------------------------------------------------------
// Where frames start
// ---------------------------------------------------------------------------

/// The frame runs of a stream.
pub open spec fn stream_runs(bytes: Seq<u8>) -> Seq<FrameRun> {
    runs_of(audio_of(bytes)->Ok_0)
}

/// The runs of a stream behind a block.
pub proof fn lemma_runs_first(bytes: Seq<u8>, x: Seq<i32>, at: Place, rest: Seq<u8>)
    requires
        holds(bytes, x, at),
        0 < at.frames <= u32::MAX,
        audio_of(rest) is Ok,
    ensures
        audio_of(bytes + rest) is Ok,
        at.start ==> stream_runs(bytes + rest) == seq![FrameRun { first: at.index, frames: at.frames as u32 }]
            + stream_runs(rest),
        !at.start ==> stream_runs(bytes + rest) == stream_runs(rest),
{
    lemma_read_first(bytes, x, at, rest);
    let b = first_block(bytes);
    reveal(holds);
    lemma_one_run(b);
    lemma_runs_concat(seq![b], audio_of(rest)->Ok_0);
    if !at.start {
        assert(Seq::<FrameRun>::empty() + stream_runs(rest) =~= stream_runs(rest));
    }
}

proof fn lemma_stream_runs(x: Seq<i32>, step: int, mono: bool, coding: Coding, index: int, total_samples: u32)
    requires
        step > 0,
        !mono ==> x.len() % 2 == 0 && step % 2 == 0,
        frames_of(window(x, step), mono) <= MAX_DECODE_SAMPLES_PER_BLOCK,
        0 <= index,
        index + frames_of(x, mono) <= u32::MAX,
        stream_from(x, step, mono, coding, index, total_samples) is Ok,
    ensures
        ({
            let bytes = stream_from(x, step, mono, coding, index, total_samples)->Ok_0;
            &&& audio_of(bytes) is Ok
            &&& runs_from(stream_runs(bytes), index)
            &&& frames_in(stream_runs(bytes)) == frames_of(x, mono)
        }),
    decreases x.len(),
{
    let bytes = stream_from(x, step, mono, coding, index, total_samples)->Ok_0;
    if x.len() == 0 {
        assert(blocks_of(bytes) == Ok::<Seq<Block>, Error>(Seq::empty()));
        assert(stream_runs(bytes) =~= Seq::empty());
    } else {
        let w = window(x, step);
        let rest = x.skip(w.len() as int);
        let later = index + frames_of(w, mono);
        coded_block_decodes(w, mono, coding, index as u32, total_samples);
        let b = coded_block(w, mono, coding, index as u32, total_samples)->Ok_0;
        let tail = stream_from(rest, step, mono, coding, later, total_samples)->Ok_0;
        lemma_stream_runs(rest, step, mono, coding, later, total_samples);
        let at = coded_place(w, mono, coding, index as u32, total_samples);
        lemma_runs_first(b, w, at, tail);
        lemma_run_first(FrameRun { first: at.index, frames: at.frames as u32 }, stream_runs(tail), index);
        assert(bytes == b + tail);
    }
}

/// The blocks of an encoded stream follow one another without a gap, from
/// frame zero to the last.
pub proof fn streams_are_seekable(x: Seq<i32>, block_samples: usize, mono: bool, coding: Coding)
    requires
        stream_bytes(x, block_samples, mono, coding) is Ok,
        blocks_small(x, block_samples, mono),
    ensures
        ({
            let runs = stream_runs(stream_bytes(x, block_samples, mono, coding)->Ok_0);
            contiguous(runs) && frames_in(runs) == frames_of(x, mono)
        }),
{
    lemma_stream_runs(x, block_step(block_samples, mono), mono, coding, 0, frames_of(x, mono) as u32);
}

} // verus!
