//! Lossless encoders: one block, or a stream of blocks.
use vstd::prelude::*;
use crate::block_law::{float_format, int32_format};
use crate::block_writer::{BlockConfig, Config, Format, FormatExtras, block_bytes, encode_block_core, join_stereo, narrow_left_shift, narrowed, plain_config, raw_config, working};
use crate::decorrelation::{DecorrPass, MAX_NTERMS, states};
use crate::derive::{DecorrProfile, derive_mono_passes, derive_stereo_passes, derived, derived_passes_serialize, lemma_profile_terms};
use crate::error::{Error, Result};
use crate::float::{FloatDeconstruction, deconstruct_float, float_integers, float_plan};
use crate::int32::{Int32Deconstruction, deconstruct_int32, int32_reduced};
use crate::packed_samples::bytes_of;
use crate::passes::{Payloads, serialize_passes};
use crate::search::{Plan, SearchPlan, best_plans, derived_plan, detect_left_shift, detected, detected_shift_is_exact, list_best_plans, list_searched_plans, planned, search_block, search_plans, searched_plans};

verus! {

// ---------------------------------------------------------------------------
// Blocks as they are
// ---------------------------------------------------------------------------

/// Writes a mono block.
pub fn encode_block_mono(pcm: &[i32], bytes_per_sample: u8, block_index: u32, total_samples: u32) -> (r: Result<Vec<u8>>)
    ensures
        bytes_of(r) == block_bytes(pcm@, plain_config(true, bytes_per_sample), block_index, total_samples),
{
    encode_block_core(pcm, &raw_config(true, bytes_per_sample), block_index, total_samples)
}

/// A mono member of a multichannel set.
pub open spec fn member_config(bytes_per_sample: u8, start: bool, end: bool, info: Option<Seq<u8>>) -> Config {
    Config { start, end, multichannel_info: info, ..plain_config(true, bytes_per_sample) }
}

/// The bytes of an optional multichannel payload.
pub open spec fn info_bytes(info: Option<[u8; 2]>) -> Option<Seq<u8>> {
    match info {
        Some(b) => Some(b@),
        None => None,
    }
}

/// Writes a mono member of a multichannel set.
pub fn encode_block_mono_marker(
    pcm: &[i32],
    bytes_per_sample: u8,
    block_index: u32,
    total_samples: u32,
    start: bool,
    end: bool,
    multichannel_info: Option<[u8; 2]>,
) -> (r: Result<Vec<u8>>)
    ensures
        bytes_of(r) == block_bytes(
            pcm@,
            member_config(bytes_per_sample, start, end, info_bytes(multichannel_info)),
            block_index,
            total_samples,
        ),
{
    let mut config = raw_config(true, bytes_per_sample);
    config.start = start;
    config.end = end;
    config.multichannel_info = multichannel_info;
    assert(config@ =~= member_config(bytes_per_sample, start, end, info_bytes(multichannel_info)));
    encode_block_core(pcm, &config, block_index, total_samples)
}

/// Writes a stereo block from interleaved samples.
pub fn encode_block_stereo(pcm: &[i32], bytes_per_sample: u8, block_index: u32, total_samples: u32) -> (r: Result<Vec<u8>>)
    ensures
        bytes_of(r) == block_bytes(pcm@, plain_config(false, bytes_per_sample), block_index, total_samples),
{
    encode_block_core(pcm, &raw_config(false, bytes_per_sample), block_index, total_samples)
}

/// A stereo block as mid and side.
pub open spec fn joint_config(bytes_per_sample: u8) -> Config {
    Config { joint: true, ..plain_config(false, bytes_per_sample) }
}

/// Writes a stereo block as mid and side.
pub fn encode_block_stereo_joint(pcm: &[i32], bytes_per_sample: u8, block_index: u32, total_samples: u32) -> (r: Result<
    Vec<u8>,
>)
    ensures
        bytes_of(r) == block_bytes(pcm@, joint_config(bytes_per_sample), block_index, total_samples),
{
    let mut config = raw_config(false, bytes_per_sample);
    config.joint = true;
    encode_block_core(pcm, &config, block_index, total_samples)
}

/// The bytes of a block with zero bits below each sample.
pub open spec fn shifted_block(
    x: Seq<i32>,
    mono: bool,
    left_shift: u8,
    bytes_per_sample: u8,
    block_index: u32,
    total_samples: u32,
) -> core::result::Result<Seq<u8>, Error> {
    if left_shift == 0 {
        Err(Error::EncodeLeftShiftZero)
    } else {
        block_bytes(x, Config { left_shift, ..plain_config(mono, bytes_per_sample) }, block_index, total_samples)
    }
}

/// Writes a mono block whose samples have `left_shift` zero bits below them.
pub fn encode_block_mono_shifted(
    pcm: &[i32],
    left_shift: u8,
    bytes_per_sample: u8,
    block_index: u32,
    total_samples: u32,
) -> (r: Result<Vec<u8>>)
    requires
        left_shift < 32 || pcm@.len() == 0,
    ensures
        bytes_of(r) == shifted_block(pcm@, true, left_shift, bytes_per_sample, block_index, total_samples),
{
    if left_shift == 0 {
        return Err(Error::EncodeLeftShiftZero);
    }
    if pcm.len() == 0 {
        return Err(Error::EncodeEmptyAudio);
    }
    let mut config = raw_config(true, bytes_per_sample);
    config.left_shift = left_shift;
    encode_block_core(pcm, &config, block_index, total_samples)
}

/// Writes a stereo block whose samples have `left_shift` zero bits below them.
pub fn encode_block_stereo_shifted(
    pcm: &[i32],
    left_shift: u8,
    bytes_per_sample: u8,
    block_index: u32,
    total_samples: u32,
) -> (r: Result<Vec<u8>>)
    requires
        left_shift < 32 || pcm@.len() == 0 || pcm@.len() % 2 != 0,
    ensures
        bytes_of(r) == shifted_block(pcm@, false, left_shift, bytes_per_sample, block_index, total_samples),
{
    if left_shift == 0 {
        return Err(Error::EncodeLeftShiftZero);
    }
    if pcm.len() == 0 {
        return Err(Error::EncodeEmptyAudio);
    }
    if pcm.len() % 2 != 0 {
        return Err(Error::EncodeStereoOddLength(pcm.len()));
    }
    let mut config = raw_config(false, bytes_per_sample);
    config.left_shift = left_shift;
    encode_block_core(pcm, &config, block_index, total_samples)
}

/// A block with given decorrelation payloads.
pub open spec fn decorr_config(
    mono: bool,
    joint: bool,
    terms: Seq<u8>,
    weights: Seq<u8>,
    samples: Seq<u8>,
    bytes_per_sample: u8,
) -> Config {
    planned(
        plain_config(mono, bytes_per_sample),
        Plan { joint, decorr: Some(Payloads { terms, weights, samples }) },
    )
}

fn encode_with_decorr(
    pcm: &[i32],
    mono: bool,
    joint: bool,
    terms: &[u8],
    weights: &[u8],
    samples: &[u8],
    bytes_per_sample: u8,
    block_index: u32,
    total_samples: u32,
) -> (r: Result<Vec<u8>>)
    requires
        joint ==> !mono,
    ensures
        bytes_of(r) == block_bytes(
            pcm@,
            decorr_config(mono, joint, terms@, weights@, samples@, bytes_per_sample),
            block_index,
            total_samples,
        ),
{
    let config = BlockConfig {
        mono,
        joint,
        left_shift: 0,
        decorr: Some((terms, weights, samples)),
        bytes_per_sample,
        start: true,
        end: true,
        multichannel_info: None,
        format: None,
    };
    assert(config@ =~= decorr_config(mono, joint, terms@, weights@, samples@, bytes_per_sample));
    encode_block_core(pcm, &config, block_index, total_samples)
}

/// Writes a mono block under given decorrelation payloads.
pub fn encode_block_mono_with_decorr(
    pcm: &[i32],
    terms: &[u8],
    weights: &[u8],
    samples: &[u8],
    bytes_per_sample: u8,
    block_index: u32,
    total_samples: u32,
) -> (r: Result<Vec<u8>>)
    ensures
        bytes_of(r) == block_bytes(
            pcm@,
            decorr_config(true, false, terms@, weights@, samples@, bytes_per_sample),
            block_index,
            total_samples,
        ),
{
    encode_with_decorr(pcm, true, false, terms, weights, samples, bytes_per_sample, block_index, total_samples)
}

/// Writes a stereo block under given decorrelation payloads.
pub fn encode_block_stereo_with_decorr(
    pcm: &[i32],
    terms: &[u8],
    weights: &[u8],
    samples: &[u8],
    bytes_per_sample: u8,
    block_index: u32,
    total_samples: u32,
) -> (r: Result<Vec<u8>>)
    ensures
        bytes_of(r) == block_bytes(
            pcm@,
            decorr_config(false, false, terms@, weights@, samples@, bytes_per_sample),
            block_index,
            total_samples,
        ),
{
    encode_with_decorr(pcm, false, false, terms, weights, samples, bytes_per_sample, block_index, total_samples)
}

/// Writes a stereo block as mid and side under given decorrelation payloads.
pub fn encode_block_stereo_joint_with_decorr(
    pcm: &[i32],
    terms: &[u8],
    weights: &[u8],
    samples: &[u8],
    bytes_per_sample: u8,
    block_index: u32,
    total_samples: u32,
) -> (r: Result<Vec<u8>>)
    ensures
        bytes_of(r) == block_bytes(
            pcm@,
            decorr_config(false, true, terms@, weights@, samples@, bytes_per_sample),
            block_index,
            total_samples,
        ),
{
    encode_with_decorr(pcm, false, true, terms, weights, samples, bytes_per_sample, block_index, total_samples)
}

// ---------------------------------------------------------------------------
// Blocks with derived passes
// ---------------------------------------------------------------------------

/// The bytes of a block whose passes are derived from its own samples.
pub open spec fn auto_block(
    x: Seq<i32>,
    profile: DecorrProfile,
    mono: bool,
    joint: bool,
    bytes_per_sample: u8,
    block_index: u32,
    total_samples: u32,
) -> core::result::Result<Seq<u8>, Error> {
    block_bytes(
        x,
        planned(
            plain_config(mono, bytes_per_sample),
            derived_plan(x, profile.terms(!mono), 1, mono, joint),
        ),
        block_index,
        total_samples,
    )
}

fn encode_auto(
    pcm: &[i32],
    profile: DecorrProfile,
    mono: bool,
    joint: bool,
    bytes_per_sample: u8,
    block_index: u32,
    total_samples: u32,
) -> (r: Result<Vec<u8>>)
    requires
        joint ==> !mono,
    ensures
        bytes_of(r) == auto_block(pcm@, profile, mono, joint, bytes_per_sample, block_index, total_samples),
{
    if pcm.len() == 0 {
        return Err(Error::EncodeEmptyAudio);
    }
    if !mono && pcm.len() % 2 != 0 {
        return Err(Error::EncodeStereoOddLength(pcm.len()));
    }
    let found: Result<Vec<DecorrPass>> = if mono {
        derive_mono_passes(pcm, profile)
    } else if joint {
        let domain: Vec<i32> = join_stereo(pcm);
        derive_stereo_passes(domain.as_slice(), profile)
    } else {
        derive_stereo_passes(pcm, profile)
    };
    let ghost work = working(pcm@, joint);
    proof {
        lemma_profile_terms(profile, !mono);
        derived_passes_serialize(work, profile.terms(!mono), 1, !mono);
    }
    match found {
        Err(e) => Err(e),
        Ok(passes) => {
            assert(states(passes@) == derived(work, profile.terms(!mono), 1, !mono));
            match serialize_passes(passes.as_slice(), !mono) {
                Err(e) => Err(e),
                Ok((terms, weights, samples)) => encode_with_decorr(
                    pcm,
                    mono,
                    joint,
                    terms.as_slice(),
                    weights.as_slice(),
                    samples.as_slice(),
                    bytes_per_sample,
                    block_index,
                    total_samples,
                ),
            }
        }
    }
}

/// Writes a mono block with passes derived under a profile.
pub fn encode_block_mono_auto(
    pcm: &[i32],
    profile: DecorrProfile,
    bytes_per_sample: u8,
    block_index: u32,
    total_samples: u32,
) -> (r: Result<Vec<u8>>)
    ensures
        bytes_of(r) == auto_block(pcm@, profile, true, false, bytes_per_sample, block_index, total_samples),
{
    encode_auto(pcm, profile, true, false, bytes_per_sample, block_index, total_samples)
}

/// Writes a stereo block with passes derived under a profile.
pub fn encode_block_stereo_auto(
    pcm: &[i32],
    profile: DecorrProfile,
    bytes_per_sample: u8,
    block_index: u32,
    total_samples: u32,
) -> (r: Result<Vec<u8>>)
    ensures
        bytes_of(r) == auto_block(pcm@, profile, false, false, bytes_per_sample, block_index, total_samples),
{
    encode_auto(pcm, profile, false, false, bytes_per_sample, block_index, total_samples)
}

/// Writes a stereo block as mid and side with passes derived under a profile.
pub fn encode_block_stereo_joint_auto(
    pcm: &[i32],
    profile: DecorrProfile,
    bytes_per_sample: u8,
    block_index: u32,
    total_samples: u32,
) -> (r: Result<Vec<u8>>)
    ensures
        bytes_of(r) == auto_block(pcm@, profile, false, true, bytes_per_sample, block_index, total_samples),
{
    encode_auto(pcm, profile, false, true, bytes_per_sample, block_index, total_samples)
}

// ---------------------------------------------------------------------------
// Blocks that a search finds
// ---------------------------------------------------------------------------

/// A block at its detected shift.
pub open spec fn search_base(x: Seq<i32>, mono: bool, bytes_per_sample: u8) -> Config {
    Config { left_shift: detected(x) as u8, ..plain_config(mono, bytes_per_sample) }
}

/// The samples of a block at its detected shift.
pub open spec fn search_domain(x: Seq<i32>) -> Seq<i32> {
    narrowed(x, detected(x))->Ok_0
}

/// Why samples make no block, if they make none.
pub open spec fn shape_error(x: Seq<i32>, mono: bool) -> Option<Error> {
    if x.len() == 0 {
        Some(Error::EncodeEmptyAudio)
    } else if !mono && x.len() % 2 != 0 {
        Some(Error::EncodeStereoOddLength(x.len() as usize))
    } else {
        None
    }
}

/// The bytes of the block that a profile search finds.
pub open spec fn best_block(
    x: Seq<i32>,
    profile: DecorrProfile,
    mono: bool,
    bytes_per_sample: u8,
    block_index: u32,
    total_samples: u32,
) -> core::result::Result<Seq<u8>, Error> {
    match shape_error(x, mono) {
        Some(e) => Err(e),
        None => search_block(
            x,
            search_base(x, mono, bytes_per_sample),
            best_plans(search_domain(x), profile, mono),
            block_index,
            total_samples,
        ),
    }
}

/// The bytes of the block that a term search finds.
pub open spec fn searched_block(
    x: Seq<i32>,
    max_passes: usize,
    mono: bool,
    bytes_per_sample: u8,
    block_index: u32,
    total_samples: u32,
) -> core::result::Result<Seq<u8>, Error> {
    match shape_error(x, mono) {
        Some(e) => Err(e),
        None => search_block(
            x,
            search_base(x, mono, bytes_per_sample),
            searched_plans(search_domain(x), max_passes, mono),
            block_index,
            total_samples,
        ),
    }
}

/// The smaller of what the widest profile search and the widest term search find.
pub open spec fn smallest_block(x: Seq<i32>, mono: bool, bytes_per_sample: u8, block_index: u32, total_samples: u32) -> core::result::Result<
    Seq<u8>,
    Error,
> {
    match best_block(x, DecorrProfile::Extra, mono, bytes_per_sample, block_index, total_samples) {
        Err(e) => Err(e),
        Ok(a) => match searched_block(x, MAX_NTERMS, mono, bytes_per_sample, block_index, total_samples) {
            Err(e) => Err(e),
            Ok(b) => Ok(
                if b.len() < a.len() {
                    b
                } else {
                    a
                },
            ),
        },
    }
}

fn encode_best(
    pcm: &[i32],
    profile: DecorrProfile,
    mono: bool,
    bytes_per_sample: u8,
    block_index: u32,
    total_samples: u32,
) -> (r: Result<Vec<u8>>)
    ensures
        bytes_of(r) == best_block(pcm@, profile, mono, bytes_per_sample, block_index, total_samples),
{
    if pcm.len() == 0 {
        return Err(Error::EncodeEmptyAudio);
    }
    if !mono && pcm.len() % 2 != 0 {
        return Err(Error::EncodeStereoOddLength(pcm.len()));
    }
    let shift: u8 = detect_left_shift(pcm);
    proof {
        detected_shift_is_exact(pcm@);
    }
    let narrow: Vec<i32> = match narrow_left_shift(pcm, shift) {
        Err(e) => {
            return Err(e);
        }
        Ok(v) => v,
    };
    let plans: Vec<SearchPlan> = list_best_plans(&narrow, profile, mono);
    let mut base = raw_config(mono, bytes_per_sample);
    base.left_shift = shift;
    assert(base@ =~= search_base(pcm@, mono, bytes_per_sample));
    search_plans(pcm, &base, &plans, block_index, total_samples)
}

fn encode_searched(
    pcm: &[i32],
    max_passes: usize,
    mono: bool,
    bytes_per_sample: u8,
    block_index: u32,
    total_samples: u32,
) -> (r: Result<Vec<u8>>)
    ensures
        bytes_of(r) == searched_block(pcm@, max_passes, mono, bytes_per_sample, block_index, total_samples),
{
    if pcm.len() == 0 {
        return Err(Error::EncodeEmptyAudio);
    }
    if !mono && pcm.len() % 2 != 0 {
        return Err(Error::EncodeStereoOddLength(pcm.len()));
    }
    let shift: u8 = detect_left_shift(pcm);
    proof {
        detected_shift_is_exact(pcm@);
    }
    let narrow: Vec<i32> = match narrow_left_shift(pcm, shift) {
        Err(e) => {
            return Err(e);
        }
        Ok(v) => v,
    };
    let plans: Vec<SearchPlan> = list_searched_plans(&narrow, max_passes, mono);
    let mut base = raw_config(mono, bytes_per_sample);
    base.left_shift = shift;
    assert(base@ =~= search_base(pcm@, mono, bytes_per_sample));
    search_plans(pcm, &base, &plans, block_index, total_samples)
}

fn encode_smallest(pcm: &[i32], mono: bool, bytes_per_sample: u8, block_index: u32, total_samples: u32) -> (r: Result<
    Vec<u8>,
>)
    ensures
        bytes_of(r) == smallest_block(pcm@, mono, bytes_per_sample, block_index, total_samples),
{
    match encode_best(pcm, DecorrProfile::Extra, mono, bytes_per_sample, block_index, total_samples) {
        Err(e) => Err(e),
        Ok(best) => match encode_searched(pcm, MAX_NTERMS, mono, bytes_per_sample, block_index, total_samples) {
            Err(e) => Err(e),
            Ok(searched) => Ok(
                if searched.len() < best.len() {
                    searched
                } else {
                    best
                },
            ),
        },
    }
}

/// Writes the smallest mono block of a profile search.
pub fn encode_block_mono_best(
    pcm: &[i32],
    profile: DecorrProfile,
    bytes_per_sample: u8,
    block_index: u32,
    total_samples: u32,
) -> (r: Result<Vec<u8>>)
    ensures
        bytes_of(r) == best_block(pcm@, profile, true, bytes_per_sample, block_index, total_samples),
{
    encode_best(pcm, profile, true, bytes_per_sample, block_index, total_samples)
}

/// Writes the smallest stereo block of a profile search.
pub fn encode_block_stereo_best(
    pcm: &[i32],
    profile: DecorrProfile,
    bytes_per_sample: u8,
    block_index: u32,
    total_samples: u32,
) -> (r: Result<Vec<u8>>)
    ensures
        bytes_of(r) == best_block(pcm@, profile, false, bytes_per_sample, block_index, total_samples),
{
    encode_best(pcm, profile, false, bytes_per_sample, block_index, total_samples)
}

/// Writes the smallest mono block of a term search.
pub fn encode_block_mono_searched(
    pcm: &[i32],
    max_passes: usize,
    bytes_per_sample: u8,
    block_index: u32,
    total_samples: u32,
) -> (r: Result<Vec<u8>>)
    ensures
        bytes_of(r) == searched_block(pcm@, max_passes, true, bytes_per_sample, block_index, total_samples),
{
    encode_searched(pcm, max_passes, true, bytes_per_sample, block_index, total_samples)
}

/// Writes the smallest stereo block of a term search.
pub fn encode_block_stereo_searched(
    pcm: &[i32],
    max_passes: usize,
    bytes_per_sample: u8,
    block_index: u32,
    total_samples: u32,
) -> (r: Result<Vec<u8>>)
    ensures
        bytes_of(r) == searched_block(pcm@, max_passes, false, bytes_per_sample, block_index, total_samples),
{
    encode_searched(pcm, max_passes, false, bytes_per_sample, block_index, total_samples)
}

/// Writes the smaller mono block of both searches.
pub fn encode_block_mono_smallest(pcm: &[i32], bytes_per_sample: u8, block_index: u32, total_samples: u32) -> (r: Result<
    Vec<u8>,
>)
    ensures
        bytes_of(r) == smallest_block(pcm@, true, bytes_per_sample, block_index, total_samples),
{
    encode_smallest(pcm, true, bytes_per_sample, block_index, total_samples)
}

/// Writes the smaller stereo block of both searches.
pub fn encode_block_stereo_smallest(pcm: &[i32], bytes_per_sample: u8, block_index: u32, total_samples: u32) -> (r: Result<
    Vec<u8>,
>)
    ensures
        bytes_of(r) == smallest_block(pcm@, false, bytes_per_sample, block_index, total_samples),
{
    encode_smallest(pcm, false, bytes_per_sample, block_index, total_samples)
}

// ---------------------------------------------------------------------------
// Blocks of other sample formats
// ---------------------------------------------------------------------------

/// A block of some sample format.
pub open spec fn format_config(mono: bool, format: Format) -> Config {
    Config { format: Some(format), ..plain_config(mono, 4) }
}

/// The format of stored patterns.
pub fn float_format_extras(d: FloatDeconstruction) -> (r: FormatExtras)
    ensures
        r@ == (Format {
            float: true,
            profile: seq![d.info.float_flags, d.info.float_shift, d.info.float_max_exp, d.info.float_norm_exp],
            extension: crate::int32::optional_bytes(d.extension),
        }),
{
    let i = d.info;
    let profile: Vec<u8> = vec![i.float_flags, i.float_shift, i.float_max_exp, i.float_norm_exp];
    assert(profile@ =~= seq![i.float_flags, i.float_shift, i.float_max_exp, i.float_norm_exp]);
    FormatExtras { float: true, profile, extension: d.extension }
}

/// The format of stored wide integers.
pub fn int32_format_extras(d: Int32Deconstruction) -> (r: FormatExtras)
    ensures
        r@ == (Format {
            float: false,
            profile: seq![d.info.sent_bits, d.info.zeros, d.info.ones, d.info.dups],
            extension: crate::int32::optional_bytes(d.extension),
        }),
{
    let i = d.info;
    let profile: Vec<u8> = vec![i.sent_bits, i.zeros, i.ones, i.dups];
    assert(profile@ =~= seq![i.sent_bits, i.zeros, i.ones, i.dups]);
    FormatExtras { float: false, profile, extension: d.extension }
}

/// The block of stored samples that a profile search finds.
pub open spec fn best_ints_block(
    ints: Seq<i32>,
    profile: DecorrProfile,
    mono: bool,
    format: Format,
    block_index: u32,
    total_samples: u32,
) -> core::result::Result<Seq<u8>, Error> {
    match shape_error(ints, mono) {
        Some(e) => Err(e),
        None => search_block(
            ints,
            format_config(mono, format),
            best_plans(ints, profile, mono),
            block_index,
            total_samples,
        ),
    }
}

fn encode_ints(ints: &Vec<i32>, mono: bool, format: &FormatExtras, block_index: u32, total_samples: u32) -> (r: Result<
    Vec<u8>,
>)
    ensures
        bytes_of(r) == block_bytes(ints@, format_config(mono, format@), block_index, total_samples),
{
    let config = BlockConfig {
        mono,
        joint: false,
        left_shift: 0,
        decorr: None,
        bytes_per_sample: 4,
        start: true,
        end: true,
        multichannel_info: None,
        format: Some(format),
    };
    assert(config@ =~= format_config(mono, format@));
    encode_block_core(ints.as_slice(), &config, block_index, total_samples)
}

fn encode_block_best_ints(
    ints: &Vec<i32>,
    mono: bool,
    profile: DecorrProfile,
    format: &FormatExtras,
    block_index: u32,
    total_samples: u32,
) -> (r: Result<Vec<u8>>)
    ensures
        bytes_of(r) == best_ints_block(ints@, profile, mono, format@, block_index, total_samples),
{
    if ints.len() == 0 {
        return Err(Error::EncodeEmptyAudio);
    }
    if !mono && ints.len() % 2 != 0 {
        return Err(Error::EncodeStereoOddLength(ints.len()));
    }
    let plans: Vec<SearchPlan> = list_best_plans(ints, profile, mono);
    let base = BlockConfig {
        mono,
        joint: false,
        left_shift: 0,
        decorr: None,
        bytes_per_sample: 4,
        start: true,
        end: true,
        multichannel_info: None,
        format: Some(format),
    };
    assert(base@ =~= format_config(mono, format@));
    search_plans(ints.as_slice(), &base, &plans, block_index, total_samples)
}

/// The integers that stand for patterns.
pub open spec fn pattern_integers(x: Seq<u32>) -> Seq<i32> {
    float_integers(x, float_plan(x, false))
}

/// Writes a mono block of floating-point patterns.
pub fn encode_block_mono_float(pcm: &[u32], block_index: u32, total_samples: u32) -> (r: Result<Vec<u8>>)
    ensures
        bytes_of(r) == block_bytes(
            pattern_integers(pcm@),
            format_config(true, float_format(pcm@)),
            block_index,
            total_samples,
        ),
{
    encode_float(pcm, true, block_index, total_samples)
}

/// Writes a stereo block of floating-point patterns.
pub fn encode_block_stereo_float(pcm: &[u32], block_index: u32, total_samples: u32) -> (r: Result<Vec<u8>>)
    ensures
        bytes_of(r) == block_bytes(
            pattern_integers(pcm@),
            format_config(false, float_format(pcm@)),
            block_index,
            total_samples,
        ),
{
    encode_float(pcm, false, block_index, total_samples)
}

fn encode_float(pcm: &[u32], mono: bool, block_index: u32, total_samples: u32) -> (r: Result<Vec<u8>>)
    ensures
        bytes_of(r) == block_bytes(
            pattern_integers(pcm@),
            format_config(mono, float_format(pcm@)),
            block_index,
            total_samples,
        ),
{
    let d: FloatDeconstruction = deconstruct_float(pcm);
    let ints: Vec<i32> = crate::block::copy_samples(&d.integers);
    let format: FormatExtras = float_format_extras(d);
    assert(format@ =~= float_format(pcm@));
    encode_ints(&ints, mono, &format, block_index, total_samples)
}

/// The block of patterns that a profile search finds.
pub open spec fn best_float_block(
    x: Seq<u32>,
    profile: DecorrProfile,
    mono: bool,
    block_index: u32,
    total_samples: u32,
) -> core::result::Result<Seq<u8>, Error> {
    best_ints_block(pattern_integers(x), profile, mono, float_format(x), block_index, total_samples)
}

fn encode_float_best(pcm: &[u32], profile: DecorrProfile, mono: bool, block_index: u32, total_samples: u32) -> (r: Result<
    Vec<u8>,
>)
    ensures
        bytes_of(r) == best_float_block(pcm@, profile, mono, block_index, total_samples),
{
    let d: FloatDeconstruction = deconstruct_float(pcm);
    let ints: Vec<i32> = crate::block::copy_samples(&d.integers);
    let format: FormatExtras = float_format_extras(d);
    assert(format@ =~= float_format(pcm@));
    encode_block_best_ints(&ints, mono, profile, &format, block_index, total_samples)
}

/// Writes the smallest mono block of patterns of a profile search.
pub fn encode_block_mono_float_best(pcm: &[u32], profile: DecorrProfile, block_index: u32, total_samples: u32) -> (r: Result<
    Vec<u8>,
>)
    ensures
        bytes_of(r) == best_float_block(pcm@, profile, true, block_index, total_samples),
{
    encode_float_best(pcm, profile, true, block_index, total_samples)
}

/// Writes the smallest stereo block of patterns of a profile search.
pub fn encode_block_stereo_float_best(pcm: &[u32], profile: DecorrProfile, block_index: u32, total_samples: u32) -> (r: Result<
    Vec<u8>,
>)
    ensures
        bytes_of(r) == best_float_block(pcm@, profile, false, block_index, total_samples),
{
    encode_float_best(pcm, profile, false, block_index, total_samples)
}

fn encode_int32(pcm: &[i32], mono: bool, block_index: u32, total_samples: u32) -> (r: Result<Vec<u8>>)
    ensures
        bytes_of(r) == block_bytes(
            int32_reduced(pcm@),
            format_config(mono, int32_format(pcm@)),
            block_index,
            total_samples,
        ),
{
    let d: Int32Deconstruction = deconstruct_int32(pcm);
    let ints: Vec<i32> = crate::block::copy_samples(&d.reduced);
    let format: FormatExtras = int32_format_extras(d);
    assert(format@ =~= int32_format(pcm@));
    encode_ints(&ints, mono, &format, block_index, total_samples)
}

/// Writes a mono block of wide integers.
pub fn encode_block_mono_int32(pcm: &[i32], block_index: u32, total_samples: u32) -> (r: Result<Vec<u8>>)
    ensures
        bytes_of(r) == block_bytes(
            int32_reduced(pcm@),
            format_config(true, int32_format(pcm@)),
            block_index,
            total_samples,
        ),
{
    encode_int32(pcm, true, block_index, total_samples)
}

/// Writes a stereo block of wide integers.
pub fn encode_block_stereo_int32(pcm: &[i32], block_index: u32, total_samples: u32) -> (r: Result<Vec<u8>>)
    ensures
        bytes_of(r) == block_bytes(
            int32_reduced(pcm@),
            format_config(false, int32_format(pcm@)),
            block_index,
            total_samples,
        ),
{
    encode_int32(pcm, false, block_index, total_samples)
}

/// The block of wide integers that a profile search finds.
pub open spec fn best_int32_block(
    x: Seq<i32>,
    profile: DecorrProfile,
    mono: bool,
    block_index: u32,
    total_samples: u32,
) -> core::result::Result<Seq<u8>, Error> {
    best_ints_block(int32_reduced(x), profile, mono, int32_format(x), block_index, total_samples)
}

fn encode_int32_best(pcm: &[i32], profile: DecorrProfile, mono: bool, block_index: u32, total_samples: u32) -> (r: Result<
    Vec<u8>,
>)
    ensures
        bytes_of(r) == best_int32_block(pcm@, profile, mono, block_index, total_samples),
{
    let d: Int32Deconstruction = deconstruct_int32(pcm);
    let ints: Vec<i32> = crate::block::copy_samples(&d.reduced);
    let format: FormatExtras = int32_format_extras(d);
    assert(format@ =~= int32_format(pcm@));
    encode_block_best_ints(&ints, mono, profile, &format, block_index, total_samples)
}

/// Writes the smallest mono block of wide integers of a profile search.
pub fn encode_block_mono_int32_best(pcm: &[i32], profile: DecorrProfile, block_index: u32, total_samples: u32) -> (r: Result<
    Vec<u8>,
>)
    ensures
        bytes_of(r) == best_int32_block(pcm@, profile, true, block_index, total_samples),
{
    encode_int32_best(pcm, profile, true, block_index, total_samples)
}

/// Writes the smallest stereo block of wide integers of a profile search.
pub fn encode_block_stereo_int32_best(pcm: &[i32], profile: DecorrProfile, block_index: u32, total_samples: u32) -> (r: Result<
    Vec<u8>,
>)
    ensures
        bytes_of(r) == best_int32_block(pcm@, profile, false, block_index, total_samples),
{
    encode_int32_best(pcm, profile, false, block_index, total_samples)
}

} // verus!
