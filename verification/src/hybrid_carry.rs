//! What a hybrid encoder is asked for, and what it carries from block to block.
use vstd::prelude::*;
use crate::block_writer::{join_stereo, working};
use crate::decorrelation::{DecorrPass, PassState, cross, is_cross_term, mono_ready, states};
use crate::derive::{DecorrProfile, derive_mono_passes, derive_stereo_passes, derived, derived_passes_serialize, encoded, lemma_profile_terms};
use crate::error::Result;
use crate::hybrid::{HybridState, ShapingState, level_prepass, level_word, levels_over, pack_level_word};
use crate::logpack::{exp_of, lemma_quantized_zero, lemma_word_roundtrip, pack_log_word, quantize_log_value, quantized, signed_log, word_bytes, wp_exp2s};
use crate::passes::{Payloads, payloads_of, serialize_passes, storable, storable_passes_serialize};

verus! {

/// What a rate of `n` 256ths of a bit per sample stands above in its log word.
pub const BITRATE_WORD_BIAS: i32 = 568;

/// Where the channels of a joint block are in balance.
pub const JOINT_BALANCE_WORD: i32 = 256;

/// How quantization noise is shaped. Weights are in units of 1/1024.
#[derive(Debug, Clone, Copy, PartialEq, Eq, Structural)]
pub enum HybridShaping {
    /// Not at all.
    Off,
    /// By a fixed weight.
    Static(i32),
    /// By a weight that moves a step for every sample.
    Ramp {
        /// The weight at the start.
        weight: i32,
        /// The step, in units of 2^-26.
        delta: i32,
    },
}

/// A weight within its range.
pub open spec fn clamped_weight(weight: i32) -> i32 {
    if weight < -1024 {
        -1024i32
    } else if weight > 1024 {
        1024
    } else {
        weight
    }
}

/// The bytes of a log word.
pub open spec fn log_bytes(value: i32) -> Seq<u8> {
    word_bytes(signed_log(value))
}

/// The shaping words of a stream's start.
pub open spec fn start_words(weight: i32, delta: Option<i32>, stereo: bool) -> Seq<u8> {
    let acc = (clamped_weight(weight) * 65536) as i32;
    let one = log_bytes(0) + log_bytes(acc);
    let heads = if stereo {
        one + one
    } else {
        one
    };
    match delta {
        None => heads,
        Some(d) => if stereo {
            heads + log_bytes(d) + log_bytes(d)
        } else {
            heads + log_bytes(d)
        },
    }
}

fn push_log(out: &mut Vec<u8>, value: i32)
    ensures
        final(out)@ == old(out)@ + log_bytes(value),
{
    let w: [u8; 2] = pack_log_word(value);
    out.push(w[0]);
    out.push(w[1]);
    assert(out@ =~= old(out)@ + log_bytes(value));
}

impl HybridShaping {
    /// A fixed weight of some units, kept within its range; none where it is zero.
    pub open spec fn of_units(units: int) -> HybridShaping {
        let kept = if units < -1024 {
            -1024int
        } else if units > 1024 {
            1024
        } else {
            units
        };
        if kept == 0 {
            HybridShaping::Off
        } else {
            HybridShaping::Static(kept as i32)
        }
    }

    /// A fixed weight of some units, kept within its range; none where it is zero.
    #[must_use]
    pub fn from_units(units: i32) -> (r: HybridShaping)
        ensures
            r == HybridShaping::of_units(units as int),
    {
        let kept: i32 = if units < -1024 {
            -1024
        } else if units > 1024 {
            1024
        } else {
            units
        };
        if kept == 0 {
            HybridShaping::Off
        } else {
            HybridShaping::Static(kept)
        }
    }

    /// The shaping words of a stream's start.
    pub open spec fn first_payload(self, stereo: bool) -> Option<Seq<u8>> {
        match self {
            HybridShaping::Off => None,
            HybridShaping::Static(w) => Some(start_words(w, None, stereo)),
            HybridShaping::Ramp { weight, delta } => Some(start_words(weight, Some(delta), stereo)),
        }
    }

    /// The shaping words of a stream's start.
    pub fn initial_payload(self, stereo: bool) -> (r: Option<Vec<u8>>)
        ensures
            crate::int32::optional_bytes(r) == self.first_payload(stereo),
    {
        let (weight, delta): (i32, Option<i32>) = match self {
            HybridShaping::Off => {
                return None;
            }
            HybridShaping::Static(w) => (w, None),
            HybridShaping::Ramp { weight, delta } => (weight, Some(delta)),
        };
        let kept: i32 = if weight < -1024 {
            -1024
        } else if weight > 1024 {
            1024
        } else {
            weight
        };
        let acc: i32 = kept * 65536;
        let mut payload: Vec<u8> = Vec::new();
        push_log(&mut payload, 0);
        push_log(&mut payload, acc);
        if stereo {
            push_log(&mut payload, 0);
            push_log(&mut payload, acc);
        }
        if let Some(d) = delta {
            push_log(&mut payload, d);
            if stereo {
                push_log(&mut payload, d);
            }
        }
        assert(payload@ =~= start_words(weight, delta, stereo));
        Some(payload)
    }

    /// Whether the weight moves.
    pub fn with_delta(self) -> (r: bool)
        ensures
            r == (self is Ramp),
    {
        match self {
            HybridShaping::Ramp { weight: _, delta: _ } => true,
            _ => false,
        }
    }
}

/// What a hybrid encoder is asked for.
#[derive(Debug, Clone, Copy, PartialEq, Eq, Structural)]
pub struct HybridOptions {
    /// Log word of the rate.
    pub bitrate_word: i32,
    /// Whether a correction stream is written.
    pub correction: bool,
    /// Whether stereo is coded as mid and side.
    pub joint: bool,
    /// The decorrelation profile, if any.
    pub profile: Option<DecorrProfile>,
    /// How noise is shaped.
    pub shaping: HybridShaping,
}

/// A rate word within its range.
pub open spec fn clamped_rate(word: int) -> int {
    if word < 0 {
        0
    } else if word > 32767 {
        32767
    } else {
        word
    }
}

impl HybridOptions {
    /// The options of a rate in 256ths of a bit per sample.
    pub open spec fn of_rate(units: int) -> HybridOptions {
        HybridOptions {
            bitrate_word: clamped_rate(units - BITRATE_WORD_BIAS) as i32,
            correction: true,
            joint: true,
            profile: Some(DecorrProfile::Normal),
            shaping: HybridShaping::Off,
        }
    }

    /// The options of a rate in 256ths of a bit per sample: a correction
    /// stream, mid and side, the normal profile and no shaping.
    #[must_use]
    pub fn from_rate_units(units: i32) -> (r: HybridOptions)
        ensures
            r == HybridOptions::of_rate(units as int),
    {
        let word: i64 = units as i64 - BITRATE_WORD_BIAS as i64;
        let kept: i32 = if word < 0 {
            0
        } else if word > 32767 {
            32767
        } else {
            word as i32
        };
        HybridOptions {
            bitrate_word: kept,
            correction: true,
            joint: true,
            profile: Some(DecorrProfile::Normal),
            shaping: HybridShaping::Off,
        }
    }

    /// The same options with other shaping.
    #[must_use]
    pub fn with_shaping(self, shaping: HybridShaping) -> (r: HybridOptions)
        ensures
            r == (HybridOptions { shaping, ..self }),
    {
        HybridOptions { shaping, ..self }
    }
}

impl Default for HybridOptions {
    fn default() -> (r: HybridOptions)
        ensures
            r == HybridOptions::of_rate(1024),
    {
        HybridOptions::from_rate_units(1024)
    }
}

// ---------------------------------------------------------------------------
// Passes and levels
// ---------------------------------------------------------------------------

/// The passes that work within one channel.
pub open spec fn within_channels(ps: Seq<PassState>) -> Seq<PassState>
    decreases ps.len(),
{
    if ps.len() == 0 {
        Seq::empty()
    } else {
        let before = within_channels(ps.drop_last());
        if cross(ps.last().term) {
            before
        } else {
            before.push(ps.last())
        }
    }
}

/// The passes of a hybrid block.
pub open spec fn hybrid_passes(coded: Seq<i32>, mono: bool, profile: Option<DecorrProfile>) -> Seq<PassState> {
    match profile {
        None => Seq::empty(),
        Some(p) => within_channels(derived(coded, p.terms(!mono), 1, !mono)),
    }
}

/// The payloads of a hybrid block's passes; none where there are no passes.
pub open spec fn hybrid_payloads(coded: Seq<i32>, mono: bool, profile: Option<DecorrProfile>) -> Option<Payloads> {
    let ps = hybrid_passes(coded, mono, profile);
    if ps.len() == 0 {
        None
    } else {
        Some(payloads_of(ps, !mono)->Ok_0)
    }
}

proof fn lemma_within(ps: Seq<PassState>, stereo: bool)
    requires
        forall|k: int| 0 <= k < ps.len() ==> storable(#[trigger] ps[k], stereo),
    ensures
        within_channels(ps).len() <= ps.len(),
        forall|k: int|
            0 <= k < within_channels(ps).len() ==> storable(#[trigger] within_channels(ps)[k], stereo) && !cross(
                within_channels(ps)[k].term,
            ),
    decreases ps.len(),
{
    if ps.len() > 0 {
        let before = ps.drop_last();
        assert forall|k: int| 0 <= k < before.len() implies storable(#[trigger] before[k], stereo) by {
            assert(storable(ps[k], stereo));
        }
        lemma_within(before, stereo);
        assert(storable(ps[ps.len() - 1], stereo));
    }
}

/// The passes of a hybrid block can be written, and none crosses channels.
pub proof fn lemma_hybrid_passes(coded: Seq<i32>, mono: bool, profile: Option<DecorrProfile>)
    ensures
        ({
            let ps = hybrid_passes(coded, mono, profile);
            &&& payloads_of(ps, !mono) is Ok
            &&& mono_ready(ps)
            &&& ps.len() <= 16
            &&& forall|k: int| 0 <= k < ps.len() ==> storable(#[trigger] ps[k], !mono)
        }),
{
    let ps = hybrid_passes(coded, mono, profile);
    if let Some(p) = profile {
        let terms = p.terms(!mono);
        lemma_profile_terms(p, !mono);
        derived_passes_serialize(coded, terms, 1, !mono);
        let all = derived(coded, terms, 1, !mono);
        assert forall|k: int| 0 <= k < all.len() implies storable(#[trigger] all[k], !mono) by {}
        lemma_within(all, !mono);
    }
    assert forall|k: int| 0 <= k < ps.len() implies (#[trigger] ps[k]).wf() && !cross(ps[k].term) by {
        assert(storable(ps[k], !mono));
    }
    storable_passes_serialize(ps, !mono, 0);
}

proof fn lemma_within_second(ps: Seq<PassState>)
    requires
        forall|k: int| 0 <= k < ps.len() ==> (#[trigger] ps[k]).wb == 0,
    ensures
        forall|k: int| 0 <= k < within_channels(ps).len() ==> (#[trigger] within_channels(ps)[k]).wb == 0,
    decreases ps.len(),
{
    if ps.len() > 0 {
        let before = ps.drop_last();
        assert forall|k: int| 0 <= k < before.len() implies (#[trigger] before[k]).wb == 0 by {
            assert(ps[k].wb == 0);
        }
        lemma_within_second(before);
        assert(ps[ps.len() - 1].wb == 0);
        let kept = within_channels(before);
        assert forall|k: int| 0 <= k < within_channels(ps).len() implies (#[trigger] within_channels(ps)[k]).wb == 0 by {
            if k < kept.len() {
                assert(within_channels(ps)[k] == kept[k]);
            }
        }
    }
}

/// The passes of a mono hybrid block have no second weight.
pub proof fn lemma_mono_second(coded: Seq<i32>, profile: Option<DecorrProfile>, k: int)
    requires
        0 <= k < hybrid_passes(coded, true, profile).len(),
    ensures
        hybrid_passes(coded, true, profile)[k].wb == 0,
{
    if let Some(p) = profile {
        let terms = p.terms(false);
        let all = derived(coded, terms, 1, false);
        assert forall|i: int| 0 <= i < all.len() implies (#[trigger] all[i]).wb == 0 by {
            crate::derive::lemma_mono_second(coded, terms, 1, i);
        }
        lemma_within_second(all);
    }
}

fn keep_within(passes: Vec<DecorrPass>) -> (r: Vec<DecorrPass>)
    ensures
        states(r@) == within_channels(states(passes@)),
{
    let ghost ps = states(passes@);
    let mut out: Vec<DecorrPass> = Vec::new();
    let mut i: usize = 0;
    assert(states(out@) =~= within_channels(ps.take(0)));
    while i < passes.len()
        invariant
            i <= passes.len(),
            ps == states(passes@),
            states(out@) == within_channels(ps.take(i as int)),
        decreases passes.len() - i,
    {
        let ghost before = states(out@);
        proof {
            assert(ps.take(i + 1).drop_last() =~= ps.take(i as int));
            assert(ps[i as int] == passes@[i as int]@);
        }
        if !is_cross_term(passes[i].term) {
            out.push(passes[i]);
            assert(states(out@) =~= before.push(ps[i as int]));
        }
        i = i + 1;
    }
    assert(ps.take(i as int) =~= ps);
    out
}

/// The three payloads of a pass list, where there are any passes.
pub open spec fn triple_view(p: Option<(Vec<u8>, Vec<u8>, Vec<u8>)>) -> Option<Payloads> {
    match p {
        Some((t, w, s)) => Some(Payloads { terms: t@, weights: w@, samples: s@ }),
        None => None,
    }
}

/// Derives the passes of a hybrid block, and their payloads.
pub fn derive_hybrid_passes(coded: &[i32], mono: bool, profile: Option<DecorrProfile>) -> (r: (
    Option<(Vec<u8>, Vec<u8>, Vec<u8>)>,
    Vec<DecorrPass>,
))
    requires
        !mono ==> coded@.len() % 2 == 0,
    ensures
        triple_view(r.0) == hybrid_payloads(coded@, mono, profile),
        states(r.1@) == hybrid_passes(coded@, mono, profile),
        mono_ready(states(r.1@)),
{
    let empty: Vec<DecorrPass> = Vec::new();
    proof {
        lemma_hybrid_passes(coded@, mono, profile);
    }
    match profile {
        None => {
            assert(states(empty@) =~= Seq::empty());
            (None, empty)
        }
        Some(p) => {
            let found: Result<Vec<DecorrPass>> = if mono {
                derive_mono_passes(coded, p)
            } else {
                derive_stereo_passes(coded, p)
            };
            match found {
                Err(_) => (None, empty),
                Ok(all) => {
                    let kept: Vec<DecorrPass> = keep_within(all);
                    assert(states(kept@).len() == kept@.len());
                    if kept.len() == 0 {
                        return (None, kept);
                    }
                    match serialize_passes(kept.as_slice(), !mono) {
                        Ok(p) => (Some(p), kept),
                        Err(_) => (None, kept),
                    }
                }
            }
        }
    }
}

/// At most 4096 samples from the start.
pub open spec fn estimate_window(coded: Seq<i32>) -> Seq<i32> {
    if coded.len() <= 4096 {
        coded
    } else {
        coded.take(4096)
    }
}

/// The level words that a block's own residuals suggest.
pub open spec fn seed_words(coded: Seq<i32>, mono: bool, ps: Seq<PassState>) -> (i16, i16) {
    let estimate = encoded(ps, estimate_window(coded), !mono).1;
    (level_word(levels_over(estimate, !mono, false)), level_word(levels_over(estimate, !mono, true)))
}

fn seed_level_words(coded: &Vec<i32>, mono: bool, passes: Vec<DecorrPass>) -> (r: (i16, i16))
    requires
        mono_ready(states(passes@)),
        !mono ==> coded@.len() % 2 == 0,
    ensures
        r == seed_words(coded@, mono, states(passes@)),
{
    let mut ps = passes;
    let n: usize = if coded.len() <= 4096 {
        coded.len()
    } else {
        4096
    };
    let part = &coded.as_slice()[0..n];
    let mut estimate: Vec<i32> = Vec::new();
    estimate.extend_from_slice(part);
    assert(estimate@ =~= estimate_window(coded@));
    if mono {
        crate::decorrelation::recorrelate_mono(&mut ps, &mut estimate);
    } else {
        crate::decorrelation::recorrelate_stereo(&mut ps, &mut estimate);
    }
    let levels: (u32, u32) = level_prepass(estimate.as_slice(), !mono);
    (pack_level_word(levels.0), pack_level_word(levels.1))
}

/// Whether a block is coded as mid and side.
pub open spec fn codes_joint(mono: bool, opts: HybridOptions) -> bool {
    !mono && opts.joint
}

/// The level words that a stream starts from.
pub open spec fn first_levels(x: Seq<i32>, mono: bool, opts: HybridOptions) -> (i16, i16) {
    let coded = working(x, codes_joint(mono, opts));
    seed_words(coded, mono, hybrid_passes(coded, mono, opts.profile))
}

fn hybrid_seed(pcm: &[i32], mono: bool, opts: &HybridOptions) -> (r: (i16, i16))
    requires
        !mono ==> pcm@.len() % 2 == 0,
    ensures
        r == first_levels(pcm@, mono, *opts),
{
    let coded: Vec<i32> = if !mono && opts.joint {
        join_stereo(pcm)
    } else {
        copy_slice(pcm)
    };
    let (_, passes) = derive_hybrid_passes(coded.as_slice(), mono, opts.profile);
    seed_level_words(&coded, mono, passes)
}

/// A copy of some samples.
pub fn copy_slice(x: &[i32]) -> (r: Vec<i32>)
    ensures
        r@ == x@,
{
    let mut out: Vec<i32> = Vec::new();
    out.extend_from_slice(x);
    assert(out@ =~= x@);
    out
}

// ---------------------------------------------------------------------------
// What is carried
// ---------------------------------------------------------------------------

/// The greatest weight accumulator.
pub const SHAPING_ACC_RAIL: i64 = 67_108_864;

/// What a hybrid encoder carries from block to block.
#[derive(Debug, Clone, Copy)]
pub struct HybridCarry {
    /// The level words, after a first block.
    pub level: Option<(i16, i16)>,
    /// The shaping filter, where noise is shaped.
    pub shaping: Option<ShapingState>,
    /// The step that was asked for.
    pub requested_delta: i64,
    /// Whether the weight moves.
    pub with_delta: bool,
    /// Two channels.
    pub stereo: bool,
}

/// The absolute value of an integer.
pub open spec fn size(v: int) -> int {
    if v < 0 {
        -v
    } else {
        v
    }
}

/// The accumulator word nearest to `word`, towards zero, whose value stays
/// within the rail.
pub open spec fn railed_word(word: int) -> int
    decreases size(word),
{
    if size(exp_of(word) as int) <= SHAPING_ACC_RAIL || word == 0 {
        word
    } else if word > 0 {
        railed_word(word - 1)
    } else {
        railed_word(word + 1)
    }
}

/// The next smaller step.
pub open spec fn eased(delta: int) -> int {
    if delta > 0 {
        delta - 1 - delta / 128
    } else {
        delta + 1 + (-delta) / 128
    }
}

/// The greatest storable step of at most `delta` that keeps the accumulator
/// within the rail over `frames` samples.
pub open spec fn settled_delta(delta: int, acc: int, frames: int) -> i32
    decreases size(delta),
{
    let q = quantized(delta as i32);
    if size(acc + q * frames) <= SHAPING_ACC_RAIL || q == 0 || delta == 0 {
        q
    } else {
        settled_delta(eased(delta), acc, frames)
    }
}

/// Frames of a block for the sake of its step.
pub open spec fn at_least_one(frames: nat) -> int {
    if frames == 0 {
        1
    } else {
        frames as int
    }
}

/// The part of a requested step that the accumulator has room for.
pub open spec fn capped_delta(requested: int, acc: int, frames: nat) -> int {
    let room = if requested >= 0 {
        if SHAPING_ACC_RAIL - acc > 0 {
            SHAPING_ACC_RAIL - acc
        } else {
            0
        }
    } else {
        if -SHAPING_ACC_RAIL - acc < 0 {
            SHAPING_ACC_RAIL + acc
        } else {
            0
        }
    };
    let most = room / at_least_one(frames);
    if requested < -most {
        -most
    } else if requested > most {
        most
    } else {
        requested
    }
}

/// A word put in place of word `i` of a payload.
pub open spec fn with_word(payload: Seq<u8>, i: int, word: int) -> Seq<u8> {
    payload.update(2 * i, word_bytes(word)[0]).update(2 * i + 1, word_bytes(word)[1])
}

impl HybridCarry {
    /// What a stream starts with.
    pub open spec fn start(opts: HybridOptions, mono: bool) -> HybridCarry {
        HybridCarry {
            level: None,
            shaping: match opts.shaping.first_payload(!mono) {
                Some(p) => Some(ShapingState::seeded(Some(p), !mono)),
                None => None,
            },
            requested_delta: match opts.shaping {
                HybridShaping::Ramp { weight, delta } => delta as i64,
                _ => 0,
            },
            with_delta: opts.shaping is Ramp,
            stereo: !mono,
        }
    }

    /// What a stream starts with.
    pub fn new(opts: &HybridOptions, mono: bool) -> (r: HybridCarry)
        ensures
            r == HybridCarry::start(*opts, mono),
    {
        let shaping: Option<ShapingState> = match opts.shaping.initial_payload(!mono) {
            Some(p) => Some(ShapingState::from_shaping_words(Some(p.as_slice()), !mono)),
            None => None,
        };
        HybridCarry {
            level: None,
            shaping,
            requested_delta: match opts.shaping {
                HybridShaping::Ramp { weight: _, delta } => delta as i64,
                _ => 0,
            },
            with_delta: opts.shaping.with_delta(),
            stereo: !mono,
        }
    }

    /// The level words of the next block.
    pub open spec fn levels(self, x: Seq<i32>, mono: bool, opts: HybridOptions) -> (i16, i16) {
        match self.level {
            Some(words) => words,
            None => first_levels(x, mono, opts),
        }
    }

    /// The level words of the next block.
    pub fn level_words(&self, window: &[i32], mono: bool, opts: &HybridOptions) -> (r: (i16, i16))
        requires
            !mono ==> window@.len() % 2 == 0,
        ensures
            r == self.levels(window@, mono, *opts),
    {
        match self.level {
            Some(words) => words,
            None => hybrid_seed(window, mono, opts),
        }
    }

    /// The step of the next block.
    pub open spec fn delta_for(self, acc: int, frames: nat) -> i32 {
        settled_delta(capped_delta(self.requested_delta as int, acc, frames), acc, at_least_one(frames))
    }

    /// The step of the next block: as much of what was asked for as keeps
    /// the accumulator within the rail.
    pub fn rail_saturated_delta(&self, acc: i64, frames: usize) -> (r: i32)
        requires
            -SHAPING_ACC_RAIL <= acc <= SHAPING_ACC_RAIL,
            i32::MIN <= self.requested_delta <= i32::MAX,
        ensures
            r == self.delta_for(acc as int, frames as nat),
    {
        let n: i128 = if frames == 0 {
            1
        } else {
            frames as i128
        };
        let room: i128 = if self.requested_delta >= 0 {
            SHAPING_ACC_RAIL as i128 - acc as i128
        } else {
            SHAPING_ACC_RAIL as i128 + acc as i128
        };
        let most: i128 = (room as u128 / n as u128) as i128;
        proof {
            assert(0 <= room / n <= room) by (nonlinear_arith)
                requires
                    0 <= room,
                    n >= 1,
            ;
        }
        let wanted: i128 = self.requested_delta as i128;
        let mut delta: i32 = if wanted < -most {
            (-most) as i32
        } else if wanted > most {
            most as i32
        } else {
            wanted as i32
        };
        assert(delta == capped_delta(self.requested_delta as int, acc as int, frames as nat));
        let ghost first = delta as int;
        loop
            invariant
                n == at_least_one(frames as nat),
                1 <= n <= usize::MAX,
                -0x0800_0000 <= delta <= 0x0800_0000,
                -SHAPING_ACC_RAIL <= acc <= SHAPING_ACC_RAIL,
                settled_delta(first, acc as int, n as int) == settled_delta(delta as int, acc as int, n as int),
                first == capped_delta(self.requested_delta as int, acc as int, frames as nat),
            decreases size(delta as int),
        {
            let q: i32 = quantize_log_value(delta);
            assert(-0x8000_0000int * 0x1_0000_0000_0000_0000 <= q * n <= 0x8000_0000int * 0x1_0000_0000_0000_0000)
                by (nonlinear_arith)
                requires
                    -0x8000_0000 <= q <= 0x7fff_ffff,
                    1 <= n <= 0xffff_ffff_ffff_ffff,
            ;
            let end: i128 = acc as i128 + q as i128 * n;
            if (-(SHAPING_ACC_RAIL as i128) <= end && end <= SHAPING_ACC_RAIL as i128) || q == 0 || delta == 0 {
                return q;
            }
            delta = if delta > 0 {
                delta - 1 - delta / 128
            } else {
                delta + 1 + (-delta) / 128
            };
        }
    }

    /// The accumulator word of a channel as it is stored.
    pub open spec fn stored_word(self, sec: bool) -> int {
        let s = self.shaping->Some_0;
        railed_word(
            signed_log(
                if sec {
                    s.acc_b
                } else {
                    s.acc_a
                },
            ),
        )
    }

    /// The shaping payload of the next block.
    pub open spec fn payload(self, frames: nat) -> Option<Seq<u8>> {
        match self.shaping {
            None => None,
            Some(s) => {
                let a = self.stored_word(false);
                let b = self.stored_word(true);
                let base = with_word(s.words(self.stereo, false), 1, a);
                let heads = if self.stereo {
                    with_word(base, 3, b)
                } else {
                    base
                };
                if !self.with_delta {
                    Some(heads)
                } else if self.stereo {
                    Some(
                        heads + log_bytes(self.delta_for(exp_of(a) as int, frames)) + log_bytes(
                            self.delta_for(exp_of(b) as int, frames),
                        ),
                    )
                } else {
                    Some(heads + log_bytes(self.delta_for(exp_of(a) as int, frames)))
                }
            },
        }
    }

    /// The shaping payload of the next block, of `frames` samples per channel.
    pub fn payload_for_block(&self, frames: usize) -> (r: Option<Vec<u8>>)
        requires
            i32::MIN <= self.requested_delta <= i32::MAX,
        ensures
            crate::int32::optional_bytes(r) == self.payload(frames as nat),
    {
        let state: ShapingState = match self.shaping {
            None => {
                return None;
            }
            Some(s) => s,
        };
        let mut payload: Vec<u8> = state.to_shaping_words(self.stereo, false);
        proof {
            lemma_word_bytes_len(state, self.stereo);
        }
        let a: i16 = rail_word(state.acc_a);
        put_word(&mut payload, 1, a);
        let b: i16 = rail_word(state.acc_b);
        if self.stereo {
            put_word(&mut payload, 3, b);
        }
        if self.with_delta {
            proof {
                lemma_railed(signed_log(state.acc_a));
                lemma_railed(signed_log(state.acc_b));
            }
            let acc_a: i64 = wp_exp2s(a as i32) as i64;
            let delta_a: i32 = self.rail_saturated_delta(acc_a, frames);
            push_log(&mut payload, delta_a);
            if self.stereo {
                let acc_b: i64 = wp_exp2s(b as i32) as i64;
                let delta_b: i32 = self.rail_saturated_delta(acc_b, frames);
                push_log(&mut payload, delta_b);
            }
        }
        Some(payload)
    }

    /// What is carried behind a block that ended in these states.
    pub open spec fn after(self, level: HybridState, shape: ShapingState) -> HybridCarry {
        HybridCarry {
            level: Some((level_word(level.level_a), level_word(level.level_b))),
            shaping: if self.shaping is Some {
                Some(shape)
            } else {
                None
            },
            ..self
        }
    }

    /// Takes over the states that a block ended in.
    pub fn absorb(&mut self, level: &HybridState, shaping: &ShapingState)
        ensures
            *final(self) == old(self).after(*level, *shaping),
    {
        self.level = Some((pack_level_word(level.slow_level(0)), pack_level_word(level.slow_level(1))));
        if self.shaping.is_some() {
            self.shaping = Some(*shaping);
        }
    }
}

proof fn lemma_word_bytes_len(s: ShapingState, stereo: bool)
    ensures
        s.words(stereo, false).len() == (if stereo {
            8int
        } else {
            4
        }),
{
}

/// A railed word stands for a value within the rail.
pub proof fn lemma_railed(word: int)
    ensures
        size(exp_of(railed_word(word)) as int) <= SHAPING_ACC_RAIL,
        word >= 0 ==> 0 <= railed_word(word) <= word,
        word <= 0 ==> word <= railed_word(word) <= 0,
    decreases size(word),
{
    lemma_quantized_zero();
    if !(size(exp_of(word) as int) <= SHAPING_ACC_RAIL || word == 0) {
        if word > 0 {
            lemma_railed(word - 1);
        } else {
            lemma_railed(word + 1);
        }
    }
}

fn rail_word(acc: i32) -> (r: i16)
    ensures
        r == railed_word(signed_log(acc)),
{
    let w: [u8; 2] = pack_log_word(acc);
    proof {
        lemma_word_roundtrip(acc);
    }
    let raw: i32 = w[0] as i32 + 256 * w[1] as i32;
    let mut word: i32 = if raw < 32768 {
        raw
    } else {
        raw - 65536
    };
    let ghost first = word as int;
    loop
        invariant
            -32768 <= word <= 32767,
            first == signed_log(acc),
            railed_word(first) == railed_word(word as int),
        decreases size(word as int),
    {
        let v: i64 = wp_exp2s(word) as i64;
        if (-SHAPING_ACC_RAIL <= v && v <= SHAPING_ACC_RAIL) || word == 0 {
            return word as i16;
        }
        word = if word > 0 {
            word - 1
        } else {
            word + 1
        };
    }
}

fn put_word(payload: &mut Vec<u8>, i: usize, word: i16)
    requires
        2 * i + 1 < old(payload)@.len(),
        i < 16,
    ensures
        final(payload)@ == with_word(old(payload)@, i as int, word as int),
{
    let raw: i32 = word as i32;
    let w: i32 = if raw < 0 {
        raw + 65536
    } else {
        raw
    };
    assert(w == word as int % 65536);
    payload[2 * i] = (w % 256) as u8;
    payload[2 * i + 1] = (w / 256) as u8;
    assert(payload@ =~= with_word(old(payload)@, i as int, word as int));
}

proof fn lemma_settled(delta: int, acc: int, frames: int)
    requires
        size(acc) <= SHAPING_ACC_RAIL,
    ensures
        size(acc + settled_delta(delta, acc, frames) * frames) <= SHAPING_ACC_RAIL,
    decreases size(delta),
{
    lemma_quantized_zero();
    let q = quantized(delta as i32);
    if !(size(acc + q * frames) <= SHAPING_ACC_RAIL || q == 0 || delta == 0) {
        lemma_settled(eased(delta), acc, frames);
    } else {
        assert(q == 0 ==> q * frames == 0) by (nonlinear_arith);
    }
}

/// The weight that a block starts from lies within the rail, and so does the
/// weight after all of its steps.
pub proof fn weights_stay_within_rail(carry: HybridCarry, sec: bool, frames: nat)
    requires
        carry.shaping is Some,
        frames > 0,
    ensures
        ({
            let acc = exp_of(carry.stored_word(sec)) as int;
            &&& size(acc) <= SHAPING_ACC_RAIL
            &&& size(acc + carry.delta_for(acc, frames) * frames) <= SHAPING_ACC_RAIL
        }),
{
    let s = carry.shaping->Some_0;
    lemma_railed(
        signed_log(
            if sec {
                s.acc_b
            } else {
                s.acc_a
            },
        ),
    );
    let acc = exp_of(carry.stored_word(sec)) as int;
    lemma_settled(capped_delta(carry.requested_delta as int, acc, frames), acc, at_least_one(frames));
}

} // verus!
