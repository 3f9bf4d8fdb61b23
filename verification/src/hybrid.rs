//! Hybrid streams: a lossy main stream, and a correction stream that restores
//! what it left out.
//!
//! How far the main stream may miss a sample follows from a running level per
//! channel. Noise shaping feeds each miss back into the samples after it.
use vstd::prelude::*;
use vstd::arithmetic::power2::lemma2_to64;
use crate::arith::{add32, floor_shr, lemma_wrap32, sub32, unsigned_word, wrap32, wrap_i32, wrap_u32};
use crate::error::{Error, Result};
use crate::logpack::{exp_of, log_of, pack_log_word, signed_log, word_bytes, word_of, wp_exp2s, wp_log2};
use crate::samples::{magnitude, split_sign};

verus! {

/// Header flag of a hybrid block.
pub const HYBRID_FLAG: u32 = 0x08;

/// Header flag of cross-channel decorrelation.
pub const CROSS_DECORR_FLAG: u32 = 0x20;

/// Header flag of noise shaping.
pub const HYBRID_SHAPE_FLAG: u32 = 0x40;

/// Header flag of noise shaping with negative weights.
pub const NEW_SHAPING_FLAG: u32 = 0x2000_0000;

// ---------------------------------------------------------------------------
// Folding corrections
// ---------------------------------------------------------------------------

/// A lossy sample and its correction give the source sample.
#[must_use]
pub fn fold_correction(reconstructed: i32, correction: i32) -> (r: i32)
    ensures
        r == wrap32(reconstructed + correction),
{
    add32(reconstructed, correction)
}

/// A lossy pair and its corrections give the source pair.
#[must_use]
pub fn fold_correction_pair(reconstructed: (i32, i32), correction: (i32, i32)) -> (r: (i32, i32))
    ensures
        r.0 == wrap32(reconstructed.0 + correction.0),
        r.1 == wrap32(reconstructed.1 + correction.1),
{
    (fold_correction(reconstructed.0, correction.0), fold_correction(reconstructed.1, correction.1))
}

/// A correction folded in before decorrelation.
#[must_use]
pub fn fold_correction_pre_decorrelation(lossy: i32, correction: i32) -> (r: i32)
    ensures
        r == wrap32(lossy + correction),
{
    add32(lossy, correction)
}

/// Corrections of a pair folded in before decorrelation.
#[must_use]
pub fn fold_correction_pre_decorrelation_pair(lossy: (i32, i32), correction: (i32, i32)) -> (r: (i32, i32))
    ensures
        r.0 == wrap32(lossy.0 + correction.0),
        r.1 == wrap32(lossy.1 + correction.1),
{
    (
        fold_correction_pre_decorrelation(lossy.0, correction.0),
        fold_correction_pre_decorrelation(lossy.1, correction.1),
    )
}

/// The correction of a lossy sample.
#[must_use]
pub fn split_correction(source: i32, lossy: i32) -> (r: i32)
    ensures
        r == wrap32(source - lossy),
{
    sub32(source, lossy)
}

/// Folding a split correction gives the source sample back.
pub proof fn fold_undoes_split(source: i32, lossy: i32)
    ensures
        wrap32(lossy + wrap32(source - lossy)) == source,
{
    lemma_wrap32(source - lossy, lossy as int);
    lemma_wrap32(source as int, 0);
}

/// Where a block's flags place the correction.
#[derive(Debug, Clone, Copy, PartialEq, Eq, Structural)]
pub enum CorrectionFold {
    /// Added to the decorrelated sample.
    PostDecorrelation,
    /// Flagged as added before decorrelation.
    PreDecorrelationCross,
    /// Fed through the shaping filter.
    NoiseShaped,
}

/// Whether a flag word has a shaping flag.
pub open spec fn shaping_flagged(flags: u32) -> bool {
    flags / 0x40 % 2 == 1 || flags / 0x2000_0000 % 2 == 1
}

/// Whether a flag word selects the shaped fold.
#[must_use]
pub fn flags_select_shaping(flags: u32) -> (r: bool)
    ensures
        r == shaping_flagged(flags),
{
    flags / HYBRID_SHAPE_FLAG % 2 == 1 || flags / NEW_SHAPING_FLAG % 2 == 1
}

impl CorrectionFold {
    /// Where a flag word places the correction. Shaping wins over the
    /// cross-channel flag.
    #[must_use]
    pub fn from_flags(flags: u32) -> (r: CorrectionFold)
        ensures
            r == if shaping_flagged(flags) {
                CorrectionFold::NoiseShaped
            } else if flags / 0x20 % 2 == 1 {
                CorrectionFold::PreDecorrelationCross
            } else {
                CorrectionFold::PostDecorrelation
            },
    {
        if flags_select_shaping(flags) {
            CorrectionFold::NoiseShaped
        } else if flags / CROSS_DECORR_FLAG % 2 == 1 {
            CorrectionFold::PreDecorrelationCross
        } else {
            CorrectionFold::PostDecorrelation
        }
    }

    /// Whether a plain add after decorrelation restores the samples.
    #[must_use]
    pub fn is_supported_raw_fold(self) -> (r: bool)
        ensures
            r == !(self is NoiseShaped),
    {
        !matches!(self, CorrectionFold::NoiseShaped)
    }
}

// ---------------------------------------------------------------------------
// The rate profile and the running levels
// ---------------------------------------------------------------------------

/// Bytes of a profile for one channel.
pub const HYBRID_PROFILE_MONO_BYTES: usize = 4;

/// Bytes of a profile for two channels.
pub const HYBRID_PROFILE_STEREO_BYTES: usize = 8;

/// Added to the level when a limit is derived.
pub const HYBRID_LIMIT_BIAS: i32 = 256;

/// Limits above this log word saturate.
pub const HYBRID_LIMIT_ARG_CEILING: i32 = 7935;

/// The rate profile of a hybrid block.
#[derive(Debug, Clone, Copy, PartialEq, Eq)]
pub struct HybridProfile {
    /// Log words of the starting levels.
    pub level_words: [i16; 2],
    /// Log word of the rate.
    pub bitrate: i32,
    /// Level difference at which the channels are balanced.
    pub balance: i32,
    /// Two channels.
    pub stereo: bool,
}

/// The signed word at word index `i` of a payload.
pub open spec fn payload_word(payload: Seq<u8>, i: int) -> int {
    word_of(payload[2 * i], payload[2 * i + 1])
}

fn read_word_at(payload: &[u8], i: usize) -> (r: i16)
    requires
        2 * i + 1 < payload.len(),
        i < 16,
    ensures
        r == payload_word(payload@, i as int),
{
    let w: i32 = payload[2 * i] as i32 + 256 * payload[2 * i + 1] as i32;
    if w < 32768 {
        w as i16
    } else {
        (w - 65536) as i16
    }
}

/// Reads a rate profile.
pub fn expand_hybrid_profile(payload: &[u8], stereo: bool) -> (r: Result<HybridProfile>)
    ensures
        stereo && payload.len() == 8 ==> {
            &&& r is Ok
            &&& r->Ok_0.level_words[0] == payload_word(payload@, 0)
            &&& r->Ok_0.level_words[1] == payload_word(payload@, 1)
            &&& r->Ok_0.bitrate == payload_word(payload@, 2)
            &&& r->Ok_0.balance == payload_word(payload@, 3)
            &&& r->Ok_0.stereo
        },
        !stereo && payload.len() == 4 ==> {
            &&& r is Ok
            &&& r->Ok_0.level_words[0] == payload_word(payload@, 0)
            &&& r->Ok_0.level_words[1] == 0
            &&& r->Ok_0.bitrate == payload_word(payload@, 1)
            &&& r->Ok_0.balance == 0
            &&& !r->Ok_0.stereo
        },
        payload.len() != (if stereo {
            8int
        } else {
            4
        }) ==> r is Err && r->Err_0 == Error::HybridProfileLength(payload.len()),
{
    if stereo {
        if payload.len() != HYBRID_PROFILE_STEREO_BYTES {
            return Err(Error::HybridProfileLength(payload.len()));
        }
        Ok(
            HybridProfile {
                level_words: [read_word_at(payload, 0), read_word_at(payload, 1)],
                bitrate: read_word_at(payload, 2) as i32,
                balance: read_word_at(payload, 3) as i32,
                stereo: true,
            },
        )
    } else {
        if payload.len() != HYBRID_PROFILE_MONO_BYTES {
            return Err(Error::HybridProfileLength(payload.len()));
        }
        Ok(
            HybridProfile {
                level_words: [read_word_at(payload, 0), 0],
                bitrate: read_word_at(payload, 1) as i32,
                balance: 0,
                stereo: false,
            },
        )
    }
}

/// The level that a log word seeds.
pub open spec fn seed_level(word: i16) -> u32 {
    let v = exp_of(word as int);
    if v < 0 {
        0
    } else {
        v as u32
    }
}

/// A level after one more sample of magnitude `mag`.
pub open spec fn level_after(level: u32, mag: nat) -> u32 {
    (level - (level + 128) / 256 + log_of(mag)) as u32
}

/// The limit of a log word: none from zero down, no bound above the ceiling.
pub open spec fn limit_of(arg: int) -> u32 {
    if arg <= 0 {
        0
    } else if arg > HYBRID_LIMIT_ARG_CEILING {
        u32::MAX
    } else {
        wrap_u32(exp_of(arg) as int)
    }
}

/// The running levels of a block.
#[derive(Debug, Clone, Copy, PartialEq, Eq, Structural)]
pub struct HybridState {
    /// Level of the first channel.
    pub level_a: u32,
    /// Level of the second channel.
    pub level_b: u32,
    /// Log word of the rate.
    pub bitrate: i32,
    /// Level difference at which the channels are balanced.
    pub balance: i32,
    /// Two channels.
    pub stereo: bool,
}

impl HybridState {
    /// The state that a profile seeds.
    pub open spec fn seeded(word_a: i16, word_b: i16, bitrate: i32, balance: i32, stereo: bool) -> HybridState {
        HybridState { level_a: seed_level(word_a), level_b: seed_level(word_b), bitrate, balance, stereo }
    }

    /// The level of a channel.
    pub open spec fn level(&self, sec: bool) -> u32 {
        if sec {
            self.level_b
        } else {
            self.level_a
        }
    }

    /// Levels stay below 2^31.
    pub open spec fn wf(&self) -> bool {
        self.level_a < 0x8000_0000 && self.level_b < 0x8000_0000
    }

    /// Half of what the channels are out of balance.
    pub open spec fn shift(&self) -> int {
        if self.stereo {
            ((self.level_a + 128) / 256 - (self.level_b + 128) / 256 - self.balance) / 2
        } else {
            0
        }
    }

    /// How far a word of the channel may miss, from the level before its frame.
    #[verifier::opaque]
    pub open spec fn limit(&self, sec: bool) -> u32 {
        if sec {
            if self.stereo {
                limit_of((self.level_b + 128) / 256 + self.shift() - self.bitrate + 256)
            } else {
                0
            }
        } else {
            limit_of((self.level_a + 128) / 256 - self.shift() - self.bitrate + 256)
        }
    }

    /// The state after one more sample of a channel.
    #[verifier::opaque]
    pub open spec fn after(&self, sec: bool, sample: i32) -> HybridState {
        if sec {
            HybridState { level_b: level_after(self.level_b, magnitude(sample)), ..*self }
        } else {
            HybridState { level_a: level_after(self.level_a, magnitude(sample)), ..*self }
        }
    }

    /// Seeds the levels from a profile.
    #[must_use]
    pub fn from_profile(profile: &HybridProfile) -> (r: HybridState)
        ensures
            r == HybridState::seeded(
                profile.level_words[0],
                profile.level_words[1],
                profile.bitrate,
                profile.balance,
                profile.stereo,
            ),
            r.wf(),
    {
        HybridState {
            level_a: expand_level(profile.level_words[0]),
            level_b: expand_level(profile.level_words[1]),
            bitrate: profile.bitrate,
            balance: profile.balance,
            stereo: profile.stereo,
        }
    }

    /// The level of a channel; only the low bit of the number counts.
    #[must_use]
    pub fn slow_level(&self, channel: usize) -> (r: u32)
        ensures
            r == self.level(channel % 2 == 1),
    {
        if channel % 2 == 1 {
            self.level_b
        } else {
            self.level_a
        }
    }

    fn limit_from_arg(arg: i64) -> (r: u32)
        ensures
            r == limit_of(arg as int),
    {
        if arg <= 0 {
            0
        } else if arg > HYBRID_LIMIT_ARG_CEILING as i64 {
            u32::MAX
        } else {
            unsigned_word(wp_exp2s(arg as i32))
        }
    }

    /// How far the words of the next frame may miss.
    #[must_use]
    pub fn frame_limits(&self) -> (r: [u32; 2])
        requires
            self.wf(),
        ensures
            r[0] == self.limit(false),
            r[1] == self.limit(true),
    {
        proof {
            reveal(HybridState::limit);
        }
        proof {
            lemma2_to64();
        }
        let ema0: i64 = ((self.level_a + 128) / 256) as i64;
        if !self.stereo {
            return [HybridState::limit_from_arg(ema0 - self.bitrate as i64 + HYBRID_LIMIT_BIAS as i64), 0];
        }
        let ema1: i64 = ((self.level_b + 128) / 256) as i64;
        let delta: i64 = floor_shr(ema0 - ema1 - self.balance as i64, 1);
        [
            HybridState::limit_from_arg(ema0 - delta - self.bitrate as i64 + HYBRID_LIMIT_BIAS as i64),
            HybridState::limit_from_arg(ema1 + delta - self.bitrate as i64 + HYBRID_LIMIT_BIAS as i64),
        ]
    }

    /// The state after a sample of magnitude `mag`.
    #[verifier::opaque]
    pub open spec fn after_magnitude(&self, sec: bool, mag: nat) -> HybridState {
        if sec {
            HybridState { level_b: level_after(self.level_b, mag), ..*self }
        } else {
            HybridState { level_a: level_after(self.level_a, mag), ..*self }
        }
    }

    /// Moves a channel's level past a sample of the given magnitude.
    pub fn update(&mut self, channel: usize, mag: u32)
        requires
            old(self).wf(),
        ensures
            *final(self) == old(self).after_magnitude(channel % 2 == 1, mag as nat),
            final(self).wf(),
    {
        proof {
            reveal(HybridState::after_magnitude);
        }
        if channel % 2 == 1 {
            self.level_b = step_level(self.level_b, mag);
        } else {
            self.level_a = step_level(self.level_a, mag);
        }
    }

    /// Moves a channel's level past a signed sample.
    pub fn update_signed(&mut self, channel: usize, sample: i32)
        requires
            old(self).wf(),
        ensures
            *final(self) == old(self).after(channel % 2 == 1, sample),
            final(self).wf(),
    {
        proof {
            reveal(HybridState::after);
            reveal(HybridState::after_magnitude);
        }
        let (mag, _neg) = split_sign(sample);
        self.update(channel, mag);
    }

}

fn step_level(level: u32, mag: u32) -> (r: u32)
    requires
        level < 0x8000_0000,
    ensures
        r == level_after(level, mag as nat),
        r < 0x8000_0000,
{
    let log: i32 = wp_log2(mag);
    level - (level + 128) / 256 + log as u32
}

fn expand_level(word: i16) -> (r: u32)
    ensures
        r == seed_level(word),
        r < 0x8000_0000,
{
    let v: i32 = wp_exp2s(word as i32);
    if v < 0 {
        0
    } else {
        v as u32
    }
}

/// The levels over a buffer from zero on, per channel.
pub open spec fn levels_over(x: Seq<i32>, stereo: bool, sec: bool) -> u32
    decreases x.len(),
{
    if x.len() == 0 {
        0
    } else {
        let before = levels_over(x.drop_last(), stereo, sec);
        if (stereo && (x.len() - 1) % 2 == 1) == sec {
            level_after(before, magnitude(x.last()))
        } else {
            before
        }
    }
}

/// Runs the levels over a buffer, from zero on.
pub fn level_prepass(residuals: &[i32], stereo: bool) -> (r: (u32, u32))
    ensures
        r.0 == levels_over(residuals@, stereo, false),
        r.1 == levels_over(residuals@, stereo, true),
        r.0 < 0x8000_0000,
        r.1 < 0x8000_0000,
{
    let mut a: u32 = 0;
    let mut b: u32 = 0;
    let mut i: usize = 0;
    assert(residuals@.take(0) =~= Seq::empty());
    while i < residuals.len()
        invariant
            i <= residuals.len(),
            a < 0x8000_0000,
            b < 0x8000_0000,
            a == levels_over(residuals@.take(i as int), stereo, false),
            b == levels_over(residuals@.take(i as int), stereo, true),
        decreases residuals.len() - i,
    {
        let (mag, _neg) = split_sign(residuals[i]);
        assert(residuals@.take(i + 1).drop_last() =~= residuals@.take(i as int));
        if stereo && i % 2 == 1 {
            b = step_level(b, mag);
        } else {
            a = step_level(a, mag);
        }
        i = i + 1;
    }
    assert(residuals@.take(residuals.len() as int) =~= residuals@);
    (a, b)
}

/// The log word of a level.
pub open spec fn level_word(level: u32) -> i16 {
    signed_log((if level < 0x8000_0000 {
        level as int
    } else {
        0x7fff_ffff
    }) as i32) as i16
}

/// Packs a level into its log word.
pub fn pack_level_word(level: u32) -> (r: i16)
    ensures
        r == level_word(level),
{
    let clamped: i32 = if level < 0x8000_0000 {
        level as i32
    } else {
        0x7fff_ffff
    };
    let w: [u8; 2] = pack_log_word(clamped);
    proof {
        reveal(signed_log);
        assert(w@[0] == w[0] && w@[1] == w[1]);
    }
    (w[0] as u16 + 256 * w[1] as u16) as i16
}

// ---------------------------------------------------------------------------
// Noise shaping
// ---------------------------------------------------------------------------

/// What shaping adds to a sample: the weighed miss, rounded, kept below the
/// miss where the weight is negative.
pub open spec fn shaped_term(weight: int, err: i32) -> i32 {
    if err == 0 {
        0
    } else {
        let t = -(wrap32(wrap32(weight * err) + 511) as int / 1024);
        let m = if err < 0 {
            -err
        } else {
            err as int
        };
        let a = if t < 0 {
            -t
        } else {
            t
        };
        if weight < 0 && a >= m {
            (if t > 0 {
                m - 1
            } else if t < 0 {
                1 - m
            } else {
                0
            }) as i32
        } else {
            t as i32
        }
    }
}

/// The state of the shaping filter: per channel the last miss, the weight in
/// 65536ths, and its step.
#[derive(Debug, Clone, Copy, PartialEq, Eq, Default, Structural)]
pub struct ShapingState {
    /// Last miss of the first channel.
    pub error_a: i32,
    /// Last miss of the second channel.
    pub error_b: i32,
    /// Weight accumulator of the first channel.
    pub acc_a: i32,
    /// Weight accumulator of the second channel.
    pub acc_b: i32,
    /// Weight step of the first channel.
    pub delta_a: i32,
    /// Weight step of the second channel.
    pub delta_b: i32,
}

/// The value of log word `i` of a payload, or zero where it has none.
pub open spec fn shaping_value(payload: Option<Seq<u8>>, i: int) -> i32 {
    match payload {
        None => 0,
        Some(p) => if 2 * i + 1 < p.len() {
            exp_of(payload_word(p, i))
        } else {
            0
        },
    }
}

impl ShapingState {
    /// The state that a payload seeds; stored misses are negated.
    pub open spec fn seeded(payload: Option<Seq<u8>>, stereo: bool) -> ShapingState {
        if stereo {
            ShapingState {
                error_a: wrap32(-shaping_value(payload, 0)),
                error_b: wrap32(-shaping_value(payload, 2)),
                acc_a: shaping_value(payload, 1),
                acc_b: shaping_value(payload, 3),
                delta_a: shaping_value(payload, 4),
                delta_b: shaping_value(payload, 5),
            }
        } else {
            ShapingState {
                error_a: wrap32(-shaping_value(payload, 0)),
                error_b: 0,
                acc_a: shaping_value(payload, 1),
                acc_b: 0,
                delta_a: shaping_value(payload, 2),
                delta_b: 0,
            }
        }
    }

    /// The last miss of a channel.
    pub open spec fn miss(&self, sec: bool) -> i32 {
        if sec {
            self.error_b
        } else {
            self.error_a
        }
    }

    /// The weight accumulator of a channel.
    pub open spec fn accumulator(&self, sec: bool) -> i32 {
        if sec {
            self.acc_b
        } else {
            self.acc_a
        }
    }

    /// The state with a channel's weight moved one step.
    #[verifier::opaque]
    pub open spec fn advanced(&self, sec: bool) -> ShapingState {
        if sec {
            ShapingState { acc_b: wrap32(self.acc_b + self.delta_b), ..*self }
        } else {
            ShapingState { acc_a: wrap32(self.acc_a + self.delta_a), ..*self }
        }
    }

    /// What shaping adds to a channel's sample, after its weight has moved.
    #[verifier::opaque]
    pub open spec fn term(&self, sec: bool) -> i32 {
        shaped_term(self.accumulator(sec) as int / 65536, self.miss(sec))
    }

    /// The state after a sample: the miss, less what shaping added where the
    /// weight is not negative.
    #[verifier::opaque]
    pub open spec fn after(&self, sec: bool, exact: i32, coarse: i32, temp: i32) -> ShapingState {
        let q = wrap32(exact - coarse);
        let e = if (self.accumulator(sec) as int) / 65536 < 0 {
            q
        } else {
            wrap32(q - temp)
        };
        if sec {
            ShapingState { error_b: e, ..*self }
        } else {
            ShapingState { error_a: e, ..*self }
        }
    }

    /// Seeds the filter from a payload, or with zeros where there is none.
    #[must_use]
    pub fn from_shaping_words(payload: Option<&[u8]>, stereo: bool) -> (r: ShapingState)
        ensures
            r == ShapingState::seeded(
                match payload {
                    Some(p) => Some(p@),
                    None => None,
                },
                stereo,
            ),
    {
        if stereo {
            ShapingState {
                error_a: negate(word_or_zero(payload, 0)),
                error_b: negate(word_or_zero(payload, 2)),
                acc_a: word_or_zero(payload, 1),
                acc_b: word_or_zero(payload, 3),
                delta_a: word_or_zero(payload, 4),
                delta_b: word_or_zero(payload, 5),
            }
        } else {
            ShapingState {
                error_a: negate(word_or_zero(payload, 0)),
                error_b: 0,
                acc_a: word_or_zero(payload, 1),
                acc_b: 0,
                delta_a: word_or_zero(payload, 2),
                delta_b: 0,
            }
        }
    }

    /// The payload words of the state.
    pub open spec fn words(&self, stereo: bool, with_delta: bool) -> Seq<u8> {
        let a = word_bytes(signed_log(wrap32(-self.error_a))) + word_bytes(signed_log(self.acc_a));
        let b = word_bytes(signed_log(wrap32(-self.error_b))) + word_bytes(signed_log(self.acc_b));
        let heads = if stereo {
            a + b
        } else {
            a
        };
        if !with_delta {
            heads
        } else if stereo {
            heads + word_bytes(signed_log(self.delta_a)) + word_bytes(signed_log(self.delta_b))
        } else {
            heads + word_bytes(signed_log(self.delta_a))
        }
    }

    /// Packs the state into payload words; the weight steps are optional.
    #[must_use]
    pub fn to_shaping_words(&self, stereo: bool, with_delta: bool) -> (r: Vec<u8>)
        ensures
            r@ == self.words(stereo, with_delta),
    {
        let mut out: Vec<u8> = Vec::new();
        push_word(&mut out, negate(self.error_a));
        push_word(&mut out, self.acc_a);
        if stereo {
            push_word(&mut out, negate(self.error_b));
            push_word(&mut out, self.acc_b);
        }
        if with_delta {
            push_word(&mut out, self.delta_a);
            if stereo {
                push_word(&mut out, self.delta_b);
            }
        }
        assert(out@ =~= self.words(stereo, with_delta));
        out
    }

    /// Moves a channel's weight one step; gives what shaping adds to its sample.
    pub fn advance(&mut self, channel: usize) -> (r: i32)
        ensures
            *final(self) == old(self).advanced(channel % 2 == 1),
            r == final(self).term(channel % 2 == 1),
    {
        proof {
            reveal(ShapingState::advanced);
            reveal(ShapingState::term);
        }
        if channel % 2 == 1 {
            self.acc_b = add32(self.acc_b, self.delta_b);
            shape(self.acc_b, self.error_b)
        } else {
            self.acc_a = add32(self.acc_a, self.delta_a);
            shape(self.acc_a, self.error_a)
        }
    }

    /// Records the outcome of a channel's sample.
    pub fn update(&mut self, channel: usize, exact: i32, coarse: i32, temp: i32)
        ensures
            *final(self) == old(self).after(channel % 2 == 1, exact, coarse, temp),
    {
        proof {
            reveal(ShapingState::after);
        }
        let q: i32 = sub32(exact, coarse);
        if channel % 2 == 1 {
            self.error_b = if self.acc_b < 0 {
                q
            } else {
                sub32(q, temp)
            };
        } else {
            self.error_a = if self.acc_a < 0 {
                q
            } else {
                sub32(q, temp)
            };
        }
    }

    /// The last miss of a channel; only the low bit of the number counts.
    #[must_use]
    pub fn error(&self, channel: usize) -> (r: i32)
        ensures
            r == self.miss(channel % 2 == 1),
    {
        if channel % 2 == 1 {
            self.error_b
        } else {
            self.error_a
        }
    }
}

fn negate(v: i32) -> (r: i32)
    ensures
        r == wrap32(-v),
{
    wrap_i32(-(v as i64))
}

fn push_word(out: &mut Vec<u8>, v: i32)
    ensures
        final(out)@ == old(out)@ + word_bytes(signed_log(v)),
{
    let w: [u8; 2] = pack_log_word(v);
    out.push(w[0]);
    out.push(w[1]);
    assert(out@ =~= old(out)@ + word_bytes(signed_log(v)));
}

fn word_or_zero(payload: Option<&[u8]>, i: usize) -> (r: i32)
    requires
        i < 16,
    ensures
        r == shaping_value(
            match payload {
                Some(p) => Some(p@),
                None => None,
            },
            i as int,
        ),
{
    match payload {
        None => 0,
        Some(p) => if 2 * i + 1 < p.len() {
            wp_exp2s(read_word_at(p, i) as i32)
        } else {
            0
        },
    }
}

fn shape(acc: i32, err: i32) -> (r: i32)
    ensures
        r == shaped_term(acc as int / 65536, err),
{
    proof {
        lemma2_to64();
    }
    let weight: i64 = floor_shr(acc as i64, 16);
    if err == 0 {
        return 0;
    }
    assert(-0x1_0000 * 0x8000_0000 <= weight * err <= 0x1_0000 * 0x8000_0000) by (nonlinear_arith)
        requires
            -0x8000 <= weight <= 0x7fff,
            -0x8000_0000 <= err <= 0x7fff_ffff,
    ;
    let prod: i32 = wrap_i32(weight * err as i64);
    let biased: i32 = wrap_i32(prod as i64 + 511);
    let t: i64 = -floor_shr(biased as i64, 10);
    let m: i64 = if err < 0 {
        -(err as i64)
    } else {
        err as i64
    };
    let a: i64 = if t < 0 {
        -t
    } else {
        t
    };
    if weight < 0 && a >= m {
        if t > 0 {
            (m - 1) as i32
        } else if t < 0 {
            (1 - m) as i32
        } else {
            0
        }
    } else {
        t as i32
    }
}

} // verus!
