//! How a hybrid stream spends its rate: levels, limits and shaped noise.
use vstd::prelude::*;
use vstd::arithmetic::power2::{lemma2_to64, lemma_pow2_strictly_increases};
use crate::arith::{bit_length, lemma_bit_length, lemma_wrap32, wrap32};
use crate::block::levels_in;
use crate::block_writer::joined;
use crate::crc::left_right;
use crate::decorrelation::{PassState, cross};
use crate::derive::encoded;
use crate::error::Error;
use crate::hybrid::{HybridState, ShapingState, level_word, levels_over, limit_of, seed_level, shaped_term};
use crate::hybrid_carry::{HybridCarry, HybridOptions, HybridShaping, at_least_one, capped_delta, eased, hybrid_passes, lemma_railed, railed_word, seed_words, settled_delta, size, with_word, within_channels};
use crate::hybrid_encode::{profile_payload, start_levels};
use crate::hybrid_words::HybridCoder;
use crate::logpack::{aligned, biased, exp_is_odd, exp_keeps_order, exp_of, lemma_log_bound, lemma_quantized_zero, lemma_word_roundtrip, log2_fraction, log_of, quantized, signed_log, word_of};
use crate::packed_samples::second;
use crate::samples::magnitude;

verus! {

// ---------------------------------------------------------------------------
// Levels and limits
// ---------------------------------------------------------------------------

/// The level of a channel gives up one part in 256, rounded to the nearest, with
/// every word, and takes up the log of the word's magnitude. The other channel's
/// level stays.
pub proof fn levels_follow_the_words(s: HybridState, sec: bool, v: i32)
    requires
        s.wf(),
    ensures
        ({
            let before = s.level(sec);
            let after = s.after(sec, v).level(sec);
            let lost = before + log_of(magnitude(v)) - after;
            &&& -128 <= before - 256 * lost <= 127
            &&& s.after(sec, v).level(!sec) == s.level(!sec)
            &&& s.after_magnitude(sec, magnitude(v)) == s.after(sec, v)
            &&& s.after(sec, v).bitrate == s.bitrate && s.after(sec, v).balance == s.balance
            &&& s.after(sec, v).stereo == s.stereo
        }),
{
    reveal(HybridState::after);
    reveal(HybridState::after_magnitude);
    lemma_log_bound(magnitude(v));
    let before = s.level(sec);
    assert(0 <= before - (before + 128) / 256);
}

/// A higher argument never gives a lower limit. There is no limit at zero or
/// below, and none is missed above.
pub proof fn limits_keep_order(a: int, b: int)
    requires
        a <= b,
    ensures
        limit_of(a) <= limit_of(b),
        a <= 0 ==> limit_of(a) == 0,
        a > 7935 ==> limit_of(a) == u32::MAX,
        0 < a <= 7935 ==> limit_of(a) == exp_of(a) && exp_of(a) >= 0,
{
    if 0 < a && a <= 7935 {
        exp_keeps_order(0, a);
        crate::logpack::lemma_quantized_zero();
    }
    if 0 < b && b <= 7935 {
        exp_keeps_order(0, b);
        crate::logpack::lemma_quantized_zero();
        if 0 < a {
            exp_keeps_order(a, b);
        }
    }
}

/// The limit of a mono word is what its level has over the rate, with one bit to
/// spare, both as logs: there is none where the rate reaches the level and that
/// bit, and a higher rate never raises it.
pub proof fn mono_limits_follow_the_rate(s: HybridState, t: HybridState)
    requires
        !s.stereo,
        !t.stereo,
        t.level_a == s.level_a,
        t.bitrate >= s.bitrate,
    ensures
        s.limit(false) == limit_of((s.level_a + 128) / 256 + 256 - s.bitrate),
        s.bitrate >= (s.level_a + 128) / 256 + 256 ==> s.limit(false) == 0,
        t.limit(false) <= s.limit(false),
        s.limit(true) == 0,
{
    reveal(HybridState::limit);
    limits_keep_order(
        (t.level_a + 128) / 256 + 256 - t.bitrate,
        (s.level_a + 128) / 256 + 256 - s.bitrate,
    );
}

/// The limits of a stereo frame share the rate: their arguments together are
/// what both levels have over it, with one bit each to spare, and the first is
/// the balance over the second, or one more.
pub proof fn stereo_limits_share_the_rate(s: HybridState)
    requires
        s.stereo,
    ensures
        ({
            let both = (s.level_a + 128) / 256 + (s.level_b + 128) / 256 - 2 * s.bitrate + 512;
            let odd = (both - s.balance) % 2;
            let a = (both + s.balance + odd) / 2;
            let b = both - a;
            &&& a - b == s.balance || a - b == s.balance + 1
            &&& s.limit(false) == limit_of(a)
            &&& s.limit(true) == limit_of(b)
        }),
{
    let la = (s.level_a + 128) / 256;
    let lb = (s.level_b + 128) / 256;
    reveal(HybridState::limit);
    let d = la - lb - s.balance;
    let both = la + lb - 2 * s.bitrate + 512;
    let odd = (both - s.balance) % 2;
    let a = (both + s.balance + odd) / 2;
    assert(s.shift() == d / 2);
    assert(a == la - d / 2 - s.bitrate + 256);
}

/// The profile words stand in order: the levels of the channels, the rate and, in
/// a stereo block, the balance.
pub proof fn profiles_hold_their_words(p: Seq<u8>)
    ensures
        p.len() == 4 ==> {
            let s = levels_in(p, false)->Ok_0;
            &&& levels_in(p, false) is Ok && levels_in(p, true) is Err
            &&& s.level_a == seed_level(word_of(p[0], p[1]) as i16) && s.level_b == seed_level(0)
            &&& s.bitrate == word_of(p[2], p[3]) && s.balance == 0 && !s.stereo
        },
        p.len() == 8 ==> {
            let s = levels_in(p, true)->Ok_0;
            &&& levels_in(p, true) is Ok && levels_in(p, false) is Err
            &&& s.level_a == seed_level(word_of(p[0], p[1]) as i16)
            &&& s.level_b == seed_level(word_of(p[2], p[3]) as i16)
            &&& s.bitrate == word_of(p[4], p[5]) && s.balance == word_of(p[6], p[7]) && s.stereo
        },
        p.len() != 4 ==> levels_in(p, false) == Err::<HybridState, Error>(
            Error::HybridProfileLength(p.len() as usize),
        ),
        p.len() != 8 ==> levels_in(p, true) == Err::<HybridState, Error>(Error::HybridProfileLength(p.len() as usize)),
{
}

/// A written profile reads back as the levels and the rate that the block was
/// coded with. The rate is kept within fifteen bits; mid and side are a bit
/// apart.
pub proof fn written_profiles_read_back(mono: bool, opts: HybridOptions, level: (i16, i16))
    ensures
        ({
            let p = profile_payload(mono, opts, level);
            let s = levels_in(p, !mono)->Ok_0;
            &&& levels_in(p, !mono) is Ok
            &&& s == start_levels(mono, opts, level)
            &&& s.level_a == seed_level(level.0)
            &&& !mono ==> s.level_b == seed_level(level.1)
            &&& opts.bitrate_word < 0 ==> s.bitrate == 0
            &&& 0 <= opts.bitrate_word <= 32767 ==> s.bitrate == opts.bitrate_word
            &&& opts.bitrate_word > 32767 ==> s.bitrate == 32767
            &&& s.balance == (if opts.joint && !mono {
                256int
            } else {
                0
            })
            &&& s.stereo == !mono
        }),
{
}

/// A rate in 256ths of a bit per sample becomes its log word, 568 lower, within
/// fifteen bits. A rate alone asks for a correction stream, mid and side, the
/// middle profile and no shaping.
pub proof fn rates_become_words(units: int)
    ensures
        ({
            let o = HybridOptions::of_rate(units);
            &&& units <= 568 ==> o.bitrate_word == 0
            &&& 568 <= units <= 568 + 32767 ==> o.bitrate_word == units - 568
            &&& units >= 568 + 32767 ==> o.bitrate_word == 32767
            &&& o.correction && o.joint && o.shaping is Off
        }),
{
}

// ---------------------------------------------------------------------------
// Shaping
// ---------------------------------------------------------------------------

/// What shaping adds is the weight times the last miss, in 1024ths, turned round
/// and rounded to the nearest. A negative weight never adds as much as the miss.
/// Without a miss, or without a weight, nothing is added.
pub proof fn shaping_turns_the_miss_round(weight: int, err: i32)
    requires
        -1024 <= weight <= 1024,
        -0x10_0000 <= err <= 0x10_0000,
    ensures
        ({
            let t = shaped_term(weight, err);
            &&& err == 0 || weight == 0 ==> t == 0
            &&& weight >= 0 ==> -511 <= 1024 * t + weight * err <= 512
            &&& weight < 0 && err != 0 ==> -size(err as int) < t < size(err as int)
            &&& weight < 0 && err != 0 && !(1024 * (size(err as int) - 1) - 512 <= -weight * size(err as int)) ==> -511
                <= 1024 * t + weight * err <= 512
        }),
{
    assert(-0x4000_0000 <= weight * err <= 0x4000_0000) by (nonlinear_arith)
        requires
            -1024 <= weight <= 1024,
            -0x10_0000 <= err <= 0x10_0000,
    ;
    lemma_wrap32(weight * err, 0);
    lemma_wrap32(weight * err + 511, 0);
    if weight == 0 {
        assert(weight * err == 0) by (nonlinear_arith)
            requires
                weight == 0,
        ;
    }
    if err < 0 {
        assert(weight * err == -weight * size(err as int)) by (nonlinear_arith)
            requires
                size(err as int) == -err,
        ;
    } else {
        assert(weight * err == -(-weight * size(err as int))) by (nonlinear_arith)
            requires
                size(err as int) == err,
        ;
    }
}

/// A word leaves behind what its residual missed; a weight that is not negative
/// takes off it what shaping added. Only its own channel's miss changes.
pub proof fn misses_are_remembered(s: ShapingState, sec: bool, exact: i32, coarse: i32, temp: i32)
    ensures
        ({
            let n = s.after(sec, exact, coarse, temp);
            &&& s.accumulator(sec) < 0 ==> n.miss(sec) == wrap32(exact - coarse)
            &&& s.accumulator(sec) >= 0 ==> n.miss(sec) == wrap32(exact - coarse - temp)
            &&& n.miss(!sec) == s.miss(!sec)
            &&& n.acc_a == s.acc_a && n.acc_b == s.acc_b && n.delta_a == s.delta_a && n.delta_b == s.delta_b
        }),
{
    reveal(ShapingState::after);
    lemma_wrap32(exact - coarse, temp as int);
}

/// A word moves its channel's weight by that channel's step, in 65536ths, and
/// the term goes by the weight's whole part.
pub proof fn weights_move_by_their_steps(s: ShapingState, sec: bool)
    ensures
        ({
            let n = s.advanced(sec);
            &&& n.accumulator(sec) == wrap32(
                s.accumulator(sec) + (if sec {
                    s.delta_b
                } else {
                    s.delta_a
                }),
            )
            &&& n.accumulator(!sec) == s.accumulator(!sec)
            &&& n.miss(false) == s.miss(false) && n.miss(true) == s.miss(true)
            &&& n.delta_a == s.delta_a && n.delta_b == s.delta_b
            &&& s.term(sec) == shaped_term(s.accumulator(sec) as int / 0x1_0000, s.miss(sec))
        }),
{
    reveal(ShapingState::advanced);
    reveal(ShapingState::term);
}

/// A state without weights, steps and misses adds nothing and stays so as long
/// as words are exact.
pub proof fn no_shaping_adds_nothing(s: ShapingState, sec: bool, v: i32)
    requires
        s == ShapingState::seeded(None, true),
    ensures
        s.term(sec) == 0,
        s.advanced(sec) == s,
        s.after(sec, v, v, 0) == s,
{
    reveal(ShapingState::advanced);
    reveal(ShapingState::term);
    reveal(ShapingState::after);
    lemma_wrap32(0, 0);
}

/// Shaping words stand in order: of each channel the miss, turned round, and the
/// weight; then the steps.
pub proof fn shaping_payloads_hold_their_words(p: Seq<u8>)
    requires
        p.len() == 4 || p.len() == 6 || p.len() == 8 || p.len() == 12,
    ensures
        ({
            let m = ShapingState::seeded(Some(p), false);
            let s = ShapingState::seeded(Some(p), true);
            &&& m.error_a == wrap32(-exp_of(word_of(p[0], p[1]))) && m.acc_a == exp_of(word_of(p[2], p[3]))
            &&& m.delta_a == (if p.len() >= 6 {
                exp_of(word_of(p[4], p[5]))
            } else {
                0
            })
            &&& m.error_b == 0 && m.acc_b == 0 && m.delta_b == 0
            &&& p.len() >= 8 ==> {
                &&& s.error_a == m.error_a && s.acc_a == m.acc_a
                &&& s.error_b == wrap32(-exp_of(word_of(p[4], p[5]))) && s.acc_b == exp_of(word_of(p[6], p[7]))
            }
            &&& p.len() == 8 ==> s.delta_a == 0 && s.delta_b == 0
            &&& p.len() == 12 ==> s.delta_a == exp_of(word_of(p[8], p[9])) && s.delta_b == exp_of(
                word_of(p[10], p[11]),
            )
        }),
{
}

/// A stream that asks for a weight starts both channels from it, without a miss
/// and with the step that was asked for, as log words hold them.
pub proof fn shaping_starts_from_the_weight(opts: HybridOptions, mono: bool, w: i32)
    requires
        -1024 <= w <= 1024,
        opts.shaping == HybridShaping::Static(w) || (opts.shaping is Ramp && opts.shaping->weight == w),
    ensures
        ({
            let s = HybridCarry::start(opts, mono).shaping->Some_0;
            let acc = quantized((w * 0x1_0000) as i32);
            let step = if opts.shaping is Ramp {
                quantized(opts.shaping->delta)
            } else {
                0
            };
            &&& HybridCarry::start(opts, mono).shaping is Some
            &&& s.error_a == 0 && s.error_b == 0
            &&& s.acc_a == acc && s.delta_a == step
            &&& s.acc_b == (if mono {
                0
            } else {
                acc
            })
            &&& s.delta_b == (if mono {
                0
            } else {
                step
            })
        }),
{
    crate::logpack::lemma_quantized_zero();
    crate::logpack::lemma_word_roundtrip(0);
    crate::logpack::lemma_word_roundtrip((w * 0x1_0000) as i32);
    lemma_wrap32(0, 0);
    if opts.shaping is Ramp {
        crate::logpack::lemma_word_roundtrip(opts.shaping->delta);
    }
}

/// A step that was asked for is kept where a log word holds it and the weight
/// stays within its rail with it to the end of the block.
pub proof fn steps_within_the_rail_are_kept(c: HybridCarry, acc: int, frames: nat)
    requires
        i32::MIN <= c.requested_delta <= i32::MAX,
        quantized(c.requested_delta as i32) == c.requested_delta,
        frames > 0,
        -0x400_0000 <= acc <= 0x400_0000,
        -0x400_0000 <= acc + c.requested_delta * frames <= 0x400_0000,
    ensures
        c.delta_for(acc, frames) == c.requested_delta,
{
    let d = c.requested_delta as int;
    let n = frames as int;
    let room = if d >= 0 {
        0x400_0000 - acc
    } else {
        0x400_0000 + acc
    };
    assert(size(d) * n <= room) by (nonlinear_arith)
        requires
            n > 0,
            d >= 0 ==> acc + d * n <= 0x400_0000 && room == 0x400_0000 - acc && size(d) == d,
            d < 0 ==> acc + d * n >= -0x400_0000 && room == 0x400_0000 + acc && size(d) == -d,
    ;
    assert(size(d) <= room / n) by (nonlinear_arith)
        requires
            n > 0,
            size(d) * n <= room,
    ;
}

/// A weight word within the rail is kept. One beyond it gives way to the nearest
/// that is within.
pub proof fn railed_words_are_nearest(word: int)
    requires
        -0x8000 <= word < 0x8000,
    ensures
        ({
            let r = railed_word(word);
            &&& size(exp_of(word) as int) <= 0x400_0000 ==> r == word
            &&& size(exp_of(word) as int) > 0x400_0000 && word > 0 ==> {
                &&& 0 <= r < word
                &&& r > 0 ==> size(exp_of(r) as int) <= 0x400_0000
                &&& size(exp_of(r + 1) as int) > 0x400_0000
            }
            &&& size(exp_of(word) as int) > 0x400_0000 && word < 0 ==> {
                &&& word < r <= 0
                &&& r < 0 ==> size(exp_of(r) as int) <= 0x400_0000
                &&& size(exp_of(r - 1) as int) > 0x400_0000
            }
        }),
    decreases size(word),
{
    if size(exp_of(word) as int) > 0x400_0000 && word != 0 {
        if word > 0 {
            railed_words_are_nearest(word - 1);
        } else {
            railed_words_are_nearest(word + 1);
        }
    }
}

/// The next block takes its levels from where this one ended, channel by
/// channel, whatever its samples, and its shaping where there is any.
pub proof fn blocks_carry_on(
    c: HybridCarry,
    level: HybridState,
    shape: ShapingState,
    x: Seq<i32>,
    mono: bool,
    opts: HybridOptions,
)
    ensures
        ({
            let n = c.after(level, shape);
            &&& n.levels(x, mono, opts) == (level_word(level.level_a), level_word(level.level_b))
            &&& c.shaping is Some ==> n.shaping == Some(shape)
            &&& c.shaping is None ==> n.shaping is None
            &&& n.requested_delta == c.requested_delta && n.with_delta == c.with_delta && n.stereo == c.stereo
        }),
{
}

/// Of the passes that are derived a hybrid block keeps those that predict a
/// channel from itself, in their order.
pub proof fn hybrid_passes_stay_within_channels(ps: Seq<PassState>)
    ensures
        within_channels(ps) == ps.filter(|p: PassState| !cross(p.term)),
    decreases ps.len(),
{
    reveal(Seq::filter);
    if ps.len() > 0 {
        hybrid_passes_stay_within_channels(ps.drop_last());
    }
}

/// The first levels are estimated from the first 4096 residuals at most.
pub proof fn first_levels_need_little(coded: Seq<i32>, more: Seq<i32>, mono: bool, ps: Seq<PassState>)
    requires
        coded.len() == 4096,
    ensures
        seed_words(coded + more, mono, ps) == seed_words(coded, mono, ps),
{
    assert((coded + more).take(4096) =~= coded);
}

// ---------------------------------------------------------------------------
// Frames
// ---------------------------------------------------------------------------

/// A frame's first slot fixes the limits of both channels from the levels before
/// the frame; the second keeps them. Without mid and side a slot advances and
/// applies the shaping of its own channel.
pub proof fn frames_fix_their_limits(st: HybridCoder, joint: bool)
    ensures
        ({
            let one = st.begin(false, joint);
            let two = st.begin(true, joint);
            &&& one.limit(false) == st.level.limit(false) && one.limit(true) == st.level.limit(true)
            &&& two.limit(false) == st.limit(false) && two.limit(true) == st.limit(true)
            &&& one.level == st.level && two.level == st.level
            &&& one.coder == st.coder && two.coder == st.coder
            &&& one.a == st.a && one.b == st.b && two.a == st.a && two.b == st.b
            &&& !joint ==> one.temp == st.shape.advanced(false).term(false)
            &&& !joint ==> two.temp == st.shape.advanced(true).term(true)
            &&& joint ==> one.temp == wrap32(
                st.shape.advanced(false).term(false) - st.shape.advanced(false).advanced(true).term(true),
            )
            &&& joint ==> one.left_temp == st.shape.advanced(false).term(false)
            &&& joint ==> one.right_temp == st.shape.advanced(false).advanced(true).term(true)
        }),
{
    reveal(HybridCoder::begin);
}

proof fn lemma_right(h: int, g: int, s: int, t: int)
    ensures
        wrap32(wrap32(s - wrap32(t + wrap32(h - g))) - g) == wrap32(wrap32(s - h) - t),
{
    lemma_wrap32(h - g, t);
    lemma_wrap32(t + (h - g), s);
    lemma_wrap32(s - (t + (h - g)), g);
    lemma_wrap32(s - h, t);
    assert(s - (t + (h - g)) - g == s - h - t);
}

proof fn lemma_left(m: int, lt: int, rt: int, r: int)
    ensures
        wrap32(wrap32(m - wrap32(lt - rt)) + wrap32(r - rt)) == wrap32(wrap32(m + r) - lt),
{
    let a = m - (lt - rt);
    lemma_wrap32(lt - rt, m);
    assert(wrap32(m - wrap32(lt - rt)) == wrap32(a));
    lemma_wrap32(a, wrap32(r - rt) as int);
    lemma_wrap32(r - rt, a);
    assert(wrap32(wrap32(a) + wrap32(r - rt)) == wrap32(a + (r - rt)));
    assert(a + (r - rt) == m + r - lt);
    lemma_wrap32(m + r, lt);
}

/// Shaping mid and side is shaping what comes out: taking the terms of mid and
/// side off a pair takes the terms of left and right off the channels.
pub proof fn joint_shaping_shapes_the_channels(st: HybridCoder, side: i32)
    requires
        st.mid_temp == wrap32(st.left_temp - st.right_temp),
    ensures
        ({
            let t = st.begin(true, true).temp;
            let (l, r) = left_right(st.mid, side);
            left_right(wrap32(st.mid - st.mid_temp), wrap32(side - t)) == (
                wrap32(l - st.left_temp),
                wrap32(r - st.right_temp),
            )
        }),
{
    reveal(HybridCoder::begin);
    let m = st.mid as int;
    let mt = wrap32(st.mid - st.mid_temp);
    let h = m / 2;
    let g = mt as int / 2;
    let rt = st.right_temp as int;
    let lt = st.left_temp as int;
    lemma_right(h, g, side as int, rt);
    lemma_left(m, lt, rt, wrap32(side - h) as int);
    lemma_wrap32(rt, 0);
}

/// After a frame of mid and side the filter remembers what the channels that
/// come out missed, less their own terms where their weights are not negative.
pub proof fn joint_misses_are_those_of_the_channels(st: HybridCoder, side: i32, exact: i32, coarse: i32)
    requires
        st.mid_temp == wrap32(st.left_temp - st.right_temp),
    ensures
        ({
            let b = st.begin(true, true);
            let n = b.finish(true, true, side, exact, coarse, b.temp).shape;
            let (l, r) = left_right(st.mid, side);
            let (x, y) = left_right(st.lossy_mid, b.lossy(true, coarse));
            &&& st.shape.acc_a < 0 ==> n.error_a == wrap32(l - x)
            &&& st.shape.acc_a >= 0 ==> n.error_a == wrap32(l - x - st.left_temp)
            &&& st.shape.acc_b < 0 ==> n.error_b == wrap32(r - y)
            &&& st.shape.acc_b >= 0 ==> n.error_b == wrap32(r - y - st.right_temp)
        }),
{
    reveal(HybridCoder::begin);
    reveal(HybridCoder::finish);
    reveal(ShapingState::after);
    let b = st.begin(true, true);
    let k = st.half_step();
    let rt = st.right_temp as int;
    let lt = st.left_temp as int;
    lemma_wrap32(rt + k, k as int);
    lemma_wrap32(rt, 0);
    let right = wrap32(b.temp - k);
    assert(right == rt);
    lemma_wrap32(lt - rt, rt);
    lemma_wrap32(lt, 0);
    assert(wrap32(st.mid_temp + right) == lt);
    let (l, r) = left_right(st.mid, side);
    let (x, y) = left_right(st.lossy_mid, b.lossy(true, coarse));
    lemma_wrap32(l - x, lt);
    lemma_wrap32(r - y, rt);
}

proof fn lemma_word_at(p: Seq<u8>, i: int, w: int, q: Seq<u8>)
    requires
        0 <= i,
        2 * i + 1 < p.len(),
        -0x8000 <= w < 0x8000,
        q == with_word(p, i, w),
    ensures
        q.len() == p.len(),
        word_of(q[2 * i], q[2 * i + 1]) == w,
        forall|k: int| 0 <= k < p.len() && k != 2 * i && k != 2 * i + 1 ==> #[trigger] q[k] == p[k],
{
}

proof fn lemma_stored_word(c: HybridCarry, sec: bool)
    requires
        c.shaping is Some,
    ensures
        -0x8000 <= c.stored_word(sec) < 0x8000,
{
    let s = c.shaping->Some_0;
    let acc = if sec {
        s.acc_b
    } else {
        s.acc_a
    };
    lemma_railed(signed_log(acc));
    reveal(signed_log);
    lemma_log_bound(
        if acc < 0 {
            (-acc) as nat
        } else {
            acc as nat
        },
    );
}

/// What a block stores of its shaping is what the block before ended in: each
/// channel's miss as a log word holds it, its weight kept within the rail, and, where
/// weights move, the step that its frames leave room for.
pub proof fn stored_shaping_goes_on(c: HybridCarry, frames: nat)
    requires
        c.shaping is Some,
    ensures
        ({
            let s = c.shaping->Some_0;
            let p = c.payload(frames);
            let n = ShapingState::seeded(p, c.stereo);
            let a = exp_of(c.stored_word(false));
            let b = exp_of(c.stored_word(true));
            &&& p is Some
            &&& n.error_a == wrap32(-quantized(wrap32(-s.error_a)))
            &&& n.acc_a == a
            &&& size(quantized(s.acc_a) as int) <= 0x400_0000 ==> a == quantized(s.acc_a)
            &&& size(quantized(s.acc_b) as int) <= 0x400_0000 ==> b == quantized(s.acc_b)
            &&& size(a as int) <= 0x400_0000 && size(b as int) <= 0x400_0000
            &&& n.delta_a == (if c.with_delta {
                quantized(c.delta_for(a as int, frames))
            } else {
                0
            })
            &&& c.stereo ==> n.error_b == wrap32(-quantized(wrap32(-s.error_b)))
            &&& c.stereo ==> n.acc_b == b
            &&& c.stereo ==> n.delta_b == (if c.with_delta {
                quantized(c.delta_for(b as int, frames))
            } else {
                0
            })
        }),
{
    let s = c.shaping->Some_0;
    let wa = c.stored_word(false);
    let wb = c.stored_word(true);
    lemma_stored_word(c, false);
    lemma_stored_word(c, true);
    lemma_railed(signed_log(s.acc_a));
    lemma_railed(signed_log(s.acc_b));
    lemma_word_roundtrip(wrap32(-s.error_a));
    lemma_word_roundtrip(wrap32(-s.error_b));
    let words = s.words(c.stereo, false);
    let base = with_word(words, 1, wa);
    lemma_word_at(words, 1, wa, base);
    if c.stereo {
        lemma_word_at(base, 3, wb, with_word(base, 3, wb));
    }
    let da = c.delta_for(exp_of(wa) as int, frames);
    let db = c.delta_for(exp_of(wb) as int, frames);
    lemma_word_roundtrip(da);
    lemma_word_roundtrip(db);
}

/// A weight is kept within one unit; none is no shaping.
pub proof fn weights_become_shaping(units: int)
    ensures
        units == 0 <==> HybridShaping::of_units(units) is Off,
        units != 0 && -1024 <= units <= 1024 ==> HybridShaping::of_units(units) == HybridShaping::Static(units as i32),
        units > 1024 ==> HybridShaping::of_units(units) == HybridShaping::Static(1024),
        units < -1024 ==> HybridShaping::of_units(units) == HybridShaping::Static(-1024i32),
{
}

/// The estimate of a channel's level is what its level would be after the same
/// words, from nothing.
pub proof fn estimates_follow_the_words(x: Seq<i32>, v: i32, stereo: bool, sec: bool, s: HybridState)
    requires
        s.level(sec) == levels_over(x, stereo, sec),
    ensures
        levels_over(Seq::empty(), stereo, sec) == 0,
        second(x.len() as int, stereo) == sec ==> levels_over(x.push(v), stereo, sec) == s.after(sec, v).level(sec),
        second(x.len() as int, stereo) != sec ==> levels_over(x.push(v), stereo, sec) == levels_over(x, stereo, sec),
{
    reveal(HybridState::after);
    assert(x.push(v).drop_last() =~= x);
}

/// A level is stored as its log, and taken up again as that log's value. A log that
/// is not above zero is no level.
pub proof fn levels_are_stored_as_logs(l: u32, w: i16)
    requires
        l < 0x8000_0000,
    ensures
        level_word(l) == signed_log(l as i32),
        seed_level(level_word(l)) == quantized(l as i32),
        -7935 <= w <= 0 ==> seed_level(w) == 0,
        0 <= w <= 7935 ==> seed_level(w) == exp_of(w as int),
{
    reveal(signed_log);
    lemma_log_bound(l as nat);
    let k = signed_log(l as i32);
    assert(0 <= k <= 8191);
    exp_keeps_order(0, k);
    if 0 <= w <= 7935 {
        exp_keeps_order(0, w as int);
    }
    if -7935 <= w < 0 {
        exp_keeps_order(0, -w as int);
        exp_is_odd(-w as int);
        lemma_wrap32(-exp_of(-w as int), 0);
    }
    crate::logpack::lemma_quantized_zero();
}

/// Up to 4096 residuals all count towards the first levels.
pub proof fn first_levels_count_all(coded: Seq<i32>, mono: bool, ps: Seq<PassState>)
    requires
        coded.len() <= 4096,
    ensures
        ({
            let r = encoded(ps, coded, !mono).1;
            seed_words(coded, mono, ps) == (
                level_word(levels_over(r, !mono, false)),
                level_word(levels_over(r, !mono, true)),
            )
        }),
{
}

/// A step that gives way to the rail gives way towards zero: it never changes
/// its direction.
pub proof fn steps_keep_their_direction(c: HybridCarry, acc: int, frames: nat)
    requires
        i32::MIN < c.requested_delta <= i32::MAX,
        -0x400_0000 <= acc <= 0x400_0000,
    ensures
        c.requested_delta >= 0 ==> c.delta_for(acc, frames) >= 0,
        c.requested_delta <= 0 ==> c.delta_for(acc, frames) <= 0,
{
    let n = at_least_one(frames);
    let d = capped_delta(c.requested_delta as int, acc, frames);
    let room = if c.requested_delta >= 0 {
        0x400_0000 - acc
    } else {
        0x400_0000 + acc
    };
    assert(0 <= room / n) by (nonlinear_arith)
        requires
            room >= 0,
            n >= 1,
    ;
    assert(room / n <= room) by (nonlinear_arith)
        requires
            room >= 0,
            n >= 1,
    ;
    lemma_settled_sign(d, acc, n);
}

proof fn lemma_settled_sign(d: int, acc: int, frames: int)
    requires
        -0x800_0000 <= d <= 0x800_0000,
    ensures
        d >= 0 ==> settled_delta(d, acc, frames) >= 0,
        d <= 0 ==> settled_delta(d, acc, frames) <= 0,
    decreases size(d),
{
    lemma_quantized_sign(d as i32);
    let q = quantized(d as i32);
    if !(size(acc + q * frames) <= 0x400_0000 || q == 0 || d == 0) {
        lemma_settled_sign(eased(d), acc, frames);
    }
}

proof fn lemma_quantized_sign(v: i32)
    requires
        -0x800_0000 <= v <= 0x800_0000,
    ensures
        v >= 0 ==> quantized(v) >= 0,
        v <= 0 ==> quantized(v) <= 0,
{
    lemma_quantized_zero();
    let m: nat = if v < 0 {
        (-v) as nat
    } else {
        v as nat
    };
    lemma_short_log(m);
    if v != 0 {
        let k = log_of(m) as int;
        assert(signed_log(v) == (if v < 0 {
            -k
        } else {
            k
        })) by {
            reveal(signed_log);
        }
        exp_keeps_order(0, k);
        exp_is_odd(k);
        lemma_wrap32(-exp_of(k), 0);
    }
}

proof fn lemma_short_log(m: nat)
    requires
        m <= 0x800_0000,
    ensures
        log_of(m) <= 7423,
{
    reveal(log_of);
    let v = m + m / 512;
    assert(biased(m) == v);
    lemma2_to64();
    lemma_bit_length(v);
    let k = bit_length(v);
    if k > 28 {
        if k > 29 {
            lemma_pow2_strictly_increases(28, (k - 1) as nat);
        }
        assert(false);
    }
    assert(log2_fraction(aligned(v) as int % 256) <= 255) by {
        reveal(log2_fraction);
    }
}

/// A stream starts without levels of its own: its first block takes them from an
/// estimate over what it codes, mid and side where it codes those. It asks for a
/// step only where its weights move.
pub proof fn streams_start_from_an_estimate(opts: HybridOptions, mono: bool, x: Seq<i32>)
    ensures
        ({
            let c = HybridCarry::start(opts, mono);
            let coded = if opts.joint && !mono {
                joined(x)
            } else {
                x
            };
            &&& c.levels(x, mono, opts) == seed_words(coded, mono, hybrid_passes(coded, mono, opts.profile))
            &&& c.stereo == !mono
            &&& c.with_delta == (opts.shaping is Ramp)
            &&& opts.shaping is Ramp ==> c.requested_delta == opts.shaping->delta
            &&& !(opts.shaping is Ramp) ==> c.requested_delta == 0
            &&& opts.shaping is Off <==> c.shaping is None
        }),
{
}

} // verus!
