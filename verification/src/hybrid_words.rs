//! The words of a hybrid block: a main stream that brackets each residual
//! down to its limit, and a correction stream that finishes the job.
//!
//! Both ends keep one state in step: medians, levels, prediction passes run
//! over the lossy residuals, and the shaping filter. A slot is one sample of
//! one channel; stereo slots alternate.
use vstd::prelude::*;
use crate::arith::{bit_length, lemma_wrap32, wrap32};
use crate::crc::left_right;
use crate::decorrelation::{PassState, decode_mono, mono_ready, lemma_offset_mono};
use crate::error::{Error, Result};
use crate::hybrid::{HybridState, ShapingState};
use crate::packed_samples::{Coder, read_lead, second};
use crate::samples::{AdaptiveMedians, Parsed, RunState, count_code, lemma_read_count, lemma_read_mantissa, lemma_mantissa_bound, lemma_zone, magnitude, mantissa_code, read_mantissa, with_sign};

verus! {

/// The channel layout of a hybrid block.
#[derive(Debug, Clone, Copy, PartialEq, Eq, Structural)]
pub struct Layout {
    /// Slots alternate between two channels.
    pub stereo: bool,
    /// The two channels are mid and side.
    pub joint: bool,
}

// ---------------------------------------------------------------------------
// Brackets
// ---------------------------------------------------------------------------

/// The upper half of an interval starts here.
pub open spec fn middle(low: nat, high: nat) -> nat {
    (low + high + 1) / 2
}

/// The decisions that narrow an interval around `mag` until it is no wider
/// than `limit`, and the interval that is left.
pub open spec fn bracket(low: nat, high: nat, limit: nat, mag: nat) -> (Seq<bool>, nat, nat)
    decreases high - low,
{
    if high <= low || high - low <= limit {
        (Seq::empty(), low, high)
    } else {
        let mid = middle(low, high);
        let up = mag >= mid;
        let rest = if up {
            bracket(mid, high, limit, mag)
        } else {
            bracket(low, (mid - 1) as nat, limit, mag)
        };
        (seq![up] + rest.0, rest.1, rest.2)
    }
}

/// Follows decisions read from `s`.
pub open spec fn read_bracket(s: Seq<bool>, low: nat, high: nat, limit: nat) -> Parsed<(nat, nat)>
    decreases high - low,
{
    if high <= low || high - low <= limit {
        Ok(((low, high), s))
    } else if s.len() == 0 {
        Err(Error::Truncated)
    } else {
        let mid = middle(low, high);
        if s[0] {
            read_bracket(s.drop_first(), mid, high, limit)
        } else {
            read_bracket(s.drop_first(), low, (mid - 1) as nat, limit)
        }
    }
}

/// A bracket lies within its interval and keeps what it was drawn around.
pub proof fn lemma_bracket(low: nat, high: nat, limit: nat, mag: nat)
    requires
        low <= high,
    ensures
        ({
            let b = bracket(low, high, limit, mag);
            &&& low <= b.1 <= b.2 <= high
            &&& low <= mag <= high ==> b.1 <= mag <= b.2
        }),
    decreases high - low,
{
    if high - low > limit && high > low {
        let mid = middle(low, high);
        if mag >= mid {
            lemma_bracket(mid, high, limit, mag);
        } else {
            lemma_bracket(low, (mid - 1) as nat, limit, mag);
        }
    }
}

/// Following the decisions of a bracket leads to it.
pub proof fn lemma_read_bracket(low: nat, high: nat, limit: nat, mag: nat, t: Seq<bool>)
    ensures
        ({
            let b = bracket(low, high, limit, mag);
            read_bracket(b.0 + t, low, high, limit) == Ok::<((nat, nat), Seq<bool>), Error>(((b.1, b.2), t))
        }),
    decreases high - low,
{
    let b = bracket(low, high, limit, mag);
    if high <= low || high - low <= limit {
        assert(b.0 + t =~= t);
    } else {
        let mid = middle(low, high);
        let rest = if mag >= mid {
            bracket(mid, high, limit, mag)
        } else {
            bracket(low, (mid - 1) as nat, limit, mag)
        };
        assert((b.0 + t).drop_first() =~= rest.0 + t);
        if mag >= mid {
            lemma_read_bracket(mid, high, limit, mag, t);
        } else {
            lemma_read_bracket(low, (mid - 1) as nat, limit, mag, t);
        }
    }
}

// ---------------------------------------------------------------------------
// The state
// ---------------------------------------------------------------------------

/// The state of a hybrid stream between two slots, or within one.
#[verifier::ext_equal]
pub struct HybridCoder {
    /// Medians and run state.
    pub coder: Coder,
    /// Running levels.
    pub level: HybridState,
    /// Passes over the first channel's lossy residuals.
    pub a: Seq<PassState>,
    /// Passes over the second channel's lossy residuals.
    pub b: Seq<PassState>,
    /// The shaping filter.
    pub shape: ShapingState,
    /// The first channel's limit in this frame.
    pub limit_a: u32,
    /// The second channel's limit in this frame.
    pub limit_b: u32,
    /// What shaping adds in this slot.
    pub temp: i32,
    /// What shaping adds to the left output of this frame.
    pub left_temp: i32,
    /// What shaping adds to the right output of this frame.
    pub right_temp: i32,
    /// The source mid of this frame.
    pub mid: i32,
    /// What shaping added to it.
    pub mid_temp: i32,
    /// The lossy mid of this frame.
    pub lossy_mid: i32,
}

/// What a chain of passes predicts.
pub open spec fn offset(ps: Seq<PassState>) -> i32 {
    decode_mono(ps, 0).1
}

impl HybridCoder {
    /// The passes of a channel.
    pub open spec fn chain(self, sec: bool) -> Seq<PassState> {
        if sec {
            self.b
        } else {
            self.a
        }
    }

    /// The limit of a channel in this frame.
    pub open spec fn limit(self, sec: bool) -> u32 {
        if sec {
            self.limit_b
        } else {
            self.limit_a
        }
    }

    /// How far shaping the mid moved its half.
    pub open spec fn half_step(self) -> i32 {
        wrap32(self.mid as int / 2 - wrap32(self.mid - self.mid_temp) as int / 2)
    }

    /// The state once slot `i` has begun: a frame's first slot fixes its
    /// limits, and the shaping filter moves on. Mid/side shaping works on the
    /// outputs, so both of its channels move at the first slot and the terms
    /// are carried over to mid and side.
    #[verifier::opaque]
    pub open spec fn begin(self, sec: bool, joint: bool) -> HybridCoder {
        let s = if sec {
            self
        } else {
            HybridCoder { limit_a: self.level.limit(false), limit_b: self.level.limit(true), ..self }
        };
        if !joint {
            let shape = s.shape.advanced(sec);
            HybridCoder { shape, temp: shape.term(sec), ..s }
        } else if !sec {
            let one = s.shape.advanced(false);
            let two = one.advanced(true);
            HybridCoder {
                shape: two,
                left_temp: one.term(false),
                right_temp: two.term(true),
                temp: wrap32(one.term(false) - two.term(true)),
                ..s
            }
        } else {
            HybridCoder { temp: wrap32(s.right_temp + s.half_step()), ..s }
        }
    }

    /// The exact residual of sample `x` in a slot that has begun.
    pub open spec fn residual(self, sec: bool, x: i32) -> i32 {
        wrap32(x - offset(self.chain(sec)))
    }

    /// The value that is coded for sample `x`: a bracketed word aims at the
    /// shaped residual.
    pub open spec fn wire(self, sec: bool, x: i32) -> i32 {
        if self.limit(sec) == 0 {
            self.residual(sec, x)
        } else {
            wrap32(self.residual(sec, x) - self.temp)
        }
    }

    /// The lossy sample of a lossy residual.
    pub open spec fn lossy(self, sec: bool, coarse: i32) -> i32 {
        decode_mono(self.chain(sec), coarse).1
    }

    /// The state after the slot: `x` is its source sample, `exact` and
    /// `coarse` its residuals, `applied` what shaping added.
    #[verifier::opaque]
    pub open spec fn finish(self, sec: bool, joint: bool, x: i32, exact: i32, coarse: i32, applied: i32) -> HybridCoder {
        let out = self.lossy(sec, coarse);
        let chain = decode_mono(self.chain(sec), coarse).0;
        let s = HybridCoder {
            level: self.level.after(sec, coarse),
            a: if sec {
                self.a
            } else {
                chain
            },
            b: if sec {
                chain
            } else {
                self.b
            },
            ..self
        };
        if !joint {
            HybridCoder { shape: s.shape.after(sec, exact, coarse, applied), ..s }
        } else if !sec {
            HybridCoder { mid: x, mid_temp: applied, lossy_mid: out, ..s }
        } else {
            let right = wrap32(applied - self.half_step());
            let left = wrap32(self.mid_temp + right);
            let source = left_right(self.mid, x);
            let lossy = left_right(self.lossy_mid, out);
            HybridCoder {
                shape: s.shape.after(false, source.0, lossy.0, left).after(true, source.1, lossy.1, right),
                ..s
            }
        }
    }

    /// The state with another run state.
    pub open spec fn with_run(self, run: RunState) -> HybridCoder {
        HybridCoder { coder: self.coder.with_run(run), ..self }
    }

    /// The state past a word in zone `z`, its prefix aside.
    pub open spec fn coded(self, sec: bool, z: nat) -> HybridCoder {
        HybridCoder { coder: self.coder.coded(sec, z), ..self }
    }

    /// The state past a run of zeros.
    pub open spec fn cleared(self) -> HybridCoder {
        HybridCoder { coder: self.coder.cleared(), ..self }
    }

    /// Levels and passes are well formed.
    pub open spec fn wf(self) -> bool {
        self.level.wf() && mono_ready(self.a) && mono_ready(self.b)
    }

    /// The state after a slot whose residual is zero, and the slot's sample.
    pub open spec fn zero_slot(self, sec: bool, joint: bool) -> (HybridCoder, i32) {
        let b = self.begin(sec, joint);
        let x = offset(b.chain(sec));
        (b.finish(sec, joint, x, 0, 0, 0), x)
    }
}

/// The state after `k` zero slots from slot `i` on, and their samples.
pub open spec fn zero_slots(st: HybridCoder, i: int, k: nat, m: Layout) -> (HybridCoder, Seq<i32>)
    decreases k,
{
    if k == 0 {
        (st, Seq::empty())
    } else {
        let one = st.zero_slot(second(i, m.stereo), m.joint);
        let rest = zero_slots(one.0, i + 1, (k - 1) as nat, m);
        (rest.0, seq![one.1] + rest.1)
    }
}

/// The number of zero residuals from slot `i` on.
pub open spec fn residual_run(x: Seq<i32>, i: int, m: Layout, st: HybridCoder) -> nat
    decreases x.len() - i,
{
    if i < 0 || i >= x.len() {
        0
    } else {
        let sec = second(i, m.stereo);
        if st.begin(sec, m.joint).residual(sec, x[i]) != 0 {
            0
        } else {
            1 + residual_run(x, i + 1, m, st.zero_slot(sec, m.joint).0)
        }
    }
}

/// A run of zero residuals ends inside the buffer, and its samples are those
/// of zero slots.
pub proof fn lemma_residual_run(x: Seq<i32>, i: int, m: Layout, st: HybridCoder)
    requires
        0 <= i <= x.len(),
    ensures
        i + residual_run(x, i, m, st) <= x.len(),
        zero_slots(st, i, residual_run(x, i, m, st), m).1 == x.subrange(i, i + residual_run(x, i, m, st)),
    decreases x.len() - i,
{
    let n = residual_run(x, i, m, st);
    let sec = second(i, m.stereo);
    if i < x.len() && st.begin(sec, m.joint).residual(sec, x[i]) == 0 {
        let one = st.zero_slot(sec, m.joint);
        lemma_residual_run(x, i + 1, m, one.0);
        let off = offset(st.begin(sec, m.joint).chain(sec));
        lemma_wrap32(x[i] - off, off as int);
        lemma_wrap32(x[i] as int, 0);
        lemma_wrap32(off as int, 0);
        assert(one.1 == x[i]);
        assert(x.subrange(i, i + n) =~= seq![x[i]] + x.subrange(i + 1, i + n));
    } else {
        assert(x.subrange(i, i + n) =~= Seq::empty());
    }
}

// ---------------------------------------------------------------------------
// Words
// ---------------------------------------------------------------------------

/// A planned word: its bits behind the prefix, its correction bits, and the
/// lossy residual.
#[verifier::ext_equal]
pub struct WordPlan {
    /// Mantissa or bracket, and sign.
    pub body: Seq<bool>,
    /// Correction bits.
    pub fix: Seq<bool>,
    /// The lossy residual.
    pub coarse: i32,
}

/// The plan of a word for `wire` within an interval: without a limit the
/// value itself, otherwise its bracket and the place within it. A value that
/// must be coded in full outside its interval is refused.
#[verifier::opaque]
pub open spec fn plan_of(low: nat, high: nat, limit: u32, wire: i32, correction: bool) -> core::result::Result<
    WordPlan,
    Error,
> {
    let mag = magnitude(wire);
    if limit == 0 {
        if mag > high {
            Err(Error::ValueNotInInterval { value: mag as u32, low: low as u32, high: high as u32 })
        } else {
            Ok(
                WordPlan {
                    body: mantissa_code((mag - low) as nat, (high - low) as nat) + seq![wire < 0],
                    fix: Seq::empty(),
                    coarse: wire,
                },
            )
        }
    } else {
        let b = bracket(low, high, limit as nat, mag);
        if correction && !(b.1 <= mag <= b.2) {
            Err(Error::ValueNotInInterval { value: mag as u32, low: b.1 as u32, high: b.2 as u32 })
        } else {
            Ok(
                WordPlan {
                    body: b.0 + seq![wire < 0],
                    fix: if correction {
                        mantissa_code((mag - b.1) as nat, (b.2 - b.1) as nat)
                    } else {
                        Seq::empty()
                    },
                    coarse: with_sign(middle(b.1, b.2), wire < 0),
                },
            )
        }
    }
}

/// What a coded hybrid stream is made of.
#[verifier::ext_equal]
pub struct HybridOut {
    /// Main bits.
    pub main: Seq<bool>,
    /// Correction bits.
    pub fix: Seq<bool>,
    /// Lossy samples.
    pub lossy: Seq<i32>,
    /// Greatest width of a coded or lossy residual.
    pub width: nat,
    /// The state at the end.
    pub end: HybridCoder,
}

/// The greater of two widths.
pub open spec fn wider(a: nat, b: nat) -> nat {
    if a > b {
        a
    } else {
        b
    }
}

/// One part of a stream before the rest of it.
pub open spec fn hybrid_then(
    main: Seq<bool>,
    fix: Seq<bool>,
    lossy: Seq<i32>,
    width: nat,
    r: core::result::Result<HybridOut, Error>,
) -> core::result::Result<HybridOut, Error> {
    match r {
        Err(e) => Err(e),
        Ok(o) => Ok(
            HybridOut {
                main: main + o.main,
                fix: fix + o.fix,
                lossy: lossy + o.lossy,
                width: wider(width, o.width),
                end: o.end,
            },
        ),
    }
}

/// Whether the word in slot `i` exists and lies above the first zone.
pub open spec fn announces_wire(x: Seq<i32>, i: int, m: Layout, st: HybridCoder) -> bool {
    0 <= i < x.len() && ({
        let sec = second(i, m.stereo);
        st.coder.above(sec, magnitude(st.begin(sec, m.joint).wire(sec, x[i])))
    })
}

/// The width of a residual.
pub open spec fn residual_width(v: i32) -> nat {
    bit_length(magnitude(v))
}

/// What stands before a word's prefix.
pub open spec fn lead(st: Coder) -> Seq<bool> {
    if st.gate() {
        count_code(0)
    } else {
        Seq::empty()
    }
}

/// A slot coded as a word.
#[verifier::ext_equal]
pub struct SlotWord {
    /// The zone.
    pub zone: nat,
    /// What the prefix announces of the next word.
    pub hold: bool,
    /// The bits behind the prefix.
    pub body: Seq<bool>,
    /// The correction bits.
    pub fix: Seq<bool>,
    /// The lossy sample.
    pub lossy: i32,
    /// The greater width of coded value and lossy residual.
    pub width: nat,
    /// The state after the slot.
    pub after: HybridCoder,
}

/// Slot `i` coded as a word from state `st`. The word's zone follows from the
/// value that is coded for it.
#[verifier::opaque]
pub open spec fn slot_word(x: Seq<i32>, i: int, m: Layout, st: HybridCoder, correction: bool) -> core::result::Result<
    SlotWord,
    Error,
> {
    let sec = second(i, m.stereo);
    let b = st.begin(sec, m.joint);
    let wire = b.wire(sec, x[i]);
    let meds = st.coder.medians(sec);
    let z = meds.zone_of(magnitude(wire));
    match plan_of(meds.low(z), meds.high(z), b.limit(sec), wire, correction) {
        Err(e) => Err(e),
        Ok(p) => {
            let applied = if b.limit(sec) == 0 {
                0
            } else {
                b.temp
            };
            let next = b.coded(sec, z).finish(sec, m.joint, x[i], b.residual(sec, x[i]), p.coarse, applied);
            let hold = announces_wire(x, i + 1, m, next);
            Ok(
                SlotWord {
                    zone: z,
                    hold,
                    body: p.body,
                    fix: p.fix,
                    lossy: b.lossy(sec, p.coarse),
                    width: wider(residual_width(wire), residual_width(p.coarse)),
                    after: next.with_run(st.coder.run.after(hold)),
                },
            )
        }
    }
}

/// Whether slot `i` opens a run of zero residuals.
pub open spec fn opens_run(x: Seq<i32>, i: int, m: Layout, st: HybridCoder) -> bool {
    let sec = second(i, m.stereo);
    st.coder.gate() && st.begin(sec, m.joint).residual(sec, x[i]) == 0
}

/// The width of the value that slot `i` would be coded as.
pub open spec fn wire_width(x: Seq<i32>, i: int, m: Layout, st: HybridCoder) -> nat {
    let sec = second(i, m.stereo);
    residual_width(st.begin(sec, m.joint).wire(sec, x[i]))
}

/// The stream of the slots from `i` on, coded from state `st`.
///
/// It is laid out as the lossless stream is; where a run of zeros may stand,
/// it is the zeros among the exact residuals that make it up.
pub open spec fn encode_hybrid(x: Seq<i32>, i: int, m: Layout, st: HybridCoder, correction: bool) -> core::result::Result<
    HybridOut,
    Error,
>
    decreases x.len() - i,
{
    if i < 0 || i >= x.len() {
        Ok(HybridOut { main: Seq::empty(), fix: Seq::empty(), lossy: Seq::empty(), width: 0, end: st })
    } else if opens_run(x, i, m, st) {
        let n = residual_run(x, i, m, st);
        let zero = zero_slots(st, i, n, m);
        proof {
            lemma_residual_run(x, i, m, st);
        }
        hybrid_then(
            count_code(n),
            Seq::empty(),
            zero.1,
            wire_width(x, i, m, st),
            encode_hybrid(x, i + n, m, zero.0.cleared(), correction),
        )
    } else {
        match slot_word(x, i, m, st, correction) {
            Err(e) => Err(e),
            Ok(w) => hybrid_then(
                lead(st.coder) + st.coder.run.prefix(w.zone, w.hold) + w.body,
                w.fix,
                seq![w.lossy],
                w.width,
                encode_hybrid(x, i + 1, m, w.after, correction),
            ),
        }
    }
}

/// What decoding a hybrid stream gives.
#[verifier::ext_equal]
pub struct HybridIn {
    /// Lossy samples.
    pub lossy: Seq<i32>,
    /// Source samples; the lossy ones where there is no correction stream.
    pub exact: Seq<i32>,
}

/// Samples before the rest of a decode.
pub open spec fn samples_then(lossy: Seq<i32>, exact: Seq<i32>, r: core::result::Result<HybridIn, Error>) -> core::result::Result<
    HybridIn,
    Error,
> {
    match r {
        Err(e) => Err(e),
        Ok(d) => Ok(HybridIn { lossy: lossy + d.lossy, exact: exact + d.exact }),
    }
}

/// A word as it is read.
#[verifier::ext_equal]
pub struct WordRead {
    /// The zone.
    pub zone: nat,
    /// The run state after it.
    pub run: RunState,
    /// The lossy residual.
    pub coarse: i32,
    /// The coded value.
    pub wire: i32,
    /// Main bits left over.
    pub main: Seq<bool>,
    /// Correction bits left over.
    pub fix: Option<Seq<bool>>,
}

/// Reads a word in a slot that has begun.
#[verifier::opaque]
pub open spec fn read_hybrid_word(s: Seq<bool>, fix: Option<Seq<bool>>, run: RunState, meds: AdaptiveMedians, limit: u32) -> core::result::Result<
    WordRead,
    Error,
> {
    match run.read_zone(s) {
        Err(e) => Err(e),
        Ok(((z, after), s1)) => if limit == 0 {
            match read_mantissa(s1, (meds.high(z) - meds.low(z)) as nat) {
                Err(e) => Err(e),
                Ok((code, s2)) => if s2.len() == 0 {
                    Err(Error::Truncated)
                } else {
                    let v = with_sign(meds.low(z) + code, s2[0]);
                    Ok(WordRead { zone: z, run: after, coarse: v, wire: v, main: s2.drop_first(), fix })
                },
            }
        } else {
            match read_bracket(s1, meds.low(z), meds.high(z), limit as nat) {
                Err(e) => Err(e),
                Ok(((lo, hi), s2)) => if s2.len() == 0 {
                    Err(Error::Truncated)
                } else {
                    let coarse = with_sign(middle(lo, hi), s2[0]);
                    match fix {
                        None => Ok(
                            WordRead { zone: z, run: after, coarse, wire: coarse, main: s2.drop_first(), fix },
                        ),
                        Some(f) => match read_mantissa(f, (hi - lo) as nat) {
                            Err(e) => Err(e),
                            Ok((code, left)) => Ok(
                                WordRead {
                                    zone: z,
                                    run: after,
                                    coarse,
                                    wire: with_sign(lo + code, s2[0]),
                                    main: s2.drop_first(),
                                    fix: Some(left),
                                },
                            ),
                        },
                    }
                },
            }
        },
    }
}

/// The exact residual of a word that was read, and what shaping added to it.
pub open spec fn exact_read(b: HybridCoder, sec: bool, w: WordRead, paired: bool) -> (i32, i32) {
    if b.limit(sec) == 0 || !paired {
        (w.wire, 0)
    } else {
        (wrap32(w.wire + b.temp), b.temp)
    }
}

/// A slot read as a word.
#[verifier::ext_equal]
pub struct SlotRead {
    /// The lossy sample.
    pub lossy: i32,
    /// The source sample.
    pub exact: i32,
    /// Main bits left over.
    pub main: Seq<bool>,
    /// Correction bits left over.
    pub fix: Option<Seq<bool>>,
    /// The state after the slot.
    pub after: HybridCoder,
}

/// Slot `i` read as a word from state `st`.
#[verifier::opaque]
pub open spec fn slot_read(s: Seq<bool>, fix: Option<Seq<bool>>, i: int, m: Layout, st: HybridCoder) -> core::result::Result<
    SlotRead,
    Error,
> {
    let sec = second(i, m.stereo);
    let b = st.begin(sec, m.joint);
    match read_hybrid_word(s, fix, st.coder.run, st.coder.medians(sec), b.limit(sec)) {
        Err(e) => Err(e),
        Ok(w) => {
            let (exact, applied) = exact_read(b, sec, w, fix is Some);
            let x = wrap32(exact + offset(b.chain(sec)));
            let next = b.coded(sec, w.zone).finish(sec, m.joint, x, exact, w.coarse, applied);
            Ok(
                SlotRead {
                    lossy: b.lossy(sec, w.coarse),
                    exact: x,
                    main: w.main,
                    fix: w.fix,
                    after: next.with_run(w.run),
                },
            )
        }
    }
}

/// The samples of slots `i..n` of a hybrid stream.
pub open spec fn decode_hybrid(s: Seq<bool>, fix: Option<Seq<bool>>, n: int, i: int, m: Layout, st: HybridCoder) -> core::result::Result<
    HybridIn,
    Error,
>
    decreases n - i,
{
    if i >= n {
        Ok(HybridIn { lossy: Seq::empty(), exact: Seq::empty() })
    } else {
        match read_lead(s, st.coder) {
            Err(e) => Err(e),
            Ok((run, s1)) => if run > 0 {
                let k = if run < n - i {
                    run as int
                } else {
                    n - i
                };
                let zero = zero_slots(st, i, k as nat, m);
                samples_then(zero.1, zero.1, decode_hybrid(s1, fix, n, i + k, m, zero.0.cleared()))
            } else {
                match slot_read(s1, fix, i, m, st) {
                    Err(e) => Err(e),
                    Ok(w) => samples_then(
                        seq![w.lossy],
                        seq![w.exact],
                        decode_hybrid(w.main, w.fix, n, i + 1, m, w.after),
                    ),
                }
            },
        }
    }
}

// ---------------------------------------------------------------------------
// Decoding what was coded
// ---------------------------------------------------------------------------

/// Reading a planned word gives its zone, its lossy residual, and, along with
/// its correction bits, the coded value.
pub proof fn lemma_read_hybrid_word(
    run: RunState,
    meds: AdaptiveMedians,
    limit: u32,
    wire: i32,
    correction: bool,
    hold: bool,
    paired: bool,
    t1: Seq<bool>,
    t2: Seq<bool>,
)
    requires
        run.allows(meds.zone_of(magnitude(wire))),
        paired ==> correction,
        ({
            let z = meds.zone_of(magnitude(wire));
            plan_of(meds.low(z), meds.high(z), limit, wire, correction) is Ok
        }),
    ensures
        ({
            let z = meds.zone_of(magnitude(wire));
            let p = plan_of(meds.low(z), meds.high(z), limit, wire, correction)->Ok_0;
            read_hybrid_word(
                run.prefix(z, hold) + p.body + t1,
                if paired {
                    Some(p.fix + t2)
                } else {
                    None
                },
                run,
                meds,
                limit,
            ) == Ok::<WordRead, Error>(
                WordRead {
                    zone: z,
                    run: run.after(hold),
                    coarse: p.coarse,
                    wire: if limit == 0 || paired {
                        wire
                    } else {
                        p.coarse
                    },
                    main: t1,
                    fix: if paired {
                        Some(t2)
                    } else {
                        None
                    },
                },
            )
        }),
{
    if limit == 0 {
        lemma_read_plain_word(run, meds, wire, correction, hold, paired, t1, t2);
    } else {
        lemma_read_bracketed_word(run, meds, limit, wire, correction, hold, paired, t1, t2);
    }
}

proof fn lemma_read_plain_word(
    run: RunState,
    meds: AdaptiveMedians,
    wire: i32,
    correction: bool,
    hold: bool,
    paired: bool,
    t1: Seq<bool>,
    t2: Seq<bool>,
)
    requires
        run.allows(meds.zone_of(magnitude(wire))),
        ({
            let z = meds.zone_of(magnitude(wire));
            plan_of(meds.low(z), meds.high(z), 0, wire, correction) is Ok
        }),
    ensures
        ({
            let z = meds.zone_of(magnitude(wire));
            let p = plan_of(meds.low(z), meds.high(z), 0, wire, correction)->Ok_0;
            let fix = if paired {
                Some(p.fix + t2)
            } else {
                None
            };
            let left = if paired {
                Some(t2)
            } else {
                None
            };
            &&& p.coarse == wire
            &&& read_hybrid_word(run.prefix(z, hold) + p.body + t1, fix, run, meds, 0) == Ok::<WordRead, Error>(
                WordRead { zone: z, run: run.after(hold), coarse: wire, wire, main: t1, fix: left },
            )
        }),
{
    reveal(plan_of);
    reveal(read_hybrid_word);
    let mag = magnitude(wire);
    let z = meds.zone_of(mag);
    let low = meds.low(z);
    let high = meds.high(z);
    lemma_zone(meds, mag);
    let p = plan_of(low, high, 0, wire, correction)->Ok_0;
    let prefix = run.prefix(z, hold);
    let tail = seq![wire < 0] + t1;
    assert(tail.drop_first() =~= t1);
    let c = mantissa_code((mag - low) as nat, (high - low) as nat);
    lemma_read_mantissa((mag - low) as nat, (high - low) as nat, tail);
    run.lemma_read_zone(z, hold, c + tail);
    assert(prefix + p.body + t1 =~= prefix + (c + tail));
    assert(p.fix + t2 =~= t2);
}

proof fn lemma_read_bracketed_word(
    run: RunState,
    meds: AdaptiveMedians,
    limit: u32,
    wire: i32,
    correction: bool,
    hold: bool,
    paired: bool,
    t1: Seq<bool>,
    t2: Seq<bool>,
)
    requires
        limit > 0,
        run.allows(meds.zone_of(magnitude(wire))),
        paired ==> correction,
        ({
            let z = meds.zone_of(magnitude(wire));
            plan_of(meds.low(z), meds.high(z), limit, wire, correction) is Ok
        }),
    ensures
        ({
            let z = meds.zone_of(magnitude(wire));
            let p = plan_of(meds.low(z), meds.high(z), limit, wire, correction)->Ok_0;
            let fix = if paired {
                Some(p.fix + t2)
            } else {
                None
            };
            let left = if paired {
                Some(t2)
            } else {
                None
            };
            let value = if paired {
                wire
            } else {
                p.coarse
            };
            read_hybrid_word(run.prefix(z, hold) + p.body + t1, fix, run, meds, limit) == Ok::<WordRead, Error>(
                WordRead { zone: z, run: run.after(hold), coarse: p.coarse, wire: value, main: t1, fix: left },
            )
        }),
{
    reveal(plan_of);
    reveal(read_hybrid_word);
    let mag = magnitude(wire);
    let z = meds.zone_of(mag);
    let low = meds.low(z);
    let high = meds.high(z);
    lemma_zone(meds, mag);
    lemma_interval(meds, z);
    let p = plan_of(low, high, limit, wire, correction)->Ok_0;
    let prefix = run.prefix(z, hold);
    let tail = seq![wire < 0] + t1;
    assert(tail.drop_first() =~= t1);
    let b = bracket(low, high, limit as nat, mag);
    lemma_bracket(low, high, limit as nat, mag);
    lemma_read_bracket(low, high, limit as nat, mag, tail);
    run.lemma_read_zone(z, hold, b.0 + tail);
    assert(prefix + p.body + t1 =~= prefix + (b.0 + tail));
    if paired {
        lemma_read_mantissa((mag - b.1) as nat, (b.2 - b.1) as nat, t2);
    }
}

/// An interval is not empty, and below 2^31.
pub proof fn lemma_interval(meds: AdaptiveMedians, z: nat)
    ensures
        meds.low(z) <= meds.high(z) < 0x8000_0000,
{
    reveal(AdaptiveMedians::low);
    reveal(AdaptiveMedians::high);
}

/// Two states that read the main stream alike.
pub open spec fn same_lossy(e: HybridCoder, d: HybridCoder) -> bool {
    &&& e.coder == d.coder
    &&& e.level == d.level
    &&& e.a == d.a
    &&& e.b == d.b
    &&& e.limit_a == d.limit_a
    &&& e.limit_b == d.limit_b
}

/// Beginning a slot keeps states alike, leaves medians and passes alone, and
/// does not look at the run state.
pub proof fn lemma_begin(e: HybridCoder, d: HybridCoder, sec: bool, joint: bool, run: RunState)
    ensures
        same_lossy(e, d) ==> same_lossy(e.begin(sec, joint), d.begin(sec, joint)),
        e.begin(sec, joint).coder == e.coder,
        e.begin(sec, joint).a == e.a,
        e.begin(sec, joint).b == e.b,
        e.with_run(run).begin(sec, joint) == e.begin(sec, joint).with_run(run),
{
    reveal(HybridCoder::begin);
    let one = e.with_run(run).begin(sec, joint);
    let two = e.begin(sec, joint).with_run(run);
    assert(one =~= two);
}

/// Finishing a slot with the same lossy residual keeps states alike and leaves
/// the medians alone.
pub proof fn lemma_finish(
    e: HybridCoder,
    d: HybridCoder,
    sec: bool,
    joint: bool,
    x1: i32,
    exact1: i32,
    applied1: i32,
    x2: i32,
    exact2: i32,
    applied2: i32,
    coarse: i32,
)
    ensures
        same_lossy(e, d) ==> same_lossy(
            e.finish(sec, joint, x1, exact1, coarse, applied1),
            d.finish(sec, joint, x2, exact2, coarse, applied2),
        ),
        e.finish(sec, joint, x1, exact1, coarse, applied1).coder == e.coder,
{
    reveal(HybridCoder::finish);
}

proof fn lemma_zero_slots_same(e: HybridCoder, d: HybridCoder, i: int, k: nat, m: Layout)
    requires
        same_lossy(e, d),
    ensures
        same_lossy(zero_slots(e, i, k, m).0, zero_slots(d, i, k, m).0),
        zero_slots(e, i, k, m).1 == zero_slots(d, i, k, m).1,
    decreases k,
{
    if k > 0 {
        let sec = second(i, m.stereo);
        lemma_begin(e, d, sec, m.joint, e.coder.run);
        let be = e.begin(sec, m.joint);
        let bd = d.begin(sec, m.joint);
        let off = offset(be.chain(sec));
        lemma_finish(be, bd, sec, m.joint, off, 0, 0, off, 0, 0, 0);
        lemma_zero_slots_same(e.zero_slot(sec, m.joint).0, d.zero_slot(sec, m.joint).0, i + 1, (k - 1) as nat, m);
    }
}

/// Whether the announcement held by a state fits the word in slot `i`.
pub open spec fn wire_fits(x: Seq<i32>, i: int, m: Layout, st: HybridCoder) -> bool {
    &&& !(st.coder.run.last_zero && st.coder.run.last_one)
    &&& 0 <= i < x.len() ==> {
        let sec = second(i, m.stereo);
        st.coder.fits(sec, magnitude(st.begin(sec, m.joint).wire(sec, x[i])))
    }
}

/// An announcement made of the next slot fits it.
pub proof fn lemma_wire_fits(x: Seq<i32>, i: int, m: Layout, next: HybridCoder)
    requires
        !(next.coder.run.last_zero && next.coder.run.last_one),
    ensures
        wire_fits(x, i, m, next.with_run(next.coder.run.after(announces_wire(x, i, m, next)))),
{
    let hold = announces_wire(x, i, m, next);
    let after = next.with_run(next.coder.run.after(hold));
    if 0 <= i < x.len() {
        let sec = second(i, m.stereo);
        let mag = magnitude(next.begin(sec, m.joint).wire(sec, x[i]));
        next.coder.lemma_announced(sec, mag);
        lemma_begin(next, next, sec, m.joint, next.coder.run.after(hold));
        assert(after.begin(sec, m.joint).wire(sec, x[i]) == next.begin(sec, m.joint).wire(sec, x[i]));
    }
}

/// Reading a slot's word gives its lossy sample, and with its correction bits
/// the source sample.
proof fn lemma_slot(
    x: Seq<i32>,
    i: int,
    m: Layout,
    e: HybridCoder,
    d: HybridCoder,
    correction: bool,
    paired: bool,
    t1: Seq<bool>,
    t2: Seq<bool>,
)
    requires
        0 <= i < x.len(),
        slot_word(x, i, m, e, correction) is Ok,
        paired ==> correction && d == e,
        same_lossy(e, d),
        wire_fits(x, i, m, e),
    ensures
        ({
            let w = slot_word(x, i, m, e, correction)->Ok_0;
            let fix = if paired {
                Some(w.fix + t2)
            } else {
                None
            };
            let r = slot_read(e.coder.run.prefix(w.zone, w.hold) + w.body + t1, fix, i, m, d);
            &&& r is Ok
            &&& r->Ok_0.lossy == w.lossy
            &&& r->Ok_0.exact == (if paired {
                x[i]
            } else {
                w.lossy
            })
            &&& r->Ok_0.main == t1
            &&& r->Ok_0.fix == (if paired {
                Some(t2)
            } else {
                None
            })
            &&& same_lossy(w.after, r->Ok_0.after)
            &&& paired ==> w.after == r->Ok_0.after
            &&& wire_fits(x, i + 1, m, w.after)
        }),
{
    reveal(slot_word);
    reveal(slot_read);
    let sec = second(i, m.stereo);
    let b = e.begin(sec, m.joint);
    let bd = d.begin(sec, m.joint);
    let wire = b.wire(sec, x[i]);
    let exact = b.residual(sec, x[i]);
    let meds = e.coder.medians(sec);
    let z = meds.zone_of(magnitude(wire));
    let limit = b.limit(sec);
    let p = plan_of(meds.low(z), meds.high(z), limit, wire, correction)->Ok_0;
    let applied = if limit == 0 {
        0
    } else {
        b.temp
    };
    lemma_begin(e, d, sec, m.joint, e.coder.run);
    let next = b.coded(sec, z).finish(sec, m.joint, x[i], exact, p.coarse, applied);
    let hold = announces_wire(x, i + 1, m, next);
    lemma_read_hybrid_word(e.coder.run, meds, limit, wire, correction, hold, paired, t1, t2);
    lemma_plan_coarse(meds.low(z), meds.high(z), limit, wire, correction);
    let value = if limit == 0 || paired {
        wire
    } else {
        p.coarse
    };
    let off = offset(bd.chain(sec));
    let ex = if limit == 0 || !paired {
        value
    } else {
        wrap32(value + bd.temp)
    };
    let ap = if limit == 0 || !paired {
        0
    } else {
        bd.temp
    };
    let xd = wrap32(ex + off);
    lemma_finish(b.coded(sec, z), bd.coded(sec, z), sec, m.joint, x[i], exact, applied, xd, ex, ap, p.coarse);
    if paired {
        lemma_wrap32(exact - b.temp, b.temp as int);
        lemma_wrap32(exact as int, 0);
        lemma_wrap32(x[i] - off, off as int);
        lemma_wrap32(x[i] as int, 0);
        assert(ex == exact);
        assert(xd == x[i]);
    } else {
        lemma_offset_mono(bd.chain(sec), p.coarse);
        assert(ex == p.coarse);
        assert(xd == b.lossy(sec, p.coarse));
    }
    lemma_wire_fits(x, i + 1, m, next);
}

/// Whether decoding from slot `i` on restores what was coded from there on.
pub open spec fn restores(
    x: Seq<i32>,
    i: int,
    m: Layout,
    e: HybridCoder,
    d: HybridCoder,
    correction: bool,
    paired: bool,
    t1: Seq<bool>,
    t2: Seq<bool>,
) -> bool {
    let out = encode_hybrid(x, i, m, e, correction)->Ok_0;
    let r = decode_hybrid(
        out.main + t1,
        if paired {
            Some(out.fix + t2)
        } else {
            None
        },
        x.len() as int,
        i,
        m,
        d,
    );
    &&& r is Ok
    &&& r->Ok_0.lossy == out.lossy
    &&& paired ==> r->Ok_0.exact == x.skip(i)
    &&& !paired ==> r->Ok_0.exact == out.lossy
}

/// A run decodes as it was coded, if what follows it does.
proof fn lemma_run_restores(
    x: Seq<i32>,
    i: int,
    m: Layout,
    e: HybridCoder,
    d: HybridCoder,
    correction: bool,
    paired: bool,
    t1: Seq<bool>,
    t2: Seq<bool>,
)
    requires
        0 <= i < x.len() < 0x1_0000_0000,
        encode_hybrid(x, i, m, e, correction) is Ok,
        same_lossy(e, d),
        opens_run(x, i, m, e),
        ({
            let k = residual_run(x, i, m, e);
            restores(
                x,
                i + k,
                m,
                zero_slots(e, i, k, m).0.cleared(),
                zero_slots(d, i, k, m).0.cleared(),
                correction,
                paired,
                t1,
                t2,
            )
        }),
    ensures
        restores(x, i, m, e, d, correction, paired, t1, t2),
{
    let out = encode_hybrid(x, i, m, e, correction)->Ok_0;
    let k = residual_run(x, i, m, e);
    let zero = zero_slots(e, i, k, m);
    lemma_residual_run(x, i, m, e);
    lemma_zero_slots_same(e, d, i, k, m);
    let rest = encode_hybrid(x, i + k, m, zero.0.cleared(), correction)->Ok_0;
    assert(k > 0);
    assert(out.main == count_code(k) + rest.main);
    assert(out.lossy == zero.1 + rest.lossy);
    assert(out.fix =~= rest.fix);
    lemma_read_count(k, rest.main + t1);
    assert(out.main + t1 =~= count_code(k) + (rest.main + t1));
    let fix = if paired {
        Some(out.fix + t2)
    } else {
        None
    };
    assert(read_lead(out.main + t1, d.coder) == Ok::<(nat, Seq<bool>), Error>((k, rest.main + t1)));
    let r = decode_hybrid(rest.main + t1, fix, x.len() as int, i + k, m, zero_slots(d, i, k, m).0.cleared());
    assert(decode_hybrid(out.main + t1, fix, x.len() as int, i, m, d) == samples_then(zero.1, zero.1, r));
    assert(zero.1 + x.skip(i + k) =~= x.skip(i));
}

/// A word decodes as it was coded, if what follows it does.
proof fn lemma_word_restores(
    x: Seq<i32>,
    i: int,
    m: Layout,
    e: HybridCoder,
    d: HybridCoder,
    next: HybridCoder,
    correction: bool,
    paired: bool,
    t1: Seq<bool>,
    t2: Seq<bool>,
)
    requires
        0 <= i < x.len(),
        encode_hybrid(x, i, m, e, correction) is Ok,
        e.coder == d.coder,
        !opens_run(x, i, m, e),
        slot_word(x, i, m, e, correction) is Ok,
        ({
            let w = slot_word(x, i, m, e, correction)->Ok_0;
            let rest = encode_hybrid(x, i + 1, m, w.after, correction)->Ok_0;
            let fix = if paired {
                Some(w.fix + (rest.fix + t2))
            } else {
                None
            };
            let left = if paired {
                Some(rest.fix + t2)
            } else {
                None
            };
            &&& restores(x, i + 1, m, w.after, next, correction, paired, t1, t2)
            &&& slot_read(e.coder.run.prefix(w.zone, w.hold) + w.body + (rest.main + t1), fix, i, m, d) == Ok::<
                SlotRead,
                Error,
            >(
                SlotRead {
                    lossy: w.lossy,
                    exact: if paired {
                        x[i]
                    } else {
                        w.lossy
                    },
                    main: rest.main + t1,
                    fix: left,
                    after: next,
                },
            )
        }),
    ensures
        restores(x, i, m, e, d, correction, paired, t1, t2),
{
    let out = encode_hybrid(x, i, m, e, correction)->Ok_0;
    let w = slot_word(x, i, m, e, correction)->Ok_0;
    let rest = encode_hybrid(x, i + 1, m, w.after, correction)->Ok_0;
    let head = e.coder.run.prefix(w.zone, w.hold) + w.body;
    let body = head + (rest.main + t1);
    assert(out.main == lead(e.coder) + e.coder.run.prefix(w.zone, w.hold) + w.body + rest.main);
    assert(out.fix == w.fix + rest.fix);
    assert(out.lossy == seq![w.lossy] + rest.lossy);
    if e.coder.gate() {
        lemma_read_count(0, body);
        assert(out.main + t1 =~= count_code(0) + body);
    } else {
        assert(out.main + t1 =~= body);
    }
    assert(read_lead(out.main + t1, d.coder) == Ok::<(nat, Seq<bool>), Error>((0, body)));
    assert(out.fix + t2 =~= w.fix + (rest.fix + t2));
    assert(seq![x[i]] + x.skip(i + 1) =~= x.skip(i));
}

/// Decoding a coded hybrid stream gives its lossy samples; with the
/// correction stream it gives the source samples.
pub proof fn lemma_hybrid_roundtrip(
    x: Seq<i32>,
    i: int,
    m: Layout,
    e: HybridCoder,
    d: HybridCoder,
    correction: bool,
    paired: bool,
    t1: Seq<bool>,
    t2: Seq<bool>,
)
    requires
        0 <= i <= x.len() < 0x1_0000_0000,
        encode_hybrid(x, i, m, e, correction) is Ok,
        paired ==> correction && d == e,
        same_lossy(e, d),
        wire_fits(x, i, m, e),
    ensures
        restores(x, i, m, e, d, correction, paired, t1, t2),
    decreases x.len() - i,
{
    if i >= x.len() {
        assert(x.skip(i) =~= Seq::empty());
    } else if opens_run(x, i, m, e) {
        let k = residual_run(x, i, m, e);
        let ze = zero_slots(e, i, k, m).0.cleared();
        let zd = zero_slots(d, i, k, m).0.cleared();
        lemma_residual_run(x, i, m, e);
        lemma_zero_slots_same(e, d, i, k, m);
        lemma_zero_slots_coder(e, i, k, m);
        assert(ze.coder.run == e.coder.run);
        assert(encode_hybrid(x, i + k, m, ze, correction) is Ok);
        lemma_hybrid_roundtrip(x, i + k, m, ze, zd, correction, paired, t1, t2);
        lemma_run_restores(x, i, m, e, d, correction, paired, t1, t2);
    } else {
        let w = slot_word(x, i, m, e, correction)->Ok_0;
        let rest = encode_hybrid(x, i + 1, m, w.after, correction)->Ok_0;
        assert(encode_hybrid(x, i + 1, m, w.after, correction) is Ok);
        lemma_slot(x, i, m, e, d, correction, paired, rest.main + t1, rest.fix + t2);
        let fix = if paired {
            Some(w.fix + (rest.fix + t2))
        } else {
            None
        };
        let body = e.coder.run.prefix(w.zone, w.hold) + w.body + (rest.main + t1);
        let next = slot_read(body, fix, i, m, d)->Ok_0.after;
        lemma_hybrid_roundtrip(x, i + 1, m, w.after, next, correction, paired, t1, t2);
        lemma_word_restores(x, i, m, e, d, next, correction, paired, t1, t2);
    }
}

/// Zero slots leave medians and run state alone.
pub proof fn lemma_zero_slots_coder(st: HybridCoder, i: int, k: nat, m: Layout)
    ensures
        zero_slots(st, i, k, m).0.coder == st.coder,
    decreases k,
{
    if k > 0 {
        let sec = second(i, m.stereo);
        let b = st.begin(sec, m.joint);
        lemma_begin(st, st, sec, m.joint, st.coder.run);
        lemma_finish(b, b, sec, m.joint, offset(b.chain(sec)), 0, 0, offset(b.chain(sec)), 0, 0, 0);
        lemma_zero_slots_coder(st.zero_slot(sec, m.joint).0, i + 1, (k - 1) as nat, m);
    }
}

/// Without a limit the lossy residual is the coded value.
proof fn lemma_plan_coarse(low: nat, high: nat, limit: u32, wire: i32, correction: bool)
    requires
        plan_of(low, high, limit, wire, correction) is Ok,
    ensures
        limit == 0 ==> plan_of(low, high, limit, wire, correction)->Ok_0.coarse == wire,
{
    reveal(plan_of);
}

// ---------------------------------------------------------------------------
// How far a lossy word misses
// ---------------------------------------------------------------------------

proof fn lemma_bracket_width(low: nat, high: nat, limit: nat, mag: nat)
    requires
        low <= high,
    ensures
        bracket(low, high, limit, mag).2 - bracket(low, high, limit, mag).1 <= limit,
    decreases high - low,
{
    if high - low > limit && high > low {
        let mid = middle(low, high);
        if mag >= mid {
            lemma_bracket_width(mid, high, limit, mag);
        } else {
            lemma_bracket_width(low, (mid - 1) as nat, limit, mag);
        }
    }
}

proof fn lemma_read_width(s: Seq<bool>, low: nat, high: nat, limit: nat)
    requires
        low <= high,
        read_bracket(s, low, high, limit) is Ok,
    ensures
        ({
            let (lo, hi) = read_bracket(s, low, high, limit)->Ok_0.0;
            low <= lo <= hi <= high && hi - lo <= limit
        }),
    decreases high - low,
{
    if high - low > limit && high > low {
        let mid = middle(low, high);
        if s[0] {
            lemma_read_width(s.drop_first(), mid, high, limit);
        } else {
            lemma_read_width(s.drop_first(), low, (mid - 1) as nat, limit);
        }
    }
}

/// A bracket is halved until it is no wider than the limit. A set bit takes the
/// upper half, which has one value more where their number is odd; a clear bit
/// takes the lower half.
pub proof fn brackets_halve(s: Seq<bool>, up: bool, low: nat, high: nat, limit: nat)
    requires
        low <= high,
    ensures
        high - low <= limit ==> read_bracket(s, low, high, limit) == Ok::<((nat, nat), Seq<bool>), Error>(
            ((low, high), s),
        ),
        high - low > limit && up ==> read_bracket(seq![up] + s, low, high, limit) == read_bracket(
            s,
            ((low + high + 1) / 2) as nat,
            high,
            limit,
        ),
        high - low > limit && !up ==> read_bracket(seq![up] + s, low, high, limit) == read_bracket(
            s,
            low,
            ((low + high + 1) / 2 - 1) as nat,
            limit,
        ),
{
    assert((seq![up] + s).drop_first() =~= s);
}

/// The lossy residual of a coded word keeps the sign of the coded value. Its
/// magnitude is above that of the value by half the limit at most, rounded up,
/// and below it by half, rounded down; without a limit it is the value.
pub proof fn coded_words_miss_half_the_limit(low: nat, high: nat, limit: u32, wire: i32, correction: bool)
    requires
        low <= high < 0x8000_0000,
        correction || low <= magnitude(wire) <= high,
        plan_of(low, high, limit, wire, correction) is Ok,
    ensures
        ({
            let c = plan_of(low, high, limit, wire, correction)->Ok_0.coarse;
            &&& (c < 0) == (wire < 0)
            &&& magnitude(c) - magnitude(wire) <= (limit + 1) / 2
            &&& magnitude(wire) - magnitude(c) <= limit as int / 2
            &&& -((limit + 1) / 2) <= c - wire <= (limit + 1) / 2
            &&& limit == 0 ==> c == wire
        }),
{
    reveal(plan_of);
    let mag = magnitude(wire);
    if limit > 0 {
        lemma_bracket(low, high, limit as nat, mag);
        lemma_bracket_width(low, high, limit as nat, mag);
    }
}

/// A word read without its correction is the middle of the bracket that its
/// bits lead to. Whatever correction bits go with it, it has the sign of the
/// corrected value and misses it by half the limit at most.
pub proof fn read_words_miss_half_the_limit(
    s: Seq<bool>,
    fix: Seq<bool>,
    run: RunState,
    meds: AdaptiveMedians,
    limit: u32,
)
    requires
        limit > 0,
        read_hybrid_word(s, Some(fix), run, meds, limit) is Ok,
    ensures
        ({
            let w = read_hybrid_word(s, Some(fix), run, meds, limit)->Ok_0;
            let alone = read_hybrid_word(s, None, run, meds, limit)->Ok_0;
            let s1 = run.read_zone(s)->Ok_0.1;
            let (lo, hi) = read_bracket(s1, meds.low(w.zone), meds.high(w.zone), limit as nat)->Ok_0.0;
            &&& read_hybrid_word(s, None, run, meds, limit) is Ok
            &&& alone.zone == w.zone && alone.main == w.main
            &&& alone.coarse == w.coarse && alone.wire == w.coarse
            &&& run.read_zone(s) is Ok && run.read_zone(s)->Ok_0.0.0 == w.zone
            &&& magnitude(w.coarse) == (lo + hi + 1) / 2
            &&& lo <= magnitude(w.wire) <= hi
            &&& (w.coarse < 0) == (w.wire < 0)
            &&& magnitude(w.coarse) - magnitude(w.wire) <= (limit + 1) / 2
            &&& magnitude(w.wire) - magnitude(w.coarse) <= limit as int / 2
        }),
{
    reveal(read_hybrid_word);
    let ((z, after), s1) = run.read_zone(s)->Ok_0;
    lemma_interval(meds, z);
    lemma_read_width(s1, meds.low(z), meds.high(z), limit as nat);
    let ((lo, hi), s2) = read_bracket(s1, meds.low(z), meds.high(z), limit as nat)->Ok_0;
    lemma_mantissa_bound(fix, (hi - lo) as nat);
}

/// The lossy sample of a coded slot, less what shaping took off it, misses the
/// sample by half of the slot's limit at most, and is the sample where there is
/// no limit. A word that is coded without a correction has to lie in its
/// interval for that.
pub proof fn lossy_samples_stay_close(x: Seq<i32>, i: int, m: Layout, st: HybridCoder, correction: bool)
    requires
        slot_word(x, i, m, st, correction) is Ok,
        correction || ({
            let sec = second(i, m.stereo);
            let mag = magnitude(st.begin(sec, m.joint).wire(sec, x[i]));
            let meds = st.coder.medians(sec);
            mag <= meds.high(meds.zone_of(mag))
        }),
    ensures
        ({
            let sec = second(i, m.stereo);
            let b = st.begin(sec, m.joint);
            let limit = b.limit(sec);
            let lossy = slot_word(x, i, m, st, correction)->Ok_0.lossy;
            &&& limit == 0 ==> lossy == x[i]
            &&& limit > 0 ==> -((limit + 1) / 2) <= wrap32(lossy - x[i] + b.temp) <= (limit + 1) / 2
        }),
{
    reveal(slot_word);
    let sec = second(i, m.stereo);
    let b = st.begin(sec, m.joint);
    let limit = b.limit(sec);
    let wire = b.wire(sec, x[i]);
    let meds = st.coder.medians(sec);
    let z = meds.zone_of(magnitude(wire));
    let p = plan_of(meds.low(z), meds.high(z), limit, wire, correction)->Ok_0;
    let off = offset(b.chain(sec));
    lemma_zone(meds, magnitude(wire));
    lemma_interval(meds, z);
    coded_words_miss_half_the_limit(meds.low(z), meds.high(z), limit, wire, correction);
    lemma_offset_mono(b.chain(sec), p.coarse);
    lemma_close(x[i], off, b.temp, wire, p.coarse, limit);
}

proof fn lemma_close(x: i32, off: i32, temp: i32, wire: i32, coarse: i32, limit: u32)
    requires
        limit == 0 ==> wire == wrap32(x - off) && coarse == wire,
        limit > 0 ==> wire == wrap32(wrap32(x - off) - temp),
        -((limit + 1) / 2) <= coarse - wire <= (limit + 1) / 2,
        (coarse < 0) == (wire < 0),
    ensures
        limit == 0 ==> wrap32(coarse + off) == x,
        limit > 0 ==> -((limit + 1) / 2) <= wrap32(wrap32(coarse + off) - x + temp) <= (limit + 1) / 2,
{
    lemma_wrap32(x as int, 0);
    if limit == 0 {
        lemma_wrap32(x - off, off as int);
    } else {
        lemma_wrap32(x - off, temp as int);
        let w = x - off - temp;
        assert(wire == wrap32(w));
        lemma_wrap32(coarse + off, temp - x);
        assert(wrap32(coarse + off) - x + temp == wrap32(coarse + off) + (temp - x));
        assert(coarse + off + (temp - x) == coarse - w);
        lemma_wrap32(w, coarse as int);
        assert(wrap32(coarse - w) == wrap32(coarse - wire));
        lemma_wrap32(coarse - wire, 0);
    }
}

/// A word without a limit is its place in its interval and its sign, and has no
/// correction bits. A word with a limit is the halvings that lead to its bracket and
/// its sign; its correction bits are its place in the bracket.
pub proof fn hybrid_words_are_halvings_and_sign(
    low: nat,
    high: nat,
    limit: u32,
    wire: i32,
    correction: bool,
    t: Seq<bool>,
)
    requires
        plan_of(low, high, limit, wire, correction) is Ok,
    ensures
        ({
            let p = plan_of(low, high, limit, wire, correction)->Ok_0;
            let r = read_bracket(p.body + t, low, high, limit as nat);
            let (lo, hi) = r->Ok_0.0;
            &&& limit == 0 ==> p.body == mantissa_code((magnitude(wire) - low) as nat, (high - low) as nat) + seq![
                wire < 0,
            ] && p.fix.len() == 0
            &&& limit > 0 ==> r is Ok && r->Ok_0.1 == seq![wire < 0] + t
            &&& limit > 0 && !correction ==> p.fix.len() == 0
            &&& limit > 0 && correction ==> lo <= magnitude(wire) <= hi && p.fix == mantissa_code(
                (magnitude(wire) - lo) as nat,
                (hi - lo) as nat,
            )
        }),
{
    reveal(plan_of);
    let mag = magnitude(wire);
    if limit > 0 {
        let b = bracket(low, high, limit as nat, mag);
        let p = plan_of(low, high, limit, wire, correction)->Ok_0;
        lemma_read_bracket(low, high, limit as nat, mag, seq![wire < 0] + t);
        assert(p.body + t =~= b.0 + (seq![wire < 0] + t));
    }
}

} // verus!
