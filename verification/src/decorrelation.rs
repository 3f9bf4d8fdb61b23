//! Adaptive prediction: the passes that turn samples into residuals and back.
//!
//! A pass predicts each sample from earlier output, scales the prediction by
//! an adapting weight, and hands on the difference. Passes stand in the order
//! in which the decoder applies them; the encoder walks the list from its end.
use vstd::prelude::*;
use vstd::arithmetic::power2::lemma2_to64;
use crate::arith::{add32, floor_shr, sub32, wrap32, wrap_i32, lemma_wrap32};
use crate::error::{Error, Result};

verus! {

/// The longest fixed lag.
pub const MAX_TERM: usize = 8;

/// The most passes a block can have.
pub const MAX_NTERMS: usize = 16;

// ---------------------------------------------------------------------------
// Terms, weights and history
// ---------------------------------------------------------------------------

/// The terms a pass can have: lags, extrapolators and cross-channel terms.
pub open spec fn valid_term(term: i8) -> bool {
    1 <= term <= 8 || term == 17 || term == 18 || -3 <= term <= -1
}

/// Whether a term predicts one channel from the other.
pub open spec fn cross(term: i8) -> bool {
    term < 0
}

/// Whether a term predicts one channel from the other.
pub fn is_cross_term(term: i8) -> (r: bool)
    ensures
        r == cross(term),
{
    term < 0
}

/// The seed samples a pass starts from, per channel.
pub open spec fn seed_count(term: i8) -> nat {
    if term > 8 {
        2
    } else if term > 0 {
        term as nat
    } else {
        1
    }
}

/// A history of eight samples, latest first, that starts from the given seeds.
/// A lag's seeds come oldest first.
pub open spec fn history_of(term: i8, seeds: Seq<i32>) -> Seq<i32> {
    Seq::new(
        8,
        |j: int|
            if term > 8 {
                if j < 2 {
                    seeds[j]
                } else {
                    0
                }
            } else if term > 0 {
                if j < term {
                    seeds[term - 1 - j]
                } else {
                    0
                }
            } else if j == 0 {
                seeds[0]
            } else {
                0
            },
    )
}

/// The history with one more sample.
pub open spec fn pushed(h: Seq<i32>, x: i32) -> Seq<i32> {
    seq![x] + h.take(7)
}

/// What a channel's own history predicts.
#[verifier::opaque]
pub open spec fn extrapolated(term: i8, h: Seq<i32>) -> i32 {
    if term == 17 {
        wrap32(2 * h[0] - h[1])
    } else if term == 18 {
        wrap32(h[0] + (h[0] - h[1]) as int / 2)
    } else {
        h[term - 1]
    }
}

/// A prediction scaled by its weight, rounded to nearest.
#[verifier::opaque]
pub open spec fn weighed(weight: i32, source: i32) -> i32 {
    wrap32((weight * source + 512) as int / 1024)
}

/// The weight after a word: one step up where source and residual agree in
/// sign, one step down where they differ. Cross-channel weights stay within
/// one unit.
#[verifier::opaque]
pub open spec fn adapted_weight(weight: i32, delta: i32, source: i32, residual: i32, clip: bool) -> i32 {
    if source == 0 || residual == 0 {
        weight
    } else {
        let moved = if (source < 0) == (residual < 0) {
            weight + delta
        } else {
            weight - delta
        };
        if clip {
            if moved > 1024 {
                1024
            } else if moved < -1024 {
                (-1024) as i32
            } else {
                moved as i32
            }
        } else {
            wrap32(moved)
        }
    }
}

/// The state of one pass.
#[verifier::ext_equal]
pub struct PassState {
    /// How the pass predicts.
    pub term: i8,
    /// How far its weights step.
    pub delta: i32,
    /// Weight of the first channel.
    pub wa: i32,
    /// Weight of the second channel.
    pub wb: i32,
    /// History the first channel is predicted from, latest first.
    pub ha: Seq<i32>,
    /// History the second channel is predicted from, latest first.
    pub hb: Seq<i32>,
}

impl PassState {
    /// A valid term and full histories.
    pub open spec fn wf(self) -> bool {
        valid_term(self.term) && self.ha.len() == 8 && self.hb.len() == 8
    }

    /// What the first channel is predicted from; `xb` is the second channel's sample.
    pub open spec fn source_a(self, xb: i32) -> i32 {
        if self.term > 0 {
            extrapolated(self.term, self.ha)
        } else if self.term == -2 {
            xb
        } else {
            self.ha[0]
        }
    }

    /// What the second channel is predicted from; `xa` is the first channel's sample.
    pub open spec fn source_b(self, xa: i32) -> i32 {
        if self.term > 0 {
            extrapolated(self.term, self.hb)
        } else if self.term == -1 {
            xa
        } else {
            self.hb[0]
        }
    }

    /// The mono pass after sample `x` with residual `r`.
    pub open spec fn after_mono(self, x: i32, r: i32) -> PassState {
        PassState {
            wa: adapted_weight(self.wa, self.delta, extrapolated(self.term, self.ha), r, false),
            ha: pushed(self.ha, x),
            ..self
        }
    }

    /// The stereo pass after the pair `(xa, xb)` with residuals `(ra, rb)`.
    pub open spec fn after_stereo(self, xa: i32, xb: i32, ra: i32, rb: i32) -> PassState {
        let clip = self.term < 0;
        PassState {
            wa: adapted_weight(self.wa, self.delta, self.source_a(xb), ra, clip),
            wb: adapted_weight(self.wb, self.delta, self.source_b(xa), rb, clip),
            ha: if self.term > 0 {
                pushed(self.ha, xa)
            } else if self.term == -2 {
                self.ha
            } else {
                pushed(self.ha, xb)
            },
            hb: if self.term > 0 {
                pushed(self.hb, xb)
            } else if self.term == -1 {
                self.hb
            } else {
                pushed(self.hb, xa)
            },
            ..self
        }
    }

    /// The residual of a mono sample.
    pub open spec fn residual_mono(self, x: i32) -> i32 {
        wrap32(x - weighed(self.wa, extrapolated(self.term, self.ha)))
    }

    /// The mono sample of a residual.
    pub open spec fn sample_mono(self, r: i32) -> i32 {
        wrap32(r + weighed(self.wa, extrapolated(self.term, self.ha)))
    }

    /// The residuals of a pair.
    pub open spec fn residual_stereo(self, xa: i32, xb: i32) -> (i32, i32) {
        (wrap32(xa - weighed(self.wa, self.source_a(xb))), wrap32(xb - weighed(self.wb, self.source_b(xa))))
    }

    /// The pair of two residuals. The second channel comes first where the
    /// first is predicted from it.
    pub open spec fn sample_stereo(self, ra: i32, rb: i32) -> (i32, i32) {
        if self.term == -2 {
            let xb = wrap32(rb + weighed(self.wb, self.source_b(0)));
            (wrap32(ra + weighed(self.wa, self.source_a(xb))), xb)
        } else {
            let xa = wrap32(ra + weighed(self.wa, self.source_a(0)));
            (xa, wrap32(rb + weighed(self.wb, self.source_b(xa))))
        }
    }
}

// ---------------------------------------------------------------------------
// Chains of passes
// ---------------------------------------------------------------------------

/// One residual through all passes, first to last: the passes after it, and the sample.
pub open spec fn decode_mono(ps: Seq<PassState>, r: i32) -> (Seq<PassState>, i32)
    decreases ps.len(),
{
    if ps.len() == 0 {
        (ps, r)
    } else {
        let x = ps[0].sample_mono(r);
        let rest = decode_mono(ps.drop_first(), x);
        (seq![ps[0].after_mono(x, r)] + rest.0, rest.1)
    }
}

/// One sample through all passes, last to first: the passes after it, and the residual.
pub open spec fn encode_mono(ps: Seq<PassState>, x: i32) -> (Seq<PassState>, i32)
    decreases ps.len(),
{
    if ps.len() == 0 {
        (ps, x)
    } else {
        let rest = encode_mono(ps.drop_first(), x);
        let r = ps[0].residual_mono(rest.1);
        (seq![ps[0].after_mono(rest.1, r)] + rest.0, r)
    }
}

/// One pair of residuals through all passes, first to last.
pub open spec fn decode_stereo(ps: Seq<PassState>, ra: i32, rb: i32) -> (Seq<PassState>, (i32, i32))
    decreases ps.len(),
{
    if ps.len() == 0 {
        (ps, (ra, rb))
    } else {
        let x = ps[0].sample_stereo(ra, rb);
        let rest = decode_stereo(ps.drop_first(), x.0, x.1);
        (seq![ps[0].after_stereo(x.0, x.1, ra, rb)] + rest.0, rest.1)
    }
}

/// One pair through all passes, last to first.
pub open spec fn encode_stereo(ps: Seq<PassState>, xa: i32, xb: i32) -> (Seq<PassState>, (i32, i32))
    decreases ps.len(),
{
    if ps.len() == 0 {
        (ps, (xa, xb))
    } else {
        let rest = encode_stereo(ps.drop_first(), xa, xb);
        let x = rest.1;
        let r = ps[0].residual_stereo(x.0, x.1);
        (seq![ps[0].after_stereo(x.0, x.1, r.0, r.1)] + rest.0, r)
    }
}

/// Decoding what a mono chain encoded gives the sample, and the same passes.
pub proof fn lemma_chain_mono(ps: Seq<PassState>, x: i32)
    ensures
        decode_mono(ps, encode_mono(ps, x).1) == (encode_mono(ps, x).0, x),
        encode_mono(ps, x).0.len() == ps.len(),
    decreases ps.len(),
{
    if ps.len() > 0 {
        let rest = encode_mono(ps.drop_first(), x);
        lemma_chain_mono(ps.drop_first(), x);
        let w = weighed(ps[0].wa, extrapolated(ps[0].term, ps[0].ha));
        lemma_wrap32(rest.1 - w, w as int);
        lemma_wrap32(rest.1 as int, 0);
        assert(ps[0].sample_mono(ps[0].residual_mono(rest.1)) == rest.1);
    }
}

/// Decoding what a stereo chain encoded gives the pair, and the same passes.
pub proof fn lemma_chain_stereo(ps: Seq<PassState>, xa: i32, xb: i32)
    ensures
        decode_stereo(ps, encode_stereo(ps, xa, xb).1.0, encode_stereo(ps, xa, xb).1.1) == (
            encode_stereo(ps, xa, xb).0,
            (xa, xb),
        ),
        encode_stereo(ps, xa, xb).0.len() == ps.len(),
    decreases ps.len(),
{
    if ps.len() > 0 {
        let p = ps[0];
        let rest = encode_stereo(ps.drop_first(), xa, xb);
        lemma_chain_stereo(ps.drop_first(), xa, xb);
        let x = rest.1;
        let wa = weighed(p.wa, p.source_a(x.1));
        let wb = weighed(p.wb, p.source_b(x.0));
        lemma_wrap32(x.0 - wa, wa as int);
        lemma_wrap32(x.1 - wb, wb as int);
        lemma_wrap32(x.0 as int, 0);
        lemma_wrap32(x.1 as int, 0);
        let r = p.residual_stereo(x.0, x.1);
        assert(p.sample_stereo(r.0, r.1) == x);
    }
}

/// A mono buffer through the decoder's passes.
pub open spec fn decode_mono_all(ps: Seq<PassState>, r: Seq<i32>) -> (Seq<PassState>, Seq<i32>)
    decreases r.len(),
{
    if r.len() == 0 {
        (ps, r)
    } else {
        let before = decode_mono_all(ps, r.drop_last());
        let one = decode_mono(before.0, r.last());
        (one.0, before.1.push(one.1))
    }
}

/// A mono buffer through the encoder's passes.
pub open spec fn encode_mono_all(ps: Seq<PassState>, x: Seq<i32>) -> (Seq<PassState>, Seq<i32>)
    decreases x.len(),
{
    if x.len() == 0 {
        (ps, x)
    } else {
        let before = encode_mono_all(ps, x.drop_last());
        let one = encode_mono(before.0, x.last());
        (one.0, before.1.push(one.1))
    }
}

/// An interleaved buffer through the decoder's passes.
pub open spec fn decode_stereo_all(ps: Seq<PassState>, r: Seq<i32>) -> (Seq<PassState>, Seq<i32>)
    decreases r.len(),
{
    if r.len() < 2 {
        (ps, Seq::empty())
    } else {
        let n = r.len() as int;
        let before = decode_stereo_all(ps, r.take(n - 2));
        let one = decode_stereo(before.0, r[n - 2], r[n - 1]);
        (one.0, before.1.push(one.1.0).push(one.1.1))
    }
}

/// An interleaved buffer through the encoder's passes.
pub open spec fn encode_stereo_all(ps: Seq<PassState>, x: Seq<i32>) -> (Seq<PassState>, Seq<i32>)
    decreases x.len(),
{
    if x.len() < 2 {
        (ps, Seq::empty())
    } else {
        let n = x.len() as int;
        let before = encode_stereo_all(ps, x.take(n - 2));
        let one = encode_stereo(before.0, x[n - 2], x[n - 1]);
        (one.0, before.1.push(one.1.0).push(one.1.1))
    }
}

/// Decoding an encoded mono buffer gives the buffer back.
pub proof fn decorrelation_mono_inverse(ps: Seq<PassState>, x: Seq<i32>)
    ensures
        decode_mono_all(ps, encode_mono_all(ps, x).1) == (encode_mono_all(ps, x).0, x),
        encode_mono_all(ps, x).1.len() == x.len(),
    decreases x.len(),
{
    if x.len() > 0 {
        let before = encode_mono_all(ps, x.drop_last());
        decorrelation_mono_inverse(ps, x.drop_last());
        lemma_chain_mono(before.0, x.last());
        let r = encode_mono_all(ps, x).1;
        assert(r.drop_last() =~= before.1);
        assert(x.drop_last().push(x.last()) =~= x);
    }
}

/// Decoding an encoded stereo buffer gives the buffer back.
pub proof fn decorrelation_stereo_inverse(ps: Seq<PassState>, x: Seq<i32>)
    requires
        x.len() % 2 == 0,
    ensures
        decode_stereo_all(ps, encode_stereo_all(ps, x).1) == (encode_stereo_all(ps, x).0, x),
        encode_stereo_all(ps, x).1.len() == x.len(),
    decreases x.len(),
{
    if x.len() >= 2 {
        let n = x.len() as int;
        let before = encode_stereo_all(ps, x.take(n - 2));
        decorrelation_stereo_inverse(ps, x.take(n - 2));
        lemma_chain_stereo(before.0, x[n - 2], x[n - 1]);
        let r = encode_stereo_all(ps, x).1;
        assert(r.take(n - 2) =~= before.1);
        assert(x.take(n - 2).push(x[n - 2]).push(x[n - 1]) =~= x);
    } else {
        assert(x =~= Seq::empty());
    }
}

// ---------------------------------------------------------------------------
// Executable passes
// ---------------------------------------------------------------------------

/// One prediction pass.
#[derive(Debug, Clone, Copy, PartialEq, Eq)]
pub struct DecorrPass {
    /// How the pass predicts.
    pub term: i8,
    /// How far its weights step.
    pub delta: i32,
    /// Weight of the first channel.
    pub weight_a: i32,
    /// Weight of the second channel.
    pub weight_b: i32,
    /// History the first channel is predicted from, latest first.
    pub history_a: [i32; 8],
    /// History the second channel is predicted from, latest first.
    pub history_b: [i32; 8],
}

impl View for DecorrPass {
    type V = PassState;

    open spec fn view(&self) -> PassState {
        PassState {
            term: self.term,
            delta: self.delta,
            wa: self.weight_a,
            wb: self.weight_b,
            ha: self.history_a@,
            hb: self.history_b@,
        }
    }
}

/// The states of a list of passes.
pub open spec fn states(ps: Seq<DecorrPass>) -> Seq<PassState> {
    Seq::new(ps.len(), |i: int| ps[i]@)
}

/// Every pass of the list is well formed.
pub open spec fn all_wf(ps: Seq<PassState>) -> bool {
    forall|i: int| 0 <= i < ps.len() ==> (#[trigger] ps[i]).wf()
}

/// Eight zeros.
pub open spec fn no_history() -> Seq<i32> {
    Seq::new(8, |j: int| 0i32)
}

fn push_history(h: [i32; 8], x: i32) -> (r: [i32; 8])
    ensures
        r@ == pushed(h@, x),
{
    let r: [i32; 8] = [x, h[0], h[1], h[2], h[3], h[4], h[5], h[6]];
    assert(r@ =~= pushed(h@, x));
    r
}

fn build_history(term: i8, seeds: &[i32]) -> (r: [i32; 8])
    requires
        valid_term(term),
        seeds.len() >= seed_count(term),
    ensures
        r@ == history_of(term, seeds@),
{
    let mut h: [i32; 8] = [0, 0, 0, 0, 0, 0, 0, 0];
    if term > 8 {
        h[0] = seeds[0];
        h[1] = seeds[1];
    } else if term > 0 {
        let n: usize = term as usize;
        let mut j: usize = 0;
        while j < n
            invariant
                j <= n <= 8,
                n == term,
                n <= seeds.len(),
                forall|k: int| 0 <= k < j ==> h@[k] == seeds@[n - 1 - k],
                forall|k: int| j <= k < 8 ==> h@[k] == 0,
            decreases n - j,
        {
            h[j] = seeds[n - 1 - j];
            j = j + 1;
        }
    } else {
        h[0] = seeds[0];
    }
    assert(h@ =~= history_of(term, seeds@));
    h
}

fn extrapolate(term: i8, h: [i32; 8]) -> (r: i32)
    requires
        valid_term(term),
        term > 0,
    ensures
        r == extrapolated(term, h@),
{
    proof {
        reveal(extrapolated);
    }
    if term == 17 {
        wrap_i32(2 * h[0] as i64 - h[1] as i64)
    } else if term == 18 {
        proof {
            lemma2_to64();
        }
        wrap_i32(h[0] as i64 + floor_shr(h[0] as i64 - h[1] as i64, 1))
    } else {
        h[(term - 1) as usize]
    }
}

fn apply_weight(weight: i32, source: i32) -> (r: i32)
    ensures
        r == weighed(weight, source),
{
    proof {
        reveal(weighed);
    }
    assert(-0x4000_0000_0000_0000 <= weight * source <= 0x4000_0000_0000_0000) by (nonlinear_arith)
        requires
            -0x8000_0000 <= weight <= 0x7fff_ffff,
            -0x8000_0000 <= source <= 0x7fff_ffff,
    ;
    proof {
        lemma2_to64();
    }
    wrap_i32(floor_shr(weight as i64 * source as i64 + 512, 10))
}

fn adapt_weight(weight: i32, delta: i32, source: i32, residual: i32, clip: bool) -> (r: i32)
    ensures
        r == adapted_weight(weight, delta, source, residual, clip),
{
    proof {
        reveal(adapted_weight);
    }
    if source == 0 || residual == 0 {
        return weight;
    }
    let moved: i64 = if (source < 0) == (residual < 0) {
        weight as i64 + delta as i64
    } else {
        weight as i64 - delta as i64
    };
    if clip {
        if moved > 1024 {
            1024
        } else if moved < -1024 {
            -1024
        } else {
            moved as i32
        }
    } else {
        wrap_i32(moved)
    }
}

impl DecorrPass {
    /// Whether `new` takes these arguments: the refusal, or none.
    pub open spec fn refusal(term: i8, seeds_a: Seq<i32>, seeds_b: Seq<i32>) -> Option<Error> {
        if !valid_term(term) {
            Some(Error::InvalidDecorrelationTerm(term))
        } else if seeds_a.len() < seed_count(term) {
            Some(Error::DecorrelationSeedUnderflow { term, supplied: seeds_a.len() as usize })
        } else if 0 < seeds_b.len() < seed_count(term) {
            Some(Error::DecorrelationSeedUnderflow { term, supplied: seeds_b.len() as usize })
        } else {
            None
        }
    }

    /// The state of a new pass.
    pub open spec fn fresh(
        term: i8,
        delta: i32,
        wa: i32,
        wb: i32,
        seeds_a: Seq<i32>,
        seeds_b: Seq<i32>,
    ) -> PassState {
        PassState {
            term,
            delta,
            wa,
            wb,
            ha: history_of(term, seeds_a),
            hb: if seeds_b.len() == 0 {
                no_history()
            } else {
                history_of(term, seeds_b)
            },
        }
    }

    /// A pass that starts from seed samples. A mono pass has no second seeds.
    pub fn new(
        term: i8,
        delta: i32,
        weight_a: i32,
        weight_b: i32,
        seeds_a: &[i32],
        seeds_b: &[i32],
    ) -> (r: Result<DecorrPass>)
        ensures
            match DecorrPass::refusal(term, seeds_a@, seeds_b@) {
                Some(e) => r == Err::<DecorrPass, Error>(e),
                None => {
                    &&& r is Ok
                    &&& r->Ok_0@ == DecorrPass::fresh(term, delta, weight_a, weight_b, seeds_a@, seeds_b@)
                    &&& r->Ok_0@.wf()
                },
            },
    {
        let valid: bool = (1 <= term && term <= 8) || term == 17 || term == 18 || (-3 <= term && term <= -1);
        if !valid {
            return Err(Error::InvalidDecorrelationTerm(term));
        }
        let need: usize = if term > 8 {
            2
        } else if term > 0 {
            term as usize
        } else {
            1
        };
        if seeds_a.len() < need {
            return Err(Error::DecorrelationSeedUnderflow { term, supplied: seeds_a.len() });
        }
        if seeds_b.len() > 0 && seeds_b.len() < need {
            return Err(Error::DecorrelationSeedUnderflow { term, supplied: seeds_b.len() });
        }
        let history_a: [i32; 8] = build_history(term, seeds_a);
        let history_b: [i32; 8] = if seeds_b.len() == 0 {
            [0, 0, 0, 0, 0, 0, 0, 0]
        } else {
            build_history(term, seeds_b)
        };
        let p = DecorrPass { term, delta, weight_a, weight_b, history_a, history_b };
        assert(p@ =~= DecorrPass::fresh(term, delta, weight_a, weight_b, seeds_a@, seeds_b@));
        Ok(p)
    }

    fn step_mono(&mut self, x: i32, r: i32)
        requires
            old(self)@.wf(),
            !cross(old(self)@.term),
        ensures
            final(self)@ == old(self)@.after_mono(x, r),
            final(self)@.wf(),
    {
        let source: i32 = extrapolate(self.term, self.history_a);
        self.weight_a = adapt_weight(self.weight_a, self.delta, source, r, false);
        self.history_a = push_history(self.history_a, x);
        assert(self@ =~= old(self)@.after_mono(x, r));
    }

    fn predict_mono(&self) -> (r: i32)
        requires
            self@.wf(),
            !cross(self@.term),
        ensures
            r == weighed(self@.wa, extrapolated(self@.term, self@.ha)),
    {
        apply_weight(self.weight_a, extrapolate(self.term, self.history_a))
    }

    fn source_for_a(&self, xb: i32) -> (r: i32)
        requires
            self@.wf(),
        ensures
            r == self@.source_a(xb),
    {
        if self.term > 0 {
            extrapolate(self.term, self.history_a)
        } else if self.term == -2 {
            xb
        } else {
            self.history_a[0]
        }
    }

    fn source_for_b(&self, xa: i32) -> (r: i32)
        requires
            self@.wf(),
        ensures
            r == self@.source_b(xa),
    {
        if self.term > 0 {
            extrapolate(self.term, self.history_b)
        } else if self.term == -1 {
            xa
        } else {
            self.history_b[0]
        }
    }

    fn pair_of(&self, ra: i32, rb: i32) -> (x: (i32, i32))
        requires
            self@.wf(),
        ensures
            x == self@.sample_stereo(ra, rb),
    {
        if self.term == -2 {
            let xb: i32 = add32(rb, apply_weight(self.weight_b, self.source_for_b(0)));
            (add32(ra, apply_weight(self.weight_a, self.source_for_a(xb))), xb)
        } else {
            let xa: i32 = add32(ra, apply_weight(self.weight_a, self.source_for_a(0)));
            (xa, add32(rb, apply_weight(self.weight_b, self.source_for_b(xa))))
        }
    }

    fn residuals_of(&self, xa: i32, xb: i32) -> (r: (i32, i32))
        requires
            self@.wf(),
        ensures
            r == self@.residual_stereo(xa, xb),
    {
        (
            sub32(xa, apply_weight(self.weight_a, self.source_for_a(xb))),
            sub32(xb, apply_weight(self.weight_b, self.source_for_b(xa))),
        )
    }

    fn step_stereo(&mut self, xa: i32, xb: i32, ra: i32, rb: i32)
        requires
            old(self)@.wf(),
        ensures
            final(self)@ == old(self)@.after_stereo(xa, xb, ra, rb),
            final(self)@.wf(),
    {
        let clip: bool = self.term < 0;
        let sa: i32 = self.source_for_a(xb);
        let sb: i32 = self.source_for_b(xa);
        self.weight_a = adapt_weight(self.weight_a, self.delta, sa, ra, clip);
        self.weight_b = adapt_weight(self.weight_b, self.delta, sb, rb, clip);
        if self.term > 0 {
            self.history_a = push_history(self.history_a, xa);
            self.history_b = push_history(self.history_b, xb);
        } else if self.term == -1 {
            self.history_a = push_history(self.history_a, xb);
        } else if self.term == -2 {
            self.history_b = push_history(self.history_b, xa);
        } else {
            self.history_a = push_history(self.history_a, xb);
            self.history_b = push_history(self.history_b, xa);
        }
        assert(self@ =~= old(self)@.after_stereo(xa, xb, ra, rb));
    }
}

/// Well-formed passes with no cross-channel term.
pub open spec fn mono_ready(ps: Seq<PassState>) -> bool {
    forall|i: int| 0 <= i < ps.len() ==> (#[trigger] ps[i]).wf() && !cross(ps[i].term)
}

/// Passes keep their shape while they run.
proof fn lemma_split_first(v: Seq<PassState>, i: int)
    requires
        0 <= i < v.len(),
    ensures
        v.skip(i)[0] == v[i],
        v.skip(i).drop_first() == v.skip(i + 1),
{
    assert(v.skip(i).drop_first() =~= v.skip(i + 1));
}

/// Moves one residual through a mono chain; gives the sample.
pub fn advance_mono(passes: &mut Vec<DecorrPass>, r: i32) -> (x: i32)
    requires
        mono_ready(states(old(passes)@)),
    ensures
        (states(final(passes)@), x) == decode_mono(states(old(passes)@), r),
        mono_ready(states(final(passes)@)),
{
    let ghost v = states(passes@);
    let mut cur: i32 = r;
    let mut i: usize = 0;
    proof {
        assert(v.skip(0) =~= v);
        assert(states(passes@).take(0) + decode_mono(v, r).0 =~= decode_mono(v, r).0);
    }
    while i < passes.len()
        invariant
            v == states(old(passes)@),
            mono_ready(v),
            i <= passes.len(),
            passes@.len() == v.len(),
            forall|k: int| i <= k < v.len() ==> (#[trigger] passes@[k])@ == v[k],
            mono_ready(states(passes@)),
            decode_mono(v, r) == (
                states(passes@).take(i as int) + decode_mono(v.skip(i as int), cur).0,
                decode_mono(v.skip(i as int), cur).1,
            ),
        decreases passes.len() - i,
    {
        let ghost before = states(passes@);
        let mut p = passes[i];
        assert(p@ == v[i as int]);
        assert(before[i as int] == p@);
        let x: i32 = add32(cur, p.predict_mono());
        p.step_mono(x, cur);
        proof {
            lemma_split_first(v, i as int);
        }
        passes[i] = p;
        proof {
            let after = states(passes@);
            assert(after.take(i + 1) =~= before.take(i as int).push(p@));
            let rest = decode_mono(v.skip(i + 1), x);
            assert(before.take(i as int) + (seq![p@] + rest.0) =~= after.take(i + 1) + rest.0);
            assert forall|k: int| 0 <= k < after.len() implies (#[trigger] after[k]).wf() && !cross(after[k].term) by {
                if k != i {
                    assert(after[k] == before[k]);
                }
            }
        }
        cur = x;
        i = i + 1;
    }
    proof {
        assert(v.skip(v.len() as int) =~= Seq::empty());
        assert(states(passes@).take(v.len() as int) + Seq::empty() =~= states(passes@));
    }
    cur
}

/// Moves one sample through a mono chain, last pass first; gives the residual.
pub fn reduce_mono(passes: &mut Vec<DecorrPass>, x: i32) -> (r: i32)
    requires
        mono_ready(states(old(passes)@)),
    ensures
        (states(final(passes)@), r) == encode_mono(states(old(passes)@), x),
        mono_ready(states(final(passes)@)),
{
    let ghost v = states(passes@);
    let mut cur: i32 = x;
    let mut i: usize = passes.len();
    proof {
        assert(v.skip(v.len() as int) =~= Seq::empty());
        assert(states(passes@).skip(v.len() as int) =~= Seq::empty());
    }
    while i > 0
        invariant
            v == states(old(passes)@),
            mono_ready(v),
            i <= passes.len(),
            passes@.len() == v.len(),
            forall|k: int| 0 <= k < i ==> (#[trigger] passes@[k])@ == v[k],
            mono_ready(states(passes@)),
            encode_mono(v.skip(i as int), x) == (states(passes@).skip(i as int), cur),
        decreases i,
    {
        let ghost before = states(passes@);
        i = i - 1;
        let mut p = passes[i];
        assert(p@ == v[i as int]);
        assert(before[i as int] == p@);
        let r: i32 = sub32(cur, p.predict_mono());
        p.step_mono(cur, r);
        proof {
            lemma_split_first(v, i as int);
        }
        passes[i] = p;
        proof {
            let after = states(passes@);
            assert(after.skip(i as int) =~= seq![p@] + before.skip(i + 1));
            assert forall|k: int| 0 <= k < after.len() implies (#[trigger] after[k]).wf() && !cross(after[k].term) by {
                if k != i {
                    assert(after[k] == before[k]);
                }
            }
        }
        cur = r;
    }
    proof {
        assert(v.skip(0) =~= v);
        assert(states(passes@).skip(0) =~= states(passes@));
    }
    cur
}

/// Moves one pair of residuals through a stereo chain; gives the pair.
pub fn advance_stereo(passes: &mut Vec<DecorrPass>, ra: i32, rb: i32) -> (x: (i32, i32))
    requires
        all_wf(states(old(passes)@)),
    ensures
        (states(final(passes)@), x) == decode_stereo(states(old(passes)@), ra, rb),
        all_wf(states(final(passes)@)),
{
    let ghost v = states(passes@);
    let mut cur: (i32, i32) = (ra, rb);
    let mut i: usize = 0;
    proof {
        assert(v.skip(0) =~= v);
        assert(states(passes@).take(0) + decode_stereo(v, ra, rb).0 =~= decode_stereo(v, ra, rb).0);
    }
    while i < passes.len()
        invariant
            v == states(old(passes)@),
            all_wf(v),
            i <= passes.len(),
            passes@.len() == v.len(),
            forall|k: int| i <= k < v.len() ==> (#[trigger] passes@[k])@ == v[k],
            all_wf(states(passes@)),
            decode_stereo(v, ra, rb) == (
                states(passes@).take(i as int) + decode_stereo(v.skip(i as int), cur.0, cur.1).0,
                decode_stereo(v.skip(i as int), cur.0, cur.1).1,
            ),
        decreases passes.len() - i,
    {
        let ghost before = states(passes@);
        let mut p = passes[i];
        assert(p@ == v[i as int]);
        assert(before[i as int] == p@);
        let x: (i32, i32) = p.pair_of(cur.0, cur.1);
        p.step_stereo(x.0, x.1, cur.0, cur.1);
        proof {
            lemma_split_first(v, i as int);
        }
        passes[i] = p;
        proof {
            let after = states(passes@);
            assert(after.take(i + 1) =~= before.take(i as int).push(p@));
            let rest = decode_stereo(v.skip(i + 1), x.0, x.1);
            assert(before.take(i as int) + (seq![p@] + rest.0) =~= after.take(i + 1) + rest.0);
            assert forall|k: int| 0 <= k < after.len() implies (#[trigger] after[k]).wf() by {
                if k != i {
                    assert(after[k] == before[k]);
                }
            }
        }
        cur = x;
        i = i + 1;
    }
    proof {
        assert(v.skip(v.len() as int) =~= Seq::empty());
        assert(states(passes@).take(v.len() as int) + Seq::empty() =~= states(passes@));
    }
    cur
}

/// Moves one pair through a stereo chain, last pass first; gives the residuals.
pub fn reduce_stereo(passes: &mut Vec<DecorrPass>, xa: i32, xb: i32) -> (r: (i32, i32))
    requires
        all_wf(states(old(passes)@)),
    ensures
        (states(final(passes)@), r) == encode_stereo(states(old(passes)@), xa, xb),
        all_wf(states(final(passes)@)),
{
    let ghost v = states(passes@);
    let mut cur: (i32, i32) = (xa, xb);
    let mut i: usize = passes.len();
    proof {
        assert(v.skip(v.len() as int) =~= Seq::empty());
        assert(states(passes@).skip(v.len() as int) =~= Seq::empty());
    }
    while i > 0
        invariant
            v == states(old(passes)@),
            all_wf(v),
            i <= passes.len(),
            passes@.len() == v.len(),
            forall|k: int| 0 <= k < i ==> (#[trigger] passes@[k])@ == v[k],
            all_wf(states(passes@)),
            encode_stereo(v.skip(i as int), xa, xb) == (states(passes@).skip(i as int), cur),
        decreases i,
    {
        let ghost before = states(passes@);
        i = i - 1;
        let mut p = passes[i];
        assert(p@ == v[i as int]);
        assert(before[i as int] == p@);
        let r: (i32, i32) = p.residuals_of(cur.0, cur.1);
        p.step_stereo(cur.0, cur.1, r.0, r.1);
        proof {
            lemma_split_first(v, i as int);
        }
        passes[i] = p;
        proof {
            let after = states(passes@);
            assert(after.skip(i as int) =~= seq![p@] + before.skip(i + 1));
            assert forall|k: int| 0 <= k < after.len() implies (#[trigger] after[k]).wf() by {
                if k != i {
                    assert(after[k] == before[k]);
                }
            }
        }
        cur = r;
    }
    proof {
        assert(v.skip(0) =~= v);
        assert(states(passes@).skip(0) =~= states(passes@));
    }
    cur
}

/// Turns a mono buffer into residuals, in place.
pub fn recorrelate_mono(passes: &mut Vec<DecorrPass>, x: &mut [i32])
    requires
        mono_ready(states(old(passes)@)),
    ensures
        (states(final(passes)@), final(x)@) == encode_mono_all(states(old(passes)@), old(x)@),
        mono_ready(states(final(passes)@)),
{
    let ghost v = states(passes@);
    let ghost s = x@;
    let mut i: usize = 0;
    assert(s.take(0) =~= Seq::empty());
    assert(x@.take(0) =~= Seq::empty());
    while i < x.len()
        invariant
            v == states(old(passes)@),
            s == old(x)@,
            i <= x.len(),
            x@.len() == s.len(),
            mono_ready(states(passes@)),
            (states(passes@), x@.take(i as int)) == encode_mono_all(v, s.take(i as int)),
            forall|k: int| i <= k < s.len() ==> x@[k] == s[k],
        decreases x.len() - i,
    {
        let ghost before = x@;
        let r: i32 = reduce_mono(passes, x[i]);
        x[i] = r;
        proof {
            assert(s.take(i + 1).drop_last() =~= s.take(i as int));
            assert(x@.take(i + 1) =~= before.take(i as int).push(r));
        }
        i = i + 1;
    }
    assert(s.take(s.len() as int) =~= s);
    assert(x@.take(s.len() as int) =~= x@);
}

/// Turns mono residuals back into samples, in place.
pub fn decorrelate_mono(passes: &mut Vec<DecorrPass>, x: &mut [i32])
    requires
        mono_ready(states(old(passes)@)),
    ensures
        (states(final(passes)@), final(x)@) == decode_mono_all(states(old(passes)@), old(x)@),
        mono_ready(states(final(passes)@)),
{
    let ghost v = states(passes@);
    let ghost s = x@;
    let mut i: usize = 0;
    assert(s.take(0) =~= Seq::empty());
    assert(x@.take(0) =~= Seq::empty());
    while i < x.len()
        invariant
            v == states(old(passes)@),
            s == old(x)@,
            i <= x.len(),
            x@.len() == s.len(),
            mono_ready(states(passes@)),
            (states(passes@), x@.take(i as int)) == decode_mono_all(v, s.take(i as int)),
            forall|k: int| i <= k < s.len() ==> x@[k] == s[k],
        decreases x.len() - i,
    {
        let ghost before = x@;
        let r: i32 = advance_mono(passes, x[i]);
        x[i] = r;
        proof {
            assert(s.take(i + 1).drop_last() =~= s.take(i as int));
            assert(x@.take(i + 1) =~= before.take(i as int).push(r));
        }
        i = i + 1;
    }
    assert(s.take(s.len() as int) =~= s);
    assert(x@.take(s.len() as int) =~= x@);
}

/// Turns an interleaved buffer into residuals, in place.
pub fn recorrelate_stereo(passes: &mut Vec<DecorrPass>, x: &mut [i32])
    requires
        all_wf(states(old(passes)@)),
        old(x)@.len() % 2 == 0,
    ensures
        (states(final(passes)@), final(x)@) == encode_stereo_all(states(old(passes)@), old(x)@),
        all_wf(states(final(passes)@)),
        final(x)@.len() == old(x)@.len(),
{
    let ghost v = states(passes@);
    let ghost s = x@;
    let mut i: usize = 0;
    assert(s.take(0) =~= Seq::empty());
    assert(x@.take(0) =~= Seq::empty());
    while i < x.len()
        invariant
            v == states(old(passes)@),
            s == old(x)@,
            i <= x.len(),
            x@.len() == s.len(),
            i % 2 == 0,
            s.len() % 2 == 0,
            all_wf(states(passes@)),
            (states(passes@), x@.take(i as int)) == encode_stereo_all(v, s.take(i as int)),
            forall|k: int| i <= k < s.len() ==> x@[k] == s[k],
        decreases x.len() - i,
    {
        let ghost before = x@;
        let r: (i32, i32) = reduce_stereo(passes, x[i], x[i + 1]);
        x[i] = r.0;
        x[i + 1] = r.1;
        proof {
            assert(s.take(i + 2).take(i as int) =~= s.take(i as int));
            assert(x@.take(i + 2) =~= before.take(i as int).push(r.0).push(r.1));
        }
        i = i + 2;
    }
    assert(s.take(s.len() as int) =~= s);
    assert(x@.take(s.len() as int) =~= x@);
}

/// Turns interleaved residuals back into samples, in place.
pub fn decorrelate_stereo(passes: &mut Vec<DecorrPass>, x: &mut [i32])
    requires
        all_wf(states(old(passes)@)),
        old(x)@.len() % 2 == 0,
    ensures
        (states(final(passes)@), final(x)@) == decode_stereo_all(states(old(passes)@), old(x)@),
        all_wf(states(final(passes)@)),
        final(x)@.len() == old(x)@.len(),
{
    let ghost v = states(passes@);
    let ghost s = x@;
    let mut i: usize = 0;
    assert(s.take(0) =~= Seq::empty());
    assert(x@.take(0) =~= Seq::empty());
    while i < x.len()
        invariant
            v == states(old(passes)@),
            s == old(x)@,
            i <= x.len(),
            x@.len() == s.len(),
            i % 2 == 0,
            s.len() % 2 == 0,
            all_wf(states(passes@)),
            (states(passes@), x@.take(i as int)) == decode_stereo_all(v, s.take(i as int)),
            forall|k: int| i <= k < s.len() ==> x@[k] == s[k],
        decreases x.len() - i,
    {
        let ghost before = x@;
        let r: (i32, i32) = advance_stereo(passes, x[i], x[i + 1]);
        x[i] = r.0;
        x[i + 1] = r.1;
        proof {
            assert(s.take(i + 2).take(i as int) =~= s.take(i as int));
            assert(x@.take(i + 2) =~= before.take(i as int).push(r.0).push(r.1));
        }
        i = i + 2;
    }
    assert(s.take(s.len() as int) =~= s);
    assert(x@.take(s.len() as int) =~= x@);
}

/// A mono chain adds the same prediction to every residual.
pub proof fn lemma_offset_mono(ps: Seq<PassState>, r: i32)
    ensures
        decode_mono(ps, r).1 == wrap32(r + decode_mono(ps, 0).1),
    decreases ps.len(),
{
    lemma_wrap32(r as int, 0);
    if ps.len() > 0 {
        let p = ps[0];
        let w = weighed(p.wa, extrapolated(p.term, p.ha));
        let x = p.sample_mono(r);
        let x0 = p.sample_mono(0);
        let tail = decode_mono(ps.drop_first(), 0).1;
        lemma_offset_mono(ps.drop_first(), x);
        lemma_offset_mono(ps.drop_first(), x0);
        lemma_wrap32(r + w, tail as int);
        lemma_wrap32(0 + w, tail as int);
        lemma_wrap32(w + tail, r as int);
    }
}

/// What a mono chain predicts.
pub fn offset_mono(passes: &Vec<DecorrPass>) -> (r: i32)
    requires
        mono_ready(states(passes@)),
    ensures
        r == decode_mono(states(passes@), 0).1,
{
    let ghost v = states(passes@);
    let mut cur: i32 = 0;
    let mut i: usize = 0;
    assert(v.skip(0) =~= v);
    while i < passes.len()
        invariant
            v == states(passes@),
            mono_ready(v),
            i <= passes.len(),
            decode_mono(v, 0).1 == decode_mono(v.skip(i as int), cur).1,
        decreases passes.len() - i,
    {
        assert(v[i as int] == passes@[i as int]@);
        proof {
            lemma_split_first(v, i as int);
        }
        cur = add32(cur, passes[i].predict_mono());
        i = i + 1;
    }
    assert(v.skip(v.len() as int) =~= Seq::empty());
    cur
}

} // verus!
