//! What decorrelation passes predict from, said of whole buffers.
use vstd::prelude::*;
use crate::arith::wrap32;
use crate::block::{second_side, second_sides};
use crate::decorrelation::{DecorrPass, PassState, adapted_weight, cross, decode_mono, decode_stereo, encode_mono, encode_mono_all, encode_stereo, encode_stereo_all, extrapolated, mono_ready, seed_count, valid_term, weighed};

verus! {

// ---------------------------------------------------------------------------
// One channel
// ---------------------------------------------------------------------------

/// The sample `k` before sample `i`; `h` holds those before the buffer, latest
/// first.
pub open spec fn back(x: Seq<i32>, i: int, k: int, h: Seq<i32>) -> i32 {
    if k <= i {
        x[i - k]
    } else {
        h[k - 1 - i]
    }
}

/// What a term makes of the samples before sample `i`: a lag takes the sample
/// that far back, the two extrapolators go on along the line through the last
/// two samples, the second by half the step.
pub open spec fn expected(term: i8, x: Seq<i32>, i: int, h: Seq<i32>) -> i32 {
    if term == 17 {
        wrap32(2 * back(x, i, 1, h) - back(x, i, 2, h))
    } else if term == 18 {
        wrap32((3 * back(x, i, 1, h) - back(x, i, 2, h)) / 2)
    } else {
        back(x, i, term as int, h)
    }
}

/// A weight moves by one step towards agreement in sign, and rests at a zero.
pub open spec fn moves(before: i32, after: i32, delta: i32, source: i32, residual: i32) -> bool {
    &&& source == 0 || residual == 0 ==> after == before
    &&& (source > 0 && residual > 0) || (source < 0 && residual < 0) ==> after == wrap32(before + delta)
    &&& (source > 0 && residual < 0) || (source < 0 && residual > 0) ==> after == wrap32(before - delta)
}

/// A weight that moves within one unit.
pub open spec fn moves_within(before: i32, after: i32, delta: i32, source: i32, residual: i32) -> bool {
    let up = before + delta;
    let down = before - delta;
    &&& source == 0 || residual == 0 ==> after == before
    &&& (source > 0 && residual > 0) || (source < 0 && residual < 0) ==> {
        &&& up > 1024 ==> after == 1024
        &&& up < -1024 ==> after == -1024
        &&& -1024 <= up <= 1024 ==> after == up
    }
    &&& (source > 0 && residual < 0) || (source < 0 && residual > 0) ==> {
        &&& down > 1024 ==> after == 1024
        &&& down < -1024 ==> after == -1024
        &&& -1024 <= down <= 1024 ==> after == down
    }
}

/// A single pass after a buffer.
proof fn lemma_mono_history(p: PassState, x: Seq<i32>)
    requires
        p.wf(),
    ensures
        ({
            let qs = encode_mono_all(seq![p], x).0;
            &&& qs.len() == 1
            &&& qs[0].term == p.term && qs[0].delta == p.delta && qs[0].ha.len() == 8
            &&& forall|k: int| 1 <= k <= 8 ==> #[trigger] qs[0].ha[k - 1] == back(x, x.len() as int, k, p.ha)
        }),
        encode_mono_all(seq![p], x).1.len() == x.len(),
    decreases x.len(),
{
    if x.len() > 0 {
        let y = x.drop_last();
        lemma_mono_history(p, y);
        let q = encode_mono_all(seq![p], y).0[0];
        assert(encode_mono_all(seq![p], y).0 =~= seq![q]);
        lemma_one_pass(q, x.last());
        let n = encode_mono(seq![q], x.last()).0[0];
        assert forall|k: int| 1 <= k <= 8 implies #[trigger] n.ha[k - 1] == back(x, x.len() as int, k, p.ha) by {
            if k > 1 {
                let j = k - 1;
                assert(q.ha[j - 1] == back(y, y.len() as int, j, p.ha));
            }
        }
    }
}

proof fn lemma_one_pass(q: PassState, v: i32)
    ensures
        encode_mono(seq![q], v) == (seq![q.after_mono(v, q.residual_mono(v))], q.residual_mono(v)),
{
    assert(seq![q].drop_first() =~= Seq::empty());
    assert(encode_mono(seq![q].drop_first(), v) == (Seq::<PassState>::empty(), v));
    assert(seq![q.after_mono(v, q.residual_mono(v))] + Seq::<PassState>::empty() =~= seq![
        q.after_mono(v, q.residual_mono(v)),
    ]);
}

proof fn lemma_mono_prefix(ps: Seq<PassState>, x: Seq<i32>, i: int)
    requires
        0 <= i < x.len(),
    ensures
        encode_mono_all(ps, x).1.len() == x.len(),
        encode_mono_all(ps, x).1[i] == encode_mono(encode_mono_all(ps, x.take(i)).0, x[i]).1,
        encode_mono_all(ps, x.take(i + 1)).0 == encode_mono(encode_mono_all(ps, x.take(i)).0, x[i]).0,
    decreases x.len(),
{
    let y = x.drop_last();
    assert(x.take(i + 1).drop_last() =~= x.take(i));
    crate::decorrelation::decorrelation_mono_inverse(ps, x);
    crate::decorrelation::decorrelation_mono_inverse(ps, y);
    if i == y.len() {
        assert(x.take(i) =~= y);
    } else {
        lemma_mono_prefix(ps, y, i);
        assert(y.take(i) =~= x.take(i));
    }
}

/// A mono pass takes its weighed prediction off every sample: the source is
/// what its term makes of the samples before, the weight counts in 1024ths and
/// the product is rounded to the nearest. The weight then moves a step.
pub proof fn mono_residuals_follow_the_term(p: PassState, x: Seq<i32>, i: int)
    requires
        p.wf(),
        p.term > 0,
        0 <= i < x.len(),
    ensures
        ({
            let s = expected(p.term, x, i, p.ha);
            let r = encode_mono_all(seq![p], x).1[i];
            let before = encode_mono_all(seq![p], x.take(i)).0[0].wa;
            let after = encode_mono_all(seq![p], x.take(i + 1)).0[0].wa;
            &&& i == 0 ==> before == p.wa
            &&& r == wrap32(x[i] - wrap32((before * s + 512) / 1024))
            &&& moves(before, after, p.delta, s, r)
        }),
{
    let y = x.take(i);
    lemma_mono_history(p, y);
    lemma_mono_prefix(seq![p], x, i);
    let q = encode_mono_all(seq![p], y).0[0];
    assert(encode_mono_all(seq![p], y).0 =~= seq![q]);
    lemma_one_pass(q, x[i]);
    reveal(extrapolated);
    reveal(weighed);
    reveal(adapted_weight);
    let s = expected(p.term, x, i, p.ha);
    assert forall|k: int| 1 <= k <= 8 implies #[trigger] back(y, i, k, p.ha) == back(x, i, k, p.ha) by {}
    assert(q.ha[p.term - 1] == back(x, i, p.term as int, p.ha) || p.term > 8) by {
        if p.term <= 8 {
            assert(q.ha[p.term - 1] == back(y, i, p.term as int, p.ha));
        }
    }
    assert(q.ha[1 - 1] == back(y, i, 1, p.ha));
    assert(q.ha[2 - 1] == back(y, i, 2, p.ha));
    let b1 = back(x, i, 1, p.ha);
    let b2 = back(x, i, 2, p.ha);
    assert(b1 + (b1 - b2) / 2 == (3 * b1 - b2) / 2);
    assert(extrapolated(q.term, q.ha) == s);
}

/// Passes run one behind the other: the last of them on the samples, each
/// before it on what that one leaves.
pub proof fn mono_passes_chain(p: PassState, rest: Seq<PassState>, x: Seq<i32>)
    ensures
        encode_mono_all(seq![p] + rest, x).1 == encode_mono_all(seq![p], encode_mono_all(rest, x).1).1,
        encode_mono_all(seq![p] + rest, x).0 == encode_mono_all(seq![p], encode_mono_all(rest, x).1).0
            + encode_mono_all(rest, x).0,
        encode_mono_all(seq![p], encode_mono_all(rest, x).1).0.len() == 1,
    decreases x.len(),
{
    let inner = encode_mono_all(rest, x);
    if x.len() > 0 {
        let y = x.drop_last();
        mono_passes_chain(p, rest, y);
        let before = encode_mono_all(rest, y);
        let one = encode_mono(before.0, x.last());
        assert(inner.1.drop_last() =~= before.1);
        assert(inner.1.last() == one.1);
        let q = encode_mono_all(seq![p], before.1).0[0];
        assert(encode_mono_all(seq![p], before.1).0 =~= seq![q]);
        let ps = seq![q] + before.0;
        assert(ps.drop_first() =~= before.0);
        lemma_one_pass(q, one.1);
        assert(encode_mono(ps, x.last()) == (seq![q.after_mono(one.1, q.residual_mono(one.1))] + one.0, q.residual_mono(
            one.1,
        )));
    } else {
        assert(inner.1 =~= x);
    }
}

// ---------------------------------------------------------------------------
// Two channels
// ---------------------------------------------------------------------------

/// The channel of an interleaved buffer.
pub open spec fn lane(x: Seq<i32>, second: bool) -> Seq<i32> {
    Seq::new(
        x.len() / 2,
        |f: int|
            if second {
                x[2 * f + 1]
            } else {
                x[2 * f]
            },
    )
}

/// What the first channel is predicted from in frame `f`.
pub open spec fn expected_first(p: PassState, x: Seq<i32>, f: int) -> i32 {
    if p.term > 0 {
        expected(p.term, lane(x, false), f, p.ha)
    } else if p.term == -2 {
        x[2 * f + 1]
    } else {
        back(lane(x, true), f, 1, p.ha)
    }
}

/// What the second channel is predicted from in frame `f`.
pub open spec fn expected_second(p: PassState, x: Seq<i32>, f: int) -> i32 {
    if p.term > 0 {
        expected(p.term, lane(x, true), f, p.hb)
    } else if p.term == -1 {
        x[2 * f]
    } else {
        back(lane(x, false), f, 1, p.hb)
    }
}

proof fn lemma_one_stereo(q: PassState, a: i32, b: i32)
    ensures
        ({
            let r = q.residual_stereo(a, b);
            encode_stereo(seq![q], a, b) == (seq![q.after_stereo(a, b, r.0, r.1)], r)
        }),
{
    let r = q.residual_stereo(a, b);
    assert(seq![q].drop_first() =~= Seq::empty());
    assert(encode_stereo(seq![q].drop_first(), a, b) == (Seq::<PassState>::empty(), (a, b)));
    assert(seq![q.after_stereo(a, b, r.0, r.1)] + Seq::<PassState>::empty() =~= seq![q.after_stereo(a, b, r.0, r.1)]);
}

/// A single pass after an interleaved buffer.
#[verifier::opaque]
pub open spec fn remembers(p: PassState, q: PassState, x: Seq<i32>) -> bool {
    let n = x.len() as int / 2;
    &&& q.term == p.term && q.delta == p.delta && q.ha.len() == 8 && q.hb.len() == 8
    &&& p.term > 0 ==> {
        &&& forall|k: int| 1 <= k <= 8 ==> #[trigger] q.ha[k - 1] == back(lane(x, false), n, k, p.ha)
        &&& forall|k: int| 1 <= k <= 8 ==> #[trigger] q.hb[k - 1] == back(lane(x, true), n, k, p.hb)
    }
    &&& p.term == -1 || p.term == -3 ==> q.ha[0] == back(lane(x, true), n, 1, p.ha)
    &&& p.term == -2 || p.term == -3 ==> q.hb[0] == back(lane(x, false), n, 1, p.hb)
}

proof fn lemma_remembers_more(p: PassState, q: PassState, x: Seq<i32>, y: Seq<i32>, ra: i32, rb: i32)
    requires
        p.wf(),
        x.len() >= 2,
        x.len() % 2 == 0,
        y == x.take(x.len() - 2),
        remembers(p, q, y),
    ensures
        remembers(p, q.after_stereo(x[x.len() - 2], x[x.len() - 1], ra, rb), x),
{
    reveal(remembers);
    let n = x.len() as int / 2;
    let xa = x[x.len() - 2];
    let xb = x[x.len() - 1];
    let z = q.after_stereo(xa, xb, ra, rb);
    assert(lane(y, false) =~= lane(x, false).take(n - 1));
    assert(lane(y, true) =~= lane(x, true).take(n - 1));
    if p.term > 0 {
        assert forall|k: int| 1 <= k <= 8 implies #[trigger] z.ha[k - 1] == back(lane(x, false), n, k, p.ha) by {
            if k > 1 {
                let j = k - 1;
                assert(q.ha[j - 1] == back(lane(y, false), n - 1, j, p.ha));
            }
        }
        assert forall|k: int| 1 <= k <= 8 implies #[trigger] z.hb[k - 1] == back(lane(x, true), n, k, p.hb) by {
            if k > 1 {
                let j = k - 1;
                assert(q.hb[j - 1] == back(lane(y, true), n - 1, j, p.hb));
            }
        }
    }
}

proof fn lemma_stereo_history(p: PassState, x: Seq<i32>)
    requires
        p.wf(),
        x.len() % 2 == 0,
    ensures
        encode_stereo_all(seq![p], x).0.len() == 1,
        remembers(p, encode_stereo_all(seq![p], x).0[0], x),
    decreases x.len(),
{
    if x.len() >= 2 {
        let y = x.take(x.len() - 2);
        lemma_stereo_history(p, y);
        let q = encode_stereo_all(seq![p], y).0[0];
        assert(encode_stereo_all(seq![p], y).0 =~= seq![q]);
        let xa = x[x.len() - 2];
        let xb = x[x.len() - 1];
        lemma_one_stereo(q, xa, xb);
        let r = q.residual_stereo(xa, xb);
        lemma_remembers_more(p, q, x, y, r.0, r.1);
    } else {
        reveal(remembers);
    }
}

proof fn lemma_stereo_prefix(ps: Seq<PassState>, x: Seq<i32>, f: int)
    requires
        x.len() % 2 == 0,
        0 <= f,
        2 * f + 1 < x.len(),
    ensures
        ({
            let one = encode_stereo(encode_stereo_all(ps, x.take(2 * f)).0, x[2 * f], x[2 * f + 1]);
            &&& encode_stereo_all(ps, x).1.len() == x.len()
            &&& encode_stereo_all(ps, x).1[2 * f] == one.1.0
            &&& encode_stereo_all(ps, x).1[2 * f + 1] == one.1.1
            &&& encode_stereo_all(ps, x.take(2 * f + 2)).0 == one.0
        }),
    decreases x.len(),
{
    let y = x.take(x.len() - 2);
    let z = x.take(2 * f + 2);
    assert(z.take(z.len() - 2) =~= x.take(2 * f));
    crate::decorrelation::decorrelation_stereo_inverse(ps, x);
    crate::decorrelation::decorrelation_stereo_inverse(ps, y);
    if 2 * f == y.len() {
        assert(x.take(2 * f) =~= y);
        assert(z =~= x);
    } else {
        lemma_stereo_prefix(ps, y, f);
        assert(y.take(2 * f) =~= x.take(2 * f));
        assert(y.take(2 * f + 2) =~= z);
    }
}

proof fn lemma_sources(p: PassState, q: PassState, x: Seq<i32>, f: int)
    requires
        p.wf(),
        x.len() % 2 == 0,
        0 <= f,
        2 * f + 1 < x.len(),
        remembers(p, q, x.take(2 * f)),
    ensures
        q.source_a(x[2 * f + 1]) == expected_first(p, x, f),
        q.source_b(x[2 * f]) == expected_second(p, x, f),
{
    reveal(remembers);
    reveal(extrapolated);
    let y = x.take(2 * f);
    assert(lane(y, false) =~= lane(x, false).take(f));
    assert(lane(y, true) =~= lane(x, true).take(f));
    if p.term > 0 {
        lemma_source_of(p.term, q.ha, lane(y, false), lane(x, false), f, p.ha);
        lemma_source_of(p.term, q.hb, lane(y, true), lane(x, true), f, p.hb);
    }
}

proof fn lemma_source_of(term: i8, h: Seq<i32>, y: Seq<i32>, x: Seq<i32>, f: int, seeds: Seq<i32>)
    requires
        valid_term(term),
        term > 0,
        0 <= f <= x.len(),
        y == x.take(f),
        forall|k: int| 1 <= k <= 8 ==> #[trigger] h[k - 1] == back(y, f, k, seeds),
    ensures
        extrapolated(term, h) == expected(term, x, f, seeds),
{
    reveal(extrapolated);
    assert(h[1 - 1] == back(y, f, 1, seeds));
    assert(h[2 - 1] == back(y, f, 2, seeds));
    if term <= 8 {
        assert(h[term - 1] == back(y, f, term as int, seeds));
    }
    let b1 = back(x, f, 1, seeds);
    let b2 = back(x, f, 2, seeds);
    assert(b1 + (b1 - b2) / 2 == (3 * b1 - b2) / 2);
}

/// A stereo pass takes its weighed predictions off every frame. A term within
/// a channel predicts each channel from its own past. The first cross term
/// predicts the second channel from the first in the same frame and the first
/// from the second one frame back; the second the other way round; the third
/// each channel from the other one frame back. The weights of cross terms stay
/// within one unit.
pub proof fn stereo_residuals_follow_the_term(p: PassState, x: Seq<i32>, f: int)
    requires
        p.wf(),
        x.len() % 2 == 0,
        0 <= f,
        2 * f + 1 < x.len(),
    ensures
        ({
            let sa = expected_first(p, x, f);
            let sb = expected_second(p, x, f);
            let r = encode_stereo_all(seq![p], x).1;
            let before = encode_stereo_all(seq![p], x.take(2 * f)).0[0];
            let after = encode_stereo_all(seq![p], x.take(2 * f + 2)).0[0];
            &&& f == 0 ==> before.wa == p.wa && before.wb == p.wb
            &&& r[2 * f] == wrap32(x[2 * f] - wrap32((before.wa * sa + 512) / 1024))
            &&& r[2 * f + 1] == wrap32(x[2 * f + 1] - wrap32((before.wb * sb + 512) / 1024))
            &&& p.term > 0 ==> moves(before.wa, after.wa, p.delta, sa, r[2 * f])
            &&& p.term > 0 ==> moves(before.wb, after.wb, p.delta, sb, r[2 * f + 1])
            &&& p.term < 0 ==> moves_within(before.wa, after.wa, p.delta, sa, r[2 * f])
            &&& p.term < 0 ==> moves_within(before.wb, after.wb, p.delta, sb, r[2 * f + 1])
        }),
{
    let y = x.take(2 * f);
    lemma_stereo_history(p, y);
    lemma_stereo_prefix(seq![p], x, f);
    let q = encode_stereo_all(seq![p], y).0[0];
    assert(encode_stereo_all(seq![p], y).0 =~= seq![q]);
    lemma_one_stereo(q, x[2 * f], x[2 * f + 1]);
    lemma_sources(p, q, x, f);
    reveal(remembers);
    reveal(weighed);
    reveal(adapted_weight);
}

// ---------------------------------------------------------------------------
// Seeds
// ---------------------------------------------------------------------------

/// A new lag predicts the first samples from its seeds, in their order; an
/// extrapolator goes on from its two seeds, the later of them first.
pub proof fn passes_start_from_seeds(
    term: i8,
    delta: i32,
    wa: i32,
    wb: i32,
    seeds: Seq<i32>,
    more: Seq<i32>,
    x: Seq<i32>,
    i: int,
)
    requires
        valid_term(term),
        term > 0,
        seeds.len() >= seed_count(term),
        0 <= i < x.len(),
    ensures
        ({
            let h = DecorrPass::fresh(term, delta, wa, wb, seeds, more).ha;
            &&& term <= 8 && i < term ==> expected(term, x, i, h) == seeds[i]
            &&& term == 17 && i == 0 ==> expected(term, x, i, h) == wrap32(2 * seeds[0] - seeds[1])
            &&& term == 17 && i == 1 ==> expected(term, x, i, h) == wrap32(2 * x[0] - seeds[0])
            &&& term == 18 && i == 0 ==> expected(term, x, i, h) == wrap32((3 * seeds[0] - seeds[1]) / 2)
        }),
{
}

// ---------------------------------------------------------------------------
// Channels on their own
// ---------------------------------------------------------------------------

/// Passes that stay within channels work on the second channel as their second
/// sides alone would, and on the first as if there were no second: what comes out
/// of both together is what comes out of each.
pub proof fn channels_decode_on_their_own(ps: Seq<PassState>, ra: i32, rb: i32)
    requires
        mono_ready(ps),
    ensures
        ({
            let both = decode_stereo(ps, ra, rb);
            let one = decode_mono(ps, ra);
            let two = decode_mono(second_sides(ps), rb);
            &&& both.1 == (one.1, two.1)
            &&& both.0.len() == ps.len() && one.0.len() == ps.len() && two.0.len() == ps.len()
            &&& forall|i: int|
                0 <= i < ps.len() ==> {
                    &&& (#[trigger] both.0[i]).wa == one.0[i].wa && both.0[i].ha == one.0[i].ha
                    &&& both.0[i].wb == two.0[i].wa && both.0[i].hb == two.0[i].ha
                }
        }),
    decreases ps.len(),
{
    reveal(adapted_weight);
    if ps.len() > 0 {
        let p = ps[0];
        let q = second_side(p);
        let rest = ps.drop_first();
        assert(ps[0].wf() && !cross(ps[0].term));
        assert forall|i: int| 0 <= i < rest.len() implies (#[trigger] rest[i]).wf() && !cross(rest[i].term) by {
            assert(rest[i] == ps[i + 1]);
        }
        assert(second_sides(ps).drop_first() =~= second_sides(rest));
        assert(second_sides(ps)[0] == q);
        let x = p.sample_stereo(ra, rb);
        assert(x.0 == p.sample_mono(ra));
        assert(x.1 == q.sample_mono(rb));
        channels_decode_on_their_own(rest, x.0, x.1);
        let both = decode_stereo(ps, ra, rb);
        let one = decode_mono(ps, ra);
        let two = decode_mono(second_sides(ps), rb);
        let later = decode_stereo(rest, x.0, x.1);
        assert forall|i: int| 0 <= i < ps.len() implies ({
            &&& (#[trigger] both.0[i]).wa == one.0[i].wa && both.0[i].ha == one.0[i].ha
            &&& both.0[i].wb == two.0[i].wa && both.0[i].hb == two.0[i].ha
        }) by {
            if i > 0 {
                assert(both.0[i] == later.0[i - 1]);
                assert(later.0[i - 1].wa == decode_mono(rest, x.0).0[i - 1].wa);
            }
        }
    }
}

} // verus!
