//! Choosing the decorrelation passes of a block.
//!
//! A pass list is a list of terms, in the order in which a decoder applies
//! them, with starting weights. The weights are trained: the passes run over
//! the samples, and what their weights have become is rounded to what a weight
//! byte can hold.
use vstd::prelude::*;
use vstd::arithmetic::power2::pow2;
use crate::arith::{bit_length, bit_length_u32};
use crate::decorrelation::{DecorrPass, MAX_NTERMS, PassState, cross, encode_mono_all, encode_stereo_all, no_history, recorrelate_mono, recorrelate_stereo, states, valid_term};
use crate::error::{Error, Result};
use crate::passes::{payloads_of, quantize_weight, quantized_weight, ready, states_of, storable, storable_passes_serialize, weight_rounding_is_idempotent};

verus! {

/// How many passes a block may take.
#[derive(Debug, Clone, Copy, PartialEq, Eq, Hash, Structural)]
pub enum DecorrProfile {
    /// Two passes.
    Fast,
    /// Five passes, or six on stereo.
    Normal,
    /// Eight passes, or nine on stereo.
    High,
    /// Sixteen passes.
    Extra,
}

impl DecorrProfile {
    /// The profiles that a search under this one tries, cheapest first.
    pub open spec fn tried(self) -> Seq<DecorrProfile> {
        match self {
            DecorrProfile::Fast => seq![DecorrProfile::Fast],
            DecorrProfile::Normal => seq![DecorrProfile::Fast, DecorrProfile::Normal],
            DecorrProfile::High => seq![DecorrProfile::Fast, DecorrProfile::Normal, DecorrProfile::High],
            DecorrProfile::Extra => seq![
                DecorrProfile::Fast,
                DecorrProfile::Normal,
                DecorrProfile::High,
                DecorrProfile::Extra,
            ],
        }
    }

    /// The profiles that a search under this one tries, cheapest first.
    pub fn search_set(self) -> (r: &'static [DecorrProfile])
        ensures
            r@ == self.tried(),
    {
        let set: &'static [DecorrProfile] = match self {
            DecorrProfile::Fast => &[DecorrProfile::Fast],
            DecorrProfile::Normal => &[DecorrProfile::Fast, DecorrProfile::Normal],
            DecorrProfile::High => &[DecorrProfile::Fast, DecorrProfile::Normal, DecorrProfile::High],
            DecorrProfile::Extra => &[
                DecorrProfile::Fast,
                DecorrProfile::Normal,
                DecorrProfile::High,
                DecorrProfile::Extra,
            ],
        };
        assert(set@ =~= self.tried());
        set
    }

    /// The terms of a profile.
    pub open spec fn terms(self, stereo: bool) -> Seq<i8> {
        match (self, stereo) {
            (DecorrProfile::Fast, _) => seq![18i8, 17],
            (DecorrProfile::Normal, false) => seq![18i8, 18, 2, 17, 3],
            (DecorrProfile::Normal, true) => seq![18i8, 18, 2, 17, 3, -1i8],
            (DecorrProfile::High, false) => seq![18i8, 18, 18, 1, 2, 3, 5, 17],
            (DecorrProfile::High, true) => seq![18i8, 18, 18, 1, 2, 3, 5, 17, -3i8],
            (DecorrProfile::Extra, false) => seq![18i8, 18, 18, 18, 1, 2, 3, 4, 5, 6, 7, 8, 17, 17, 2, 3],
            (DecorrProfile::Extra, true) => seq![18i8, 18, 18, 1, 2, 3, 4, 5, 6, 7, 8, 17, 17, 2, -1i8, -3i8],
        }
    }

    fn mono_terms(self) -> (r: Vec<i8>)
        ensures
            r@ == self.terms(false),
    {
        let out: Vec<i8> = match self {
            DecorrProfile::Fast => vec![18, 17],
            DecorrProfile::Normal => vec![18, 18, 2, 17, 3],
            DecorrProfile::High => vec![18, 18, 18, 1, 2, 3, 5, 17],
            DecorrProfile::Extra => vec![18, 18, 18, 18, 1, 2, 3, 4, 5, 6, 7, 8, 17, 17, 2, 3],
        };
        assert(out@ =~= self.terms(false));
        out
    }

    fn stereo_terms(self) -> (r: Vec<i8>)
        ensures
            r@ == self.terms(true),
    {
        let out: Vec<i8> = match self {
            DecorrProfile::Fast => vec![18, 17],
            DecorrProfile::Normal => vec![18, 18, 2, 17, 3, -1],
            DecorrProfile::High => vec![18, 18, 18, 1, 2, 3, 5, 17, -3],
            DecorrProfile::Extra => vec![18, 18, 18, 1, 2, 3, 4, 5, 6, 7, 8, 17, 17, 2, -1, -3],
        };
        assert(out@ =~= self.terms(true));
        out
    }
}

/// Every profile's search tries what the searches below it try.
pub proof fn searches_nest(a: DecorrProfile, b: DecorrProfile)
    requires
        a.tried().len() <= b.tried().len(),
    ensures
        a.tried() == b.tried().take(a.tried().len() as int),
        b.tried().last() == b,
{
    assert(a.tried() =~= b.tried().take(a.tried().len() as int));
}

// ---------------------------------------------------------------------------
// Training
// ---------------------------------------------------------------------------

/// The step by which derived passes adapt.
pub const DERIVED_DELTA: i32 = 2;

/// A pass with starting weights and no history.
pub open spec fn starting_pass(term: i8, weights: (i32, i32)) -> PassState {
    PassState { term, delta: DERIVED_DELTA, wa: weights.0, wb: weights.1, ha: no_history(), hb: no_history() }
}

/// The passes of some terms and weights.
pub open spec fn starting_passes(terms: Seq<i8>, weights: Seq<(i32, i32)>) -> Seq<PassState> {
    Seq::new(terms.len(), |i: int| starting_pass(terms[i], weights[i]))
}

/// Samples through an encoder's passes.
pub open spec fn encoded(ps: Seq<PassState>, x: Seq<i32>, stereo: bool) -> (Seq<PassState>, Seq<i32>) {
    if stereo {
        encode_stereo_all(ps, x)
    } else {
        encode_mono_all(ps, x)
    }
}

/// The starting weights after `sweeps` rounds of training, from zeros.
pub open spec fn trained(x: Seq<i32>, terms: Seq<i8>, sweeps: nat, stereo: bool) -> Seq<(i32, i32)>
    decreases sweeps,
{
    if sweeps == 0 {
        Seq::new(terms.len(), |i: int| (0i32, 0i32))
    } else {
        let after = encoded(
            starting_passes(terms, trained(x, terms, (sweeps - 1) as nat, stereo)),
            x,
            stereo,
        ).0;
        Seq::new(terms.len(), |i: int| (quantized_weight(after[i].wa), quantized_weight(after[i].wb)))
    }
}

/// The passes of a list of terms, trained on samples.
pub open spec fn derived(x: Seq<i32>, terms: Seq<i8>, iterations: u32, stereo: bool) -> Seq<PassState> {
    let sweeps: nat = if iterations == 0 {
        1
    } else {
        iterations as nat
    };
    starting_passes(terms, trained(x, terms, sweeps, stereo))
}

/// Passes are trained at least once; training changes no term.
pub proof fn training_sweeps(x: Seq<i32>, terms: Seq<i8>, iterations: u32, stereo: bool)
    ensures
        derived(x, terms, 0, stereo) == derived(x, terms, 1, stereo),
        derived(x, terms, iterations, stereo).len() == terms.len(),
        forall|i: int| 0 <= i < terms.len() ==> (#[trigger] derived(x, terms, iterations, stereo)[i]).term == terms[i],
{
}

/// Every term can stand in a mono or a stereo block.
pub open spec fn terms_ok(terms: Seq<i8>, stereo: bool) -> bool {
    forall|i: int| 0 <= i < terms.len() ==> valid_term(#[trigger] terms[i]) && (stereo || !cross(terms[i]))
}

/// The terms of every profile can stand in their blocks, sixteen at most.
pub proof fn lemma_profile_terms(p: DecorrProfile, stereo: bool)
    ensures
        terms_ok(p.terms(stereo), stereo),
        p.terms(stereo).len() <= MAX_NTERMS,
{
}

proof fn lemma_starting_ready(terms: Seq<i8>, weights: Seq<(i32, i32)>, stereo: bool)
    requires
        terms_ok(terms, stereo),
    ensures
        ready(starting_passes(terms, weights), stereo),
{
    let ps = starting_passes(terms, weights);
    assert forall|i: int| 0 <= i < ps.len() implies (#[trigger] ps[i]).wf() && (stereo || !cross(ps[i].term)) by {
        assert(valid_term(terms[i]));
    }
}

fn build_passes(terms: &Vec<i8>, weights: &Vec<(i32, i32)>) -> (r: Vec<DecorrPass>)
    requires
        terms@.len() == weights@.len(),
    ensures
        states(r@) == starting_passes(terms@, weights@),
{
    let mut out: Vec<DecorrPass> = Vec::new();
    let mut i: usize = 0;
    while i < terms.len()
        invariant
            i <= terms.len(),
            terms@.len() == weights@.len(),
            out@.len() == i,
            forall|k: int| 0 <= k < i ==> (#[trigger] out@[k])@ == starting_pass(terms@[k], weights@[k]),
        decreases terms.len() - i,
    {
        let p = DecorrPass {
            term: terms[i],
            delta: DERIVED_DELTA,
            weight_a: weights[i].0,
            weight_b: weights[i].1,
            history_a: [0, 0, 0, 0, 0, 0, 0, 0],
            history_b: [0, 0, 0, 0, 0, 0, 0, 0],
        };
        assert(p@.ha =~= no_history() && p@.hb =~= no_history());
        out.push(p);
        i = i + 1;
    }
    assert(states(out@) =~= starting_passes(terms@, weights@));
    out
}

fn copy_of(x: &[i32]) -> (r: Vec<i32>)
    ensures
        r@ == x@,
{
    let mut out: Vec<i32> = Vec::new();
    out.extend_from_slice(x);
    assert(out@ =~= x@);
    out
}

fn run_encoder(passes: &mut Vec<DecorrPass>, x: &[i32], stereo: bool) -> (r: Vec<i32>)
    requires
        ready(states(old(passes)@), stereo),
        stereo ==> x@.len() % 2 == 0,
    ensures
        (states(final(passes)@), r@) == encoded(states(old(passes)@), x@, stereo),
{
    let mut work: Vec<i32> = copy_of(x);
    if stereo {
        recorrelate_stereo(passes, &mut work);
    } else {
        recorrelate_mono(passes, &mut work);
    }
    work
}

/// Encoding keeps the number of passes.
proof fn lemma_encoded_len(ps: Seq<PassState>, x: Seq<i32>, stereo: bool)
    ensures
        encoded(ps, x, stereo).0.len() == ps.len(),
    decreases x.len(),
{
    if stereo {
        if x.len() >= 2 {
            lemma_encoded_len(ps, x.take(x.len() - 2), stereo);
            let before = encode_stereo_all(ps, x.take(x.len() - 2));
            crate::decorrelation::lemma_chain_stereo(before.0, x[x.len() - 2], x[x.len() - 1]);
        }
    } else {
        if x.len() > 0 {
            lemma_encoded_len(ps, x.drop_last(), stereo);
            crate::decorrelation::lemma_chain_mono(encode_mono_all(ps, x.drop_last()).0, x.last());
        }
    }
}

fn derive_passes(x: &[i32], terms: &Vec<i8>, iterations: u32, stereo: bool) -> (r: Vec<DecorrPass>)
    requires
        terms_ok(terms@, stereo),
        stereo ==> x@.len() % 2 == 0,
    ensures
        states(r@) == derived(x@, terms@, iterations, stereo),
        ready(states(r@), stereo),
{
    let sweeps: u32 = if iterations == 0 {
        1
    } else {
        iterations
    };
    let mut weights: Vec<(i32, i32)> = Vec::new();
    let mut i: usize = 0;
    while i < terms.len()
        invariant
            i <= terms.len(),
            weights@.len() == i,
            forall|k: int| 0 <= k < i ==> weights@[k] == (0i32, 0i32),
        decreases terms.len() - i,
    {
        weights.push((0, 0));
        i = i + 1;
    }
    assert(weights@ =~= trained(x@, terms@, 0, stereo));
    let mut done: u32 = 0;
    while done < sweeps
        invariant
            done <= sweeps,
            terms_ok(terms@, stereo),
            stereo ==> x@.len() % 2 == 0,
            weights@.len() == terms@.len(),
            weights@ == trained(x@, terms@, done as nat, stereo),
        decreases sweeps - done,
    {
        let mut passes: Vec<DecorrPass> = build_passes(terms, &weights);
        let ghost start = states(passes@);
        proof {
            lemma_starting_ready(terms@, weights@, stereo);
            lemma_encoded_len(start, x@, stereo);
        }
        let _residuals: Vec<i32> = run_encoder(&mut passes, x, stereo);
        let ghost after = states(passes@);
        let mut next: Vec<(i32, i32)> = Vec::new();
        let mut k: usize = 0;
        while k < passes.len()
            invariant
                k <= passes.len(),
                after == states(passes@),
                next@.len() == k,
                forall|m: int|
                    0 <= m < k ==> next@[m] == (quantized_weight(after[m].wa), quantized_weight(after[m].wb)),
            decreases passes.len() - k,
        {
            assert(after[k as int] == passes@[k as int]@);
            next.push((quantize_weight(passes[k].weight_a), quantize_weight(passes[k].weight_b)));
            k = k + 1;
        }
        weights = next;
        done = done + 1;
        assert(weights@ =~= trained(x@, terms@, done as nat, stereo));
    }
    proof {
        lemma_starting_ready(terms@, weights@, stereo);
    }
    build_passes(terms, &weights)
}

proof fn lemma_trained_stored(x: Seq<i32>, terms: Seq<i8>, sweeps: nat, stereo: bool)
    ensures
        trained(x, terms, sweeps, stereo).len() == terms.len(),
        forall|i: int|
            #![trigger trained(x, terms, sweeps, stereo)[i]]
            0 <= i < terms.len() ==> quantized_weight(trained(x, terms, sweeps, stereo)[i].0) == trained(
                x,
                terms,
                sweeps,
                stereo,
            )[i].0 && quantized_weight(trained(x, terms, sweeps, stereo)[i].1) == trained(x, terms, sweeps, stereo)[i].1,
{
    if sweeps == 0 {
        assert(quantized_weight(0) == 0) by {
            reveal(crate::passes::weight_of);
            reveal(crate::passes::weight_byte);
        }
    } else {
        let after = encoded(
            starting_passes(terms, trained(x, terms, (sweeps - 1) as nat, stereo)),
            x,
            stereo,
        ).0;
        assert forall|i: int|
            #![trigger trained(x, terms, sweeps, stereo)[i]]
            0 <= i < terms.len() implies quantized_weight(trained(x, terms, sweeps, stereo)[i].0) == trained(
            x,
            terms,
            sweeps,
            stereo,
        )[i].0 && quantized_weight(trained(x, terms, sweeps, stereo)[i].1) == trained(x, terms, sweeps, stereo)[i].1 by {
            weight_rounding_is_idempotent(after[i].wa);
            weight_rounding_is_idempotent(after[i].wb);
        }
    }
}

proof fn lemma_mono_keeps_second(ps: Seq<PassState>, v: i32, i: int)
    requires
        0 <= i < ps.len(),
    ensures
        crate::decorrelation::encode_mono(ps, v).0.len() == ps.len(),
        crate::decorrelation::encode_mono(ps, v).0[i].wb == ps[i].wb,
    decreases ps.len(),
{
    crate::decorrelation::lemma_chain_mono(ps, v);
    if i > 0 {
        lemma_mono_keeps_second(ps.drop_first(), v, i - 1);
    }
}

proof fn lemma_mono_all_keeps_second(ps: Seq<PassState>, x: Seq<i32>, i: int)
    requires
        0 <= i < ps.len(),
    ensures
        encode_mono_all(ps, x).0.len() == ps.len(),
        encode_mono_all(ps, x).0[i].wb == ps[i].wb,
    decreases x.len(),
{
    if x.len() > 0 {
        lemma_mono_all_keeps_second(ps, x.drop_last(), i);
        lemma_mono_keeps_second(encode_mono_all(ps, x.drop_last()).0, x.last(), i);
    }
}

/// Mono passes have no second weight.
pub proof fn lemma_mono_second(x: Seq<i32>, terms: Seq<i8>, sweeps: nat, i: int)
    requires
        0 <= i < terms.len(),
    ensures
        trained(x, terms, sweeps, false).len() == terms.len(),
        trained(x, terms, sweeps, false)[i].1 == 0,
    decreases sweeps,
{
    if sweeps > 0 {
        let weights = trained(x, terms, (sweeps - 1) as nat, false);
        lemma_mono_second(x, terms, (sweeps - 1) as nat, i);
        lemma_mono_all_keeps_second(starting_passes(terms, weights), x, i);
        assert(quantized_weight(0) == 0) by {
            reveal(crate::passes::weight_of);
            reveal(crate::passes::weight_byte);
        }
    }
}

/// Derived passes can always be written: payloads exist for them.
pub proof fn derived_passes_serialize(x: Seq<i32>, terms: Seq<i8>, iterations: u32, stereo: bool)
    requires
        terms_ok(terms, stereo),
        terms.len() <= MAX_NTERMS,
    ensures
        payloads_of(derived(x, terms, iterations, stereo), stereo) is Ok,
        forall|k: int|
            0 <= k < terms.len() ==> storable(#[trigger] derived(x, terms, iterations, stereo)[k], stereo),
{
    let sweeps: nat = if iterations == 0 {
        1
    } else {
        iterations as nat
    };
    let ps = derived(x, terms, iterations, stereo);
    lemma_trained_stored(x, terms, sweeps, stereo);
    assert forall|k: int| 0 <= k < ps.len() implies storable(#[trigger] ps[k], stereo) by {
        assert(valid_term(terms[k]));
        let w = trained(x, terms, sweeps, stereo)[k];
    }
    storable_passes_serialize(ps, stereo, 0);
}

/// The passes of a mono block under a profile.
pub fn derive_mono_passes(pcm: &[i32], profile: DecorrProfile) -> (r: Result<Vec<DecorrPass>>)
    ensures
        states_of(r) == Ok::<Seq<PassState>, Error>(derived(pcm@, profile.terms(false), 1, false)),
        r is Ok ==> ready(states(r->Ok_0@), false),
{
    derive_mono_passes_iterated(pcm, profile, 1)
}

/// The passes of a mono block under a profile, trained over and over.
pub fn derive_mono_passes_iterated(pcm: &[i32], profile: DecorrProfile, iterations: u32) -> (r: Result<Vec<DecorrPass>>)
    ensures
        states_of(r) == Ok::<Seq<PassState>, Error>(derived(pcm@, profile.terms(false), iterations, false)),
        r is Ok ==> ready(states(r->Ok_0@), false),
{
    proof {
        lemma_profile_terms(profile, false);
    }
    let terms: Vec<i8> = profile.mono_terms();
    Ok(derive_passes(pcm, &terms, iterations, false))
}

/// The passes of a stereo block, or why there are none.
pub open spec fn derived_stereo(pcm: Seq<i32>, terms: Seq<i8>, iterations: u32) -> core::result::Result<
    Seq<PassState>,
    Error,
> {
    if pcm.len() % 2 != 0 {
        Err(Error::EncodeStereoOddLength(pcm.len() as usize))
    } else {
        Ok(derived(pcm, terms, iterations, true))
    }
}

/// The passes of a stereo block under a profile.
pub fn derive_stereo_passes(pcm: &[i32], profile: DecorrProfile) -> (r: Result<Vec<DecorrPass>>)
    ensures
        states_of(r) == derived_stereo(pcm@, profile.terms(true), 1),
        r is Ok ==> ready(states(r->Ok_0@), true),
{
    derive_stereo_passes_iterated(pcm, profile, 1)
}

/// The passes of a stereo block under a profile, trained over and over.
pub fn derive_stereo_passes_iterated(pcm: &[i32], profile: DecorrProfile, iterations: u32) -> (r: Result<Vec<DecorrPass>>)
    ensures
        states_of(r) == derived_stereo(pcm@, profile.terms(true), iterations),
        r is Ok ==> ready(states(r->Ok_0@), true),
{
    if pcm.len() % 2 != 0 {
        return Err(Error::EncodeStereoOddLength(pcm.len()));
    }
    proof {
        lemma_profile_terms(profile, true);
    }
    let terms: Vec<i8> = profile.stereo_terms();
    Ok(derive_passes(pcm, &terms, iterations, true))
}

// ---------------------------------------------------------------------------
// Searching for terms
// ---------------------------------------------------------------------------

/// The bits of a buffer's magnitudes, all together.
pub open spec fn cost(x: Seq<i32>) -> nat
    decreases x.len(),
{
    if x.len() == 0 {
        0
    } else {
        cost(x.drop_last()) + bit_length(absolute(x.last()))
    }
}

/// The absolute value of a sample.
pub open spec fn absolute(v: i32) -> nat {
    if v < 0 {
        (-v) as nat
    } else {
        v as nat
    }
}

/// The residuals of one untrained pass.
pub open spec fn residual_under(x: Seq<i32>, term: i8, stereo: bool) -> Seq<i32> {
    encoded(seq![starting_pass(term, (0i32, 0i32))], x, stereo).1
}

/// The first of `terms[..k]` whose residuals cost the least, if that is less than the samples cost.
pub open spec fn winner(x: Seq<i32>, terms: Seq<i8>, k: int, stereo: bool) -> Option<i8>
    decreases k,
{
    if k <= 0 {
        None
    } else {
        let before = winner(x, terms, k - 1, stereo);
        let limit = match before {
            None => cost(x),
            Some(t) => cost(residual_under(x, t, stereo)),
        };
        if cost(residual_under(x, terms[k - 1], stereo)) < limit {
            Some(terms[k - 1])
        } else {
            before
        }
    }
}

/// The terms that a greedy search picks, first pick first: each the winner
/// over what the picks before it leave.
pub open spec fn picks(x: Seq<i32>, terms: Seq<i8>, cap: nat, stereo: bool) -> Seq<i8>
    decreases cap,
{
    if cap == 0 {
        Seq::empty()
    } else {
        match winner(x, terms, terms.len() as int, stereo) {
            None => Seq::empty(),
            Some(t) => seq![t] + picks(residual_under(x, t, stereo), terms, (cap - 1) as nat, stereo),
        }
    }
}

/// The terms that a search tries.
pub open spec fn search_terms(stereo: bool) -> Seq<i8> {
    if stereo {
        seq![1i8, 2, 3, 4, 5, 6, 7, 8, 17, 18, -1i8, -2i8, -3i8]
    } else {
        seq![1i8, 2, 3, 4, 5, 6, 7, 8, 17, 18]
    }
}

/// The bits of a buffer's magnitudes, all together.
pub fn residual_cost(buffer: &[i32]) -> (r: u128)
    ensures
        r == cost(buffer@),
{
    let mut sum: u128 = 0;
    let mut i: usize = 0;
    while i < buffer.len()
        invariant
            i <= buffer.len(),
            sum == cost(buffer@.take(i as int)),
            sum <= 32 * i,
        decreases buffer.len() - i,
    {
        assert(buffer@.take(i + 1).drop_last() =~= buffer@.take(i as int));
        let v: i64 = buffer[i] as i64;
        let a: u32 = if v < 0 {
            (-v) as u32
        } else {
            v as u32
        };
        let n: u32 = bit_length_u32(a);
        sum = sum + n as u128;
        i = i + 1;
    }
    assert(buffer@.take(i as int) =~= buffer@);
    sum
}

fn try_term(x: &Vec<i32>, term: i8, stereo: bool) -> (r: Vec<i32>)
    requires
        valid_term(term),
        stereo || !cross(term),
        stereo ==> x@.len() % 2 == 0,
    ensures
        r@ == residual_under(x@, term, stereo),
        r@.len() == x@.len(),
{
    let terms: Vec<i8> = vec![term];
    let weights: Vec<(i32, i32)> = vec![(0, 0)];
    let mut passes: Vec<DecorrPass> = build_passes(&terms, &weights);
    proof {
        assert(starting_passes(terms@, weights@) =~= seq![starting_pass(term, (0i32, 0i32))]);
        lemma_starting_ready(terms@, weights@, stereo);
        if stereo {
            crate::decorrelation::decorrelation_stereo_inverse(states(passes@), x@);
        } else {
            crate::decorrelation::decorrelation_mono_inverse(states(passes@), x@);
        }
    }
    run_encoder(&mut passes, x.as_slice(), stereo)
}

/// The best term over some samples, with what it leaves.
fn pick_term(x: &Vec<i32>, terms: &Vec<i8>, stereo: bool) -> (r: Option<(i8, Vec<i32>)>)
    requires
        terms_ok(terms@, stereo),
        stereo ==> x@.len() % 2 == 0,
    ensures
        match winner(x@, terms@, terms@.len() as int, stereo) {
            None => r is None,
            Some(t) => {
                &&& r is Some
                &&& r->Some_0.0 == t
                &&& r->Some_0.1@ == residual_under(x@, t, stereo)
                &&& r->Some_0.1@.len() == x@.len()
                &&& valid_term(t)
                &&& stereo || !cross(t)
            },
        },
{
    let mut best: Option<(i8, Vec<i32>)> = None;
    let mut limit: u128 = residual_cost(x.as_slice());
    let mut k: usize = 0;
    while k < terms.len()
        invariant
            k <= terms.len(),
            terms_ok(terms@, stereo),
            stereo ==> x@.len() % 2 == 0,
            match winner(x@, terms@, k as int, stereo) {
                None => best is None && limit == cost(x@),
                Some(t) => {
                    &&& best is Some
                    &&& best->Some_0.0 == t
                    &&& best->Some_0.1@ == residual_under(x@, t, stereo)
                    &&& best->Some_0.1@.len() == x@.len()
                    &&& limit == cost(residual_under(x@, t, stereo))
                    &&& valid_term(t)
                    &&& stereo || !cross(t)
                },
            },
        decreases terms.len() - k,
    {
        let term: i8 = terms[k];
        assert(valid_term(terms@[k as int]));
        let left: Vec<i32> = try_term(x, term, stereo);
        let c: u128 = residual_cost(left.as_slice());
        if c < limit {
            best = Some((term, left));
            limit = c;
        }
        k = k + 1;
    }
    best
}

fn greedy_pick_terms(x: &[i32], terms: &Vec<i8>, cap: usize, stereo: bool) -> (r: Vec<i8>)
    requires
        terms_ok(terms@, stereo),
        stereo ==> x@.len() % 2 == 0,
    ensures
        r@ == picks(x@, terms@, cap as nat, stereo),
        terms_ok(r@, stereo),
        r@.len() <= cap,
{
    let mut out: Vec<i8> = Vec::new();
    let mut domain: Vec<i32> = copy_of(x);
    assert(out@ + picks(domain@, terms@, cap as nat, stereo) =~= picks(x@, terms@, cap as nat, stereo));
    while out.len() < cap
        invariant
            out@.len() <= cap,
            terms_ok(terms@, stereo),
            terms_ok(out@, stereo),
            stereo ==> domain@.len() % 2 == 0,
            out@ + picks(domain@, terms@, (cap - out@.len()) as nat, stereo) == picks(x@, terms@, cap as nat, stereo),
        decreases cap - out@.len(),
    {
        let ghost before = out@;
        match pick_term(&domain, terms, stereo) {
            None => {
                assert(before + Seq::<i8>::empty() =~= before);
                return out;
            }
            Some((t, left)) => {
                out.push(t);
                proof {
                    let rest = picks(left@, terms@, (cap - out@.len()) as nat, stereo);
                    assert(before + (seq![t] + rest) =~= out@ + rest);
                }
                domain = left;
            }
        }
    }
    assert(out@ + Seq::<i8>::empty() =~= out@);
    out
}

/// A list backwards.
pub open spec fn backwards(x: Seq<i8>) -> Seq<i8> {
    Seq::new(x.len(), |i: int| x[x.len() - 1 - i])
}

fn reversed(x: &Vec<i8>) -> (r: Vec<i8>)
    ensures
        r@ == backwards(x@),
{
    let mut out: Vec<i8> = Vec::new();
    let mut i: usize = x.len();
    while i > 0
        invariant
            i <= x.len(),
            out@.len() == x@.len() - i,
            forall|k: int| 0 <= k < out@.len() ==> out@[k] == x@[x@.len() - 1 - k],
        decreases i,
    {
        i = i - 1;
        out.push(x[i]);
    }
    assert(out@ =~= backwards(x@));
    out
}

/// At most sixteen passes.
pub open spec fn capped(max_passes: usize) -> nat {
    if max_passes <= MAX_NTERMS {
        max_passes as nat
    } else {
        MAX_NTERMS as nat
    }
}

/// The terms of a searched pass list: an encoder applies the last pass first.
pub open spec fn searched_terms(x: Seq<i32>, max_passes: usize, stereo: bool) -> Seq<i8> {
    backwards(picks(x, search_terms(stereo), capped(max_passes), stereo))
}

fn search_for_terms(x: &[i32], max_passes: usize, stereo: bool) -> (r: Vec<i8>)
    requires
        stereo ==> x@.len() % 2 == 0,
    ensures
        r@ == searched_terms(x@, max_passes, stereo),
        terms_ok(r@, stereo),
        r@.len() <= MAX_NTERMS,
{
    let cap: usize = if max_passes <= MAX_NTERMS {
        max_passes
    } else {
        MAX_NTERMS
    };
    let mut terms: Vec<i8> = vec![1, 2, 3, 4, 5, 6, 7, 8, 17, 18];
    if stereo {
        terms.push(-1);
        terms.push(-2);
        terms.push(-3);
    }
    assert(terms@ =~= search_terms(stereo));
    let picked: Vec<i8> = greedy_pick_terms(x, &terms, cap, stereo);
    reversed(&picked)
}

/// The terms of a search can stand in their block, sixteen at most.
pub proof fn lemma_searched_terms(x: Seq<i32>, max_passes: usize, stereo: bool)
    ensures
        terms_ok(searched_terms(x, max_passes, stereo), stereo),
        searched_terms(x, max_passes, stereo).len() <= MAX_NTERMS,
{
    lemma_picks_ok(x, search_terms(stereo), capped(max_passes), stereo);
}

proof fn lemma_winner_ok(x: Seq<i32>, terms: Seq<i8>, k: int, stereo: bool)
    requires
        terms_ok(terms, stereo),
        k <= terms.len(),
    ensures
        match winner(x, terms, k, stereo) {
            None => true,
            Some(t) => valid_term(t) && (stereo || !cross(t)) && cost(residual_under(x, t, stereo)) < cost(x),
        },
    decreases k,
{
    if k > 0 {
        lemma_winner_ok(x, terms, k - 1, stereo);
        assert(valid_term(terms[k - 1]));
    }
}

proof fn lemma_picks_ok(x: Seq<i32>, terms: Seq<i8>, cap: nat, stereo: bool)
    requires
        terms_ok(terms, stereo),
    ensures
        terms_ok(picks(x, terms, cap, stereo), stereo),
        picks(x, terms, cap, stereo).len() <= cap,
    decreases cap,
{
    if cap > 0 {
        lemma_winner_ok(x, terms, terms.len() as int, stereo);
        if let Some(t) = winner(x, terms, terms.len() as int, stereo) {
            lemma_picks_ok(residual_under(x, t, stereo), terms, (cap - 1) as nat, stereo);
        }
    }
}

/// What a sequence of untrained passes leaves, first pass first.
pub open spec fn left_by(x: Seq<i32>, terms: Seq<i8>, stereo: bool) -> Seq<i32>
    decreases terms.len(),
{
    if terms.len() == 0 {
        x
    } else {
        left_by(residual_under(x, terms[0], stereo), terms.skip(1), stereo)
    }
}

/// Each pick of a search lowers the cost: what `n` picks leave costs at least
/// `n` bits less than the samples.
pub proof fn picks_lower_cost(x: Seq<i32>, terms: Seq<i8>, cap: nat, stereo: bool)
    requires
        terms_ok(terms, stereo),
    ensures
        cost(left_by(x, picks(x, terms, cap, stereo), stereo)) + picks(x, terms, cap, stereo).len() <= cost(x),
    decreases cap,
{
    if cap > 0 {
        lemma_winner_ok(x, terms, terms.len() as int, stereo);
        if let Some(t) = winner(x, terms, terms.len() as int, stereo) {
            let y = residual_under(x, t, stereo);
            let p = picks(x, terms, cap, stereo);
            picks_lower_cost(y, terms, (cap - 1) as nat, stereo);
            assert(p.skip(1) =~= picks(y, terms, (cap - 1) as nat, stereo));
        }
    }
}

/// The passes that a search picks for a mono block; none where no pass helps.
pub fn derive_mono_passes_searched(pcm: &[i32], max_passes: usize) -> (r: Result<Vec<DecorrPass>>)
    ensures
        states_of(r) == Ok::<Seq<PassState>, Error>(derived(pcm@, searched_terms(pcm@, max_passes, false), 2, false)),
        r is Ok ==> ready(states(r->Ok_0@), false),
{
    let terms: Vec<i8> = search_for_terms(pcm, max_passes, false);
    Ok(derive_passes(pcm, &terms, 2, false))
}

/// The passes that a search picks for a stereo block; none where no pass helps.
pub fn derive_stereo_passes_searched(pcm: &[i32], max_passes: usize) -> (r: Result<Vec<DecorrPass>>)
    ensures
        states_of(r) == derived_stereo(pcm@, searched_terms(pcm@, max_passes, true), 2),
        r is Ok ==> ready(states(r->Ok_0@), true),
{
    if pcm.len() % 2 != 0 {
        return Err(Error::EncodeStereoOddLength(pcm.len()));
    }
    let terms: Vec<i8> = search_for_terms(pcm, max_passes, true);
    Ok(derive_passes(pcm, &terms, 2, true))
}

// ---------------------------------------------------------------------------
// What a search picks
// ---------------------------------------------------------------------------

/// Every term that can stand in a block is tried.
proof fn lemma_all_tried(t: i8, stereo: bool)
    requires
        valid_term(t),
        stereo || !cross(t),
    ensures
        exists|k: int| 0 <= k < search_terms(stereo).len() && #[trigger] search_terms(stereo)[k] == t,
{
    let s = search_terms(stereo);
    let k: int = if t > 0 {
        if t <= 8 {
            t - 1
        } else {
            t - 9
        }
    } else {
        9 - t
    };
    assert(s[k] == t);
}

/// The place of a term among those that are tried: lags, the shortest first,
/// then extrapolators, then cross-channel terms.
pub open spec fn tried_at(t: i8) -> int {
    if t > 8 {
        t - 9
    } else if t > 0 {
        t - 1
    } else {
        9 - t
    }
}

/// Of terms that cost the same the first wins.
proof fn lemma_winner_first(x: Seq<i32>, terms: Seq<i8>, k: int, i: int, stereo: bool)
    requires
        0 <= i < k <= terms.len(),
        forall|j: int| 0 <= j < terms.len() ==> tried_at(#[trigger] terms[j]) == j,
    ensures
        match winner(x, terms, k, stereo) {
            None => true,
            Some(w) => {
                &&& tried_at(w) < k
                &&& i < tried_at(w) ==> cost(residual_under(x, w, stereo)) < cost(
                    residual_under(x, terms[i], stereo),
                )
            },
        },
    decreases k,
{
    assert(tried_at(terms[k - 1]) == k - 1);
    if k > 1 {
        lemma_winner_first(x, terms, k - 1, if i < k - 1 { i } else { 0 }, stereo);
        if i < k - 1 {
            lemma_winner_least(x, terms, k - 1, i, stereo);
        }
    }
}

/// No term costs less than the winner, and without a winner none helps.
proof fn lemma_winner_least(x: Seq<i32>, terms: Seq<i8>, k: int, i: int, stereo: bool)
    requires
        0 <= i < k <= terms.len(),
    ensures
        match winner(x, terms, k, stereo) {
            None => cost(residual_under(x, terms[i], stereo)) >= cost(x),
            Some(t) => cost(residual_under(x, t, stereo)) <= cost(residual_under(x, terms[i], stereo)),
        },
    decreases k,
{
    if i < k - 1 {
        lemma_winner_least(x, terms, k - 1, i, stereo);
    } else if k > 1 {
        lemma_winner_bound(x, terms, k - 1, stereo);
    }
}

proof fn lemma_winner_bound(x: Seq<i32>, terms: Seq<i8>, k: int, stereo: bool)
    requires
        0 <= k <= terms.len(),
    ensures
        match winner(x, terms, k, stereo) {
            None => true,
            Some(t) => cost(residual_under(x, t, stereo)) < cost(x),
        },
    decreases k,
{
    if k > 0 {
        lemma_winner_bound(x, terms, k - 1, stereo);
    }
}

proof fn lemma_left_push(x: Seq<i32>, ts: Seq<i8>, t: i8, stereo: bool)
    ensures
        left_by(x, seq![t] + ts, stereo) == left_by(residual_under(x, t, stereo), ts, stereo),
{
    assert((seq![t] + ts).skip(1) =~= ts);
}

proof fn lemma_picks_least(x: Seq<i32>, cap: nat, stereo: bool, i: int, t: i8)
    requires
        0 <= i <= picks(x, search_terms(stereo), cap, stereo).len(),
        valid_term(t),
        stereo || !cross(t),
    ensures
        ({
            let p = picks(x, search_terms(stereo), cap, stereo);
            let y = left_by(x, p.take(i), stereo);
            &&& i < p.len() ==> cost(residual_under(y, p[i], stereo)) <= cost(residual_under(y, t, stereo))
            &&& i < p.len() && tried_at(t) < tried_at(p[i]) ==> cost(residual_under(y, p[i], stereo)) < cost(
                residual_under(y, t, stereo),
            )
            &&& i < p.len() ==> cost(residual_under(y, p[i], stereo)) < cost(y)
            &&& i == p.len() && i < cap ==> cost(residual_under(y, t, stereo)) >= cost(y)
        }),
    decreases cap,
{
    let terms = search_terms(stereo);
    let p = picks(x, terms, cap, stereo);
    let n = terms.len() as int;
    lemma_all_tried(t, stereo);
    let k = choose|k: int| 0 <= k < terms.len() && #[trigger] terms[k] == t;
    if cap > 0 {
        lemma_winner_least(x, terms, n, k, stereo);
        lemma_winner_first(x, terms, n, k, stereo);
        lemma_winner_bound(x, terms, n, stereo);
        match winner(x, terms, n, stereo) {
            None => {
                assert(p.take(0) =~= Seq::empty());
            },
            Some(w) => {
                if i == 0 {
                    assert(p.take(0) =~= Seq::empty());
                } else {
                    let z = residual_under(x, w, stereo);
                    let rest = picks(z, terms, (cap - 1) as nat, stereo);
                    assert(p.take(i) =~= seq![w] + rest.take(i - 1));
                    lemma_left_push(x, rest.take(i - 1), w, stereo);
                    lemma_picks_least(z, (cap - 1) as nat, stereo, i - 1, t);
                }
            },
        }
    } else {
        assert(p.take(0) =~= Seq::empty());
    }
}

/// A search picks its terms one behind the other, the last of the list first.
/// Over what the picks before it leave, no term that could stand in the block
/// leaves residuals of lower cost than the picked one, and none that is tried
/// before it residuals of the same cost; and the search stops
/// short of the passes it may take only where no term lowers the cost.
pub proof fn searched_terms_are_cheapest(x: Seq<i32>, max_passes: usize, stereo: bool, i: int, t: i8)
    requires
        0 <= i <= searched_terms(x, max_passes, stereo).len(),
        1 <= t <= 8 || t == 17 || t == 18 || stereo && -3 <= t <= -1,
    ensures
        ({
            let p = searched_terms(x, max_passes, stereo);
            let n = p.len() as int;
            let y = left_by(x, backwards(p).take(i), stereo);
            &&& i < n ==> cost(residual_under(y, p[n - 1 - i], stereo)) <= cost(residual_under(y, t, stereo))
            &&& i < n && tried_at(t) < tried_at(p[n - 1 - i]) ==> cost(residual_under(y, p[n - 1 - i], stereo)) < cost(
                residual_under(y, t, stereo),
            )
            &&& i < n ==> cost(residual_under(y, p[n - 1 - i], stereo)) < cost(y)
            &&& i == n && n < max_passes && n < 16 ==> cost(residual_under(y, t, stereo)) >= cost(y)
            &&& n <= max_passes && n <= 16
        }),
{
    let p = picks(x, search_terms(stereo), capped(max_passes), stereo);
    lemma_picks_least(x, capped(max_passes), stereo, i, t);
    lemma_picks_ok(x, search_terms(stereo), capped(max_passes), stereo);
    assert(backwards(backwards(p)) =~= p);
}

/// The cost of a buffer is that of its parts, and the cost of one sample is
/// the number of bits of its absolute value.
pub proof fn costs_add_up(a: Seq<i32>, b: Seq<i32>, v: i32)
    ensures
        cost(a + b) == cost(a) + cost(b),
        cost(seq![v]) == 0 <==> v == 0,
        v != 0 ==> pow2((cost(seq![v]) - 1) as nat) <= absolute(v) < pow2(cost(seq![v])),
        absolute(v) == (if v < 0 {
            -v
        } else {
            v as int
        }),
    decreases b.len(),
{
    if b.len() == 0 {
        assert(a + b =~= a);
    } else {
        costs_add_up(a, b.drop_last(), v);
        assert((a + b).drop_last() =~= a + b.drop_last());
        assert((a + b).last() == b.last());
    }
    let one = seq![v];
    assert(one.drop_last() =~= Seq::empty());
    assert(cost(one.drop_last()) == 0);
    crate::arith::lemma_bit_length(absolute(v));
}

/// Training runs the passes over the samples: each round's weights are those
/// that the passes of the round before end in, as a weight byte holds them.
pub proof fn training_runs_the_passes(x: Seq<i32>, terms: Seq<i8>, iterations: u32, stereo: bool, i: int)
    requires
        1 <= iterations < u32::MAX,
        0 <= i < terms.len(),
    ensures
        ({
            let start = Seq::new(terms.len(), |k: int| starting_pass(terms[k], (0i32, 0i32)));
            let first = encoded(start, x, stereo).0;
            let before = derived(x, terms, iterations, stereo);
            let ended = encoded(before, x, stereo).0;
            let after = derived(x, terms, (iterations + 1) as u32, stereo);
            &&& derived(x, terms, 1, stereo)[i].wa == quantized_weight(first[i].wa)
            &&& derived(x, terms, 1, stereo)[i].wb == quantized_weight(first[i].wb)
            &&& after[i].wa == quantized_weight(ended[i].wa)
            &&& after[i].wb == quantized_weight(ended[i].wb)
            &&& after[i].term == terms[i] && after[i].delta == 2
            &&& forall|k: int| 0 <= k < 8 ==> after[i].ha[k] == 0 && after[i].hb[k] == 0
        }),
{
    let start = Seq::new(terms.len(), |k: int| starting_pass(terms[k], (0i32, 0i32)));
    assert(starting_passes(terms, trained(x, terms, 0, stereo)) =~= start);
}

/// A term is tried as a pass that starts from nothing: no weights, no samples before
/// the first, and a step of two.
pub proof fn trials_start_from_nothing(x: Seq<i32>, t: i8, stereo: bool, p: PassState)
    requires
        p.term == t && p.delta == 2 && p.wa == 0 && p.wb == 0,
        p.ha == Seq::new(8, |k: int| 0i32),
        p.hb == Seq::new(8, |k: int| 0i32),
    ensures
        stereo ==> residual_under(x, t, stereo) == encode_stereo_all(seq![p], x).1,
        !stereo ==> residual_under(x, t, stereo) == encode_mono_all(seq![p], x).1,
{
    assert(no_history() =~= p.ha);
    assert(starting_pass(t, (0i32, 0i32)) == p);
}

} // verus!
