//! Decorrelation metadata: the three payloads that describe a pass list.
//!
//! One byte per pass holds its term and step, one weight byte per pass and
//! channel follows, and the seed samples stand as log words, the first
//! channel's before the second's. The payloads list the passes in the order
//! in which the decoder applies them.
use vstd::prelude::*;
use crate::decorrelation::{DecorrPass, MAX_NTERMS, PassState, all_wf, cross, history_of, mono_ready, no_history, seed_count, states, valid_term};
use crate::error::{Error, Result};
use crate::logpack::{exp_of, expand_log_word, pack_log_word, quantize_log_value, quantized, signed_log, word_bytes, word_of, lemma_word_roundtrip};

verus! {

/// The term in a term byte.
pub open spec fn term_of(b: u8) -> i8 {
    (b % 32 - 5) as i8
}

/// The weight step in a term byte.
pub open spec fn delta_of(b: u8) -> i32 {
    (b / 32) as i32
}

/// A byte read as a signed number.
pub open spec fn signed_byte(b: u8) -> int {
    if b < 128 {
        b as int
    } else {
        b - 256
    }
}

/// The weight in a weight byte.
#[verifier::opaque]
pub open spec fn weight_of(b: u8) -> i32 {
    let n = 8 * signed_byte(b);
    if n > 0 {
        (n + (n + 64) / 128) as i32
    } else {
        n as i32
    }
}

/// The weight byte nearest to a weight.
#[verifier::opaque]
pub open spec fn weight_byte(w: i32) -> u8 {
    let c = if w > 1024 {
        1024
    } else if w < -1024 {
        -1024
    } else {
        w as int
    };
    let d = if c > 0 {
        c - (c + 64) / 128
    } else {
        c
    };
    (((d + 4) / 8) % 256) as u8
}

/// The nearest weight a byte holds.
pub open spec fn quantized_weight(w: i32) -> i32 {
    weight_of(weight_byte(w))
}

/// Rounding a weight twice is rounding it once.
pub proof fn weight_rounding_is_idempotent(w: i32)
    ensures
        quantized_weight(quantized_weight(w)) == quantized_weight(w),
        -1024 <= quantized_weight(w) <= 1024,
{
    reveal(weight_of);
    reveal(weight_byte);
}

/// Expands a weight byte.
pub fn expand_weight(b: u8) -> (r: i32)
    ensures
        r == weight_of(b),
{
    proof {
        reveal(weight_of);
    }
    let s: i32 = if b < 128 {
        b as i32
    } else {
        b as i32 - 256
    };
    let n: i32 = 8 * s;
    if n > 0 {
        n + ((n + 64) as u32 / 128) as i32
    } else {
        n
    }
}

/// The byte nearest to a weight.
pub fn pack_weight(w: i32) -> (r: u8)
    ensures
        r == weight_byte(w),
{
    proof {
        reveal(weight_byte);
    }
    let c: i32 = if w > 1024 {
        1024
    } else if w < -1024 {
        -1024
    } else {
        w
    };
    let d: i32 = if c > 0 {
        c - ((c + 64) as u32 / 128) as i32
    } else {
        c
    };
    // 2048 is a multiple of eight whose quotient is a multiple of 256.
    (((d + 4 + 2048) as u32 / 8) % 256) as u8
}

/// Rounds a weight to one that a weight byte holds.
pub fn quantize_weight(w: i32) -> (r: i32)
    ensures
        r == quantized_weight(w),
{
    expand_weight(pack_weight(w))
}

// ---------------------------------------------------------------------------
// Reading the payloads
// ---------------------------------------------------------------------------

/// The first term byte from `i` on that is refused, and why.
pub open spec fn bad_term(terms: Seq<u8>, stereo: bool, i: int) -> Option<Error>
    decreases terms.len() - i,
{
    if i < 0 || i >= terms.len() {
        None
    } else if !valid_term(term_of(terms[i])) {
        Some(Error::InvalidDecorrelationTerm(term_of(terms[i])))
    } else if !stereo && cross(term_of(terms[i])) {
        Some(Error::CrossTermOnMono(term_of(terms[i])))
    } else {
        bad_term(terms, stereo, i + 1)
    }
}

/// The seed samples in a payload of log words.
pub open spec fn seed_values(samples: Seq<u8>) -> Seq<i32> {
    Seq::new(samples.len() / 2, |k: int| exp_of(word_of(samples[2 * k], samples[2 * k + 1])))
}

/// The seed samples of one pass, both channels.
pub open spec fn seeds_needed(term: i8, stereo: bool) -> nat {
    if stereo {
        2 * seed_count(term)
    } else {
        seed_count(term)
    }
}

/// The pass that term byte `i` opens, with seeds from `at` on.
#[verifier::opaque]
pub open spec fn pass_at(terms: Seq<u8>, weights: Seq<u8>, seeds: Seq<i32>, stereo: bool, i: int, at: int) -> PassState {
    let term = term_of(terms[i]);
    let n = seed_count(term) as int;
    PassState {
        term,
        delta: delta_of(terms[i]),
        wa: weight_of(
            if stereo {
                weights[2 * i]
            } else {
                weights[i]
            },
        ),
        wb: if stereo {
            weight_of(weights[2 * i + 1])
        } else {
            0
        },
        ha: history_of(term, seeds.subrange(at, at + n)),
        hb: if stereo {
            history_of(term, seeds.subrange(at + n, at + 2 * n))
        } else {
            no_history()
        },
    }
}

/// The passes from term byte `i` on, with seeds from `at` on. Every seed must be used.
pub open spec fn passes_from(
    terms: Seq<u8>,
    weights: Seq<u8>,
    seeds: Seq<i32>,
    stereo: bool,
    i: int,
    at: int,
) -> core::result::Result<Seq<PassState>, Error>
    decreases terms.len() - i,
{
    if i < 0 || i >= terms.len() {
        if at < seeds.len() {
            Err(Error::DecorrelationSampleCountMismatch { expected: at as usize, actual: seeds.len() as usize })
        } else {
            Ok(Seq::empty())
        }
    } else {
        let term = term_of(terms[i]);
        let need = seeds_needed(term, stereo) as int;
        if seeds.len() - at < need {
            Err(Error::DecorrelationSeedUnderflow { term, supplied: (seeds.len() - at) as usize })
        } else {
            match passes_from(terms, weights, seeds, stereo, i + 1, at + need) {
                Err(e) => Err(e),
                Ok(rest) => Ok(seq![pass_at(terms, weights, seeds, stereo, i, at)] + rest),
            }
        }
    }
}

/// The pass list that three payloads describe, or why they describe none.
pub open spec fn passes_of(terms: Seq<u8>, weights: Seq<u8>, samples: Seq<u8>, stereo: bool) -> core::result::Result<
    Seq<PassState>,
    Error,
> {
    let wanted = if stereo {
        2 * terms.len()
    } else {
        terms.len()
    };
    if terms.len() > MAX_NTERMS {
        Err(Error::TooManyDecorrelationPasses(terms.len() as usize))
    } else if bad_term(terms, stereo, 0) is Some {
        Err(bad_term(terms, stereo, 0)->Some_0)
    } else if weights.len() != wanted {
        Err(Error::DecorrelationWeightCountMismatch { expected: wanted as usize, actual: weights.len() as usize })
    } else if samples.len() % 2 == 1 {
        Err(Error::DecorrelationSamplesOddByteCount(samples.len() as usize))
    } else {
        passes_from(terms, weights, seed_values(samples), stereo, 0, 0)
    }
}

/// The states of a result.
pub open spec fn states_of(r: Result<Vec<DecorrPass>>) -> core::result::Result<Seq<PassState>, Error> {
    match r {
        Ok(v) => Ok(states(v@)),
        Err(e) => Err(e),
    }
}

/// Passes fit for a mono or a stereo block.
pub open spec fn ready(ps: Seq<PassState>, stereo: bool) -> bool {
    if stereo {
        all_wf(ps)
    } else {
        mono_ready(ps)
    }
}

proof fn lemma_bad_term_none(terms: Seq<u8>, stereo: bool, i: int, k: int)
    requires
        0 <= i <= k < terms.len(),
        bad_term(terms, stereo, i) is None,
    ensures
        valid_term(term_of(terms[k])),
        !stereo ==> !cross(term_of(terms[k])),
    decreases k - i,
{
    if k > i {
        lemma_bad_term_none(terms, stereo, i + 1, k);
    }
}

fn find_bad_term(terms: &[u8], stereo: bool) -> (r: Option<Error>)
    ensures
        r == bad_term(terms@, stereo, 0),
{
    let mut i: usize = 0;
    while i < terms.len()
        invariant
            i <= terms.len(),
            bad_term(terms@, stereo, 0) == bad_term(terms@, stereo, i as int),
        decreases terms.len() - i,
    {
        let term: i8 = (terms[i] % 32) as i8 - 5;
        let valid: bool = (1 <= term && term <= 8) || term == 17 || term == 18 || (-3 <= term && term <= -1);
        if !valid {
            return Some(Error::InvalidDecorrelationTerm(term));
        }
        if !stereo && term < 0 {
            return Some(Error::CrossTermOnMono(term));
        }
        i = i + 1;
    }
    None
}

/// Expands every log word of a payload.
pub fn expand_seeds(samples: &[u8]) -> (r: Vec<i32>)
    requires
        samples.len() % 2 == 0,
    ensures
        r@ == seed_values(samples@),
{
    let mut out: Vec<i32> = Vec::new();
    let mut i: usize = 0;
    while i < samples.len()
        invariant
            i <= samples.len(),
            i % 2 == 0,
            samples.len() % 2 == 0,
            out@.len() == i / 2,
            forall|k: int| 0 <= k < i / 2 ==> out@[k] == exp_of(word_of(samples@[2 * k], samples@[2 * k + 1])),
        decreases samples.len() - i,
    {
        out.push(expand_log_word(samples[i], samples[i + 1]));
        i = i + 2;
    }
    assert(out@ =~= seed_values(samples@));
    out
}

/// Reads a pass list from its payloads.
pub fn assemble_passes(terms: &[u8], weights: &[u8], samples: &[u8], stereo: bool) -> (r: Result<Vec<DecorrPass>>)
    ensures
        states_of(r) == passes_of(terms@, weights@, samples@, stereo),
        r is Ok ==> ready(states(r->Ok_0@), stereo),
{
    if terms.len() > MAX_NTERMS {
        return Err(Error::TooManyDecorrelationPasses(terms.len()));
    }
    if let Some(e) = find_bad_term(terms, stereo) {
        return Err(e);
    }
    let wanted: usize = if stereo {
        2 * terms.len()
    } else {
        terms.len()
    };
    if weights.len() != wanted {
        return Err(Error::DecorrelationWeightCountMismatch { expected: wanted, actual: weights.len() });
    }
    if samples.len() % 2 == 1 {
        return Err(Error::DecorrelationSamplesOddByteCount(samples.len()));
    }
    let seeds: Vec<i32> = expand_seeds(samples);
    let mut out: Vec<DecorrPass> = Vec::new();
    let mut i: usize = 0;
    let mut at: usize = 0;
    let ghost whole = passes_from(terms@, weights@, seeds@, stereo, 0, 0);
    proof {
        if whole is Ok {
            assert(states(out@) + whole->Ok_0 =~= whole->Ok_0);
        }
    }
    while i < terms.len()
        invariant
            i <= terms.len() <= MAX_NTERMS,
            bad_term(terms@, stereo, 0) is None,
            weights.len() == (if stereo { 2 * terms.len() } else { terms.len() as int }),
            at <= seeds.len(),
            whole == passes_from(terms@, weights@, seeds@, stereo, 0, 0),
            passes_of(terms@, weights@, samples@, stereo) == whole,
            ready(states(out@), stereo),
            match passes_from(terms@, weights@, seeds@, stereo, i as int, at as int) {
                Ok(rest) => whole == Ok::<Seq<PassState>, Error>(states(out@) + rest),
                Err(e) => whole == Err::<Seq<PassState>, Error>(e),
            },
        decreases terms.len() - i,
    {
        proof {
            lemma_bad_term_none(terms@, stereo, 0, i as int);
        }
        let term: i8 = (terms[i] % 32) as i8 - 5;
        let n: usize = if term > 8 {
            2
        } else if term > 0 {
            term as usize
        } else {
            1
        };
        let need: usize = if stereo {
            2 * n
        } else {
            n
        };
        if seeds.len() - at < need {
            return Err(Error::DecorrelationSeedUnderflow { term, supplied: seeds.len() - at });
        }
        let delta: i32 = (terms[i] / 32) as i32;
        let seeds_a = vstd::slice::slice_subrange(seeds.as_slice(), at, at + n);
        let made: Result<DecorrPass> = if stereo {
            let seeds_b = vstd::slice::slice_subrange(seeds.as_slice(), at + n, at + need);
            DecorrPass::new(term, delta, expand_weight(weights[2 * i]), expand_weight(weights[2 * i + 1]), seeds_a, seeds_b)
        } else {
            DecorrPass::new(term, delta, expand_weight(weights[i]), 0, seeds_a, &[])
        };
        let p: DecorrPass = match made {
            Err(e) => {
                return Err(e);
            }
            Ok(p) => p,
        };
        let ghost before = states(out@);
        let ghost here = pass_at(terms@, weights@, seeds@, stereo, i as int, at as int);
        proof {
            reveal(pass_at);
        }
        assert(p@ =~= here);
        out.push(p);
        proof {
            assert(states(out@) =~= before.push(here));
            let later = passes_from(terms@, weights@, seeds@, stereo, i + 1, at + need);
            if later is Ok {
                assert(before + (seq![here] + later->Ok_0) =~= states(out@) + later->Ok_0);
            }
            assert forall|k: int| 0 <= k < states(out@).len() implies (#[trigger] states(out@)[k]).wf() && (stereo
                || !cross(states(out@)[k].term)) by {
                if k < before.len() {
                    assert(states(out@)[k] == before[k]);
                }
            }
        }
        i = i + 1;
        at = at + need;
    }
    if at < seeds.len() {
        return Err(Error::DecorrelationSampleCountMismatch { expected: at, actual: seeds.len() });
    }
    assert(states(out@) + Seq::empty() =~= states(out@));
    Ok(out)
}

/// Reads a mono pass list from its payloads.
pub fn assemble_mono_passes(terms: &[u8], weights: &[u8], samples: &[u8]) -> (r: Result<Vec<DecorrPass>>)
    ensures
        states_of(r) == passes_of(terms@, weights@, samples@, false),
        r is Ok ==> mono_ready(states(r->Ok_0@)),
{
    assemble_passes(terms, weights, samples, false)
}

/// Reads a stereo pass list from its payloads.
pub fn assemble_stereo_passes(terms: &[u8], weights: &[u8], samples: &[u8]) -> (r: Result<Vec<DecorrPass>>)
    ensures
        states_of(r) == passes_of(terms@, weights@, samples@, true),
        r is Ok ==> all_wf(states(r->Ok_0@)),
{
    assemble_passes(terms, weights, samples, true)
}

// ---------------------------------------------------------------------------
// Writing the payloads
// ---------------------------------------------------------------------------

/// Seed `m` of a history, in payload order.
pub open spec fn seed_at(term: i8, h: Seq<i32>, m: int) -> i32 {
    if term > 8 {
        h[m]
    } else if term > 0 {
        h[term - 1 - m]
    } else {
        h[0]
    }
}

/// The log words of the seeds from `m` on; a seed that no word holds is refused.
pub open spec fn seed_bytes(term: i8, h: Seq<i32>, m: int) -> core::result::Result<Seq<u8>, Error>
    decreases seed_count(term) - m,
{
    if m >= seed_count(term) {
        Ok(Seq::empty())
    } else {
        let s = seed_at(term, h, m);
        if quantized(s) != s {
            Err(Error::EncodeSeedNotRepresentable(s))
        } else {
            match seed_bytes(term, h, m + 1) {
                Err(e) => Err(e),
                Ok(rest) => Ok(word_bytes(signed_log(s)) + rest),
            }
        }
    }
}

/// Three payloads.
#[verifier::ext_equal]
pub struct Payloads {
    /// Term bytes.
    pub terms: Seq<u8>,
    /// Weight bytes.
    pub weights: Seq<u8>,
    /// Seed words.
    pub samples: Seq<u8>,
}

/// The payload bytes of one pass.
#[verifier::opaque]
pub open spec fn pass_payloads(p: PassState, stereo: bool) -> core::result::Result<Payloads, Error> {
    if !stereo && cross(p.term) {
        Err(Error::CrossTermOnMono(p.term))
    } else if !(0 <= p.delta <= 7) {
        Err(Error::EncodeDeltaOutOfRange(p.delta))
    } else if quantized_weight(p.wa) != p.wa {
        Err(Error::EncodeWeightNotRepresentable(p.wa))
    } else if stereo && quantized_weight(p.wb) != p.wb {
        Err(Error::EncodeWeightNotRepresentable(p.wb))
    } else {
        let term = seq![((p.term + 5) % 32 + 32 * p.delta) as u8];
        match seed_bytes(p.term, p.ha, 0) {
            Err(e) => Err(e),
            Ok(a) => if stereo {
                match seed_bytes(p.term, p.hb, 0) {
                    Err(e) => Err(e),
                    Ok(b) => Ok(
                        Payloads { terms: term, weights: seq![weight_byte(p.wa), weight_byte(p.wb)], samples: a + b },
                    ),
                }
            } else {
                Ok(Payloads { terms: term, weights: seq![weight_byte(p.wa)], samples: a })
            },
        }
    }
}

/// One pass's payload bytes before those of the rest.
pub open spec fn payloads_join(a: Payloads, b: Payloads) -> Payloads {
    Payloads { terms: a.terms + b.terms, weights: a.weights + b.weights, samples: a.samples + b.samples }
}

/// The payloads of the passes from `i` on.
pub open spec fn payloads_from(ps: Seq<PassState>, stereo: bool, i: int) -> core::result::Result<Payloads, Error>
    decreases ps.len() - i,
{
    if i < 0 || i >= ps.len() {
        Ok(Payloads { terms: Seq::empty(), weights: Seq::empty(), samples: Seq::empty() })
    } else {
        match pass_payloads(ps[i], stereo) {
            Err(e) => Err(e),
            Ok(one) => match payloads_from(ps, stereo, i + 1) {
                Err(e) => Err(e),
                Ok(rest) => Ok(payloads_join(one, rest)),
            },
        }
    }
}

/// The payloads of a pass list, or why it has none.
pub open spec fn payloads_of(ps: Seq<PassState>, stereo: bool) -> core::result::Result<Payloads, Error> {
    if ps.len() > MAX_NTERMS {
        Err(Error::TooManyDecorrelationPasses(ps.len() as usize))
    } else {
        payloads_from(ps, stereo, 0)
    }
}

/// The payloads of a result.
pub open spec fn payloads_view(r: Result<(Vec<u8>, Vec<u8>, Vec<u8>)>) -> core::result::Result<Payloads, Error> {
    match r {
        Ok((t, w, s)) => Ok(Payloads { terms: t@, weights: w@, samples: s@ }),
        Err(e) => Err(e),
    }
}

fn push_seeds(out: &mut Vec<u8>, term: i8, h: &[i32; 8]) -> (r: Result<()>)
    requires
        valid_term(term),
    ensures
        match seed_bytes(term, h@, 0) {
            Ok(bytes) => r is Ok && final(out)@ == old(out)@ + bytes,
            Err(e) => r == Err::<(), Error>(e),
        },
{
    let n: usize = if term > 8 {
        2
    } else if term > 0 {
        term as usize
    } else {
        1
    };
    let mut m: usize = 0;
    let ghost whole = seed_bytes(term, h@, 0);
    proof {
        if whole is Ok {
            assert(out@ + whole->Ok_0 =~= old(out)@ + whole->Ok_0);
        }
    }
    while m < n
        invariant
            valid_term(term),
            n == seed_count(term),
            m <= n <= 8,
            whole == seed_bytes(term, h@, 0),
            match seed_bytes(term, h@, m as int) {
                Ok(rest) => whole is Ok && old(out)@ + whole->Ok_0 == out@ + rest,
                Err(e) => whole == Err::<Seq<u8>, Error>(e),
            },
        decreases n - m,
    {
        let s: i32 = if term > 8 {
            h[m]
        } else if term > 0 {
            h[n - 1 - m]
        } else {
            h[0]
        };
        assert(s == seed_at(term, h@, m as int));
        if quantize_log_value(s) != s {
            return Err(Error::EncodeSeedNotRepresentable(s));
        }
        let word: [u8; 2] = pack_log_word(s);
        let ghost before = out@;
        out.push(word[0]);
        out.push(word[1]);
        proof {
            assert(out@ =~= before + word_bytes(signed_log(s)));
            let later = seed_bytes(term, h@, m + 1);
            if later is Ok {
                assert(before + (word_bytes(signed_log(s)) + later->Ok_0) =~= out@ + later->Ok_0);
            }
        }
        m = m + 1;
    }
    assert(out@ + Seq::<u8>::empty() =~= out@);
    Ok(())
}

/// Writes the three payloads of a pass list.
pub fn serialize_passes(passes: &[DecorrPass], stereo: bool) -> (r: Result<(Vec<u8>, Vec<u8>, Vec<u8>)>)
    requires
        all_wf(states(passes@)),
    ensures
        payloads_view(r) == payloads_of(states(passes@), stereo),
{
    if passes.len() > MAX_NTERMS {
        return Err(Error::TooManyDecorrelationPasses(passes.len()));
    }
    let ghost ps = states(passes@);
    let mut terms: Vec<u8> = Vec::new();
    let mut weights: Vec<u8> = Vec::new();
    let mut samples: Vec<u8> = Vec::new();
    let mut i: usize = 0;
    let ghost whole = payloads_from(ps, stereo, 0);
    proof {
        if whole is Ok {
            assert(payloads_join(Payloads { terms: terms@, weights: weights@, samples: samples@ }, whole->Ok_0)
                =~= whole->Ok_0);
        }
    }
    while i < passes.len()
        invariant
            ps == states(passes@),
            all_wf(ps),
            i <= passes.len() <= MAX_NTERMS,
            whole == payloads_from(ps, stereo, 0),
            payloads_of(ps, stereo) == whole,
            match payloads_from(ps, stereo, i as int) {
                Ok(rest) => whole == Ok::<Payloads, Error>(
                    payloads_join(Payloads { terms: terms@, weights: weights@, samples: samples@ }, rest),
                ),
                Err(e) => whole == Err::<Payloads, Error>(e),
            },
        decreases passes.len() - i,
    {
        let p: DecorrPass = passes[i];
        assert(p@ == ps[i as int]);
        assert(ps[i as int].wf());
        proof {
            reveal(pass_payloads);
        }
        let ghost before = Payloads { terms: terms@, weights: weights@, samples: samples@ };
        if !stereo && p.term < 0 {
            return Err(Error::CrossTermOnMono(p.term));
        }
        if p.delta < 0 || p.delta > 7 {
            return Err(Error::EncodeDeltaOutOfRange(p.delta));
        }
        if quantize_weight(p.weight_a) != p.weight_a {
            return Err(Error::EncodeWeightNotRepresentable(p.weight_a));
        }
        if stereo && quantize_weight(p.weight_b) != p.weight_b {
            return Err(Error::EncodeWeightNotRepresentable(p.weight_b));
        }
        terms.push((((p.term + 5) as u8) % 32) + 32 * (p.delta as u8));
        weights.push(pack_weight(p.weight_a));
        if stereo {
            weights.push(pack_weight(p.weight_b));
        }
        match push_seeds(&mut samples, p.term, &p.history_a) {
            Err(e) => {
                return Err(e);
            }
            Ok(()) => {}
        }
        if stereo {
            match push_seeds(&mut samples, p.term, &p.history_b) {
                Err(e) => {
                    return Err(e);
                }
                Ok(()) => {}
            }
        }
        proof {
            let one = pass_payloads(p@, stereo)->Ok_0;
            let now = Payloads { terms: terms@, weights: weights@, samples: samples@ };
            assert(now =~= payloads_join(before, one));
            let later = payloads_from(ps, stereo, i + 1);
            if later is Ok {
                assert(payloads_join(before, payloads_join(one, later->Ok_0)) =~= payloads_join(now, later->Ok_0));
            }
        }
        i = i + 1;
    }
    proof {
        let now = Payloads { terms: terms@, weights: weights@, samples: samples@ };
        assert(payloads_join(now, payloads_from(ps, stereo, i as int)->Ok_0) =~= now);
    }
    Ok((terms, weights, samples))
}

/// Writes the three payloads of a mono pass list.
pub fn serialize_mono_passes(passes: &[DecorrPass]) -> (r: Result<(Vec<u8>, Vec<u8>, Vec<u8>)>)
    requires
        all_wf(states(passes@)),
    ensures
        payloads_view(r) == payloads_of(states(passes@), false),
{
    serialize_passes(passes, false)
}

/// Writes the three payloads of a stereo pass list.
pub fn serialize_stereo_passes(passes: &[DecorrPass]) -> (r: Result<(Vec<u8>, Vec<u8>, Vec<u8>)>)
    requires
        all_wf(states(passes@)),
    ensures
        payloads_view(r) == payloads_of(states(passes@), true),
{
    serialize_passes(passes, true)
}

// ---------------------------------------------------------------------------
// Reading back what was written
// ---------------------------------------------------------------------------

/// A history that holds nothing beyond the seeds of its term.
pub open spec fn seeds_only(term: i8, h: Seq<i32>) -> bool {
    h.len() == 8 && forall|j: int| seed_count(term) <= j < 8 ==> h[j] == 0
}

/// A pass that its payload bytes describe in full.
pub open spec fn describable(p: PassState, stereo: bool) -> bool {
    &&& p.wf()
    &&& seeds_only(p.term, p.ha)
    &&& if stereo {
        seeds_only(p.term, p.hb)
    } else {
        p.wb == 0 && p.hb == no_history()
    }
}

/// The seeds of a history, in payload order, from `m` on.
pub open spec fn seeds_of(term: i8, h: Seq<i32>, m: int) -> Seq<i32> {
    Seq::new((seed_count(term) - m) as nat, |k: int| seed_at(term, h, m + k))
}

proof fn lemma_seed_bytes(term: i8, h: Seq<i32>, m: int)
    requires
        0 <= m <= seed_count(term),
        seed_bytes(term, h, m) is Ok,
    ensures
        seed_bytes(term, h, m)->Ok_0.len() == 2 * (seed_count(term) - m),
        seed_values(seed_bytes(term, h, m)->Ok_0) == seeds_of(term, h, m),
    decreases seed_count(term) - m,
{
    let bytes = seed_bytes(term, h, m)->Ok_0;
    if m < seed_count(term) {
        let s = seed_at(term, h, m);
        lemma_seed_bytes(term, h, m + 1);
        lemma_word_roundtrip(s);
        let rest = seed_bytes(term, h, m + 1)->Ok_0;
        lemma_seed_values_join(word_bytes(signed_log(s)), rest);
        assert(seed_values(word_bytes(signed_log(s))) =~= seq![s]);
        assert(seed_values(bytes) =~= seq![s] + seeds_of(term, h, m + 1));
        assert(seeds_of(term, h, m) =~= seq![s] + seeds_of(term, h, m + 1));
    } else {
        assert(seed_values(bytes) =~= seeds_of(term, h, m));
    }
}

proof fn lemma_seed_values_join(a: Seq<u8>, b: Seq<u8>)
    requires
        a.len() % 2 == 0,
    ensures
        seed_values(a + b) == seed_values(a) + seed_values(b),
{
    assert(seed_values(a + b) =~= seed_values(a) + seed_values(b));
}

proof fn lemma_history_of_seeds(term: i8, h: Seq<i32>)
    requires
        valid_term(term),
        seeds_only(term, h),
    ensures
        history_of(term, seeds_of(term, h, 0)) == h,
{
    assert(history_of(term, seeds_of(term, h, 0)) =~= h);
}

proof fn lemma_pass_here(p: PassState, stereo: bool, i: int, done: Payloads, rest: Payloads)
    requires
        0 <= i,
        describable(p, stereo),
        pass_payloads(p, stereo) is Ok,
        done.terms.len() == i,
        done.weights.len() == (if stereo { 2 * i } else { i }),
        done.samples.len() % 2 == 0,
    ensures
        ({
            let one = pass_payloads(p, stereo)->Ok_0;
            let all = payloads_join(payloads_join(done, one), rest);
            let at = done.samples.len() as int / 2;
            let next = payloads_join(done, one);
            &&& next.terms.len() == i + 1
            &&& next.weights.len() == (if stereo { 2 * (i + 1) } else { i + 1 })
            &&& next.samples.len() == 2 * (at + seeds_needed(p.term, stereo))
            &&& term_of(all.terms[i]) == p.term
            &&& stereo || !cross(p.term)
            &&& seed_values(all.samples).len() - at >= seeds_needed(p.term, stereo)
            &&& pass_at(all.terms, all.weights, seed_values(all.samples), stereo, i, at) == p
        }),
{
    reveal(pass_at);
    reveal(pass_payloads);
    let one = pass_payloads(p, stereo)->Ok_0;
    let all = payloads_join(payloads_join(done, one), rest);
    let n = seed_count(p.term) as int;
    let at = done.samples.len() as int / 2;
    let a = seed_bytes(p.term, p.ha, 0)->Ok_0;
    let b = if stereo {
        seed_bytes(p.term, p.hb, 0)->Ok_0
    } else {
        Seq::empty()
    };
    lemma_seed_bytes(p.term, p.ha, 0);
    if stereo {
        lemma_seed_bytes(p.term, p.hb, 0);
    }
    assert(all.terms[i] == one.terms[0]);
    let seeds = seed_values(all.samples);
    assert(all.samples =~= done.samples + (a + (b + rest.samples)));
    lemma_seed_values_join(done.samples, a + (b + rest.samples));
    lemma_seed_values_join(a, b + rest.samples);
    lemma_seed_values_join(b, rest.samples);
    assert(seeds.subrange(at, at + n) =~= seeds_of(p.term, p.ha, 0));
    lemma_history_of_seeds(p.term, p.ha);
    if stereo {
        assert(seeds.subrange(at + n, at + 2 * n) =~= seeds_of(p.term, p.hb, 0));
        lemma_history_of_seeds(p.term, p.hb);
        assert(all.weights[2 * i] == one.weights[0]);
        assert(all.weights[2 * i + 1] == one.weights[1]);
    } else {
        assert(all.weights[i] == one.weights[0]);
    }
    assert(pass_at(all.terms, all.weights, seeds, stereo, i, at) =~= p);
}

proof fn lemma_passes_read_back(ps: Seq<PassState>, stereo: bool, i: int, done: Payloads, all: Payloads)
    requires
        0 <= i <= ps.len() <= MAX_NTERMS,
        forall|k: int| 0 <= k < ps.len() ==> describable(#[trigger] ps[k], stereo),
        payloads_from(ps, stereo, i) is Ok,
        all == payloads_join(done, payloads_from(ps, stereo, i)->Ok_0),
        done.terms.len() == i,
        done.weights.len() == (if stereo { 2 * i } else { i }),
        done.samples.len() % 2 == 0,
    ensures
        bad_term(all.terms, stereo, i) is None,
        all.terms.len() == ps.len(),
        all.weights.len() == (if stereo { 2 * ps.len() } else { ps.len() }),
        all.samples.len() % 2 == 0,
        passes_from(all.terms, all.weights, seed_values(all.samples), stereo, i, done.samples.len() as int / 2) == Ok::<
            Seq<PassState>,
            Error,
        >(ps.skip(i)),
    decreases ps.len() - i,
{
    if i >= ps.len() {
        assert(all.samples =~= done.samples);
        assert(ps.skip(i) =~= Seq::empty());
    } else {
        let p = ps[i];
        assert(describable(p, stereo));
        let one = pass_payloads(p, stereo)->Ok_0;
        let rest = payloads_from(ps, stereo, i + 1)->Ok_0;
        let next = payloads_join(done, one);
        assert(payloads_join(next, rest) =~= payloads_join(done, payloads_join(one, rest)));
        lemma_pass_here(p, stereo, i, done, rest);
        lemma_passes_read_back(ps, stereo, i + 1, next, all);
        assert(seq![p] + ps.skip(i + 1) =~= ps.skip(i));
    }
}

/// Reading a pass list from the payloads it was written to gives the list back.
pub proof fn passes_roundtrip(ps: Seq<PassState>, stereo: bool)
    requires
        forall|k: int| 0 <= k < ps.len() ==> describable(#[trigger] ps[k], stereo),
        payloads_of(ps, stereo) is Ok,
    ensures
        ({
            let w = payloads_of(ps, stereo)->Ok_0;
            passes_of(w.terms, w.weights, w.samples, stereo) == Ok::<Seq<PassState>, Error>(ps)
        }),
{
    let w = payloads_of(ps, stereo)->Ok_0;
    let none = Payloads { terms: Seq::empty(), weights: Seq::empty(), samples: Seq::empty() };
    assert(payloads_join(none, w) =~= w);
    lemma_passes_read_back(ps, stereo, 0, none, w);
    assert(ps.skip(0) =~= ps);
}

/// A pass with stored weights, a small step and no history is never refused.
pub open spec fn storable(p: PassState, stereo: bool) -> bool {
    &&& p.wf()
    &&& stereo || !cross(p.term)
    &&& 0 <= p.delta <= 7
    &&& quantized_weight(p.wa) == p.wa
    &&& quantized_weight(p.wb) == p.wb
    &&& p.ha == no_history()
    &&& p.hb == no_history()
}

proof fn lemma_zero_seeds(term: i8, m: int)
    requires
        valid_term(term),
        0 <= m,
    ensures
        seed_bytes(term, no_history(), m) is Ok,
    decreases seed_count(term) - m,
{
    if m < seed_count(term) {
        crate::logpack::lemma_quantized_zero();
        lemma_zero_seeds(term, m + 1);
    }
}

/// Payloads exist for every list of at most sixteen storable passes.
pub proof fn storable_passes_serialize(ps: Seq<PassState>, stereo: bool, i: int)
    requires
        0 <= i,
        forall|k: int| 0 <= k < ps.len() ==> storable(#[trigger] ps[k], stereo),
    ensures
        payloads_from(ps, stereo, i) is Ok,
    decreases ps.len() - i,
{
    reveal(pass_payloads);
    if i < ps.len() {
        assert(storable(ps[i], stereo));
        lemma_zero_seeds(ps[i].term, 0);
        storable_passes_serialize(ps, stereo, i + 1);
    }
}

} // verus!
