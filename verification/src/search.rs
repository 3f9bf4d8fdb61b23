//! Searching for the smallest block.
//!
//! A search writes a block under each of several plans and keeps the first of
//! the smallest.
use vstd::prelude::*;
use crate::block_writer::{BlockConfig, Config, block_bytes, encode_block_core, join_stereo, narrowed, narrowing_inverse, working};
use crate::decorrelation::{DecorrPass, all_wf, states};
use crate::derive::{DecorrProfile, derive_mono_passes_iterated, derive_mono_passes_searched, derive_stereo_passes_iterated, derive_stereo_passes_searched, derived, derived_passes_serialize, lemma_profile_terms, lemma_searched_terms, searched_terms};
use crate::error::{Error, Result};
use crate::int32::{lemma_zeros_divide, low_zeros, trailing_zero_bits};
use crate::packed_samples::bytes_of;
use crate::passes::{Payloads, payloads_of, serialize_passes};

verus! {

/// The fewest low zero bits of a sample; 32 where every sample is zero.
pub open spec fn common_zeros(x: Seq<i32>) -> nat
    decreases x.len(),
{
    if x.len() == 0 {
        32
    } else {
        let before = common_zeros(x.drop_last());
        let last = low_zeros(x.last() as int);
        if last < before {
            last
        } else {
            before
        }
    }
}

/// The zero bits below every sample; none where every sample is zero.
pub open spec fn detected(x: Seq<i32>) -> nat {
    if common_zeros(x) >= 32 {
        0
    } else {
        common_zeros(x)
    }
}

proof fn lemma_common_zeros(x: Seq<i32>, i: int)
    requires
        0 <= i < x.len(),
    ensures
        common_zeros(x) <= low_zeros(x[i] as int),
    decreases x.len(),
{
    if i < x.len() - 1 {
        lemma_common_zeros(x.drop_last(), i);
    }
}

/// Counts the zero bits below every sample.
pub fn detect_left_shift(pcm: &[i32]) -> (r: u8)
    ensures
        r == detected(pcm@),
        r < 32,
{
    let mut common: u32 = 32;
    let mut i: usize = 0;
    while i < pcm.len()
        invariant
            i <= pcm.len(),
            common <= 32,
            common == common_zeros(pcm@.take(i as int)),
        decreases pcm.len() - i,
    {
        assert(pcm@.take(i + 1).drop_last() =~= pcm@.take(i as int));
        let n: u32 = trailing_zero_bits(pcm[i]);
        if n < common {
            common = n;
        }
        if common == 0 {
            proof {
                lemma_common_prefix(pcm@, i + 1);
            }
            return 0;
        }
        i = i + 1;
    }
    assert(pcm@.take(i as int) =~= pcm@);
    if common >= 32 {
        0
    } else {
        common as u8
    }
}

proof fn lemma_common_prefix(x: Seq<i32>, i: int)
    requires
        0 <= i <= x.len(),
    ensures
        common_zeros(x) <= common_zeros(x.take(i)),
    decreases x.len(),
{
    if i < x.len() {
        assert(x.drop_last().take(i) =~= x.take(i));
        lemma_common_prefix(x.drop_last(), i);
    } else {
        assert(x.take(i) =~= x);
    }
}

/// A detected shift loses nothing.
pub proof fn detected_shift_is_exact(x: Seq<i32>)
    ensures
        detected(x) < 32,
        narrowed(x, detected(x)) is Ok,
        narrowed(x, detected(x))->Ok_0.len() == x.len(),
{
    assert forall|i: int| 0 <= i < x.len() implies detected(x) <= low_zeros(x[i] as int) by {
        lemma_common_zeros(x, i);
    }
    lemma_narrow_ok(x, detected(x));
    narrowing_inverse(x, detected(x));
}

proof fn lemma_narrow_ok(x: Seq<i32>, k: nat)
    requires
        forall|i: int| 0 <= i < x.len() ==> k <= low_zeros(#[trigger] x[i] as int),
    ensures
        narrowed(x, k) is Ok,
    decreases x.len(),
{
    if x.len() > 0 {
        assert(k <= low_zeros(x[x.len() - 1] as int));
        let y = x.drop_last();
        assert forall|i: int| 0 <= i < y.len() implies k <= low_zeros(#[trigger] y[i] as int) by {
            assert(y[i] == x[i]);
        }
        lemma_narrow_ok(y, k);
        lemma_zeros_divide(x.last() as int, k);
    }
}

// ---------------------------------------------------------------------------
// Plans
// ---------------------------------------------------------------------------

/// One way to write a block.
#[verifier::ext_equal]
pub struct Plan {
    /// Mid/side stereo.
    pub joint: bool,
    /// The decorrelation payloads.
    pub decorr: Option<Payloads>,
}

/// A block written under a plan.
pub open spec fn planned(base: Config, plan: Plan) -> Config {
    Config { joint: plan.joint, decorr: plan.decorr, ..base }
}

/// The bytes of a block written under a plan.
#[verifier::opaque]
pub open spec fn plan_block(x: Seq<i32>, base: Config, plan: Plan, block_index: u32, total_samples: u32) -> core::result::Result<
    Seq<u8>,
    Error,
> {
    block_bytes(x, planned(base, plan), block_index, total_samples)
}

/// The smaller of two blocks, the earlier one where they are equal in size.
pub open spec fn kept(best: Option<Seq<u8>>, candidate: Seq<u8>) -> Option<Seq<u8>> {
    match best {
        None => Some(candidate),
        Some(b) => if candidate.len() < b.len() {
            Some(candidate)
        } else {
            Some(b)
        },
    }
}

/// The first of the smallest blocks that some plans give, or the first error.
pub open spec fn smallest_of(
    x: Seq<i32>,
    base: Config,
    plans: Seq<Plan>,
    block_index: u32,
    total_samples: u32,
) -> core::result::Result<Option<Seq<u8>>, Error>
    decreases plans.len(),
{
    if plans.len() == 0 {
        Ok(None)
    } else {
        match smallest_of(x, base, plans.drop_last(), block_index, total_samples) {
            Err(e) => Err(e),
            Ok(best) => match plan_block(x, base, plans.last(), block_index, total_samples) {
                Err(e) => Err(e),
                Ok(b) => Ok(kept(best, b)),
            },
        }
    }
}

/// The block of a search over at least one plan.
pub open spec fn search_block(
    x: Seq<i32>,
    base: Config,
    plans: Seq<Plan>,
    block_index: u32,
    total_samples: u32,
) -> core::result::Result<Seq<u8>, Error> {
    match smallest_of(x, base, plans, block_index, total_samples) {
        Err(e) => Err(e),
        Ok(best) => Ok(best->Some_0),
    }
}

proof fn lemma_smallest_error(
    x: Seq<i32>,
    base: Config,
    plans: Seq<Plan>,
    k: int,
    block_index: u32,
    total_samples: u32,
)
    requires
        0 <= k <= plans.len(),
        smallest_of(x, base, plans.take(k), block_index, total_samples) is Err,
    ensures
        smallest_of(x, base, plans, block_index, total_samples) == smallest_of(
            x,
            base,
            plans.take(k),
            block_index,
            total_samples,
        ),
    decreases plans.len(),
{
    if k < plans.len() {
        assert(plans.drop_last().take(k) =~= plans.take(k));
        lemma_smallest_error(x, base, plans.drop_last(), k, block_index, total_samples);
    } else {
        assert(plans.take(k) =~= plans);
    }
}

/// A search gives one of its plans' blocks, and none of them is smaller.
pub proof fn search_is_least(x: Seq<i32>, base: Config, plans: Seq<Plan>, block_index: u32, total_samples: u32)
    requires
        plans.len() > 0,
        smallest_of(x, base, plans, block_index, total_samples) is Ok,
    ensures
        smallest_of(x, base, plans, block_index, total_samples)->Ok_0 is Some,
        search_block(x, base, plans, block_index, total_samples) is Ok,
        exists|i: int|
            0 <= i < plans.len() && plan_block(x, base, #[trigger] plans[i], block_index, total_samples)
                == search_block(x, base, plans, block_index, total_samples),
        forall|i: int|
            0 <= i < plans.len() ==> {
                &&& plan_block(x, base, #[trigger] plans[i], block_index, total_samples) is Ok
                &&& search_block(x, base, plans, block_index, total_samples)->Ok_0.len() <= plan_block(
                    x,
                    base,
                    plans[i],
                    block_index,
                    total_samples,
                )->Ok_0.len()
            },
    decreases plans.len(),
{
    let before = plans.drop_last();
    let whole = search_block(x, base, plans, block_index, total_samples);
    let last = plan_block(x, base, plans.last(), block_index, total_samples);
    assert(plans[plans.len() - 1] == plans.last());
    if before.len() > 0 {
        search_is_least(x, base, before, block_index, total_samples);
        let part = search_block(x, base, before, block_index, total_samples);
        let i = choose|i: int|
            0 <= i < before.len() && plan_block(x, base, #[trigger] before[i], block_index, total_samples) == part;
        assert(plans[i] == before[i]);
        if whole != part {
            assert(whole == last);
            assert(plan_block(x, base, plans[plans.len() - 1], block_index, total_samples) == whole);
        }
        assert forall|k: int| 0 <= k < plans.len() implies {
            &&& plan_block(x, base, #[trigger] plans[k], block_index, total_samples) is Ok
            &&& whole->Ok_0.len() <= plan_block(x, base, plans[k], block_index, total_samples)->Ok_0.len()
        } by {
            if k < before.len() {
                assert(before[k] == plans[k]);
            }
        }
    } else {
        assert(smallest_of(x, base, before, block_index, total_samples) == Ok::<Option<Seq<u8>>, Error>(None));
        assert(whole == last);
        assert(plan_block(x, base, plans[0], block_index, total_samples) == whole);
    }
}

/// A plan as a value that runs.
#[derive(Debug)]
pub struct SearchPlan {
    /// Mid/side stereo.
    pub joint: bool,
    /// The term, weight and seed payloads.
    pub decorr: Option<(Vec<u8>, Vec<u8>, Vec<u8>)>,
}

impl View for SearchPlan {
    type V = Plan;

    open spec fn view(&self) -> Plan {
        Plan {
            joint: self.joint,
            decorr: match self.decorr {
                Some((t, w, s)) => Some(Payloads { terms: t@, weights: w@, samples: s@ }),
                None => None,
            },
        }
    }
}

/// The plans of a list.
pub open spec fn plan_views(ps: Seq<SearchPlan>) -> Seq<Plan> {
    Seq::new(ps.len(), |i: int| ps[i]@)
}

/// The bytes in an optional block.
pub open spec fn best_view(best: Option<Vec<u8>>) -> Option<Seq<u8>> {
    match best {
        Some(b) => Some(b@),
        None => None,
    }
}

fn keep_smaller(best: &mut Option<Vec<u8>>, candidate: Vec<u8>)
    ensures
        best_view(*final(best)) == kept(best_view(*old(best)), candidate@),
{
    let improves: bool = match best {
        None => true,
        Some(b) => candidate.len() < b.len(),
    };
    if improves {
        *best = Some(candidate);
    }
}

/// Only pairs are joined.
pub open spec fn plans_ok(plans: Seq<Plan>, mono: bool) -> bool {
    forall|i: int| 0 <= i < plans.len() ==> ((#[trigger] plans[i]).joint ==> !mono)
}

fn write_planned(pcm: &[i32], base: &BlockConfig<'_>, plan: &SearchPlan, block_index: u32, total_samples: u32) -> (r: Result<
    Vec<u8>,
>)
    requires
        base.left_shift < 32,
        plan.joint ==> !base.mono,
    ensures
        bytes_of(r) == plan_block(pcm@, base@, plan@, block_index, total_samples),
{
    proof {
        reveal(plan_block);
    }
    let decorr: Option<(&[u8], &[u8], &[u8])> = match &plan.decorr {
        Some(p) => Some((p.0.as_slice(), p.1.as_slice(), p.2.as_slice())),
        None => None,
    };
    let config = BlockConfig {
        mono: base.mono,
        joint: plan.joint,
        left_shift: base.left_shift,
        decorr,
        bytes_per_sample: base.bytes_per_sample,
        start: base.start,
        end: base.end,
        multichannel_info: base.multichannel_info,
        format: base.format,
    };
    assert(config@ =~= planned(base@, plan@));
    encode_block_core(pcm, &config, block_index, total_samples)
}

/// Writes a block under each plan and keeps the first of the smallest.
pub fn search_plans(
    pcm: &[i32],
    base: &BlockConfig<'_>,
    plans: &Vec<SearchPlan>,
    block_index: u32,
    total_samples: u32,
) -> (r: Result<Vec<u8>>)
    requires
        plans@.len() > 0,
        base.left_shift < 32,
        plans_ok(plan_views(plans@), base.mono),
    ensures
        bytes_of(r) == search_block(pcm@, base@, plan_views(plans@), block_index, total_samples),
{
    let ghost ps = plan_views(plans@);
    let mut best: Option<Vec<u8>> = None;
    let mut i: usize = 0;
    while i < plans.len()
        invariant
            i <= plans.len(),
            ps == plan_views(plans@),
            plans_ok(ps, base.mono),
            base.left_shift < 32,
            i > 0 ==> best is Some,
            smallest_of(pcm@, base@, ps.take(i as int), block_index, total_samples) == Ok::<Option<Seq<u8>>, Error>(
                best_view(best),
            ),
        decreases plans.len() - i,
    {
        proof {
            assert(ps.take(i + 1).drop_last() =~= ps.take(i as int));
            assert(ps[i as int] == plans@[i as int]@);
        }
        match write_planned(pcm, base, &plans[i], block_index, total_samples) {
            Err(e) => {
                proof {
                    lemma_smallest_error(pcm@, base@, ps, i + 1, block_index, total_samples);
                }
                return Err(e);
            }
            Ok(b) => {
                keep_smaller(&mut best, b);
            }
        }
        i = i + 1;
    }
    assert(ps.take(i as int) =~= ps);
    match best {
        Some(b) => Ok(b),
        None => Ok(Vec::new()),
    }
}

// ---------------------------------------------------------------------------
// Which plans
// ---------------------------------------------------------------------------

/// A plan with derived passes.
pub open spec fn derived_plan(y: Seq<i32>, terms: Seq<i8>, iterations: u32, mono: bool, joint: bool) -> Plan {
    Plan {
        joint,
        decorr: Some(payloads_of(derived(working(y, joint), terms, iterations, !mono), !mono)->Ok_0),
    }
}

/// The plans under some profiles, each trained once and twice.
pub open spec fn profile_plans(y: Seq<i32>, profiles: Seq<DecorrProfile>, mono: bool, joint: bool) -> Seq<Plan>
    decreases profiles.len(),
{
    if profiles.len() == 0 {
        seq![Plan { joint, decorr: None }]
    } else {
        let terms = profiles.last().terms(!mono);
        profile_plans(y, profiles.drop_last(), mono, joint).push(derived_plan(y, terms, 1, mono, joint)).push(
            derived_plan(y, terms, 2, mono, joint),
        )
    }
}

/// The plans of a profile search over narrowed samples: no passes, then each
/// profile; on stereo all of that again as mid and side.
pub open spec fn best_plans(y: Seq<i32>, profile: DecorrProfile, mono: bool) -> Seq<Plan> {
    if mono {
        profile_plans(y, profile.tried(), true, false)
    } else {
        profile_plans(y, profile.tried(), false, false) + profile_plans(y, profile.tried(), false, true)
    }
}

/// The plans of a term search for one way to treat the channels.
pub open spec fn term_plans(y: Seq<i32>, max_passes: usize, mono: bool, joint: bool) -> Seq<Plan> {
    let terms = searched_terms(working(y, joint), max_passes, !mono);
    let none = seq![Plan { joint, decorr: None }];
    if terms.len() == 0 {
        none
    } else {
        none.push(derived_plan(y, terms, 2, mono, joint))
    }
}

/// The plans of a term search: no passes, then the passes found; on stereo
/// all of that again as mid and side.
pub open spec fn searched_plans(y: Seq<i32>, max_passes: usize, mono: bool) -> Seq<Plan> {
    if mono {
        term_plans(y, max_passes, true, false)
    } else {
        term_plans(y, max_passes, false, false) + term_plans(y, max_passes, false, true)
    }
}

fn make_plan(passes: &Vec<DecorrPass>, mono: bool, joint: bool) -> (r: SearchPlan)
    requires
        payloads_of(states(passes@), !mono) is Ok,
        all_wf(states(passes@)),
    ensures
        r@ == (Plan { joint, decorr: Some(payloads_of(states(passes@), !mono)->Ok_0) }),
{
    match serialize_passes(passes.as_slice(), !mono) {
        Ok(p) => SearchPlan { joint, decorr: Some(p) },
        Err(_) => SearchPlan { joint, decorr: None },
    }
}

fn derive_plan(domain: &Vec<i32>, profile: DecorrProfile, iterations: u32, mono: bool, joint: bool) -> (r: SearchPlan)
    requires
        !mono ==> domain@.len() % 2 == 0,
    ensures
        r@ == (Plan {
            joint,
            decorr: Some(payloads_of(derived(domain@, profile.terms(!mono), iterations, !mono), !mono)->Ok_0),
        }),
{
    proof {
        lemma_profile_terms(profile, !mono);
        derived_passes_serialize(domain@, profile.terms(!mono), iterations, !mono);
    }
    let passes: Result<Vec<DecorrPass>> = if mono {
        derive_mono_passes_iterated(domain.as_slice(), profile, iterations)
    } else {
        derive_stereo_passes_iterated(domain.as_slice(), profile, iterations)
    };
    match passes {
        Ok(p) => make_plan(&p, mono, joint),
        Err(_) => SearchPlan { joint, decorr: None },
    }
}

fn push_profile_plans(
    plans: &mut Vec<SearchPlan>,
    y: &Vec<i32>,
    domain: &Vec<i32>,
    profile: DecorrProfile,
    mono: bool,
    joint: bool,
)
    requires
        domain@ == working(y@, joint),
        !mono ==> y@.len() % 2 == 0,
    ensures
        plan_views(final(plans)@) == plan_views(old(plans)@) + profile_plans(y@, profile.tried(), mono, joint),
{
    let ghost before = plan_views(plans@);
    let set: &[DecorrProfile] = profile.search_set();
    let ghost tried = set@;
    plans.push(SearchPlan { joint, decorr: None });
    let mut i: usize = 0;
    assert(tried.take(0) =~= Seq::empty());
    assert(plan_views(plans@) =~= before + profile_plans(y@, tried.take(0), mono, joint));
    while i < set.len()
        invariant
            i <= set.len(),
            tried == set@,
            domain@ == working(y@, joint),
            domain@.len() == y@.len(),
            !mono ==> y@.len() % 2 == 0,
            plan_views(plans@) == before + profile_plans(y@, tried.take(i as int), mono, joint),
        decreases set.len() - i,
    {
        let ghost held = plan_views(plans@);
        let one: SearchPlan = derive_plan(domain, set[i], 1, mono, joint);
        let two: SearchPlan = derive_plan(domain, set[i], 2, mono, joint);
        let ghost a = one@;
        let ghost b = two@;
        plans.push(one);
        plans.push(two);
        proof {
            assert(tried.take(i + 1).drop_last() =~= tried.take(i as int));
            assert(plan_views(plans@) =~= held.push(a).push(b));
            let old_part = profile_plans(y@, tried.take(i as int), mono, joint);
            assert((before + old_part).push(a).push(b) =~= before + old_part.push(a).push(b));
        }
        i = i + 1;
    }
    assert(tried.take(i as int) =~= tried);
}

/// The plans of a profile search.
pub fn list_best_plans(y: &Vec<i32>, profile: DecorrProfile, mono: bool) -> (r: Vec<SearchPlan>)
    requires
        !mono ==> y@.len() % 2 == 0,
    ensures
        plan_views(r@) == best_plans(y@, profile, mono),
        plans_ok(plan_views(r@), mono),
        r@.len() > 0,
{
    let mut plans: Vec<SearchPlan> = Vec::new();
    push_profile_plans(&mut plans, y, y, profile, mono, false);
    assert(plan_views(plans@) =~= profile_plans(y@, profile.tried(), mono, false));
    if !mono {
        let domain: Vec<i32> = join_stereo(y.as_slice());
        push_profile_plans(&mut plans, y, &domain, profile, mono, true);
    }
    proof {
        lemma_best_plans(y@, profile, mono);
    }
    plans
}

proof fn lemma_profile_plans(y: Seq<i32>, profiles: Seq<DecorrProfile>, mono: bool, joint: bool)
    ensures
        profile_plans(y, profiles, mono, joint).len() > 0,
        profile_plans(y, profiles, mono, joint)[0] == (Plan { joint, decorr: None }),
        forall|i: int|
            0 <= i < profile_plans(y, profiles, mono, joint).len() ==> (#[trigger] profile_plans(
                y,
                profiles,
                mono,
                joint,
            )[i]).joint == joint,
    decreases profiles.len(),
{
    if profiles.len() > 0 {
        lemma_profile_plans(y, profiles.drop_last(), mono, joint);
    }
}

/// Every search starts with the block without passes, and joins only pairs.
pub proof fn lemma_best_plans(y: Seq<i32>, profile: DecorrProfile, mono: bool)
    ensures
        plans_ok(best_plans(y, profile, mono), mono),
        best_plans(y, profile, mono).len() > 0,
        best_plans(y, profile, mono)[0] == (Plan { joint: false, decorr: None }),
{
    lemma_profile_plans(y, profile.tried(), mono, false);
    lemma_profile_plans(y, profile.tried(), mono, true);
}

fn push_term_plans(
    plans: &mut Vec<SearchPlan>,
    y: &Vec<i32>,
    domain: &Vec<i32>,
    max_passes: usize,
    mono: bool,
    joint: bool,
)
    requires
        domain@ == working(y@, joint),
        !mono ==> y@.len() % 2 == 0,
    ensures
        plan_views(final(plans)@) == plan_views(old(plans)@) + term_plans(y@, max_passes, mono, joint),
{
    let ghost before = plan_views(plans@);
    let ghost terms = searched_terms(domain@, max_passes, !mono);
    plans.push(SearchPlan { joint, decorr: None });
    assert(plan_views(plans@) =~= before + seq![Plan { joint, decorr: None }]);
    proof {
        lemma_searched_terms(domain@, max_passes, !mono);
        derived_passes_serialize(domain@, terms, 2, !mono);
    }
    let found: Result<Vec<DecorrPass>> = if mono {
        derive_mono_passes_searched(domain.as_slice(), max_passes)
    } else {
        derive_stereo_passes_searched(domain.as_slice(), max_passes)
    };
    if let Ok(passes) = found {
        assert(states(passes@) == derived(domain@, terms, 2, !mono));
        assert(states(passes@).len() == passes@.len());
        if passes.len() > 0 {
            let ghost held = plan_views(plans@);
            let plan: SearchPlan = make_plan(&passes, mono, joint);
            let ghost one = plan@;
            plans.push(plan);
            assert(plan_views(plans@) =~= held.push(one));
        }
    }
    assert(plan_views(plans@) =~= before + term_plans(y@, max_passes, mono, joint));
}

/// The plans of a term search.
pub fn list_searched_plans(y: &Vec<i32>, max_passes: usize, mono: bool) -> (r: Vec<SearchPlan>)
    requires
        !mono ==> y@.len() % 2 == 0,
    ensures
        plan_views(r@) == searched_plans(y@, max_passes, mono),
        plans_ok(plan_views(r@), mono),
        r@.len() > 0,
{
    let mut plans: Vec<SearchPlan> = Vec::new();
    push_term_plans(&mut plans, y, y, max_passes, mono, false);
    assert(plan_views(plans@) =~= term_plans(y@, max_passes, mono, false));
    if !mono {
        let domain: Vec<i32> = join_stereo(y.as_slice());
        push_term_plans(&mut plans, y, &domain, max_passes, mono, true);
    }
    assert(plan_views(plans@).len() == plans@.len());
    plans
}

/// A term search starts with the block without passes, and joins only pairs.
pub proof fn lemma_searched_plans(y: Seq<i32>, max_passes: usize, mono: bool)
    ensures
        plans_ok(searched_plans(y, max_passes, mono), mono),
        searched_plans(y, max_passes, mono).len() > 0,
        searched_plans(y, max_passes, mono)[0] == (Plan { joint: false, decorr: None }),
{
}

/// Every plan of a profile search is a plan of each wider one.
pub proof fn lemma_plans_nest(y: Seq<i32>, a: DecorrProfile, b: DecorrProfile, mono: bool, i: int)
    requires
        a.tried().len() <= b.tried().len(),
        0 <= i < best_plans(y, a, mono).len(),
    ensures
        exists|j: int| 0 <= j < best_plans(y, b, mono).len() && best_plans(y, a, mono)[i] == #[trigger] best_plans(y, b, mono)[j],
{
    let n = a.tried().len() as int;
    crate::derive::searches_nest(a, b);
    let pa = best_plans(y, a, mono);
    let pb = best_plans(y, b, mono);
    let a0 = profile_plans(y, a.tried(), mono, false);
    let b0 = profile_plans(y, b.tried(), mono, false);
    lemma_plans_prefix(y, b.tried(), n, mono, false);
    lemma_plans_prefix(y, b.tried(), n, mono, true);
    if i < a0.len() {
        assert(pa[i] == a0[i]);
        assert(pb[i] == b0[i]);
        assert(pa[i] == pb[i]);
    } else {
        let a1 = profile_plans(y, a.tried(), mono, true);
        let b1 = profile_plans(y, b.tried(), mono, true);
        assert(pa[i] == a1[i - a0.len()]);
        assert(pb[b0.len() + i - a0.len()] == b1[i - a0.len()]);
    }
}

proof fn lemma_plans_prefix(y: Seq<i32>, profiles: Seq<DecorrProfile>, n: int, mono: bool, joint: bool)
    requires
        0 <= n <= profiles.len(),
    ensures
        profile_plans(y, profiles.take(n), mono, joint).len() <= profile_plans(y, profiles, mono, joint).len(),
        forall|i: int|
            0 <= i < profile_plans(y, profiles.take(n), mono, joint).len() ==> profile_plans(
                y,
                profiles.take(n),
                mono,
                joint,
            )[i] == #[trigger] profile_plans(y, profiles, mono, joint)[i],
    decreases profiles.len(),
{
    if n < profiles.len() {
        assert(profiles.drop_last().take(n) =~= profiles.take(n));
        lemma_plans_prefix(y, profiles.drop_last(), n, mono, joint);
        assert forall|i: int|
            0 <= i < profile_plans(y, profiles.take(n), mono, joint).len() implies profile_plans(
            y,
            profiles.take(n),
            mono,
            joint,
        )[i] == #[trigger] profile_plans(y, profiles, mono, joint)[i] by {
            assert(profile_plans(y, profiles, mono, joint)[i] == profile_plans(y, profiles.drop_last(), mono, joint)[i]);
        }
    } else {
        assert(profiles.take(n) =~= profiles);
    }
}

/// A search over plans of a search that succeeds succeeds.
pub proof fn lemma_search_ok(
    x: Seq<i32>,
    base: Config,
    pa: Seq<Plan>,
    pb: Seq<Plan>,
    block_index: u32,
    total_samples: u32,
)
    requires
        pb.len() > 0,
        smallest_of(x, base, pb, block_index, total_samples) is Ok,
        forall|i: int| 0 <= i < pa.len() ==> exists|j: int| 0 <= j < pb.len() && #[trigger] pa[i] == #[trigger] pb[j],
    ensures
        smallest_of(x, base, pa, block_index, total_samples) is Ok,
    decreases pa.len(),
{
    if pa.len() > 0 {
        let before = pa.drop_last();
        assert forall|i: int| 0 <= i < before.len() implies exists|j: int|
            0 <= j < pb.len() && #[trigger] before[i] == #[trigger] pb[j] by {
            assert(before[i] == pa[i]);
        }
        lemma_search_ok(x, base, before, pb, block_index, total_samples);
        search_is_least(x, base, pb, block_index, total_samples);
        let n = pa.len() - 1;
        let j = choose|j: int| 0 <= j < pb.len() && pa[n] == #[trigger] pb[j];
        assert(plan_block(x, base, pb[j], block_index, total_samples) is Ok);
        assert(pa.last() == pb[j]);
    }
}

/// A search tries the passes that each of its profiles derives.
pub proof fn lemma_plan_listed(y: Seq<i32>, profile: DecorrProfile, tried: DecorrProfile, mono: bool, joint: bool)
    requires
        joint ==> !mono,
        tried.tried().len() <= profile.tried().len(),
    ensures
        exists|i: int|
            0 <= i < best_plans(y, profile, mono).len() && #[trigger] best_plans(y, profile, mono)[i] == derived_plan(
                y,
                tried.terms(!mono),
                1,
                mono,
                joint,
            ),
{
    let plan = derived_plan(y, tried.terms(!mono), 1, mono, joint);
    let ps = tried.tried();
    let inner = profile_plans(y, ps, mono, joint);
    assert(ps.last() == tried);
    let k = inner.len() - 2;
    assert(inner[k] == plan);
    let a = best_plans(y, tried, mono);
    let n = profile_plans(y, ps, mono, false).len() as int;
    let i = if joint {
        n + k
    } else {
        k
    };
    assert(a[i] == plan);
    lemma_plans_nest(y, tried, profile, mono, i);
    let j = choose|j: int| 0 <= j < best_plans(y, profile, mono).len() && a[i] == #[trigger] best_plans(y, profile, mono)[j];
    assert(best_plans(y, profile, mono)[j] == plan);
}

/// Both searches try the block without passes as mid and side too.
pub proof fn lemma_joint_listed(y: Seq<i32>, profile: DecorrProfile, max_passes: usize)
    ensures
        exists|i: int|
            0 <= i < best_plans(y, profile, false).len() && #[trigger] best_plans(y, profile, false)[i] == (Plan {
                joint: true,
                decorr: None,
            }),
        exists|i: int|
            0 <= i < searched_plans(y, max_passes, false).len() && #[trigger] searched_plans(y, max_passes, false)[i]
                == (Plan { joint: true, decorr: None }),
{
    let none = Plan { joint: true, decorr: None };
    let a = profile_plans(y, profile.tried(), false, false);
    let b = profile_plans(y, profile.tried(), false, true);
    lemma_profile_plans(y, profile.tried(), false, true);
    assert((a + b)[a.len() as int] == b[0]);
    assert(best_plans(y, profile, false)[a.len() as int] == none);
    let c = term_plans(y, max_passes, false, false);
    let e = term_plans(y, max_passes, false, true);
    assert((c + e)[c.len() as int] == e[0]);
    assert(searched_plans(y, max_passes, false)[c.len() as int] == none);
}

} // verus!
