//! What the searches try.
use vstd::prelude::*;
use crate::block_writer::working;
use crate::decorrelation::{PassState, cross};
use crate::derive::{DecorrProfile, derived, searched_terms};
use crate::hybrid_carry::hybrid_passes;
use crate::rate_law::hybrid_passes_stay_within_channels;
use crate::search::{Plan, best_plans, derived_plan, profile_plans, searched_plans, term_plans};

verus! {

/// How much a profile tries, from the least up.
pub open spec fn rank(p: DecorrProfile) -> int {
    match p {
        DecorrProfile::Fast => 0,
        DecorrProfile::Normal => 1,
        DecorrProfile::High => 2,
        DecorrProfile::Extra => 3,
    }
}

/// Every profile has its own passes: a higher one at least as many, and never
/// more than sixteen. Only stereo passes cross channels, and none below the second
/// profile do.
pub proof fn profiles_have_their_passes(p: DecorrProfile, q: DecorrProfile, stereo: bool)
    ensures
        rank(p) <= rank(q) ==> p.terms(stereo).len() <= q.terms(stereo).len() <= 16,
        forall|i: int|
            0 <= i < p.terms(stereo).len() && (!stereo || p is Fast) ==> 0 < #[trigger] p.terms(stereo)[i],
        DecorrProfile::Fast.terms(stereo) == seq![18i8, 17],
        DecorrProfile::Normal.terms(false) == seq![18i8, 18, 2, 17, 3],
        DecorrProfile::Normal.terms(true) == seq![18i8, 18, 2, 17, 3, -1i8],
        DecorrProfile::High.terms(false) == seq![18i8, 18, 18, 1, 2, 3, 5, 17],
        DecorrProfile::High.terms(true) == seq![18i8, 18, 18, 1, 2, 3, 5, 17, -3i8],
        DecorrProfile::Extra.terms(false) == seq![18i8, 18, 18, 18, 1, 2, 3, 4, 5, 6, 7, 8, 17, 17, 2, 3],
        DecorrProfile::Extra.terms(true) == seq![18i8, 18, 18, 1, 2, 3, 4, 5, 6, 7, 8, 17, 17, 2, -1i8, -3i8],
{
}

proof fn lemma_profile_tried(y: Seq<i32>, ps: Seq<DecorrProfile>, mono: bool, joint: bool, j: int, k: u32) -> (i: int)
    requires
        0 <= j < ps.len(),
        1 <= k <= 2,
    ensures
        0 <= i < profile_plans(y, ps, mono, joint).len(),
        profile_plans(y, ps, mono, joint)[i] == derived_plan(y, ps[j].terms(!mono), k, mono, joint),
    decreases ps.len(),
{
    let before = profile_plans(y, ps.drop_last(), mono, joint);
    if j == ps.len() - 1 {
        if k == 1 {
            before.len() as int
        } else {
            before.len() as int + 1
        }
    } else {
        lemma_profile_tried(y, ps.drop_last(), mono, joint, j, k)
    }
}

proof fn lemma_raw_tried(y: Seq<i32>, ps: Seq<DecorrProfile>, mono: bool, joint: bool)
    ensures
        profile_plans(y, ps, mono, joint).len() > 0,
        profile_plans(y, ps, mono, joint)[0] == (Plan { joint, decorr: None }),
    decreases ps.len(),
{
    if ps.len() > 0 {
        lemma_raw_tried(y, ps.drop_last(), mono, joint);
    }
}

/// A search under a profile tries the passes of that profile and of every lower
/// one, trained by one sweep and by two, and no passes: on the channels as they
/// are and, of stereo, on mid and side.
pub proof fn profile_searches_try(
    y: Seq<i32>,
    profile: DecorrProfile,
    q: DecorrProfile,
    k: u32,
    mono: bool,
    joint: bool,
)
    requires
        rank(q) <= rank(profile),
        1 <= k <= 2,
        joint ==> !mono,
    ensures
        best_plans(y, profile, mono).contains(derived_plan(y, q.terms(!mono), k, mono, joint)),
        best_plans(y, profile, mono).contains(Plan { joint, decorr: None }),
{
    let ps = profile.tried();
    let j = rank(q);
    assert(ps[j] == q);
    let i = lemma_profile_tried(y, ps, mono, joint, j, k);
    lemma_raw_tried(y, ps, mono, joint);
    let all = best_plans(y, profile, mono);
    let at = if joint {
        profile_plans(y, ps, mono, false).len() as int
    } else {
        0
    };
    assert(all[at + i] == derived_plan(y, q.terms(!mono), k, mono, joint));
    assert(all[at] == (Plan { joint, decorr: None }));
}

/// A search by terms tries the terms that it picks, trained by two sweeps, and no
/// passes: on the channels as they are and, of stereo, on mid and side.
pub proof fn term_searches_try(y: Seq<i32>, most: usize, mono: bool, joint: bool)
    requires
        joint ==> !mono,
    ensures
        searched_plans(y, most, mono).contains(Plan { joint, decorr: None }),
        searched_terms(working(y, joint), most, !mono).len() > 0 ==> searched_plans(y, most, mono).contains(
            derived_plan(y, searched_terms(working(y, joint), most, !mono), 2, mono, joint),
        ),
{
    let all = searched_plans(y, most, mono);
    let terms = searched_terms(working(y, joint), most, !mono);
    let at = if joint {
        term_plans(y, most, mono, false).len() as int
    } else {
        0
    };
    assert(all[at] == (Plan { joint, decorr: None }));
    if terms.len() > 0 {
        assert(all[at + 1] == derived_plan(y, terms, 2, mono, joint));
    }
}

/// A hybrid block runs the passes that the same profile trains by one sweep for a
/// lossless block, but for those that cross channels; without a profile it runs
/// none.
pub proof fn hybrid_blocks_train_once(coded: Seq<i32>, mono: bool, p: DecorrProfile)
    ensures
        hybrid_passes(coded, mono, None) == Seq::<PassState>::empty(),
        hybrid_passes(coded, mono, Some(p)) == derived(coded, p.terms(!mono), 1, !mono).filter(
            |q: PassState| !cross(q.term),
        ),
{
    hybrid_passes_stay_within_channels(derived(coded, p.terms(!mono), 1, !mono));
}

proof fn lemma_same_joint(y: Seq<i32>, ps: Seq<DecorrProfile>, mono: bool, joint: bool)
    ensures
        forall|i: int|
            0 <= i < profile_plans(y, ps, mono, joint).len() ==> (#[trigger] profile_plans(y, ps, mono, joint)[i]).joint
                == joint,
    decreases ps.len(),
{
    if ps.len() > 0 {
        lemma_same_joint(y, ps.drop_last(), mono, joint);
    }
}

/// A search tries the channels as they are before mid and side, and so keeps them
/// where mid and side save nothing.
pub proof fn mid_and_side_are_tried_last(y: Seq<i32>, profile: DecorrProfile, most: usize, mono: bool, i: int, j: int)
    requires
        0 <= i < j,
    ensures
        j < best_plans(y, profile, mono).len() && best_plans(y, profile, mono)[i].joint ==> best_plans(
            y,
            profile,
            mono,
        )[j].joint,
        j < searched_plans(y, most, mono).len() && searched_plans(y, most, mono)[i].joint ==> searched_plans(
            y,
            most,
            mono,
        )[j].joint,
{
    lemma_same_joint(y, profile.tried(), mono, false);
    lemma_same_joint(y, profile.tried(), mono, true);
}

} // verus!
