//! What holds of the order of a search: what is always tried, how exactly, and what becomes
//! of it.

use vstd::prelude::*;

use crate::budget::BlockSearchBudget;
use crate::cu_leaf::{
    all_steps, all_tried, leaf_built, leaf_steps, trials_run, KeptLeaf,
    LeafQuestions, LeafSettings,
};
use crate::cu_search::{
    build_steps, prefer_steps, replay_steps, replayed, split_first, split_only, unit_built,
    unit_decided, CuEnv, CuTrial, RdCost,
};
use crate::effort::{lemma_join_refined_prefix, stepped, RmdModeSet, SplitSearch};
use crate::final_code::{BlockTask, CodeSettings};
use crate::geometry::side;
use crate::luma_search::luma_tried;
use crate::mode_search::LumaScreen;
use crate::policy::EvalKind;
use crate::ranking::{by_cost, law_sorted, lemma_sorted_contains};
use crate::rough::{
    coarse_centers, coarse_start, first_modes, join_modes, law_progressive_scores_once,
    lemma_join_modes_prefix, refined_modes, scan_base, scored_modes, LumaModePlan, Place,
};
use crate::scan_laws::{law_refining_adds_neighbours, near_center};
use crate::search_state::{worked, RegionSnapshot, SearchState};
use crate::source::SourcePicture;
use crate::stats::{EncodeStats, Tried};
use crate::syntax::{cu_plan_of, CuLeaf, CuNode, CuPlan, Tt};
use crate::tree_laws::{always, always_splits};
use crate::trial_region::TrialReconRegion;
use crate::tu_search::{leaf_tried, tt_tried, BlockOutcome, TtEnv, TtTrial};
use crate::unit_laws::{law_cheapest_unit_is_kept, FullTrial};

verus! {

/// A preferred split is always tried in full, and the decision costs no more than it.
pub proof fn law_preferred_split_is_tried<'a, L, N, T, B, P, K, E, R>(
    env: &CuEnv<'a, L, N, T, B, P, K, E, R>,
    at: Place,
    ct_depth: u8,
    before: SearchState,
    after: SearchState,
    t: CuTrial,
) -> (r: (SearchState, SearchState, CuTrial)) where
    L: Fn(SearchState, Place, u8) -> (SearchState, CuLeaf),
    N: Fn(SearchState, Place, u8) -> (SearchState, CuLeaf),
    T: Fn(&SearchState, Place) -> (bool, EncodeStats),
    B: Fn(&SearchState, Place) -> (BlockSearchBudget, i32),
    P: Fn(u64, u64) -> u64,
    K: Fn(BlockSearchBudget, u64, u64) -> bool,
    E: Fn(&CuLeaf) -> bool,
    R: Fn(SearchState, &CuPlan, Place, u8) -> (SearchState, CuNode),

    requires
        unit_decided(env, at, ct_depth, before, after, t),
        at.log2_size > 3,
        at.x + side(at.log2_size) <= before.maps.width,
        at.y + side(at.log2_size) <= before.maps.height,
        always_splits(env, before, at, SplitSearch::PreferSplit),
    ensures
        split_only(env, at, ct_depth, r.0, r.1, r.2),
        t.cost.cost <= r.2.cost.cost,
        t.node is Split ==> t.node == r.2.node && t.cost == r.2.cost,
{
    reveal_with_fuel(unit_decided, 1);
    reveal_with_fuel(split_first, 1);
    let b = choose|b: (BlockSearchBudget, i32)| #[trigger]
        call_ensures(env.budget, (&before, at), b) && split_first(
            env,
            b.0,
            at,
            ct_depth,
            before,
            after,
            t,
        );
    let (base, split, apart, again, whole, leaf, cost, kept) = choose|
        base: RegionSnapshot,
        split: CuTrial,
        apart: SearchState,
        again: SearchState,
        whole: SearchState,
        leaf: CuLeaf,
        cost: RdCost,
        kept: RegionSnapshot,
    |
        {
            &&& #[trigger] prefer_steps(base, split, apart, again, whole, leaf, cost, kept)
            &&& split_only(
                env,
                at,
                ct_depth,
                worked(before, crate::search_state::save_work(&base)),
                apart,
                split,
            )
            &&& if split.cost.cost < cost.cost {
                &&& t.node == split.node
                &&& t.cost == split.cost
            } else {
                &&& t.node == crate::cu_search::confident(leaf, t.confidence)
                &&& t.cost == cost
            }
        };
    (worked(before, crate::search_state::save_work(&base)), apart, split)
}

/// A decision that is kept is the node as it was decided. One that is not is coded again
/// from its plan, by the caller, and carries the decision's confidence.
pub proof fn law_decisions_are_kept_or_coded_again<'a, L, N, T, B, P, K, E, R>(
    env: &CuEnv<'a, L, N, T, B, P, K, E, R>,
    at: Place,
    ct_depth: u8,
    before: SearchState,
    after: SearchState,
    node: CuNode,
) -> (r: (SearchState, CuTrial, Option<(SearchState, CuPlan, CuNode)>)) where
    L: Fn(SearchState, Place, u8) -> (SearchState, CuLeaf),
    N: Fn(SearchState, Place, u8) -> (SearchState, CuLeaf),
    T: Fn(&SearchState, Place) -> (bool, EncodeStats),
    B: Fn(&SearchState, Place) -> (BlockSearchBudget, i32),
    P: Fn(u64, u64) -> u64,
    K: Fn(BlockSearchBudget, u64, u64) -> bool,
    E: Fn(&CuLeaf) -> bool,
    R: Fn(SearchState, &CuPlan, Place, u8) -> (SearchState, CuNode),

    requires
        unit_built(env, at, ct_depth, before, after, node),
    ensures
        ({
            let (mid, t, again) = r;
            &&& env.keep ==> node == t.node && after == mid
            &&& !env.keep ==> {
                &&& again matches Some((start, plan, coded))
                &&& cu_plan_of(&plan, &t.node)
                &&& call_ensures(env.replay, (start, &plan, at, ct_depth), (after, coded))
                &&& coded is Split ==> node == coded
                &&& coded is Leaf ==> node is Leaf && node->Leaf_0.confidence == t.confidence
                    && node->Leaf_0.tt == coded->Leaf_0.tt && node->Leaf_0.luma_mode
                    == coded->Leaf_0.luma_mode
            }
        }),
{
    reveal_with_fuel(unit_built, 1);
    let (base, mid, t) = choose|base: RegionSnapshot, mid: SearchState, t: CuTrial|
        {
            &&& #[trigger] build_steps(base, mid, t)
            &&& if env.keep {
                after == mid && node == t.node
            } else {
                replayed(env, at, ct_depth, base, mid, t, after, node)
            }
        };
    if env.keep {
        (mid, t, None)
    } else {
        let (plan, start, coded) = choose|plan: CuPlan, start: SearchState, coded: CuNode|
            {
                &&& #[trigger] replay_steps(plan, start, coded)
                &&& cu_plan_of(&plan, &t.node)
                &&& call_ensures(env.replay, (start, &plan, at, ct_depth), (after, coded))
                &&& node == crate::cu_search::annotated(coded, t.confidence)
            };
        (mid, t, Some((start, plan, coded)))
    }
}

/// A tree that can only be a leaf is tried cheaply in a search of luma and chroma, and
/// exactly in a search of luma alone.
pub proof fn law_how_lone_leaves_are_tried<W, C, P, L, B, K>(
    env: &TtEnv<W, C, P, L, B>,
    close: K,
    ctxs: Seq<int>,
    cat: u8,
    s: CodeSettings,
    x0: int,
    y0: int,
    log2_size: u8,
    trafo_depth: u8,
    start: TrialReconRegion,
    r: TtTrial,
) where
    C: Fn(&W, &TrialReconRegion, BlockTask, EvalKind) -> BlockOutcome,
    P: Fn(u64, u64) -> u64,
    L: Fn(&W, u32, u32, u8, &Tt) -> bool,
    B: Fn(&W, u32, u32, u8) -> BlockSearchBudget,
    K: Fn(u64, u64, u32) -> bool,

    requires
        log2_size <= 5,
        log2_size == 2 || trafo_depth >= 2 || always(
            env,
            x0,
            y0,
            log2_size,
            SplitSearch::ForceLeaf,
        ),
    ensures
        tt_tried(env, ctxs, s, x0, y0, log2_size, trafo_depth as int, start, r) ==> leaf_tried(
            env,
            EvalKind::CheapTrial,
            s,
            x0,
            y0,
            log2_size,
            trafo_depth,
            start,
            r,
        ),
        luma_tried(env, close, ctxs, cat, s, x0, y0, log2_size, trafo_depth as int, start, r)
            ==> leaf_tried(
            env,
            EvalKind::ExactTrial,
            s,
            x0,
            y0,
            log2_size,
            trafo_depth,
            start,
            r,
        ),
{
    reveal_with_fuel(tt_tried, 1);
    reveal_with_fuel(luma_tried, 1);
}

/// The reference builds and prices every candidate, and keeps the first of the cheapest.
pub proof fn law_reference_builds_every_candidate<S, T, Y, R, X, K, G, P>(
    q: &LeafQuestions<S, T, Y, R, X, K, G, P>,
    set: LeafSettings,
    budget: &BlockSearchBudget,
    pic: &SourcePicture,
    ctxs: Seq<int>,
    x0: u32,
    y0: u32,
    log2_size: u8,
    ct_depth: u8,
    before: SearchState,
    after: SearchState,
    leaf: CuLeaf,
) -> (r: (LumaModePlan, Seq<FullTrial>, int)) where
    S: Fn(&SearchState, Place, u8) -> u64,
    T: Fn(&SearchState, Place, u8, LumaScreen) -> Tried,
    Y: Fn(&SearchState, Place, u64, u64) -> bool,
    R: Fn(&SearchState, Place, u8, u8) -> u64,
    X: Fn(&SearchState, Place, u8, u8, EvalKind) -> Tried,
    K: Fn(&SearchState, Place, u64, u64) -> bool,
    G: Fn(SearchState, Place, u8, u8) -> (SearchState, Tt),
    P: Fn(u64, u64) -> u64,

    requires
        leaf_built(
            q,
            set,
            budget,
            pic,
            ctxs,
            x0,
            y0,
            log2_size,
            ct_depth,
            before,
            after,
            leaf,
        ),
        set.reference,
    ensures
        ({
            let (plan, trials, w) = r;
            &&& trials.len() == plan.selection.candidates@.len()
            &&& 0 <= w < trials.len()
            &&& leaf == trials[w].leaf
            &&& forall|i: int|
                0 <= i < trials.len() ==> (#[trigger] trials[i]).leaf.luma_mode
                    == plan.selection.candidates@[i] && trials[w].cost <= trials[i].cost
            &&& forall|i: int| 0 <= i < w ==> trials[w].cost < (#[trigger] trials[i]).cost
        }),
{
    let (marked, plan, work) = choose|marked: SearchState, plan: LumaModePlan, work: EncodeStats|
        {
            let scanned = worked(marked, crate::rough::scan_work(plan.scored as nat));
            let mpm = crate::unit_modes::mpm_at(&marked.maps, marked.maps.mode_map@, x0, y0);
            &&& #[trigger] leaf_steps(marked, plan, work)
            &&& all_tried(
                q,
                set,
                pic,
                ctxs,
                x0,
                y0,
                log2_size,
                mpm,
                plan.selection.candidates@,
                scanned,
                after,
                leaf,
            )
        };
    let scanned = worked(marked, crate::rough::scan_work(plan.scored as nat));
    let mpm = crate::unit_modes::mpm_at(&marked.maps, marked.maps.mode_map@, x0, y0);
    let candidates = plan.selection.candidates@;
    let (base, last, won) = choose|base: RegionSnapshot, last: SearchState, won: KeptLeaf|
        {
            &&& #[trigger] all_steps(base, last, won)
            &&& trials_run(
                q,
                set,
                pic,
                ctxs,
                x0,
                y0,
                log2_size,
                mpm,
                candidates,
                base,
                worked(scanned, crate::search_state::save_work(&base)),
                candidates.len(),
                last,
                Some(won),
            )
            &&& leaf == won.leaf
        };
    let (trials, w) = law_cheapest_unit_is_kept(
        q,
        set,
        pic,
        ctxs,
        x0,
        y0,
        log2_size,
        mpm,
        candidates,
        base,
        worked(scanned, crate::search_state::save_work(&base)),
        candidates.len(),
        last,
        Some(won),
    );
    (plan, trials, w)
}

/// What a progressive scan scores second lies around steps of its coarse sweep: planar, DC
/// and the most probable modes are no centres of their own.
pub proof fn law_second_scan_refines_the_sweep(
    step: u8,
    top: u8,
    radius: u8,
    mpm: Seq<u8>,
    costs: Seq<u64>,
    m: u8,
) -> (center: u8)
    requires
        1 <= step <= 32,
        ({
            let set = RmdModeSet::Progressive {
                coarse_step: step,
                top_regions: top,
                refine_radius: radius,
            };
            refined_modes(set, false, mpm, costs).contains(m)
        }),
    ensures
        stepped(step as int).contains(center),
        center - radius <= m <= center + radius,
        2 <= m <= 34,
{
    let set = RmdModeSet::Progressive { coarse_step: step, top_regions: top, refine_radius: radius };
    let first = first_modes(set, false, mpm);
    let start = coarse_start(set, false, mpm) as int;
    let coarse = scored_modes(first, costs).skip(start);
    let sweep = stepped(step as int);
    let second = crate::rough::second_modes(first, coarse, top, radius);
    law_progressive_scores_once(step, top, radius, mpm, coarse);
    let centers = coarse_centers(coarse, top);
    let joined = crate::effort::join_refined(first, centers, radius, centers.len());
    law_refining_adds_neighbours(first, centers, radius, centers.len(), m);
    lemma_join_refined_prefix(first, centers, radius, centers.len());
    lemma_join_modes_prefix(scan_base(mpm), sweep, sweep.len());
    let k = choose|k: int| 0 <= k < second.len() && second[k] == m;
    assert(joined[first.len() + k] == m);
    assert(joined.contains(m));
    if first.contains(m) {
        let j = choose|j: int| 0 <= j < first.len() && first[j] == m;
        let all = first + second;
        assert(all[j] == m && all[first.len() + k] == m);
    }
    assert(near_center(centers, radius, centers.len(), m));
    let i = choose|i: int|
        0 <= i < centers.len() && (#[trigger] centers[i]) - radius <= m <= centers[i] + radius;
    let c = centers[i];
    law_sorted(coarse);
    let e = by_cost(coarse)[i];
    lemma_sorted_contains(coarse, e);
    assert(by_cost(coarse).contains(e));
    let j = choose|j: int| 0 <= j < coarse.len() && coarse[j] == e;
    assert(first[start + j] == c);
    lemma_joined_tail(scan_base(mpm), sweep, sweep.len(), start + j);
    c
}

/// What joined a list comes from the other list.
proof fn lemma_joined_tail(modes: Seq<u8>, more: Seq<u8>, n: nat, i: int)
    requires
        n <= more.len(),
        modes.len() <= i < join_modes(modes, more, n).len(),
    ensures
        more.contains(join_modes(modes, more, n)[i]),
    decreases n,
{
    if n > 0 {
        let before = join_modes(modes, more, (n - 1) as nat);
        if i < before.len() {
            lemma_joined_tail(modes, more, (n - 1) as nat, i);
            assert(join_modes(modes, more, n)[i] == before[i]);
        } else {
            assert(more[n - 1] == join_modes(modes, more, n)[i]);
        }
    }
}

} // verus!
