//! What holds of coding units as they are searched: the best of what was tried is kept,
//! and what is coded is what was decided.

use vstd::prelude::*;

use crate::cu_leaf::{
    leaf_priced, luma_samples, mode_built, mode_steps, plain_leaf, trial_steps, trials_run,
    tt_place, KeptLeaf, LeafQuestions, LeafSettings,
};
use crate::geometry::{side, spec_chroma_mode};
use crate::mode_search::{chroma_decided, ChromaLimits, ChromaModePlan, LumaScreen};
use crate::nxn_search::{least, part_place, rough_best};
use crate::policy::EvalKind;
use crate::rough::Place;
use crate::search_state::{RegionSnapshot, SearchState};
use crate::source::SourcePicture;
use crate::stats::{EncodeStats, Tried};
use crate::syntax::{CuLeaf, Tt};

verus! {

/// A rough pass keeps the first of the cheapest modes.
pub proof fn law_rough_pass_keeps_the_cheapest(
    modes: Seq<u8>,
    costs: Seq<u64>,
    filler: u8,
    n: nat,
    i: int,
)
    requires
        n <= modes.len(),
        costs.len() == modes.len(),
        0 <= i < n,
        forall|j: int| 0 <= j < n ==> #[trigger] costs[j] < u64::MAX,
    ensures
        ({
            let best = rough_best(modes, costs, filler, n);
            &&& best.1 <= costs[i]
            &&& exists|w: int|
                {
                    &&& 0 <= w < n
                    &&& #[trigger] costs[w] == best.1
                    &&& modes[w] == best.0
                    &&& forall|j: int| 0 <= j < w ==> best.1 < #[trigger] costs[j]
                }
        }),
    decreases n,
{
    assert(costs[n - 1] < u64::MAX);
    let before = rough_best(modes, costs, filler, (n - 1) as nat);
    if n > 1 {
        law_rough_pass_keeps_the_cheapest(
            modes,
            costs,
            filler,
            (n - 1) as nat,
            if i < n - 1 {
                i
            } else {
                0
            },
        );
        let w = choose|w: int|
            {
                &&& 0 <= w < n - 1
                &&& #[trigger] costs[w] == before.1
                &&& modes[w] == before.0
                &&& forall|j: int| 0 <= j < w ==> before.1 < #[trigger] costs[j]
            };
        if costs[n - 1] < before.1 {
            assert forall|j: int| 0 <= j < n - 1 implies costs[n - 1] < #[trigger] costs[j] by {
                law_rough_pass_keeps_the_cheapest(modes, costs, filler, (n - 1) as nat, j);
            }
        } else {
            assert(costs[w] == before.1);
        }
    } else {
        assert(costs[0] == costs[n - 1]);
    }
}

/// The least of some costs is among them, and none is below it.
pub proof fn law_least_is_least(costs: Seq<u64>, n: nat, i: int)
    requires
        n <= costs.len(),
        0 <= i < n,
    ensures
        least(costs, n) <= costs[i],
        exists|j: int| 0 <= j < n && #[trigger] costs[j] == least(costs, n),
    decreases n,
{
    if n == 1 {
        assert(least(costs, 0) == u64::MAX);
        assert(costs[0] == least(costs, 1));
    } else {
        law_least_is_least(costs, (n - 1) as nat, if i < n - 1 {
            i
        } else {
            0
        });
        let j = choose|j: int|
            0 <= j < n - 1 && #[trigger] costs[j] == least(costs, (n - 1) as nat);
        if costs[n - 1] < least(costs, (n - 1) as nat) {
            assert(costs[n - 1] == least(costs, n));
        } else {
            assert(costs[j] == least(costs, n));
        }
    }
}

/// The four parts of an 8x8 unit are 4x4 each, and every sample lies in just one of them:
/// the parts come row by row.
pub proof fn law_parts_tile_the_unit(at: Place, x: int, y: int, i: int)
    requires
        at.x <= 0xffff_fff0,
        at.y <= 0xffff_fff0,
        at.x <= x < at.x + 8,
        at.y <= y < at.y + 8,
        0 <= i < 4,
    ensures
        part_place(at, i).log2_size == 2,
        part_place(at, i).x <= x < part_place(at, i).x + 4 && part_place(at, i).y <= y
            < part_place(at, i).y + 4 <==> i == 2 * ((y - at.y) / 4) + (x - at.x) / 4,
{
    assert(i == 0 || i == 1 || i == 2 || i == 3);
}

/// The samples of a luma block are the source's, row by row.
pub proof fn law_samples_of_a_block(pic: &SourcePicture, at: Place, dx: int, dy: int)
    requires
        0 <= dx < side(at.log2_size),
        0 <= dy < side(at.log2_size),
    ensures
        luma_samples(pic, at).len() == side(at.log2_size) * side(at.log2_size),
        luma_samples(pic, at)[dy * side(at.log2_size) + dx] == pic.sample(
            0,
            at.x + dx,
            at.y + dy,
        ),
{
    let s = side(at.log2_size);
    let k = dy * s + dx;
    assert(0 <= k < s * s) by (nonlinear_arith)
        requires
            0 <= dx < s,
            0 <= dy < s,
            k == dy * s + dx,
    ;
    vstd::arithmetic::div_mod::lemma_fundamental_div_mod_converse(k, s, dy, dx);
}

/// Transform blocks are as large as their unit, up to 32x32.
pub proof fn law_blocks_of_a_unit(x0: u32, y0: u32, log2_size: u8)
    ensures
        tt_place(x0, y0, log2_size).x == x0 && tt_place(x0, y0, log2_size).y == y0,
        log2_size <= 5 ==> tt_place(x0, y0, log2_size).log2_size == log2_size,
        log2_size >= 5 ==> tt_place(x0, y0, log2_size).log2_size == 5,
{
}

/// The chroma mode of a decision is the one that its index selects next to the luma mode.
pub proof fn law_chroma_mode_fits_its_index<W, R, T, K>(
    world: &W,
    at: Place,
    cat: u8,
    luma_mode: u8,
    rough: R,
    trial: T,
    close: K,
    limits: ChromaLimits,
    plan: ChromaModePlan,
    work: EncodeStats,
) where
    R: Fn(&W, Place, u8, u8) -> u64,
    T: Fn(&W, Place, u8, u8, EvalKind) -> Tried,
    K: Fn(&W, Place, u64, u64) -> bool,

    requires
        chroma_decided(world, at, cat, luma_mode, rough, trial, close, limits, plan, work),
    ensures
        plan.mode == spec_chroma_mode(luma_mode, plan.mode_idx),
{
}

/// A unit that is built in a luma mode is coded in that mode, with the chroma mode that its
/// index selects, and says so.
pub proof fn law_unit_is_coded_as_it_says<S, T, Y, R, X, K, G, P>(
    q: &LeafQuestions<S, T, Y, R, X, K, G, P>,
    set: LeafSettings,
    x0: u32,
    y0: u32,
    log2_size: u8,
    mpm: Seq<u8>,
    luma_mode: u8,
    before: SearchState,
    after: SearchState,
    leaf: CuLeaf,
) -> (noted: SearchState) where
    S: Fn(&SearchState, Place, u8) -> u64,
    T: Fn(&SearchState, Place, u8, LumaScreen) -> Tried,
    Y: Fn(&SearchState, Place, u64, u64) -> bool,
    R: Fn(&SearchState, Place, u8, u8) -> u64,
    X: Fn(&SearchState, Place, u8, u8, EvalKind) -> Tried,
    K: Fn(&SearchState, Place, u64, u64) -> bool,
    G: Fn(SearchState, Place, u8, u8) -> (SearchState, Tt),
    P: Fn(u64, u64) -> u64,

    requires
        mode_built(q, set, x0, y0, log2_size, mpm, luma_mode, before, after, leaf),
    ensures
        leaf.luma_mode == luma_mode,
        leaf.mpm@ == mpm,
        leaf.nxn is None,
        call_ensures(
            q.tree,
            (
                noted,
                Place { x: x0, y: y0, log2_size },
                leaf.luma_mode,
                spec_chroma_mode(leaf.luma_mode, leaf.chroma_mode_idx),
            ),
            (after, leaf.tt),
        ),
        noted.frame == before.frame,
{
    let (chroma, noted, work) = choose|chroma: ChromaModePlan, noted: SearchState, work: EncodeStats|
        {
            &&& #[trigger] mode_steps(chroma, noted, work)
            &&& chroma_decided(
                &before,
                tt_place(x0, y0, log2_size),
                set.cat,
                luma_mode,
                q.rough,
                q.chroma_trial,
                q.close,
                set.chroma,
                chroma,
                work,
            )
            &&& crate::cu_leaf::mode_noted(
                crate::search_state::worked(before, work),
                noted,
                x0 as int,
                y0 as int,
                log2_size,
                luma_mode,
            )
            &&& call_ensures(
                q.tree,
                (noted, Place { x: x0, y: y0, log2_size }, luma_mode, chroma.mode),
                (after, leaf.tt),
            )
            &&& plain_leaf(&leaf, mpm, luma_mode, chroma.mode_idx, leaf.tt)
        };
    law_chroma_mode_fits_its_index(
        &before,
        tt_place(x0, y0, log2_size),
        set.cat,
        luma_mode,
        q.rough,
        q.chroma_trial,
        q.close,
        set.chroma,
        chroma,
        work,
    );
    noted
}

/// A candidate was built and priced.
pub struct FullTrial {
    pub state: SearchState,
    pub leaf: CuLeaf,
    pub cost: u64,
}

/// Of candidates that are each built and priced, the first of the cheapest is kept, with
/// the region as it left it.
pub proof fn law_cheapest_unit_is_kept<S, T, Y, R, X, K, G, P>(
    q: &LeafQuestions<S, T, Y, R, X, K, G, P>,
    set: LeafSettings,
    pic: &SourcePicture,
    ctxs: Seq<int>,
    x0: u32,
    y0: u32,
    log2_size: u8,
    mpm: Seq<u8>,
    candidates: Seq<u8>,
    base: RegionSnapshot,
    before: SearchState,
    n: nat,
    after: SearchState,
    kept: Option<KeptLeaf>,
) -> (r: (Seq<FullTrial>, int)) where
    S: Fn(&SearchState, Place, u8) -> u64,
    T: Fn(&SearchState, Place, u8, LumaScreen) -> Tried,
    Y: Fn(&SearchState, Place, u64, u64) -> bool,
    R: Fn(&SearchState, Place, u8, u8) -> u64,
    X: Fn(&SearchState, Place, u8, u8, EvalKind) -> Tried,
    K: Fn(&SearchState, Place, u64, u64) -> bool,
    G: Fn(SearchState, Place, u8, u8) -> (SearchState, Tt),
    P: Fn(u64, u64) -> u64,

    requires
        trials_run(
            q,
            set,
            pic,
            ctxs,
            x0,
            y0,
            log2_size,
            mpm,
            candidates,
            base,
            before,
            n,
            after,
            kept,
        ),
    ensures
        r.0.len() == n,
        forall|i: int|
            0 <= i < n ==> leaf_priced(
                q,
                pic,
                ctxs,
                set.cat,
                x0,
                y0,
                log2_size,
                &(#[trigger] r.0[i]).state,
                &r.0[i].leaf,
                r.0[i].cost,
            ) && r.0[i].leaf.luma_mode == candidates[i],
        n == 0 ==> kept is None,
        n > 0 ==> {
            let (trials, w) = r;
            &&& 0 <= w < n
            &&& kept matches Some(k) && k.leaf == trials[w].leaf && k.cost == trials[w].cost
                && k.region.copies(&trials[w].state, x0, y0, log2_size)
            &&& forall|i: int| 0 <= i < n ==> trials[w].cost <= (#[trigger] trials[i]).cost
            &&& forall|i: int| 0 <= i < w ==> trials[w].cost < (#[trigger] trials[i]).cost
        },
    decreases n,
{
    if n == 0 {
        (Seq::empty(), 0)
    } else {
        let (mid, earlier, start, built, leaf, cost) = choose|
            mid: SearchState,
            earlier: Option<KeptLeaf>,
            start: SearchState,
            built: SearchState,
            leaf: CuLeaf,
            cost: u64,
        |
            {
                &&& #[trigger] trial_steps(mid, earlier, start, built, leaf, cost)
                &&& trials_run(
                    q,
                    set,
                    pic,
                    ctxs,
                    x0,
                    y0,
                    log2_size,
                    mpm,
                    candidates,
                    base,
                    before,
                    (n - 1) as nat,
                    mid,
                    earlier,
                )
                &&& mode_built(
                    q,
                    set,
                    x0,
                    y0,
                    log2_size,
                    mpm,
                    candidates[n - 1],
                    start,
                    built,
                    leaf,
                )
                &&& leaf_priced(q, pic, ctxs, set.cat, x0, y0, log2_size, &built, &leaf, cost)
                &&& if (earlier matches Some(e) ==> cost < e.cost) {
                    &&& kept matches Some(k)
                    &&& k.leaf == leaf
                    &&& k.cost == cost
                    &&& k.region.copies(&built, x0, y0, log2_size)
                } else {
                    kept == earlier
                }
            };
        let (trials, w) = law_cheapest_unit_is_kept(
            q,
            set,
            pic,
            ctxs,
            x0,
            y0,
            log2_size,
            mpm,
            candidates,
            base,
            before,
            (n - 1) as nat,
            mid,
            earlier,
        );
        let last = FullTrial { state: built, leaf, cost };
        let all = trials.push(last);
        law_unit_is_coded_as_it_says(
            q,
            set,
            x0,
            y0,
            log2_size,
            mpm,
            candidates[n - 1],
            start,
            built,
            leaf,
        );
        assert forall|i: int| 0 <= i < n implies leaf_priced(
            q,
            pic,
            ctxs,
            set.cat,
            x0,
            y0,
            log2_size,
            &(#[trigger] all[i]).state,
            &all[i].leaf,
            all[i].cost,
        ) && all[i].leaf.luma_mode == candidates[i] by {
            if i < n - 1 {
                assert(all[i] == trials[i]);
            }
        }
        let v = if (earlier matches Some(e) ==> cost < e.cost) {
            n - 1
        } else {
            w
        };
        assert forall|i: int| 0 <= i < n implies all[v].cost <= (#[trigger] all[i]).cost by {
            if i < n - 1 {
                assert(all[i] == trials[i]);
            }
        }
        assert forall|i: int| 0 <= i < v implies all[v].cost < (#[trigger] all[i]).cost by {
            if i < n - 1 {
                assert(all[i] == trials[i]);
            }
        }
        (all, v)
    }
}

} // verus!
