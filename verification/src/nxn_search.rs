//! Searching a coding unit of four prediction units.

use vstd::prelude::*;

use crate::arith_decode::bin_of;
use crate::budget::{BlockSearchBudget, RegionClass};
use crate::cabac::bin_cost;
use crate::contexts::{Contexts, CBF_LUMA};
use crate::cost::{estimate_intra_luma_mode_bits, items_cost};
use crate::cost_bound::{tt_whole, BLOCK_BITS_MAX};
use crate::cu_leaf::{
    asked, depth_noted, lemma_same_trans, luma_samples, smooth_block, unit_fits,
};
use crate::cu_tree::{code_parent, parent_coded, square_in_planes};
use crate::effort::{scan_modes, RmdModeSet};
use crate::final_code::{quadrant, square_ok, BlockTask, CodeSettings};
use crate::unit_modes::{mpm_at, mpm_here};
use crate::geometry::side;
use crate::items::{luma_mode_items, mpm_distinct};
use crate::math::min_int;
use crate::mode_search::{
    cheapest_mode, chroma_decided, costs_of, decide_chroma_mode, exact_winner, nxn_pu_winner, nxn_winner,
    partnxn_promising, partnxn_unconditional, should_try_partnxn, unconditional_parts,
    screening_work, tried_work, ChromaLimits, ChromaModePlan, PartNxnPrune,
};
use crate::policy::EvalKind;
use crate::quadtree::{lemma_sides, whole_leaf};
use crate::ranking::NO_COST;
use crate::replay::{
    code_env_ok, code_part, lemma_part_fits, lemma_planes_same, make_parted, mark_depth, part_coded,
    parted_leaf, settings_of, CodeEnv,
};
use crate::rough::{
    count_scan, decide_luma_modes, modes_decided, scan_work, steered_pruning, LumaModePlan, Place,
};
use crate::search_state::{worked, SearchState};
use crate::source::SourcePicture;
use crate::stats::{EncodeStats, Tried};
use crate::syntax::{CuLeaf, ParentChromaTu, Tt};
use crate::texture::{prune_angular_modes, threshold_fits};
use crate::tu_search::BlockOutcome;

verus! {

/// What a 4x4 prediction unit costs: its mode, its coded flag and its levels.
pub fn nxn_pu_bits(ctxs: &Contexts, mpm: [u8; 3], mode: u8, cbf: bool, residual_bits: u64) -> (bits:
    u64)
    requires
        ctxs.well_formed(),
        mpm_distinct(mpm),
        residual_bits <= BLOCK_BITS_MAX,
    ensures
        bits == items_cost(ctxs@, luma_mode_items(mpm, mode)) + bin_cost(
            ctxs@[CBF_LUMA as int],
            bin_of(cbf),
        ) + (if cbf {
            residual_bits as int
        } else {
            0
        }),
{
    let mode_bits: u64 = estimate_intra_luma_mode_bits(ctxs, mpm, mode);
    let m: crate::cabac::ContextModel = ctxs.models[CBF_LUMA];
    assert(ctxs@[CBF_LUMA as int] == m.packed());
    proof {
        crate::cost::lemma_bin_cost_bound(ctxs@[CBF_LUMA as int], bin_of(cbf));
    }
    let flag_bits: u64 = m.entropy_bits(cbf as u8) as u64;
    mode_bits + flag_bits + if cbf {
        residual_bits
    } else {
        0
    }
}

/// The best of the first `n` modes of a rough pass: the first of the cheapest, and the
/// filler where none has a cost.
pub open spec fn rough_best(modes: Seq<u8>, costs: Seq<u64>, filler: u8, n: nat) -> (u8, u64)
    decreases n,
{
    if n == 0 {
        (filler, u64::MAX)
    } else {
        let before = rough_best(modes, costs, filler, (n - 1) as nat);
        if costs[n - 1] < before.1 {
            (modes[n - 1], costs[n - 1])
        } else {
            before
        }
    }
}

/// Names the costs of a rough pass.
pub open spec fn pass_costs(costs: Seq<u64>) -> bool {
    true
}

/// A rough pass over the modes of a block's budget found this mode and cost, with so much
/// work.
pub open spec fn rough_passed<S>(
    st: &SearchState,
    at: Place,
    score: S,
    set: RmdModeSet,
    best: (u8, u64),
    work: EncodeStats,
) -> bool where S: Fn(&SearchState, Place, u8) -> u64 {
    exists|costs: Seq<u64>|
        {
            let mpm = mpm_at(&st.maps, st.maps.mode_map@, at.x, at.y);
            let modes = scan_modes(set) + mpm;
            &&& #[trigger] pass_costs(costs)
            &&& costs.len() == modes.len()
            &&& forall|i: int|
                0 <= i < modes.len() ==> call_ensures(
                    score,
                    (st, at, modes[i]),
                    #[trigger] costs[i],
                )
            &&& best == rough_best(modes, costs, mpm[0], modes.len())
            &&& work == scan_work(modes.len())
        }
}

/// Finds the mode with the best rough score.
pub fn rough_best_luma_mode<S>(
    st: &SearchState,
    at: Place,
    score: &S,
    budget: BlockSearchBudget,
) -> (r: ((u8, u64), EncodeStats)) where S: Fn(&SearchState, Place, u8) -> u64
    requires
        forall|m: u8| #[trigger] call_requires(*score, (st, at, m)),
        budget.rmd_mode_set.well_formed(),
    ensures
        rough_passed(st, at, *score, budget.rmd_mode_set, r.0, r.1),
{
    let mpm = mpm_here(&st.maps, at.x, at.y);
    let modes = budget.rough_luma_modes(mpm, false);
    let n: usize = modes.len();
    let mut best: (u8, u64) = (mpm[0], u64::MAX);
    let ghost mut costs: Seq<u64> = Seq::empty();
    for i in 0..n
        invariant
            n == modes@.len(),
            costs.len() == i,
            forall|m: u8| #[trigger] call_requires(*score, (st, at, m)),
            forall|k: int|
                0 <= k < i ==> call_ensures(*score, (st, at, modes@[k]), #[trigger] costs[k]),
            best == rough_best(modes@, costs, mpm@[0], i as nat),
    {
        let cost: u64 = (*score)(st, at, modes[i]);
        let ghost before = costs;
        proof {
            costs = costs.push(cost);
            assert(costs.take(before.len() as int) =~= before);
            lemma_rough_prefix(modes@, before, costs, mpm@[0], i as nat);
        }
        if cost < best.1 {
            best = (modes[i], cost);
        }
    }
    assert(pass_costs(costs));
    (best, count_scan(n))
}

proof fn lemma_rough_prefix(modes: Seq<u8>, a: Seq<u64>, b: Seq<u64>, filler: u8, n: nat)
    requires
        n <= a.len() <= b.len(),
        b.take(a.len() as int) == a,
    ensures
        rough_best(modes, a, filler, n) == rough_best(modes, b, filler, n),
    decreases n,
{
    if n > 0 {
        lemma_rough_prefix(modes, a, b, filler, (n - 1) as nat);
        assert(b.take(a.len() as int)[n - 1] == b[n - 1]);
    }
}

/// Names the results of rough passes over a block and its quarters.
pub open spec fn five_passes(
    whole: (u8, u64),
    modes: Seq<u8>,
    costs: Seq<u64>,
    works: Seq<EncodeStats>,
) -> bool {
    true
}

/// The place of a quarter of a unit of the smallest size.
pub open spec fn part_place(at: Place, i: int) -> Place {
    let p = quadrant(at.x as int, at.y as int, 4, i);
    Place { x: p.0 as u32, y: p.1 as u32, log2_size: 2 }
}

/// Four prediction units are worth a trial.
pub open spec fn parts_worth<S, B>(
    st: &SearchState,
    at: Place,
    prune: PartNxnPrune,
    region: RegionClass,
    score: S,
    budget: B,
    r: bool,
    work: EncodeStats,
) -> bool where
    S: Fn(&SearchState, Place, u8) -> u64,
    B: Fn(&SearchState, Place) -> BlockSearchBudget,
 {
    if unconditional_parts(prune, region) {
        r && work == EncodeStats::none()
    } else {
        exists|whole: (u8, u64), modes: Seq<u8>, costs: Seq<u64>, works: Seq<EncodeStats>|
            {
                &&& #[trigger] five_passes(whole, modes, costs, works)
                &&& pass_made(st, at, score, budget, whole, works[4])
                &&& modes.len() == 4
                &&& costs.len() == 4
                &&& works.len() == 5
                &&& forall|i: int|
                    0 <= i < 4 ==> pass_made(
                        st,
                        part_place(at, i),
                        score,
                        budget,
                        (#[trigger] modes[i], costs[i]),
                        works[i],
                    )
                &&& work == works[4].plus(works[0]).plus(works[1]).plus(works[2]).plus(works[3])
                &&& r == partnxn_promising(prune, whole.1, costs, modes)
            }
    }
}

/// A rough pass was made with the budget of a place.
pub open spec fn pass_made<S, B>(
    st: &SearchState,
    at: Place,
    score: S,
    budget: B,
    best: (u8, u64),
    work: EncodeStats,
) -> bool where
    S: Fn(&SearchState, Place, u8) -> u64,
    B: Fn(&SearchState, Place) -> BlockSearchBudget,
 {
    exists|g: BlockSearchBudget|
        {
            &&& #[trigger] call_ensures(budget, (st, at), g)
            &&& rough_passed(st, at, score, g.rmd_mode_set, best, work)
        }
}

fn make_pass<S, B>(st: &SearchState, at: Place, score: &S, budget: &B) -> (r: (
    (u8, u64),
    EncodeStats,
)) where
    S: Fn(&SearchState, Place, u8) -> u64,
    B: Fn(&SearchState, Place) -> BlockSearchBudget,

    requires
        forall|m: u8| #[trigger] call_requires(*score, (st, at, m)),
        call_requires(*budget, (st, at)),
        forall|g: BlockSearchBudget| #[trigger]
            call_ensures(*budget, (st, at), g) ==> g.rmd_mode_set.well_formed(),
    ensures
        pass_made(st, at, *score, *budget, r.0, r.1),
{
    let g = (*budget)(st, at);
    assert(call_ensures(*budget, (st, at), g));
    rough_best_luma_mode(st, at, score, g)
}

/// A unit, or one of its four parts.
pub open spec fn unit_or_part(at: Place, p: Place) -> bool {
    p == at || {
        &&& p.log2_size == 2
        &&& p.x == at.x || p.x == at.x + 4
        &&& p.y == at.y || p.y == at.y + 4
    }
}

/// Decides whether four prediction units are worth a trial, and counts the work of that.
pub fn should_try_partnxn_8x8<S, B>(
    st: &SearchState,
    at: Place,
    prune: PartNxnPrune,
    region: RegionClass,
    score: &S,
    budget: &B,
) -> (r: (bool, EncodeStats)) where
    S: Fn(&SearchState, Place, u8) -> u64,
    B: Fn(&SearchState, Place) -> BlockSearchBudget,

    requires
        square_ok(at.x as int, at.y as int, 3),
        forall|p: Place, m: u8|
            unit_or_part(at, p) ==> #[trigger] call_requires(*score, (st, p, m)),
        forall|p: Place| unit_or_part(at, p) ==> #[trigger] call_requires(*budget, (st, p)),
        forall|p: Place, g: BlockSearchBudget| #[trigger]
            call_ensures(*budget, (st, p), g) && unit_or_part(at, p)
                ==> g.rmd_mode_set.well_formed(),
    ensures
        parts_worth(st, at, prune, region, *score, *budget, r.0, r.1),
{
    if partnxn_unconditional(prune, region) {
        return (true, EncodeStats::default());
    }
    proof {
        lemma_sides();
    }
    let (whole, w4) = make_pass(st, at, score, budget);
    let (p0, w0) = make_pass(st, Place { x: at.x, y: at.y, log2_size: 2 }, score, budget);
    let (p1, w1) = make_pass(st, Place { x: at.x + 4, y: at.y, log2_size: 2 }, score, budget);
    let (p2, w2) = make_pass(st, Place { x: at.x, y: at.y + 4, log2_size: 2 }, score, budget);
    let (p3, w3) = make_pass(st, Place { x: at.x + 4, y: at.y + 4, log2_size: 2 }, score, budget);
    let costs: [u64; 4] = [p0.1, p1.1, p2.1, p3.1];
    let modes: [u8; 4] = [p0.0, p1.0, p2.0, p3.0];
    proof {
        let works = seq![w0, w1, w2, w3, w4];
        assert(five_passes(whole, modes@, costs@, works));
        assert forall|i: int| 0 <= i < 4 implies pass_made(
            st,
            part_place(at, i),
            *score,
            *budget,
            (#[trigger] modes@[i], costs@[i]),
            works[i],
        ) by {
            assert(i == 0 || i == 1 || i == 2 || i == 3);
        }
    }
    let work = w4.joined(w0).joined(w1).joined(w2).joined(w3);
    (should_try_partnxn(prune, whole.1, costs, modes), work)
}

/// What the search of four prediction units works on and asks of its caller.
pub struct NxnEnv<'a, F, Q, D, S, T, K, R, X, B> {
    pub coding: CodeEnv<'a, F, Q, D>,
    /// Modes are screened with plain quantisation, and the close ones tried exactly.
    pub adaptive: bool,
    /// A screen of so many modes takes the place of the budget's number.
    pub screen: Option<usize>,
    pub chroma: ChromaLimits,
    /// The rough score of a luma mode.
    pub score: S,
    /// The cost of a luma mode, exact or not.
    pub trial: T,
    /// Whether two costs are close.
    pub close: K,
    /// The rough cost of a chroma mode next to a luma mode.
    pub rough: R,
    /// The cost of a chroma mode.
    pub chroma_trial: X,
    pub budget: B,
}

/// The unit or one of its parts can be asked about.
pub open spec fn part_asked(pic: &SourcePicture, s: &SearchState, at: Place) -> bool {
    asked(pic, s, at) && at.log2_size <= 3
}

/// The caller answers for every unit of the smallest size and its parts.
pub open spec fn nxn_env_ok<'a, F, Q, D, S, T, K, R, X, B>(env: &NxnEnv<'a, F, Q, D, S, T, K, R, X, B>) -> bool where
    F: Fn(&SearchState, BlockTask) -> BlockOutcome,
    Q: Fn(u32, u32) -> (i32, i32),
    D: Fn(u8) -> u8,
    S: Fn(&SearchState, Place, u8) -> u64,
    T: Fn(&SearchState, Place, u8, bool) -> Tried,
    K: Fn(&SearchState, Place, u64, u64) -> bool,
    R: Fn(&SearchState, Place, u8, u8) -> u64,
    X: Fn(&SearchState, Place, u8, u8, EvalKind) -> Tried,
    B: Fn(&SearchState, Place) -> BlockSearchBudget,
 {
    &&& code_env_ok(&env.coding)
    &&& env.screen is Some ==> 0 < env.screen.unwrap() <= u32::MAX
    &&& forall|s: &SearchState, at: Place, m: u8|
        part_asked(env.coding.pic, s, at) ==> #[trigger] call_requires(env.score, (s, at, m))
    &&& forall|s: &SearchState, at: Place, m: u8, e: bool|
        part_asked(env.coding.pic, s, at) ==> #[trigger] call_requires(env.trial, (s, at, m, e))
    &&& forall|s: &SearchState, at: Place, m: u8, e: bool, c: Tried| #[trigger]
        call_ensures(env.trial, (s, at, m, e), c) && part_asked(env.coding.pic, s, at) ==> c.cost
            < NO_COST
    &&& forall|s: &SearchState, at: Place, a: u64, b: u64|
        part_asked(env.coding.pic, s, at) ==> #[trigger] call_requires(env.close, (s, at, a, b))
    &&& forall|s: &SearchState, at: Place, l: u8, m: u8|
        part_asked(env.coding.pic, s, at) ==> #[trigger] call_requires(env.rough, (s, at, l, m))
    &&& forall|s: &SearchState, at: Place, l: u8, m: u8, k: EvalKind|
        part_asked(env.coding.pic, s, at) ==> #[trigger] call_requires(
            env.chroma_trial,
            (s, at, l, m, k),
        )
    &&& forall|s: &SearchState, at: Place, l: u8, m: u8, k: EvalKind, c: Tried| #[trigger]
        call_ensures(env.chroma_trial, (s, at, l, m, k), c) && part_asked(env.coding.pic, s, at)
            ==> c.cost < NO_COST
    &&& forall|s: &SearchState, at: Place|
        part_asked(env.coding.pic, s, at) ==> #[trigger] call_requires(env.budget, (s, at))
    &&& forall|s: &SearchState, at: Place, g: BlockSearchBudget| #[trigger]
        call_ensures(env.budget, (s, at), g) && part_asked(env.coding.pic, s, at) ==> {
            &&& g.luma_rd_candidates > 0
            &&& threshold_fits(
                g.angular_prune_var_threshold_8bit,
                env.coding.pic.bit_depth as int,
            )
        }
}

/// The least of the first `n` costs.
pub open spec fn least(costs: Seq<u64>, n: nat) -> u64
    decreases n,
{
    if n == 0 {
        NO_COST
    } else {
        min_int(least(costs, (n - 1) as nat) as int, costs[n - 1] as int) as u64
    }
}

/// Names a part's trials.
pub open spec fn part_costs(outs: Seq<Tried>) -> bool {
    true
}

/// Names which of a part's modes are close, and their exact costs.
pub open spec fn part_rechecks(close: Seq<bool>, exact: Seq<Tried>) -> bool {
    true
}

/// Work with that of the first `n` exact trials added.
pub open spec fn rechecks_counted(
    work: EncodeStats,
    close: Seq<bool>,
    exact: Seq<Tried>,
    n: nat,
) -> EncodeStats
    decreases n,
{
    if n == 0 {
        work
    } else {
        let before = rechecks_counted(work, close, exact, (n - 1) as nat);
        if close[n - 1] {
            before.plus(exact[n - 1].work)
        } else {
            before
        }
    }
}

/// A part's mode was ranked: the first of the cheapest in exact trials, or of those close
/// to the cheapest of a screen.
pub open spec fn part_ranked<'a, F, Q, D, S, T, K, R, X, B>(
    env: &NxnEnv<'a, F, Q, D, S, T, K, R, X, B>,
    st: &SearchState,
    at: Place,
    modes: Seq<u8>,
    mode: u8,
    work: EncodeStats,
) -> bool where
    F: Fn(&SearchState, BlockTask) -> BlockOutcome,
    Q: Fn(u32, u32) -> (i32, i32),
    D: Fn(u8) -> u8,
    S: Fn(&SearchState, Place, u8) -> u64,
    T: Fn(&SearchState, Place, u8, bool) -> Tried,
    K: Fn(&SearchState, Place, u64, u64) -> bool,
    R: Fn(&SearchState, Place, u8, u8) -> u64,
    X: Fn(&SearchState, Place, u8, u8, EvalKind) -> Tried,
    B: Fn(&SearchState, Place) -> BlockSearchBudget,
 {
    exists|outs: Seq<Tried>|
        {
            let tried = screening_work(modes.len()).plus(tried_work(outs));
            &&& #[trigger] part_costs(outs)
            &&& outs.len() == modes.len()
            &&& forall|i: int|
                0 <= i < modes.len() ==> call_ensures(
                    env.trial,
                    (st, at, modes[i], !env.adaptive),
                    #[trigger] outs[i],
                )
            &&& if env.adaptive {
                part_rechecked(env, st, at, modes, costs_of(outs), tried, mode, work)
            } else {
                mode == exact_winner(modes, costs_of(outs)) && work == tried
            }
        }
}

pub open spec fn part_rechecked<'a, F, Q, D, S, T, K, R, X, B>(
    env: &NxnEnv<'a, F, Q, D, S, T, K, R, X, B>,
    st: &SearchState,
    at: Place,
    modes: Seq<u8>,
    costs: Seq<u64>,
    tried: EncodeStats,
    mode: u8,
    work: EncodeStats,
) -> bool where
    F: Fn(&SearchState, BlockTask) -> BlockOutcome,
    Q: Fn(u32, u32) -> (i32, i32),
    D: Fn(u8) -> u8,
    S: Fn(&SearchState, Place, u8) -> u64,
    T: Fn(&SearchState, Place, u8, bool) -> Tried,
    K: Fn(&SearchState, Place, u64, u64) -> bool,
    R: Fn(&SearchState, Place, u8, u8) -> u64,
    X: Fn(&SearchState, Place, u8, u8, EvalKind) -> Tried,
    B: Fn(&SearchState, Place) -> BlockSearchBudget,
 {
    exists|close: Seq<bool>, exact: Seq<Tried>|
        {
            &&& #[trigger] part_rechecks(close, exact)
            &&& close.len() == modes.len()
            &&& exact.len() == modes.len()
            &&& forall|i: int|
                0 <= i < modes.len() ==> call_ensures(
                    env.close,
                    (st, at, costs[i], least(costs, costs.len())),
                    #[trigger] close[i],
                )
            &&& forall|i: int|
                0 <= i < modes.len() && close[i] ==> call_ensures(
                    env.trial,
                    (st, at, modes[i], true),
                    #[trigger] exact[i],
                )
            &&& mode == nxn_winner(modes, close, costs_of(exact), modes.len()).item
            &&& work == rechecks_counted(tried, close, exact, modes.len())
        }
}

fn rank_part<'a, F, Q, D, S, T, K, R, X, B>(env: &NxnEnv<'a, F, Q, D, S, T, K, R, X, B>, st: &SearchState, at: Place, modes: &Vec<u8>) -> (r: (u8, EncodeStats)) where
    F: Fn(&SearchState, BlockTask) -> BlockOutcome,
    Q: Fn(u32, u32) -> (i32, i32),
    D: Fn(u8) -> u8,
    S: Fn(&SearchState, Place, u8) -> u64,
    T: Fn(&SearchState, Place, u8, bool) -> Tried,
    K: Fn(&SearchState, Place, u64, u64) -> bool,
    R: Fn(&SearchState, Place, u8, u8) -> u64,
    X: Fn(&SearchState, Place, u8, u8, EvalKind) -> Tried,
    B: Fn(&SearchState, Place) -> BlockSearchBudget,

    requires
        nxn_env_ok(env),
        part_asked(env.coding.pic, st, at),
        modes@.len() > 0,
    ensures
        part_ranked(env, st, at, modes@, r.0, r.1),
{
    let n: usize = modes.len();
    let mut costs: Vec<u64> = Vec::new();
    let mut work = EncodeStats { cu_trials: n as u64, ..EncodeStats::default() };
    let ghost screening = work;
    let mut tries = EncodeStats::default();
    let ghost mut outs: Seq<Tried> = Seq::empty();
    let mut best: u64 = NO_COST;
    for i in 0..n
        invariant
            n == modes@.len(),
            nxn_env_ok(env),
            part_asked(env.coding.pic, st, at),
            costs@.len() == i,
            outs.len() == i,
            costs@ == costs_of(outs),
            tries == tried_work(outs),
            forall|k: int|
                0 <= k < i ==> call_ensures(
                    env.trial,
                    (st, at, modes@[k], !env.adaptive),
                    #[trigger] outs[k],
                ),
            forall|k: int| 0 <= k < i ==> #[trigger] costs@[k] < NO_COST,
            best == least(costs@, i as nat),
    {
        let out = (env.trial)(st, at, modes[i], !env.adaptive);
        let cost: u64 = out.cost;
        let ghost before = costs@;
        let ghost earlier = outs;
        costs.push(cost);
        tries = tries.joined(out.work);
        proof {
            outs = outs.push(out);
            assert(outs.drop_last() =~= earlier);
            assert(costs@ =~= costs_of(outs));
            lemma_least_prefix(before, costs@, i as nat);
        }
        if cost < best {
            best = cost;
        }
    }
    assert(part_costs(outs));
    work = work.joined(tries);
    let ghost tried = work;
    if !env.adaptive {
        return (cheapest_mode(modes, &costs), work);
    }
    let mut close: Vec<bool> = Vec::new();
    let mut exact: Vec<u64> = Vec::new();
    let ghost mut exact_outs: Seq<Tried> = Seq::empty();
    for i in 0..n
        invariant
            n == modes@.len(),
            nxn_env_ok(env),
            part_asked(env.coding.pic, st, at),
            costs@.len() == n,
            best == least(costs@, n as nat),
            close@.len() == i,
            exact@.len() == i,
            exact_outs.len() == i,
            exact@ == costs_of(exact_outs),
            work == rechecks_counted(tried, close@, exact_outs, i as nat),
            forall|k: int|
                0 <= k < i ==> call_ensures(
                    env.close,
                    (st, at, costs@[k], best),
                    #[trigger] close@[k],
                ),
            forall|k: int|
                0 <= k < i && close@[k] ==> call_ensures(
                    env.trial,
                    (st, at, modes@[k], true),
                    #[trigger] exact_outs[k],
                ),
    {
        let near: bool = (env.close)(st, at, costs[i], best);
        let out = if near {
            (env.trial)(st, at, modes[i], true)
        } else {
            Tried { cost: NO_COST, work: EncodeStats::default() }
        };
        let ghost (old_close, old_exact) = (close@, exact_outs);
        close.push(near);
        exact.push(out.cost);
        if near {
            work = work.joined(out.work);
        }
        proof {
            exact_outs = exact_outs.push(out);
            assert(exact@ =~= costs_of(exact_outs));
            lemma_rechecks_prefix(tried, old_close, old_exact, close@, exact_outs, i as nat);
        }
    }
    assert(part_rechecks(close@, exact_outs));
    (nxn_pu_winner(modes, &close, &exact), work)
}

proof fn lemma_rechecks_prefix(
    work: EncodeStats,
    a_close: Seq<bool>,
    a_exact: Seq<Tried>,
    b_close: Seq<bool>,
    b_exact: Seq<Tried>,
    n: nat,
)
    requires
        n <= a_close.len() <= b_close.len(),
        n <= a_exact.len() <= b_exact.len(),
        forall|i: int| 0 <= i < a_close.len() ==> a_close[i] == b_close[i],
        forall|i: int| 0 <= i < a_exact.len() ==> a_exact[i] == b_exact[i],
    ensures
        rechecks_counted(work, a_close, a_exact, n) == rechecks_counted(
            work,
            b_close,
            b_exact,
            n,
        ),
    decreases n,
{
    if n > 0 {
        lemma_rechecks_prefix(work, a_close, a_exact, b_close, b_exact, (n - 1) as nat);
    }
}

proof fn lemma_least_prefix(a: Seq<u64>, b: Seq<u64>, n: nat)
    requires
        n <= a.len() <= b.len(),
        forall|i: int| 0 <= i < a.len() ==> a[i] == b[i],
    ensures
        least(a, n) == least(b, n),
    decreases n,
{
    if n > 0 {
        lemma_least_prefix(a, b, (n - 1) as nat);
    }
}

/// Names a part's budget and scored modes.
pub open spec fn part_plan(g: BlockSearchBudget, plan: LumaModePlan, more: EncodeStats) -> bool {
    true
}

/// The mode of a part was decided.
pub open spec fn part_decided<'a, F, Q, D, S, T, K, R, X, B>(env: &NxnEnv<'a, F, Q, D, S, T, K, R, X, B>, st: &SearchState, at: Place, mode: u8, work: EncodeStats) -> bool where
    F: Fn(&SearchState, BlockTask) -> BlockOutcome,
    Q: Fn(u32, u32) -> (i32, i32),
    D: Fn(u8) -> u8,
    S: Fn(&SearchState, Place, u8) -> u64,
    T: Fn(&SearchState, Place, u8, bool) -> Tried,
    K: Fn(&SearchState, Place, u64, u64) -> bool,
    R: Fn(&SearchState, Place, u8, u8) -> u64,
    X: Fn(&SearchState, Place, u8, u8, EvalKind) -> Tried,
    B: Fn(&SearchState, Place) -> BlockSearchBudget,
 {
    exists|g: BlockSearchBudget, plan: LumaModePlan, more: EncodeStats|
        {
            &&& #[trigger] part_plan(g, plan, more)
            &&& call_ensures(env.budget, (st, at), g)
            &&& modes_decided(
                st,
                at,
                env.score,
                &g,
                mpm_at(&st.maps, st.maps.mode_map@, at.x, at.y),
                env.screen,
                &plan,
            )
            &&& plan.pruning == steered_pruning(
                g.angular_prune,
                smooth_block(env.coding.pic, g.angular_prune_var_threshold_8bit, at),
            )
            &&& part_ranked(env, st, at, plan.selection.candidates@, mode, more)
            &&& work == scan_work(plan.scored as nat).plus(more)
        }
}

fn decide_part<'a, F, Q, D, S, T, K, R, X, B>(env: &NxnEnv<'a, F, Q, D, S, T, K, R, X, B>, st: &SearchState, at: Place) -> (r: (u8, EncodeStats)) where
    F: Fn(&SearchState, BlockTask) -> BlockOutcome,
    Q: Fn(u32, u32) -> (i32, i32),
    D: Fn(u8) -> u8,
    S: Fn(&SearchState, Place, u8) -> u64,
    T: Fn(&SearchState, Place, u8, bool) -> Tried,
    K: Fn(&SearchState, Place, u64, u64) -> bool,
    R: Fn(&SearchState, Place, u8, u8) -> u64,
    X: Fn(&SearchState, Place, u8, u8, EvalKind) -> Tried,
    B: Fn(&SearchState, Place) -> BlockSearchBudget,

    requires
        nxn_env_ok(env),
        part_asked(env.coding.pic, st, at),
        at.log2_size == 2,
    ensures
        part_decided(env, st, at, r.0, r.1),
{
    let g = (env.budget)(st, at);
    assert(call_ensures(env.budget, (st, at), g));
    let mpm = mpm_here(&st.maps, at.x, at.y);
    proof {
        lemma_sides();
    }
    let src = env.coding.pic.source_block(0, at.x, at.y, 4);
    assert(src@ =~= luma_samples(env.coding.pic, at));
    let smooth: bool = prune_angular_modes(
        &src,
        4,
        g.angular_prune_var_threshold_8bit,
        env.coding.pic.bit_depth,
    );
    let plan = decide_luma_modes(st, at, &env.score, &g, mpm, smooth, env.screen);
    let (mode, more) = rank_part(env, st, at, &plan.selection.candidates);
    assert(part_plan(g, plan, more));
    (mode, count_scan(plan.scored).joined(more))
}

/// Names the state before a part, and the work of deciding its mode.
pub open spec fn before_part(mid: SearchState, work: EncodeStats) -> bool {
    true
}

/// The first `n` parts were decided and coded in turn.
pub open spec fn parts_searched<'a, F, Q, D, S, T, K, R, X, B>(
    env: &NxnEnv<'a, F, Q, D, S, T, K, R, X, B>,
    at: Place,
    qp: (i32, i32),
    modes: Seq<u8>,
    before: SearchState,
    after: SearchState,
    mpms: Seq<[u8; 3]>,
    kids: Seq<Tt>,
    n: nat,
) -> bool where
    F: Fn(&SearchState, BlockTask) -> BlockOutcome,
    Q: Fn(u32, u32) -> (i32, i32),
    D: Fn(u8) -> u8,
    S: Fn(&SearchState, Place, u8) -> u64,
    T: Fn(&SearchState, Place, u8, bool) -> Tried,
    K: Fn(&SearchState, Place, u64, u64) -> bool,
    R: Fn(&SearchState, Place, u8, u8) -> u64,
    X: Fn(&SearchState, Place, u8, u8, EvalKind) -> Tried,
    B: Fn(&SearchState, Place) -> BlockSearchBudget,

    decreases n,
{
    if n == 0 {
        after == before
    } else {
        exists|mid: SearchState, work: EncodeStats|
            {
                &&& #[trigger] before_part(mid, work)
                &&& parts_searched(env, at, qp, modes, before, mid, mpms, kids, (n - 1) as nat)
                &&& part_decided(env, &mid, part_place(at, n - 1), modes[n - 1], work)
                &&& part_coded(
                    &env.coding,
                    quadrant(at.x as int, at.y as int, 4, n - 1),
                    qp,
                    modes[n - 1],
                    worked(mid, work),
                    after,
                    mpms[n - 1],
                    kids[n - 1],
                )
            }
    }
}

proof fn lemma_searched_prefix<'a, F, Q, D, S, T, K, R, X, B>(
    env: &NxnEnv<'a, F, Q, D, S, T, K, R, X, B>,
    at: Place,
    qp: (i32, i32),
    before: SearchState,
    after: SearchState,
    a_modes: Seq<u8>,
    a_mpms: Seq<[u8; 3]>,
    a_kids: Seq<Tt>,
    b_modes: Seq<u8>,
    b_mpms: Seq<[u8; 3]>,
    b_kids: Seq<Tt>,
    n: nat,
) where
    F: Fn(&SearchState, BlockTask) -> BlockOutcome,
    Q: Fn(u32, u32) -> (i32, i32),
    D: Fn(u8) -> u8,
    S: Fn(&SearchState, Place, u8) -> u64,
    T: Fn(&SearchState, Place, u8, bool) -> Tried,
    K: Fn(&SearchState, Place, u64, u64) -> bool,
    R: Fn(&SearchState, Place, u8, u8) -> u64,
    X: Fn(&SearchState, Place, u8, u8, EvalKind) -> Tried,
    B: Fn(&SearchState, Place) -> BlockSearchBudget,

    requires
        parts_searched(env, at, qp, a_modes, before, after, a_mpms, a_kids, n),
        forall|i: int| 0 <= i < n ==> #[trigger] a_mpms[i] == b_mpms[i],
        forall|i: int| 0 <= i < n ==> #[trigger] a_kids[i] == b_kids[i],
        forall|i: int| 0 <= i < n ==> #[trigger] a_modes[i] == b_modes[i],
    ensures
        parts_searched(env, at, qp, b_modes, before, after, b_mpms, b_kids, n),
    decreases n,
{
    if n > 0 {
        let (mid, work) = choose|mid: SearchState, work: EncodeStats|
            {
                &&& #[trigger] before_part(mid, work)
                &&& parts_searched(
                    env,
                    at,
                    qp,
                    a_modes,
                    before,
                    mid,
                    a_mpms,
                    a_kids,
                    (n - 1) as nat,
                )
                &&& part_decided(env, &mid, part_place(at, n - 1), a_modes[n - 1], work)
                &&& part_coded(
                    &env.coding,
                    quadrant(at.x as int, at.y as int, 4, n - 1),
                    qp,
                    a_modes[n - 1],
                    worked(mid, work),
                    after,
                    a_mpms[n - 1],
                    a_kids[n - 1],
                )
            };
        lemma_searched_prefix(
            env,
            at,
            qp,
            before,
            mid,
            a_modes,
            a_mpms,
            a_kids,
            b_modes,
            b_mpms,
            b_kids,
            (n - 1) as nat,
        );
        assert(before_part(mid, work));
        assert(a_mpms[n - 1] == b_mpms[n - 1] && a_kids[n - 1] == b_kids[n - 1]);
        assert(a_modes[n - 1] == b_modes[n - 1]);
    }
}

/// Names the steps of searching a unit of four parts.
pub open spec fn search_steps(
    marked: SearchState,
    coded: SearchState,
    qp: (i32, i32),
    chroma: ChromaModePlan,
    pred: u8,
    modes: Seq<u8>,
    mpms: Seq<[u8; 3]>,
    kids: Seq<Tt>,
    pc: Option<ParentChromaTu>,
    work: EncodeStats,
) -> bool {
    true
}

/// A coding unit of four prediction units was searched: each part decided and coded in
/// turn, then the chroma of all.
pub open spec fn nxn_searched<'a, F, Q, D, S, T, K, R, X, B>(
    env: &NxnEnv<'a, F, Q, D, S, T, K, R, X, B>,
    at: Place,
    ct_depth: u8,
    before: SearchState,
    after: SearchState,
    leaf: CuLeaf,
) -> bool where
    F: Fn(&SearchState, BlockTask) -> BlockOutcome,
    Q: Fn(u32, u32) -> (i32, i32),
    D: Fn(u8) -> u8,
    S: Fn(&SearchState, Place, u8) -> u64,
    T: Fn(&SearchState, Place, u8, bool) -> Tried,
    K: Fn(&SearchState, Place, u64, u64) -> bool,
    R: Fn(&SearchState, Place, u8, u8) -> u64,
    X: Fn(&SearchState, Place, u8, u8, EvalKind) -> Tried,
    B: Fn(&SearchState, Place) -> BlockSearchBudget,
 {
    exists|
        marked: SearchState,
        coded: SearchState,
        qp: (i32, i32),
        chroma: ChromaModePlan,
        pred: u8,
        modes: Seq<u8>,
        mpms: Seq<[u8; 3]>,
        kids: Seq<Tt>,
        pc: Option<ParentChromaTu>,
        work: EncodeStats,
    |
        {
            &&& #[trigger] search_steps(
                marked,
                coded,
                qp,
                chroma,
                pred,
                modes,
                mpms,
                kids,
                pc,
                work,
            )
            &&& depth_noted(before, marked, at.x as int, at.y as int, 3, ct_depth)
            &&& call_ensures(env.coding.qps, (at.x, at.y), qp)
            &&& parts_searched(env, at, qp, modes, marked, coded, mpms, kids, 4)
            &&& chroma_decided(
                &coded,
                Place { x: at.x, y: at.y, log2_size: 3 },
                env.coding.pic.cat,
                modes[0],
                env.rough,
                env.chroma_trial,
                env.close,
                env.chroma,
                chroma,
                work,
            )
            &&& call_ensures(env.coding.pred, (chroma.mode,), pred)
            &&& parent_coded(
                env.coding.code,
                settings_of(env.coding.pic.cat, modes[0], chroma.mode, pred, qp),
                at.x as int,
                at.y as int,
                worked(coded, work),
                after,
                pc,
            )
            &&& parted_leaf(&leaf, modes, mpms, chroma.mode_idx, pc, kids)
        }
}

/// Searches a coding unit of four prediction units.
#[verifier::rlimit(40)]
pub fn build_cu_leaf_nxn<'a, F, Q, D, S, T, K, R, X, B>(
    env: &NxnEnv<'a, F, Q, D, S, T, K, R, X, B>,
    at: Place,
    ct_depth: u8,
    state: SearchState,
) -> (r: (SearchState, CuLeaf)) where
    F: Fn(&SearchState, BlockTask) -> BlockOutcome,
    Q: Fn(u32, u32) -> (i32, i32),
    D: Fn(u8) -> u8,
    S: Fn(&SearchState, Place, u8) -> u64,
    T: Fn(&SearchState, Place, u8, bool) -> Tried,
    K: Fn(&SearchState, Place, u64, u64) -> bool,
    R: Fn(&SearchState, Place, u8, u8) -> u64,
    X: Fn(&SearchState, Place, u8, u8, EvalKind) -> Tried,
    B: Fn(&SearchState, Place) -> BlockSearchBudget,

    requires
        nxn_env_ok(env),
        state.well_formed(),
        unit_fits(env.coding.pic, &state.frame, at.x, at.y, at.log2_size),
        at.log2_size == 3,
    ensures
        nxn_searched(env, at, ct_depth, state, r.0, r.1),
        r.0.well_formed(),
        r.0.same_picture(&state),
        whole_leaf(&r.1, 3),
{
    let ghost before = state;
    let mut state = state;
    mark_depth(&mut state, at, ct_depth);
    let ghost marked = state;
    let qp: (i32, i32) = (env.coding.qps)(at.x, at.y);
    let ghost cat = env.coding.pic.cat;
    let ghost (xi, yi) = (at.x as int, at.y as int);
    let mut modes: [u8; 4] = [0, 0, 0, 0];
    let mut mpms: [[u8; 3]; 4] = [[0, 0, 0], [0, 0, 0], [0, 0, 0], [0, 0, 0]];
    let mut kids: Vec<Tt> = Vec::new();
    proof {
        lemma_sides();
        lemma_planes_same(&before, &marked, cat, xi, yi, 3);
    }
    for i in 0..4usize
        invariant
            nxn_env_ok(env),
            8 <= env.coding.pic.bit_depth <= 16,
            cat == env.coding.pic.cat,
            xi == at.x,
            yi == at.y,
            side(3) == 8,
            at.log2_size == 3,
            square_ok(xi, yi, 3),
            square_in_planes(&marked.frame, cat, xi, yi, 3),
            marked.well_formed(),
            state.well_formed(),
            state.same_picture(&marked),
            kids@.len() == i,
            forall|k: int| 0 <= k < i ==> tt_whole(&#[trigger] kids@[k], 2),
            forall|k: int| 0 <= k < i ==> mpm_distinct(#[trigger] mpms@[k]),
            parts_searched(env, at, qp, modes@, marked, state, mpms@, kids@, i as nat),
    {
        let px: u32 = if i % 2 == 1 {
            at.x + 4
        } else {
            at.x
        };
        let py: u32 = if i / 2 == 1 {
            at.y + 4
        } else {
            at.y
        };
        let ghost mid = state;
        let ghost old_modes = modes@;
        let ghost old_mpms = mpms@;
        let ghost old_kids = kids@;
        proof {
            assert(quadrant(xi, yi, 4, i as int) == (px as int, py as int));
            lemma_part_fits(&marked.frame, cat, xi, yi, i as int);
            lemma_planes_same(&marked, &mid, cat, px as int, py as int, 2);
        }
        let part = Place { x: px, y: py, log2_size: 2 };
        assert(part == part_place(at, i as int));
        let (mode, work) = decide_part(env, &state, part);
        state.count(work);
        let ghost ready = state;
        proof {
            lemma_same_trans(&marked, &mid, &ready);
            lemma_planes_same(&marked, &ready, cat, px as int, py as int, 2);
        }
        let (after, mpm, kid) = code_part(&env.coding, px, py, qp, mode, state);
        let ghost coded = kid;
        modes[i] = mode;
        mpms[i] = mpm;
        kids.push(kid);
        state = after;
        proof {
            lemma_same_trans(&marked, &ready, &state);
            assert(before_part(mid, work));
            lemma_searched_prefix(
                env,
                at,
                qp,
                marked,
                mid,
                old_modes,
                old_mpms,
                old_kids,
                modes@,
                mpms@,
                kids@,
                i as nat,
            );
            assert(kids@[i as int] == coded);
            assert(mpms@[i as int] == mpm);
            assert(modes@[i as int] == mode);
            assert forall|k: int| 0 <= k < i + 1 implies tt_whole(&#[trigger] kids@[k], 2) by {
                if k < i {
                    assert(kids@[k] == old_kids[k]);
                }
            }
            assert forall|k: int| 0 <= k < i + 1 implies mpm_distinct(#[trigger] mpms@[k]) by {
                if k < i {
                    assert(mpms@[k] == old_mpms[k]);
                }
            }
        }
    }
    let ghost parts = state;
    proof {
        lemma_planes_same(&marked, &parts, cat, xi, yi, 3);
        assert(part_asked(env.coding.pic, &parts, Place { x: at.x, y: at.y, log2_size: 3 }));
    }
    let (chroma, chroma_work) = decide_chroma_mode(
        &state,
        Place { x: at.x, y: at.y, log2_size: 3 },
        env.coding.pic.cat,
        modes[0],
        &env.rough,
        &env.chroma_trial,
        &env.close,
        env.chroma,
    );
    state.count(chroma_work);
    let ghost counted = state;
    proof {
        lemma_same_trans(&marked, &parts, &counted);
        lemma_planes_same(&marked, &counted, cat, xi, yi, 3);
    }
    let pred: u8 = (env.coding.pred)(chroma.mode);
    let s = CodeSettings {
        cat: env.coding.pic.cat,
        luma_mode: modes[0],
        chroma_mode: chroma.mode,
        chroma_pred: pred,
        qp_y: qp.0,
        qp_c: qp.1,
    };
    let (after, pc) = code_parent(&env.coding.code, s, at.x, at.y, state);
    let ghost parent = pc;
    let ghost all = kids@;
    let leaf = make_parted(modes, mpms, chroma.mode_idx, pc, kids);
    proof {
        assert(search_steps(
            marked,
            parts,
            qp,
            chroma,
            pred,
            modes@,
            mpms@,
            all,
            parent,
            chroma_work,
        ));
        lemma_same_trans(&before, &marked, &counted);
        assert(after.same_picture(&counted));
        lemma_same_trans(&before, &counted, &after);
    }
    (after, leaf)
}

} // verus!
