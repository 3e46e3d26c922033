//! What holds of the trees that are chosen: limits and budgets are kept, and what is
//! compared is decided by cost.

use vstd::prelude::*;

use crate::budget::BlockSearchBudget;
use crate::cost::items_cost;
use crate::cu_search::{
    annotated, confidence_of, confident, four_compared, nxn_steps, split_only, unit_decided,
    unit_priced, CuEnv, CuTrial, RdCost,
};
use crate::effort::SplitSearch;
use crate::final_code::{BlockTask, CodeSettings};
use crate::geometry::side;
use crate::items::tt_items;
use crate::luma_search::{
    exact_leaf, luma_prices, luma_split_tried, luma_tried, staged_compared,
};
use crate::policy::EvalKind;
use crate::rough::Place;
use crate::search_state::{RegionSnapshot, SearchState};
use crate::stats::EncodeStats;
use crate::syntax::{CuLeaf, CuNode, CuPlan, DecisionConfidence, Tt};
use crate::trial_region::TrialReconRegion;
use crate::tu_search::{
    compared, kids_distortion, leaf_tried, priced, split_tried, total_distortion, tt_decided,
    tt_tried, two_trials, BlockOutcome, TtDecision, TtEnv, TtTrial,
};

verus! {

/// What a tree costs: its price for its error and for the bits of its syntax.
pub open spec fn tree_price<P>(price: P, ctxs: Seq<int>, cat: u8, t: TtTrial, cost: u64) -> bool where
    P: Fn(u64, u64) -> u64,
 {
    call_ensures(
        price,
        (t.distortion, items_cost(ctxs, tt_items(&t.tt, cat, false, true, true)) as u64),
        cost,
    )
}

/// Of a leaf and a split the cheaper is kept, with its samples and its error, and the leaf
/// where they cost the same. The kept one costs the lower of the two costs.
pub proof fn law_cheaper_tree_is_kept<W, C, P, L, B>(
    env: &TtEnv<W, C, P, L, B>,
    ctxs: Seq<int>,
    s: CodeSettings,
    x0: int,
    y0: int,
    log2_size: u8,
    trafo_depth: int,
    split_start: TrialReconRegion,
    leaf: TtTrial,
    r: TtTrial,
) -> (costs: (u64, u64)) where
    C: Fn(&W, &TrialReconRegion, BlockTask, EvalKind) -> BlockOutcome,
    P: Fn(u64, u64) -> u64,
    L: Fn(&W, u32, u32, u8, &Tt) -> bool,
    B: Fn(&W, u32, u32, u8) -> BlockSearchBudget,

    requires
        compared(env, ctxs, s, x0, y0, log2_size, trafo_depth, split_start, leaf, r),
        leaf.tt is Leaf,
    ensures
        r.race == Some(costs),
        tree_price(env.price, ctxs, s.cat, leaf, costs.0),
        costs.0 <= costs.1 ==> r.tt == leaf.tt && r.distortion == leaf.distortion && r.region
            == leaf.region,
        costs.0 > costs.1 ==> r.tt is Split,
        tree_price(
            env.price,
            ctxs,
            s.cat,
            r,
            if costs.0 <= costs.1 {
                costs.0
            } else {
                costs.1
            },
        ),
{
    reveal_with_fuel(compared, 1);
    let (leaf_cost, split_cost, split) = choose|leaf_cost: u64, split_cost: u64, split: TtTrial|
        {
            &&& #[trigger] two_trials(leaf_cost, split_cost, split)
            &&& split_tried(
                env,
                ctxs,
                s,
                x0,
                y0,
                log2_size,
                trafo_depth,
                split_start,
                split,
            )
            &&& priced(env, ctxs, s.cat, leaf, leaf_cost)
            &&& priced(env, ctxs, s.cat, split, split_cost)
            &&& r == crate::tu_search::raced(leaf, split, leaf_cost, split_cost)
        };
    (leaf_cost, split_cost)
}

/// A luma split was compared with a leaf: with an exact one where the cheap one was close,
/// with the cheap one else. The cheaper was kept, and the leaf where both cost the same.
pub proof fn law_cheaper_luma_is_kept<W, C, P, L, B, K>(
    env: &TtEnv<W, C, P, L, B>,
    close: K,
    ctxs: Seq<int>,
    cat: u8,
    s: CodeSettings,
    x0: int,
    y0: int,
    log2_size: u8,
    trafo_depth: int,
    margin_milli: u32,
    start: TrialReconRegion,
    leaf: TtTrial,
    r: TtTrial,
) -> (o: (u64, u64, TtTrial, u64)) where
    C: Fn(&W, &TrialReconRegion, BlockTask, EvalKind) -> BlockOutcome,
    P: Fn(u64, u64) -> u64,
    L: Fn(&W, u32, u32, u8, &Tt) -> bool,
    B: Fn(&W, u32, u32, u8) -> BlockSearchBudget,
    K: Fn(u64, u64, u32) -> bool,

    requires
        staged_compared(
            env,
            close,
            ctxs,
            cat,
            s,
            x0,
            y0,
            log2_size,
            trafo_depth,
            margin_milli,
            start,
            leaf,
            r,
        ),
        leaf.tt is Leaf,
    ensures
        ({
            let (cheap_cost, split_cost, last, last_cost) = o;
            &&& tree_price(env.price, ctxs, 0, leaf, cheap_cost)
            &&& tree_price(env.price, ctxs, 0, last, last_cost)
            &&& last.tt is Leaf
            &&& {
                ||| call_ensures(close, (cheap_cost, split_cost, margin_milli), false) && last
                    == leaf
                ||| call_ensures(close, (cheap_cost, split_cost, margin_milli), true)
                    && leaf_tried(
                    env,
                    EvalKind::ExactTrial,
                    s,
                    x0,
                    y0,
                    log2_size,
                    trafo_depth as u8,
                    start,
                    last,
                )
            }
            &&& last_cost <= split_cost ==> r.tt == last.tt && r.distortion == last.distortion
                && r.region == last.region
            &&& last_cost > split_cost ==> r.tt is Split && tree_price(
                env.price,
                ctxs,
                0,
                r,
                split_cost,
            )
        }),
{
    reveal_with_fuel(staged_compared, 1);
    let (leaf_cost, split_cost, split, split_start, is_close) = choose|
        leaf_cost: u64,
        split_cost: u64,
        split: TtTrial,
        split_start: TrialReconRegion,
        is_close: bool,
    |
        {
            &&& #[trigger] luma_prices(leaf_cost, split_cost, split, split_start, is_close)
            &&& luma_split_tried(
                env,
                close,
                ctxs,
                cat,
                s,
                x0,
                y0,
                log2_size,
                trafo_depth,
                split_start,
                split,
            )
            &&& priced(env, ctxs, 0, leaf, leaf_cost)
            &&& priced(env, ctxs, 0, split, split_cost)
            &&& call_ensures(close, (leaf_cost, split_cost, margin_milli), is_close)
            &&& if is_close {
                exists|exact: TtTrial, exact_cost: u64|
                    {
                        &&& #[trigger] exact_leaf(exact, exact_cost)
                        &&& leaf_tried(
                            env,
                            EvalKind::ExactTrial,
                            s,
                            x0,
                            y0,
                            log2_size,
                            trafo_depth as u8,
                            start,
                            exact,
                        )
                        &&& priced(env, ctxs, 0, exact, exact_cost)
                        &&& r == (TtTrial {
                            work: leaf.work.plus(split.work).plus(exact.work),
                            ..if split_cost < exact_cost {
                                split
                            } else {
                                exact
                            }
                        })
                    }
            } else {
                r == (TtTrial {
                    work: leaf.work.plus(split.work),
                    ..if split_cost < leaf_cost {
                        split
                    } else {
                        leaf
                    }
                })
            }
        };
    if is_close {
        let (exact, exact_cost) = choose|exact: TtTrial, exact_cost: u64|
            {
                &&& #[trigger] exact_leaf(exact, exact_cost)
                &&& leaf_tried(
                    env,
                    EvalKind::ExactTrial,
                    s,
                    x0,
                    y0,
                    log2_size,
                    trafo_depth as u8,
                    start,
                    exact,
                )
                &&& priced(env, ctxs, 0, exact, exact_cost)
                &&& r == (TtTrial {
                    work: leaf.work.plus(split.work).plus(exact.work),
                    ..if split_cost < exact_cost {
                        split
                    } else {
                        exact
                    }
                })
            };
        (leaf_cost, split_cost, exact, exact_cost)
    } else {
        (leaf_cost, split_cost, leaf, leaf_cost)
    }
}

/// Every budget of a block asks for the same search of splits.
pub open spec fn always<W, C, P, L, B>(
    env: &TtEnv<W, C, P, L, B>,
    x0: int,
    y0: int,
    log2_size: u8,
    tu_split: SplitSearch,
) -> bool where B: Fn(&W, u32, u32, u8) -> BlockSearchBudget {
    forall|b: BlockSearchBudget| #[trigger]
        call_ensures(env.budget, (env.world, x0 as u32, y0 as u32, log2_size), b) ==> b.tu_split
            == tu_split
}

/// A transform tree above 32x32 is split, one of 4x4 is not, and neither is one at the
/// second depth or an 8x8 one whose chroma cannot follow. Elsewhere a budget that forces
/// leaves gets leaves, and one that forces splits gets splits.
pub proof fn law_trees_keep_limits<W, C, P, L, B>(
    env: &TtEnv<W, C, P, L, B>,
    ctxs: Seq<int>,
    s: CodeSettings,
    x0: int,
    y0: int,
    log2_size: u8,
    trafo_depth: u8,
    start: TrialReconRegion,
    r: TtTrial,
) where
    C: Fn(&W, &TrialReconRegion, BlockTask, EvalKind) -> BlockOutcome,
    P: Fn(u64, u64) -> u64,
    L: Fn(&W, u32, u32, u8, &Tt) -> bool,
    B: Fn(&W, u32, u32, u8) -> BlockSearchBudget,

    requires
        tt_tried(env, ctxs, s, x0, y0, log2_size, trafo_depth as int, start, r),
    ensures
        log2_size > 5 ==> r.tt is Split,
        log2_size <= 2 ==> r.tt is Leaf,
        log2_size <= 5 && trafo_depth >= 2 ==> r.tt is Leaf,
        log2_size == 3 && (s.cat == 1 || s.cat == 2) ==> r.tt is Leaf,
        log2_size <= 5 && always(env, x0, y0, log2_size, SplitSearch::ForceLeaf) ==> r.tt is Leaf,
        4 <= log2_size <= 5 && trafo_depth < 2 && always(
            env,
            x0,
            y0,
            log2_size,
            SplitSearch::ForceSplit,
        ) ==> r.tt is Split,
        r.tt is Leaf ==> r.tt.size() == log2_size,
{
    reveal_with_fuel(tt_tried, 1);
    reveal_with_fuel(split_tried, 1);
    reveal_with_fuel(compared, 1);
}

/// The same limits hold of trees that are searched for luma alone: `cat` is the format of
/// the chroma that will follow.
pub proof fn law_luma_trees_keep_limits<W, C, P, L, B, K>(
    env: &TtEnv<W, C, P, L, B>,
    close: K,
    ctxs: Seq<int>,
    cat: u8,
    s: CodeSettings,
    x0: int,
    y0: int,
    log2_size: u8,
    trafo_depth: u8,
    start: TrialReconRegion,
    r: TtTrial,
) where
    C: Fn(&W, &TrialReconRegion, BlockTask, EvalKind) -> BlockOutcome,
    P: Fn(u64, u64) -> u64,
    L: Fn(&W, u32, u32, u8, &Tt) -> bool,
    B: Fn(&W, u32, u32, u8) -> BlockSearchBudget,
    K: Fn(u64, u64, u32) -> bool,

    requires
        luma_tried(env, close, ctxs, cat, s, x0, y0, log2_size, trafo_depth as int, start, r),
    ensures
        log2_size > 5 ==> r.tt is Split,
        log2_size <= 2 ==> r.tt is Leaf,
        log2_size <= 5 && trafo_depth >= 2 ==> r.tt is Leaf,
        log2_size == 3 && (cat == 1 || cat == 2) ==> r.tt is Leaf,
        log2_size <= 5 && always(env, x0, y0, log2_size, SplitSearch::ForceLeaf) ==> r.tt is Leaf,
        4 <= log2_size <= 5 && trafo_depth < 2 && always(
            env,
            x0,
            y0,
            log2_size,
            SplitSearch::ForceSplit,
        ) ==> r.tt is Split,
        r.tt is Leaf ==> r.tt.size() == log2_size,
{
    reveal_with_fuel(luma_tried, 1);
    reveal_with_fuel(luma_split_tried, 1);
    reveal_with_fuel(staged_compared, 1);
}

/// Whether two costs were close is asked with the lower one first, and only where leaf and
/// split were compared.
pub proof fn law_close_is_asked_of_the_lower<W, C, P, L, B, K>(
    env: &TtEnv<W, C, P, L, B>,
    close: K,
    ctxs: Seq<int>,
    s: CodeSettings,
    at: Place,
    trafo_depth: u8,
    start: TrialReconRegion,
    d: TtDecision,
    low: u64,
    high: u64,
) where
    C: Fn(&W, &TrialReconRegion, BlockTask, EvalKind) -> BlockOutcome,
    P: Fn(u64, u64) -> u64,
    L: Fn(&W, u32, u32, u8, &Tt) -> bool,
    B: Fn(&W, u32, u32, u8) -> BlockSearchBudget,
    K: Fn(&W, Place, u64, u64) -> bool,

    requires
        tt_decided(env, close, ctxs, s, at.x, at.y, at.log2_size, trafo_depth, start, d),
        low <= high,
    ensures
        d.trial.race is None ==> d.confidence == DecisionConfidence::Clear,
        d.trial.race == Some((low, high)) || d.trial.race == Some((high, low)) ==> call_ensures(
            close,
            (env.world, at, low, high),
            d.confidence == DecisionConfidence::Close,
        ),
        call_ensures(env.price, (d.trial.distortion, d.cost.frac_bits), d.cost.cost),
        d.cost.distortion == d.trial.distortion,
{
}

/// A transform split that is preferred is always tried, and held against the leaf.
pub proof fn law_preferred_transform_split_is_tried<W, C, P, L, B>(
    env: &TtEnv<W, C, P, L, B>,
    ctxs: Seq<int>,
    s: CodeSettings,
    x0: int,
    y0: int,
    log2_size: u8,
    trafo_depth: u8,
    start: TrialReconRegion,
    r: TtTrial,
) where
    C: Fn(&W, &TrialReconRegion, BlockTask, EvalKind) -> BlockOutcome,
    P: Fn(u64, u64) -> u64,
    L: Fn(&W, u32, u32, u8, &Tt) -> bool,
    B: Fn(&W, u32, u32, u8) -> BlockSearchBudget,

    requires
        tt_tried(env, ctxs, s, x0, y0, log2_size, trafo_depth as int, start, r),
        4 <= log2_size <= 5,
        trafo_depth < 2,
        always(env, x0, y0, log2_size, SplitSearch::PreferSplit),
    ensures
        r.race is Some,
        r.race matches Some((leaf, split)) && leaf <= split ==> r.tt is Leaf,
        r.race matches Some((leaf, split)) && leaf > split ==> r.tt is Split,
{
    reveal_with_fuel(tt_tried, 1);
    reveal_with_fuel(split_tried, 1);
    reveal_with_fuel(compared, 1);
}

/// Each block's error counts once in a leaf's, and each child's once in a split's.
pub proof fn law_errors_add_up(
    outs: Seq<BlockOutcome>,
    o: BlockOutcome,
    i: int,
    done: Seq<TtTrial>,
    t: TtTrial,
    n: nat,
    j: int,
)
    requires
        0 <= i < outs.len(),
        0 <= j < n <= done.len(),
    ensures
        total_distortion(outs.update(i, o)) - total_distortion(outs) == o.distortion
            - outs[i].distortion,
        kids_distortion(done.update(j, t), n) - kids_distortion(done, n) == t.distortion
            - done[j].distortion,
        total_distortion(Seq::empty()) == 0 && kids_distortion(done, 0) == 0,
{
    lemma_total(outs, o, i);
    lemma_kids(done, t, n, j);
}

proof fn lemma_total(outs: Seq<BlockOutcome>, o: BlockOutcome, i: int)
    requires
        0 <= i < outs.len(),
    ensures
        total_distortion(outs.update(i, o)) - total_distortion(outs) == o.distortion
            - outs[i].distortion,
    decreases outs.len(),
{
    if i < outs.len() - 1 {
        lemma_total(outs.drop_last(), o, i);
        assert(outs.update(i, o).drop_last() =~= outs.drop_last().update(i, o));
    } else {
        assert(outs.update(i, o).drop_last() =~= outs.drop_last());
    }
}

proof fn lemma_kids(done: Seq<TtTrial>, t: TtTrial, n: nat, j: int)
    requires
        0 <= j < n <= done.len(),
    ensures
        kids_distortion(done.update(j, t), n) - kids_distortion(done, n) == t.distortion
            - done[j].distortion,
    decreases n,
{
    if j < n - 1 {
        lemma_kids(done, t, (n - 1) as nat, j);
    } else {
        lemma_kids_same(done, done.update(j, t), (n - 1) as nat);
    }
}

proof fn lemma_kids_same(a: Seq<TtTrial>, b: Seq<TtTrial>, n: nat)
    requires
        n <= a.len(),
        n <= b.len(),
        forall|k: int| 0 <= k < n ==> a[k] == b[k],
    ensures
        kids_distortion(a, n) == kids_distortion(b, n),
    decreases n,
{
    if n > 0 {
        lemma_kids_same(a, b, (n - 1) as nat);
    }
}

/// Every budget of a coding unit asks for the same search of splits.
pub open spec fn always_splits<'a, L, N, T, B, P, K, E, R>(
    env: &CuEnv<'a, L, N, T, B, P, K, E, R>,
    before: SearchState,
    at: Place,
    cu_split: SplitSearch,
) -> bool where B: Fn(&SearchState, Place) -> (BlockSearchBudget, i32) {
    forall|b: (BlockSearchBudget, i32)| #[trigger]
        call_ensures(env.budget, (&before, at), b) ==> b.0.cu_split == cu_split
}

/// A unit of 8x8 is not split, and a larger one that reaches over the picture's edge is.
/// Inside the picture a budget that forces leaves gets leaves, and one that forces splits
/// gets splits, and neither is in doubt.
pub proof fn law_units_keep_limits<'a, L, N, T, B, P, K, E, R>(
    env: &CuEnv<'a, L, N, T, B, P, K, E, R>,
    at: Place,
    ct_depth: u8,
    before: SearchState,
    after: SearchState,
    t: CuTrial,
) where
    L: Fn(SearchState, Place, u8) -> (SearchState, CuLeaf),
    N: Fn(SearchState, Place, u8) -> (SearchState, CuLeaf),
    T: Fn(&SearchState, Place) -> (bool, EncodeStats),
    B: Fn(&SearchState, Place) -> (BlockSearchBudget, i32),
    P: Fn(u64, u64) -> u64,
    K: Fn(BlockSearchBudget, u64, u64) -> bool,
    E: Fn(&CuLeaf) -> bool,
    R: Fn(SearchState, &CuPlan, Place, u8) -> (SearchState, CuNode),

    requires
        unit_decided(env, at, ct_depth, before, after, t),
    ensures
        ({
            let inside = at.x + side(at.log2_size) <= before.maps.width && at.y + side(
                at.log2_size,
            ) <= before.maps.height;
            &&& at.log2_size <= 3 ==> t.node is Leaf && t.confidence == DecisionConfidence::Clear
            &&& at.log2_size > 3 && !inside ==> t.node is Split && t.confidence
                == DecisionConfidence::Clear
            &&& at.log2_size > 3 && inside && always_splits(
                env,
                before,
                at,
                SplitSearch::ForceLeaf,
            ) ==> t.node is Leaf && t.confidence == DecisionConfidence::Clear
            &&& at.log2_size > 3 && inside && always_splits(
                env,
                before,
                at,
                SplitSearch::ForceSplit,
            ) ==> t.node is Split && t.confidence == DecisionConfidence::Clear
        }),
{
    reveal_with_fuel(unit_decided, 1);
    reveal_with_fuel(split_only, 1);
}

/// Four prediction units win only where they cost less than one, and then what they left
/// is kept.
pub proof fn law_cheaper_parts_are_kept<'a, L, N, T, B, P, K, E, R>(
    env: &CuEnv<'a, L, N, T, B, P, K, E, R>,
    at: Place,
    ct_depth: u8,
    again: SearchState,
    kept: RegionSnapshot,
    leaf: CuLeaf,
    cost: RdCost,
    after: SearchState,
    t: CuTrial,
) -> (parted: (SearchState, CuLeaf)) where
    L: Fn(SearchState, Place, u8) -> (SearchState, CuLeaf),
    N: Fn(SearchState, Place, u8) -> (SearchState, CuLeaf),
    T: Fn(&SearchState, Place) -> (bool, EncodeStats),
    B: Fn(&SearchState, Place) -> (BlockSearchBudget, i32),
    P: Fn(u64, u64) -> u64,
    K: Fn(BlockSearchBudget, u64, u64) -> bool,
    E: Fn(&CuLeaf) -> bool,
    R: Fn(SearchState, &CuPlan, Place, u8) -> (SearchState, CuNode),

    requires
        four_compared(env, at, ct_depth, again, kept, leaf, cost, after, t),
    ensures
        call_ensures(env.nxn, (again, at, ct_depth), parted),
        t.cost.cost <= cost.cost,
        t.cost.cost < cost.cost ==> after == parted.0 && t.node == confident(
            parted.1,
            DecisionConfidence::Clear,
        ),
        t.cost.cost == cost.cost ==> t.cost == cost && t.node == confident(
            leaf,
            DecisionConfidence::Clear,
        ),
{
    let (coded, parted, parted_cost) = choose|
        coded: SearchState,
        parted: CuLeaf,
        parted_cost: RdCost,
    |
        {
            &&& #[trigger] nxn_steps(coded, parted, parted_cost)
            &&& call_ensures(env.nxn, (again, at, ct_depth), (coded, parted))
            &&& unit_priced(env, at, &coded, &parted, 0, parted_cost)
            &&& if parted_cost.cost < cost.cost {
                &&& after == coded
                &&& t.node == confident(parted, DecisionConfidence::Clear)
                &&& t.cost == parted_cost
            } else {
                &&& t.node == confident(leaf, DecisionConfidence::Clear)
                &&& t.cost == cost
            }
        };
    (coded, parted)
}

/// A confidence changes nothing else of a unit, and nothing at all of a split.
pub proof fn law_confidence_is_a_note(leaf: CuLeaf, node: CuNode, confidence: DecisionConfidence)
    ensures
        confident(leaf, confidence) is Leaf,
        confident(leaf, confidence)->Leaf_0.confidence == confidence,
        confident(leaf, confidence)->Leaf_0.tt == leaf.tt,
        confident(leaf, confidence)->Leaf_0.mpm == leaf.mpm,
        annotated(CuNode::Leaf(leaf), confidence) == confident(leaf, confidence),
        node is Split ==> annotated(node, confidence) == node,
{
}

/// A decision between two costs is close where the caller finds them close, the lower
/// first.
pub proof fn law_confidence_of_costs<'a, L, N, T, B, P, K, E, R>(
    env: &CuEnv<'a, L, N, T, B, P, K, E, R>,
    g: BlockSearchBudget,
    low: u64,
    high: u64,
    c: DecisionConfidence,
) where
    L: Fn(SearchState, Place, u8) -> (SearchState, CuLeaf),
    N: Fn(SearchState, Place, u8) -> (SearchState, CuLeaf),
    T: Fn(&SearchState, Place) -> (bool, EncodeStats),
    B: Fn(&SearchState, Place) -> (BlockSearchBudget, i32),
    P: Fn(u64, u64) -> u64,
    K: Fn(BlockSearchBudget, u64, u64) -> bool,
    E: Fn(&CuLeaf) -> bool,
    R: Fn(SearchState, &CuPlan, Place, u8) -> (SearchState, CuNode),

    requires
        low <= high,
        confidence_of(env, g, low, high, c) || confidence_of(env, g, high, low, c),
    ensures
        call_ensures(env.close, (g, low, high), c == DecisionConfidence::Close),
{
}

} // verus!
