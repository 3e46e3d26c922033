//! Searching coding quadtrees: whether each node is coded as one unit or split.

use vstd::prelude::*;

use crate::arith_decode::bin_of;
use crate::budget::BlockSearchBudget;
use crate::cabac::{bin_cost, CabacEstimator};
use crate::contexts::{Contexts, SPLIT_CU_FLAG};
use crate::cost::{
    cu_node_cost, estimate_cu_leaf_bits, estimate_cu_node_bits, estimate_split_cu_flag_bits,
    items_cost,
};
use crate::cu_leaf::{
    asked, lemma_same_sym, lemma_same_trans, lemma_unit_fits_same, lemma_unit_in_frame, luma_samples,
    unit_fits,
};
use crate::effort::SplitSearch;
use crate::geometry::{block_side, cu_kid_positions, side};
use crate::items::cu_leaf_items;
use crate::math::{max_int, min_int};
use crate::quadtree::{
    kid_place, kid_places, lemma_fits_later, lemma_kid_spot, lemma_leaf_fits, lemma_node_bounds,
    lemma_sides, lemma_split_fits, lemma_spot_fits, lemma_spot_same, lemma_unit_bits, node_fits,
    spot, whole_leaf, UNIT_BITS_MAX,
};
use crate::rough::Place;
use crate::search_state::{
    lemma_fits_same, restore_region, restored, save_region, save_work, worked, RegionSnapshot,
    SearchState,
};
use crate::source::{
    cu_distortion, distortion_cu_node, distortion_tt_region, tt_distortion, SourcePicture,
};
use crate::stats::EncodeStats;
use crate::syntax::{cu_plan_of, cu_to_plan, CuLeaf, CuNode, CuPlan, DecisionConfidence};
use crate::texture::{sample_max, sample_min, sample_range};
use crate::tu_search::decision_confidence;
use crate::write::fully_inside;

verus! {

/// What the search of a quadtree works on and asks of its caller.
pub struct CuEnv<'a, L, N, T, B, P, K, E, R> {
    pub pic: &'a SourcePicture<'a>,
    pub ctxs: &'a Contexts,
    /// Coding units of the smallest size may have four prediction units.
    pub parts: bool,
    /// What the search coded is kept. Else the decision is coded again.
    pub keep: bool,
    /// Searches a coding unit, and codes it into the state.
    pub leaf: L,
    /// Searches a coding unit of four prediction units.
    pub nxn: N,
    /// Whether four prediction units are worth a trial.
    pub try_nxn: T,
    /// The budget of a block, and its quantisation parameter.
    pub budget: B,
    /// The cost of distortion and bits.
    pub price: P,
    /// Whether two costs are close, the lower first.
    pub close: K,
    /// Whether a coding unit has coefficients.
    pub residual: E,
    /// Codes a decided quadtree into the state.
    pub replay: R,
}

/// What a decision costs.
#[derive(Clone, Copy, Debug, PartialEq, Eq, Structural)]
pub struct RdCost {
    pub distortion: u64,
    pub frac_bits: u64,
    pub cost: u64,
}

/// A quadtree as the search left it.
pub struct CuTrial {
    pub node: CuNode,
    pub cost: RdCost,
    pub confidence: DecisionConfidence,
}

/// A unit can be coded at a place of a state.
pub open spec fn unit_spot(pic: &SourcePicture, s: &SearchState, at: Place, ct_depth: u8) -> bool {
    &&& s.well_formed()
    &&& spot(pic, s, at, ct_depth)
    &&& unit_fits(pic, &s.frame, at.x, at.y, at.log2_size)
}

/// A plan is that of a quadtree that can be coded.
pub open spec fn replayable(
    pic: &SourcePicture,
    s: &SearchState,
    plan: &CuPlan,
    at: Place,
    ct_depth: u8,
) -> bool {
    &&& s.well_formed()
    &&& spot(pic, s, at, ct_depth)
    &&& exists|node: CuNode| #[trigger]
        node_fits(pic, s, &node, at, ct_depth) && cu_plan_of(plan, &node)
}

/// The caller takes every question of the search, and keeps the state whole.
pub open spec fn cu_env_ok<'a, L, N, T, B, P, K, E, R>(env: &CuEnv<'a, L, N, T, B, P, K, E, R>) -> bool where
    L: Fn(SearchState, Place, u8) -> (SearchState, CuLeaf),
    N: Fn(SearchState, Place, u8) -> (SearchState, CuLeaf),
    T: Fn(&SearchState, Place) -> (bool, EncodeStats),
    B: Fn(&SearchState, Place) -> (BlockSearchBudget, i32),
    P: Fn(u64, u64) -> u64,
    K: Fn(BlockSearchBudget, u64, u64) -> bool,
    E: Fn(&CuLeaf) -> bool,
    R: Fn(SearchState, &CuPlan, Place, u8) -> (SearchState, CuNode),
 {
    &&& env.ctxs.well_formed()
    &&& forall|s: SearchState, at: Place, d: u8|
        unit_spot(env.pic, &s, at, d) ==> #[trigger] call_requires(env.leaf, (s, at, d))
    &&& forall|s: SearchState, at: Place, d: u8, r: (SearchState, CuLeaf)| #[trigger]
        call_ensures(env.leaf, (s, at, d), r) && unit_spot(env.pic, &s, at, d) ==> {
            &&& r.0.well_formed()
            &&& r.0.same_picture(&s)
            &&& whole_leaf(&r.1, at.log2_size)
        }
    &&& forall|s: SearchState, at: Place, d: u8|
        unit_spot(env.pic, &s, at, d) && at.log2_size == 3 ==> #[trigger] call_requires(
            env.nxn,
            (s, at, d),
        )
    &&& forall|s: SearchState, at: Place, d: u8, r: (SearchState, CuLeaf)| #[trigger]
        call_ensures(env.nxn, (s, at, d), r) && unit_spot(env.pic, &s, at, d) && at.log2_size == 3
            ==> {
            &&& r.0.well_formed()
            &&& r.0.same_picture(&s)
            &&& whole_leaf(&r.1, 3)
        }
    &&& forall|s: &SearchState, at: Place|
        asked(env.pic, s, at) && at.log2_size == 3 ==> #[trigger] call_requires(
            env.try_nxn,
            (s, at),
        )
    &&& forall|s: &SearchState, at: Place|
        asked(env.pic, s, at) ==> #[trigger] call_requires(env.budget, (s, at))
    &&& forall|d: u64, b: u64| #[trigger] call_requires(env.price, (d, b))
    &&& forall|g: BlockSearchBudget, a: u64, b: u64| #[trigger]
        call_requires(env.close, (g, a, b))
    &&& forall|l: &CuLeaf| #[trigger] call_requires(env.residual, (l,))
    &&& forall|s: SearchState, p: &CuPlan, at: Place, d: u8|
        replayable(env.pic, &s, p, at, d) ==> #[trigger] call_requires(env.replay, (s, p, at, d))
    &&& forall|s: SearchState, p: &CuPlan, at: Place, d: u8, r: (SearchState, CuNode)| #[trigger]
        call_ensures(env.replay, (s, p, at, d), r) && replayable(env.pic, &s, p, at, d) ==> {
            &&& r.0.well_formed()
            &&& r.0.same_picture(&s)
            &&& node_fits(env.pic, &r.0, &r.1, at, d)
        }
}

/// A coding unit with a confidence.
pub open spec fn confident(leaf: CuLeaf, confidence: DecisionConfidence) -> CuNode {
    CuNode::Leaf(CuLeaf { confidence, ..leaf })
}

fn cu_leaf_node(leaf: CuLeaf, confidence: DecisionConfidence) -> (node: CuNode)
    ensures
        node == confident(leaf, confidence),
{
    CuNode::Leaf(
        CuLeaf {
            mpm: leaf.mpm,
            luma_mode: leaf.luma_mode,
            chroma_mode_idx: leaf.chroma_mode_idx,
            nxn: leaf.nxn,
            confidence,
            tt: leaf.tt,
        },
    )
}

/// A quadtree with a confidence at its root, where that is a coding unit.
pub open spec fn annotated(node: CuNode, confidence: DecisionConfidence) -> CuNode {
    match node {
        CuNode::Leaf(leaf) => confident(leaf, confidence),
        CuNode::Split { .. } => node,
    }
}

fn annotate_root(node: CuNode, confidence: DecisionConfidence) -> (r: CuNode)
    ensures
        r == annotated(node, confidence),
{
    match node {
        CuNode::Leaf(leaf) => cu_leaf_node(leaf, confidence),
        CuNode::Split { kids } => CuNode::Split { kids },
    }
}

/// What a node's split flag costs.
pub open spec fn flag_cost(
    ctxs: &Contexts,
    s: &SearchState,
    at: Place,
    ct_depth: u8,
    split: bool,
) -> int {
    bin_cost(ctxs@[SPLIT_CU_FLAG + s.maps.split_inc(at.x, at.y, ct_depth)], bin_of(split))
}

/// What a coding unit costs, without its split flag.
pub open spec fn unit_cost(pic: &SourcePicture, ctxs: &Contexts, leaf: &CuLeaf, at: Place) -> nat {
    items_cost(ctxs@, cu_leaf_items(leaf, at.log2_size, pic.cat))
}

/// What a state's reconstruction of a block costs.
pub open spec fn unit_error(pic: &SourcePicture, s: &SearchState, at: Place) -> nat {
    tt_distortion(pic, &s.frame, at.x, at.y, at.log2_size)
}

/// A quadtree with the error and bits that a state gives it, and their price.
pub open spec fn node_priced<'a, L, N, T, B, P, K, E, R>(
    env: &CuEnv<'a, L, N, T, B, P, K, E, R>,
    at: Place,
    ct_depth: u8,
    s: &SearchState,
    node: &CuNode,
    cost: RdCost,
) -> bool where
    L: Fn(SearchState, Place, u8) -> (SearchState, CuLeaf),
    N: Fn(SearchState, Place, u8) -> (SearchState, CuLeaf),
    T: Fn(&SearchState, Place) -> (bool, EncodeStats),
    B: Fn(&SearchState, Place) -> (BlockSearchBudget, i32),
    P: Fn(u64, u64) -> u64,
    K: Fn(BlockSearchBudget, u64, u64) -> bool,
    E: Fn(&CuLeaf) -> bool,
    R: Fn(SearchState, &CuPlan, Place, u8) -> (SearchState, CuNode),
 {
    &&& cost.distortion == cu_distortion(env.pic, &s.frame, node, at.x, at.y, at.log2_size)
    &&& cost.frac_bits == cu_node_cost(
        env.ctxs@,
        &s.maps,
        env.pic.cat,
        node,
        at.x,
        at.y,
        at.log2_size,
        ct_depth,
    )
    &&& call_ensures(env.price, (cost.distortion, cost.frac_bits), cost.cost)
}

/// The node was coded as one unit, without a comparison.
pub open spec fn leaf_only<'a, L, N, T, B, P, K, E, R>(
    env: &CuEnv<'a, L, N, T, B, P, K, E, R>,
    at: Place,
    ct_depth: u8,
    before: SearchState,
    after: SearchState,
    t: CuTrial,
) -> bool where
    L: Fn(SearchState, Place, u8) -> (SearchState, CuLeaf),
    N: Fn(SearchState, Place, u8) -> (SearchState, CuLeaf),
    T: Fn(&SearchState, Place) -> (bool, EncodeStats),
    B: Fn(&SearchState, Place) -> (BlockSearchBudget, i32),
    P: Fn(u64, u64) -> u64,
    K: Fn(BlockSearchBudget, u64, u64) -> bool,
    E: Fn(&CuLeaf) -> bool,
    R: Fn(SearchState, &CuPlan, Place, u8) -> (SearchState, CuNode),
 {
    exists|leaf: CuLeaf|
        {
            &&& #[trigger] call_ensures(env.leaf, (before, at, ct_depth), (after, leaf))
            &&& t.node == confident(leaf, DecisionConfidence::Clear)
            &&& t.confidence == DecisionConfidence::Clear
            &&& node_priced(env, at, ct_depth, &after, &t.node, t.cost)
        }
}

/// Names the steps of a decision on prediction units.
pub open spec fn part_steps(
    base: RegionSnapshot,
    kept: RegionSnapshot,
    whole: SearchState,
    again: SearchState,
    leaf: CuLeaf,
    cost: RdCost,
    work: EncodeStats,
) -> bool {
    true
}

/// Names a trial of four prediction units.
pub open spec fn nxn_steps(coded: SearchState, leaf: CuLeaf, cost: RdCost) -> bool {
    true
}

/// A coding unit with the error, bits and price that a state gives it.
pub open spec fn unit_priced<'a, L, N, T, B, P, K, E, R>(
    env: &CuEnv<'a, L, N, T, B, P, K, E, R>,
    at: Place,
    s: &SearchState,
    leaf: &CuLeaf,
    flag: int,
    cost: RdCost,
) -> bool where
    L: Fn(SearchState, Place, u8) -> (SearchState, CuLeaf),
    N: Fn(SearchState, Place, u8) -> (SearchState, CuLeaf),
    T: Fn(&SearchState, Place) -> (bool, EncodeStats),
    B: Fn(&SearchState, Place) -> (BlockSearchBudget, i32),
    P: Fn(u64, u64) -> u64,
    K: Fn(BlockSearchBudget, u64, u64) -> bool,
    E: Fn(&CuLeaf) -> bool,
    R: Fn(SearchState, &CuPlan, Place, u8) -> (SearchState, CuNode),
 {
    &&& cost.distortion == unit_error(env.pic, s, at)
    &&& cost.frac_bits == unit_cost(env.pic, env.ctxs, leaf, at) + flag
    &&& call_ensures(env.price, (cost.distortion, cost.frac_bits), cost.cost)
}

/// A coding unit of the smallest size was tried with one prediction unit, and with four
/// where that was worth a trial. Four win where they are cheaper.
pub open spec fn parts_decided<'a, L, N, T, B, P, K, E, R>(
    env: &CuEnv<'a, L, N, T, B, P, K, E, R>,
    at: Place,
    ct_depth: u8,
    before: SearchState,
    after: SearchState,
    t: CuTrial,
) -> bool where
    L: Fn(SearchState, Place, u8) -> (SearchState, CuLeaf),
    N: Fn(SearchState, Place, u8) -> (SearchState, CuLeaf),
    T: Fn(&SearchState, Place) -> (bool, EncodeStats),
    B: Fn(&SearchState, Place) -> (BlockSearchBudget, i32),
    P: Fn(u64, u64) -> u64,
    K: Fn(BlockSearchBudget, u64, u64) -> bool,
    E: Fn(&CuLeaf) -> bool,
    R: Fn(SearchState, &CuPlan, Place, u8) -> (SearchState, CuNode),
 {
    exists|
        base: RegionSnapshot,
        kept: RegionSnapshot,
        whole: SearchState,
        again: SearchState,
        leaf: CuLeaf,
        cost: RdCost,
        work: EncodeStats,
    |
        {
            &&& #[trigger] part_steps(base, kept, whole, again, leaf, cost, work)
            &&& base.copies(&before, at.x, at.y, at.log2_size)
            &&& call_ensures(
                env.leaf,
                (worked(before, save_work(&base)), at, ct_depth),
                (whole, leaf),
            )
            &&& unit_priced(env, at, &whole, &leaf, 0, cost)
            &&& kept.copies(&whole, at.x, at.y, at.log2_size)
            &&& restored(&worked(whole, save_work(&kept)), &again, &base)
            &&& t.confidence == DecisionConfidence::Clear
            &&& {
                ||| {
                    &&& call_ensures(env.try_nxn, (&again, at), (false, work))
                    &&& restored(&worked(again, work), &after, &kept)
                    &&& t.node == confident(leaf, DecisionConfidence::Clear)
                    &&& t.cost == cost
                }
                ||| {
                    &&& call_ensures(env.try_nxn, (&again, at), (true, work))
                    &&& four_compared(
                        env,
                        at,
                        ct_depth,
                        worked(again, work),
                        kept,
                        leaf,
                        cost,
                        after,
                        t,
                    )
                }
            }
        }
}

/// Four prediction units were tried next to one.
pub open spec fn four_compared<'a, L, N, T, B, P, K, E, R>(
    env: &CuEnv<'a, L, N, T, B, P, K, E, R>,
    at: Place,
    ct_depth: u8,
    again: SearchState,
    kept: RegionSnapshot,
    leaf: CuLeaf,
    cost: RdCost,
    after: SearchState,
    t: CuTrial,
) -> bool where
    L: Fn(SearchState, Place, u8) -> (SearchState, CuLeaf),
    N: Fn(SearchState, Place, u8) -> (SearchState, CuLeaf),
    T: Fn(&SearchState, Place) -> (bool, EncodeStats),
    B: Fn(&SearchState, Place) -> (BlockSearchBudget, i32),
    P: Fn(u64, u64) -> u64,
    K: Fn(BlockSearchBudget, u64, u64) -> bool,
    E: Fn(&CuLeaf) -> bool,
    R: Fn(SearchState, &CuPlan, Place, u8) -> (SearchState, CuNode),
 {
    exists|coded: SearchState, parted: CuLeaf, parted_cost: RdCost|
        {
            &&& #[trigger] nxn_steps(coded, parted, parted_cost)
            &&& call_ensures(env.nxn, (again, at, ct_depth), (coded, parted))
            &&& unit_priced(env, at, &coded, &parted, 0, parted_cost)
            &&& if parted_cost.cost < cost.cost {
                &&& after == coded
                &&& t.node == confident(parted, DecisionConfidence::Clear)
                &&& t.cost == parted_cost
            } else {
                &&& restored(&coded, &after, &kept)
                &&& t.node == confident(leaf, DecisionConfidence::Clear)
                &&& t.cost == cost
            }
        }
}

/// A state between two children.
pub open spec fn between(s: SearchState) -> bool {
    true
}

/// The first `n` children of a node were built, one after the other.
pub open spec fn kids_built<'a, L, N, T, B, P, K, E, R>(
    env: &CuEnv<'a, L, N, T, B, P, K, E, R>,
    places: Seq<(int, int)>,
    log2_size: u8,
    ct_depth: u8,
    before: SearchState,
    after: SearchState,
    kids: Seq<CuNode>,
    n: nat,
) -> bool where
    L: Fn(SearchState, Place, u8) -> (SearchState, CuLeaf),
    N: Fn(SearchState, Place, u8) -> (SearchState, CuLeaf),
    T: Fn(&SearchState, Place) -> (bool, EncodeStats),
    B: Fn(&SearchState, Place) -> (BlockSearchBudget, i32),
    P: Fn(u64, u64) -> u64,
    K: Fn(BlockSearchBudget, u64, u64) -> bool,
    E: Fn(&CuLeaf) -> bool,
    R: Fn(SearchState, &CuPlan, Place, u8) -> (SearchState, CuNode),

    decreases log2_size, 5nat, n,
{
    if n == 0 {
        after == before
    } else {
        exists|mid: SearchState|
            {
                &&& #[trigger] between(mid)
                &&& kids_built(
                    env,
                    places,
                    log2_size,
                    ct_depth,
                    before,
                    mid,
                    kids,
                    (n - 1) as nat,
                )
                &&& unit_built(
                    env,
                    kid_place(places[n - 1], log2_size),
                    ct_depth,
                    mid,
                    after,
                    kids[n - 1],
                )
            }
    }
}

/// The node was split, without a comparison.
pub open spec fn split_only<'a, L, N, T, B, P, K, E, R>(
    env: &CuEnv<'a, L, N, T, B, P, K, E, R>,
    at: Place,
    ct_depth: u8,
    before: SearchState,
    after: SearchState,
    t: CuTrial,
) -> bool where
    L: Fn(SearchState, Place, u8) -> (SearchState, CuLeaf),
    N: Fn(SearchState, Place, u8) -> (SearchState, CuLeaf),
    T: Fn(&SearchState, Place) -> (bool, EncodeStats),
    B: Fn(&SearchState, Place) -> (BlockSearchBudget, i32),
    P: Fn(u64, u64) -> u64,
    K: Fn(BlockSearchBudget, u64, u64) -> bool,
    E: Fn(&CuLeaf) -> bool,
    R: Fn(SearchState, &CuPlan, Place, u8) -> (SearchState, CuNode),

    decreases at.log2_size, 1nat, 0nat,
{
    let places = kid_places(&before, at);
    &&& at.log2_size > 0
    &&& t.node is Split
    &&& t.node->kids@.len() == places.len()
    &&& kids_built(
        env,
        places,
        (at.log2_size - 1) as u8,
        (ct_depth + 1) as u8,
        before,
        after,
        t.node->kids@,
        places.len(),
    )
    &&& t.confidence == DecisionConfidence::Clear
    &&& node_priced(env, at, ct_depth, &after, &t.node, t.cost)
}

/// Names the steps of a decision that tries the split first.
pub open spec fn prefer_steps(
    base: RegionSnapshot,
    split: CuTrial,
    apart: SearchState,
    again: SearchState,
    whole: SearchState,
    leaf: CuLeaf,
    cost: RdCost,
    kept: RegionSnapshot,
) -> bool {
    true
}

/// How confident a decision between two costs is.
pub open spec fn confidence_of<'a, L, N, T, B, P, K, E, R>(
    env: &CuEnv<'a, L, N, T, B, P, K, E, R>,
    g: BlockSearchBudget,
    a: u64,
    b: u64,
    c: DecisionConfidence,
) -> bool where
    L: Fn(SearchState, Place, u8) -> (SearchState, CuLeaf),
    N: Fn(SearchState, Place, u8) -> (SearchState, CuLeaf),
    T: Fn(&SearchState, Place) -> (bool, EncodeStats),
    B: Fn(&SearchState, Place) -> (BlockSearchBudget, i32),
    P: Fn(u64, u64) -> u64,
    K: Fn(BlockSearchBudget, u64, u64) -> bool,
    E: Fn(&CuLeaf) -> bool,
    R: Fn(SearchState, &CuPlan, Place, u8) -> (SearchState, CuNode),
 {
    let lower = min_int(a as int, b as int) as u64;
    let higher = max_int(a as int, b as int) as u64;
    ||| c == DecisionConfidence::Close && call_ensures(env.close, (g, lower, higher), true)
    ||| c == DecisionConfidence::Clear && call_ensures(env.close, (g, lower, higher), false)
}

/// The split was tried first and the whole unit after it, both from the same region. The
/// split wins where it is cheaper, and what it left of the region is put back.
pub open spec fn split_first<'a, L, N, T, B, P, K, E, R>(
    env: &CuEnv<'a, L, N, T, B, P, K, E, R>,
    g: BlockSearchBudget,
    at: Place,
    ct_depth: u8,
    before: SearchState,
    after: SearchState,
    t: CuTrial,
) -> bool where
    L: Fn(SearchState, Place, u8) -> (SearchState, CuLeaf),
    N: Fn(SearchState, Place, u8) -> (SearchState, CuLeaf),
    T: Fn(&SearchState, Place) -> (bool, EncodeStats),
    B: Fn(&SearchState, Place) -> (BlockSearchBudget, i32),
    P: Fn(u64, u64) -> u64,
    K: Fn(BlockSearchBudget, u64, u64) -> bool,
    E: Fn(&CuLeaf) -> bool,
    R: Fn(SearchState, &CuPlan, Place, u8) -> (SearchState, CuNode),

    decreases at.log2_size, 2nat, 0nat,
{
    exists|
        base: RegionSnapshot,
        split: CuTrial,
        apart: SearchState,
        again: SearchState,
        whole: SearchState,
        leaf: CuLeaf,
        cost: RdCost,
        kept: RegionSnapshot,
    |
        {
            &&& #[trigger] prefer_steps(base, split, apart, again, whole, leaf, cost, kept)
            &&& base.copies(&before, at.x, at.y, at.log2_size)
            &&& split_only(
                env,
                at,
                ct_depth,
                worked(before, save_work(&base)),
                apart,
                split,
            )
            &&& kept.copies(&apart, at.x, at.y, at.log2_size)
            &&& restored(&worked(apart, save_work(&kept)), &again, &base)
            &&& call_ensures(env.leaf, (again, at, ct_depth), (whole, leaf))
            &&& unit_priced(
                env,
                at,
                &whole,
                &leaf,
                flag_cost(env.ctxs, &before, at, ct_depth, false),
                cost,
            )
            &&& confidence_of(env, g, cost.cost, split.cost.cost, t.confidence)
            &&& if split.cost.cost < cost.cost {
                &&& t.node == split.node
                &&& t.cost == split.cost
                &&& restored(&whole, &after, &kept)
            } else {
                &&& t.node == confident(leaf, t.confidence)
                &&& t.cost == cost
                &&& after == whole
            }
        }
}

/// The children of a split as far as they were tried.
pub struct Race {
    pub state: SearchState,
    pub kids: Vec<CuNode>,
    pub distortion: u64,
    pub frac_bits: u64,
    pub cost: u64,
}

pub open spec fn raced(r: Race) -> bool {
    true
}

/// One more child was built, and the split so far priced.
pub open spec fn race_step<'a, L, N, T, B, P, K, E, R>(
    env: &CuEnv<'a, L, N, T, B, P, K, E, R>,
    at: Place,
    log2_size: u8,
    ct_depth: u8,
    flag: int,
    p: Race,
    r: Race,
) -> bool where
    L: Fn(SearchState, Place, u8) -> (SearchState, CuLeaf),
    N: Fn(SearchState, Place, u8) -> (SearchState, CuLeaf),
    T: Fn(&SearchState, Place) -> (bool, EncodeStats),
    B: Fn(&SearchState, Place) -> (BlockSearchBudget, i32),
    P: Fn(u64, u64) -> u64,
    K: Fn(BlockSearchBudget, u64, u64) -> bool,
    E: Fn(&CuLeaf) -> bool,
    R: Fn(SearchState, &CuPlan, Place, u8) -> (SearchState, CuNode),

    decreases log2_size, 5nat, 0nat,
{
    &&& r.kids@.len() == p.kids@.len() + 1
    &&& r.kids@.drop_last() == p.kids@
    &&& unit_built(
        env,
        Place { log2_size, ..at },
        ct_depth,
        p.state,
        r.state,
        r.kids@.last(),
    )
    &&& r.distortion == p.distortion + unit_error(env.pic, &r.state, Place { log2_size, ..at })
    &&& r.frac_bits == p.frac_bits + cu_node_cost(
        env.ctxs@,
        &r.state.maps,
        env.pic.cat,
        &r.kids@.last(),
        at.x,
        at.y,
        log2_size,
        ct_depth,
    )
    &&& call_ensures(env.price, (r.distortion, (flag + r.frac_bits) as u64), r.cost)
}

/// `n` children were built, each while the split so far was cheaper than the whole unit.
pub open spec fn race_run<'a, L, N, T, B, P, K, E, R>(
    env: &CuEnv<'a, L, N, T, B, P, K, E, R>,
    places: Seq<(int, int)>,
    log2_size: u8,
    ct_depth: u8,
    flag: int,
    leaf_cost: u64,
    start: SearchState,
    n: nat,
    r: Race,
) -> bool where
    L: Fn(SearchState, Place, u8) -> (SearchState, CuLeaf),
    N: Fn(SearchState, Place, u8) -> (SearchState, CuLeaf),
    T: Fn(&SearchState, Place) -> (bool, EncodeStats),
    B: Fn(&SearchState, Place) -> (BlockSearchBudget, i32),
    P: Fn(u64, u64) -> u64,
    K: Fn(BlockSearchBudget, u64, u64) -> bool,
    E: Fn(&CuLeaf) -> bool,
    R: Fn(SearchState, &CuPlan, Place, u8) -> (SearchState, CuNode),

    decreases log2_size, 6nat, n,
{
    if n == 0 {
        &&& r.state == start
        &&& r.kids@.len() == 0
        &&& r.distortion == 0
        &&& r.frac_bits == 0
    } else {
        exists|p: Race|
            {
                &&& #[trigger] raced(p)
                &&& race_run(
                    env,
                    places,
                    log2_size,
                    ct_depth,
                    flag,
                    leaf_cost,
                    start,
                    (n - 1) as nat,
                    p,
                )
                &&& n > 1 ==> p.cost < leaf_cost
                &&& race_step(
                    env,
                    kid_place(places[n - 1], log2_size),
                    log2_size,
                    ct_depth,
                    flag,
                    p,
                    r,
                )
            }
    }
}

/// Names the steps of a decision that tries the whole unit first.
pub open spec fn leaf_steps(
    base: RegionSnapshot,
    whole: SearchState,
    leaf: CuLeaf,
    has_residual: bool,
    cost: RdCost,
) -> bool {
    true
}

/// Names the steps of a split that is tried after the whole unit.
pub open spec fn race_steps(kept: RegionSnapshot, again: SearchState, n: nat, r: Race) -> bool {
    true
}

/// The samples of a block spread over so much.
pub open spec fn luma_range(pic: &SourcePicture, at: Place) -> int {
    sample_max(luma_samples(pic, at)) - sample_min(luma_samples(pic, at))
}

/// The whole unit was tried first. Where it is good enough the search stops; else the
/// split is tried, as far as it stays cheaper.
pub open spec fn leaf_first<'a, L, N, T, B, P, K, E, R>(
    env: &CuEnv<'a, L, N, T, B, P, K, E, R>,
    g: BlockSearchBudget,
    qp: i32,
    at: Place,
    ct_depth: u8,
    before: SearchState,
    after: SearchState,
    t: CuTrial,
) -> bool where
    L: Fn(SearchState, Place, u8) -> (SearchState, CuLeaf),
    N: Fn(SearchState, Place, u8) -> (SearchState, CuLeaf),
    T: Fn(&SearchState, Place) -> (bool, EncodeStats),
    B: Fn(&SearchState, Place) -> (BlockSearchBudget, i32),
    P: Fn(u64, u64) -> u64,
    K: Fn(BlockSearchBudget, u64, u64) -> bool,
    E: Fn(&CuLeaf) -> bool,
    R: Fn(SearchState, &CuPlan, Place, u8) -> (SearchState, CuNode),

    decreases at.log2_size, 2nat, 0nat,
{
    exists|
        base: RegionSnapshot,
        whole: SearchState,
        leaf: CuLeaf,
        has_residual: bool,
        cost: RdCost,
    |
        {
            let stop = g.terminates_cu(
                has_residual,
                cost.frac_bits as int / CabacEstimator::SCALE as int,
                at.log2_size,
                qp,
                env.pic.bit_depth,
                luma_range(env.pic, at),
            );
            &&& #[trigger] leaf_steps(base, whole, leaf, has_residual, cost)
            &&& base.copies(&before, at.x, at.y, at.log2_size)
            &&& call_ensures(
                env.leaf,
                (worked(before, save_work(&base)), at, ct_depth),
                (whole, leaf),
            )
            &&& call_ensures(env.residual, (&leaf,), has_residual)
            &&& unit_priced(
                env,
                at,
                &whole,
                &leaf,
                flag_cost(env.ctxs, &before, at, ct_depth, false),
                cost,
            )
            &&& if stop && g.allow_cu_early_terminate {
                &&& after == whole
                &&& t.node == confident(leaf, DecisionConfidence::Clear)
                &&& t.cost == cost
                &&& t.confidence == DecisionConfidence::Clear
            } else {
                split_raced(env, g, at, ct_depth, before, base, whole, leaf, cost, after, t)
            }
        }
}

/// The split was tried after the whole unit.
pub open spec fn split_raced<'a, L, N, T, B, P, K, E, R>(
    env: &CuEnv<'a, L, N, T, B, P, K, E, R>,
    g: BlockSearchBudget,
    at: Place,
    ct_depth: u8,
    before: SearchState,
    base: RegionSnapshot,
    whole: SearchState,
    leaf: CuLeaf,
    cost: RdCost,
    after: SearchState,
    t: CuTrial,
) -> bool where
    L: Fn(SearchState, Place, u8) -> (SearchState, CuLeaf),
    N: Fn(SearchState, Place, u8) -> (SearchState, CuLeaf),
    T: Fn(&SearchState, Place) -> (bool, EncodeStats),
    B: Fn(&SearchState, Place) -> (BlockSearchBudget, i32),
    P: Fn(u64, u64) -> u64,
    K: Fn(BlockSearchBudget, u64, u64) -> bool,
    E: Fn(&CuLeaf) -> bool,
    R: Fn(SearchState, &CuPlan, Place, u8) -> (SearchState, CuNode),

    decreases at.log2_size, 1nat, 0nat,
{
    exists|kept: RegionSnapshot, again: SearchState, n: nat, r: Race|
        {
            let flag = flag_cost(env.ctxs, &before, at, ct_depth, true);
            &&& #[trigger] race_steps(kept, again, n, r)
            &&& at.log2_size > 0
            &&& kept.copies(&whole, at.x, at.y, at.log2_size)
            &&& restored(&worked(whole, save_work(&kept)), &again, &base)
            &&& 1 <= n <= 4
            &&& race_run(
                env,
                kid_places(&before, at),
                (at.log2_size - 1) as u8,
                (ct_depth + 1) as u8,
                flag,
                cost.cost,
                again,
                n,
                r,
            )
            &&& if r.cost >= cost.cost {
                &&& restored(&r.state, &after, &kept)
                &&& t.node == confident(leaf, DecisionConfidence::Clear)
                &&& t.cost == cost
                &&& t.confidence == DecisionConfidence::Clear
            } else {
                &&& n == 4
                &&& after == r.state
                &&& t.node is Split
                &&& t.node->kids == r.kids
                &&& t.cost == (RdCost {
                    distortion: r.distortion,
                    frac_bits: (flag + r.frac_bits) as u64,
                    cost: r.cost,
                })
                &&& confidence_of(env, g, cost.cost, r.cost, t.confidence)
            }
        }
}

/// A node was decided.
pub open spec fn unit_decided<'a, L, N, T, B, P, K, E, R>(
    env: &CuEnv<'a, L, N, T, B, P, K, E, R>,
    at: Place,
    ct_depth: u8,
    before: SearchState,
    after: SearchState,
    t: CuTrial,
) -> bool where
    L: Fn(SearchState, Place, u8) -> (SearchState, CuLeaf),
    N: Fn(SearchState, Place, u8) -> (SearchState, CuLeaf),
    T: Fn(&SearchState, Place) -> (bool, EncodeStats),
    B: Fn(&SearchState, Place) -> (BlockSearchBudget, i32),
    P: Fn(u64, u64) -> u64,
    K: Fn(BlockSearchBudget, u64, u64) -> bool,
    E: Fn(&CuLeaf) -> bool,
    R: Fn(SearchState, &CuPlan, Place, u8) -> (SearchState, CuNode),

    decreases at.log2_size, 3nat, 0nat,
{
    if at.log2_size <= 3 {
        if at.log2_size == 3 && env.parts && env.pic.cat == 1 && fully_inside(
            &before.maps,
            at.x,
            at.y,
            at.log2_size,
        ) {
            parts_decided(env, at, ct_depth, before, after, t)
        } else {
            leaf_only(env, at, ct_depth, before, after, t)
        }
    } else if !fully_inside(&before.maps, at.x, at.y, at.log2_size) {
        split_only(env, at, ct_depth, before, after, t)
    } else {
        exists|b: (BlockSearchBudget, i32)|
            {
                &&& #[trigger] call_ensures(env.budget, (&before, at), b)
                &&& match b.0.cu_split {
                    SplitSearch::ForceLeaf => leaf_only(env, at, ct_depth, before, after, t),
                    SplitSearch::ForceSplit => split_only(env, at, ct_depth, before, after, t),
                    SplitSearch::PreferSplit => split_first(
                        env,
                        b.0,
                        at,
                        ct_depth,
                        before,
                        after,
                        t,
                    ),
                    _ => leaf_first(env, b.0, b.1, at, ct_depth, before, after, t),
                }
            }
    }
}

/// Names the steps of building a node.
pub open spec fn build_steps(base: RegionSnapshot, mid: SearchState, t: CuTrial) -> bool {
    true
}

/// Names the steps of coding a decision again.
pub open spec fn replay_steps(plan: CuPlan, start: SearchState, coded: CuNode) -> bool {
    true
}

/// What was decided was coded again, from the region that the search began with.
pub open spec fn replayed<'a, L, N, T, B, P, K, E, R>(
    env: &CuEnv<'a, L, N, T, B, P, K, E, R>,
    at: Place,
    ct_depth: u8,
    base: RegionSnapshot,
    mid: SearchState,
    t: CuTrial,
    after: SearchState,
    node: CuNode,
) -> bool where
    L: Fn(SearchState, Place, u8) -> (SearchState, CuLeaf),
    N: Fn(SearchState, Place, u8) -> (SearchState, CuLeaf),
    T: Fn(&SearchState, Place) -> (bool, EncodeStats),
    B: Fn(&SearchState, Place) -> (BlockSearchBudget, i32),
    P: Fn(u64, u64) -> u64,
    K: Fn(BlockSearchBudget, u64, u64) -> bool,
    E: Fn(&CuLeaf) -> bool,
    R: Fn(SearchState, &CuPlan, Place, u8) -> (SearchState, CuNode),
 {
    exists|plan: CuPlan, start: SearchState, coded: CuNode|
        {
            &&& #[trigger] replay_steps(plan, start, coded)
            &&& cu_plan_of(&plan, &t.node)
            &&& restored(&mid, &start, &base)
            &&& call_ensures(env.replay, (start, &plan, at, ct_depth), (after, coded))
            &&& node == annotated(coded, t.confidence)
        }
}

/// A node was decided and coded.
pub open spec fn unit_built<'a, L, N, T, B, P, K, E, R>(
    env: &CuEnv<'a, L, N, T, B, P, K, E, R>,
    at: Place,
    ct_depth: u8,
    before: SearchState,
    after: SearchState,
    node: CuNode,
) -> bool where
    L: Fn(SearchState, Place, u8) -> (SearchState, CuLeaf),
    N: Fn(SearchState, Place, u8) -> (SearchState, CuLeaf),
    T: Fn(&SearchState, Place) -> (bool, EncodeStats),
    B: Fn(&SearchState, Place) -> (BlockSearchBudget, i32),
    P: Fn(u64, u64) -> u64,
    K: Fn(BlockSearchBudget, u64, u64) -> bool,
    E: Fn(&CuLeaf) -> bool,
    R: Fn(SearchState, &CuPlan, Place, u8) -> (SearchState, CuNode),

    decreases at.log2_size, 4nat, 0nat,
{
    exists|base: RegionSnapshot, mid: SearchState, t: CuTrial|
        {
            &&& #[trigger] build_steps(base, mid, t)
            &&& base.copies(&before, at.x, at.y, at.log2_size)
            &&& unit_decided(env, at, ct_depth, worked(before, save_work(&base)), mid, t)
            &&& if env.keep {
                after == mid && node == t.node
            } else {
                replayed(env, at, ct_depth, base, mid, t, after, node)
            }
        }
}

/// A decision left the picture whole.
pub open spec fn left_whole(
    pic: &SourcePicture,
    at: Place,
    ct_depth: u8,
    before: &SearchState,
    after: &SearchState,
    node: &CuNode,
) -> bool {
    &&& after.well_formed()
    &&& after.same_picture(before)
    &&& node_fits(pic, after, node, at, ct_depth)
}

fn price_unit<'a, L, N, T, B, P, K, E, R>(
    env: &CuEnv<'a, L, N, T, B, P, K, E, R>,
    at: Place,
    s: &SearchState,
    leaf: &CuLeaf,
    flag: u64,
) -> (cost: RdCost) where
    L: Fn(SearchState, Place, u8) -> (SearchState, CuLeaf),
    N: Fn(SearchState, Place, u8) -> (SearchState, CuLeaf),
    T: Fn(&SearchState, Place) -> (bool, EncodeStats),
    B: Fn(&SearchState, Place) -> (BlockSearchBudget, i32),
    P: Fn(u64, u64) -> u64,
    K: Fn(BlockSearchBudget, u64, u64) -> bool,
    E: Fn(&CuLeaf) -> bool,
    R: Fn(SearchState, &CuPlan, Place, u8) -> (SearchState, CuNode),

    requires
        cu_env_ok(env),
        s.well_formed(),
        unit_fits(env.pic, &s.frame, at.x, at.y, at.log2_size),
        whole_leaf(leaf, at.log2_size),
        flag <= UNIT_BITS_MAX,
    ensures
        unit_priced(env, at, s, leaf, flag as int, cost),
        cost.frac_bits <= 2 * UNIT_BITS_MAX,
{
    proof {
        lemma_unit_in_frame(env.pic, &s.frame, at.x, at.y, at.log2_size);
        lemma_unit_bits(env.ctxs@, leaf, at.log2_size, env.pic.cat);
    }
    let distortion: u64 = distortion_tt_region(env.pic, &s.frame, at.x, at.y, at.log2_size);
    let frac_bits: u64 = estimate_cu_leaf_bits(env.ctxs, leaf, at.log2_size, env.pic.cat) + flag;
    let cost: u64 = (env.price)(distortion, frac_bits);
    RdCost { distortion, frac_bits, cost }
}

/// Prices a quadtree as a state holds it.
fn price_node<'a, L, N, T, B, P, K, E, R>(
    env: &CuEnv<'a, L, N, T, B, P, K, E, R>,
    at: Place,
    ct_depth: u8,
    s: &SearchState,
    node: &CuNode,
) -> (cost: RdCost) where
    L: Fn(SearchState, Place, u8) -> (SearchState, CuLeaf),
    N: Fn(SearchState, Place, u8) -> (SearchState, CuLeaf),
    T: Fn(&SearchState, Place) -> (bool, EncodeStats),
    B: Fn(&SearchState, Place) -> (BlockSearchBudget, i32),
    P: Fn(u64, u64) -> u64,
    K: Fn(BlockSearchBudget, u64, u64) -> bool,
    E: Fn(&CuLeaf) -> bool,
    R: Fn(SearchState, &CuPlan, Place, u8) -> (SearchState, CuNode),

    requires
        cu_env_ok(env),
        s.well_formed(),
        8 <= env.pic.bit_depth <= 16,
        3 <= at.log2_size <= 6,
        node_fits(env.pic, s, node, at, ct_depth),
    ensures
        node_priced(env, at, ct_depth, s, node, cost),
{
    proof {
        lemma_node_bounds(env.pic, s, env.ctxs@, node, at, ct_depth);
    }
    let distortion: u64 = distortion_cu_node(env.pic, &s.frame, node, at.x, at.y, at.log2_size);
    let frac_bits: u64 = estimate_cu_node_bits(
        env.ctxs,
        &s.maps,
        env.pic.cat,
        node,
        at.x,
        at.y,
        at.log2_size,
        ct_depth,
    );
    let cost: u64 = (env.price)(distortion, frac_bits);
    RdCost { distortion, frac_bits, cost }
}

fn whole_only<'a, L, N, T, B, P, K, E, R>(
    env: &CuEnv<'a, L, N, T, B, P, K, E, R>,
    at: Place,
    ct_depth: u8,
    state: SearchState,
) -> (r: (SearchState, CuTrial)) where
    L: Fn(SearchState, Place, u8) -> (SearchState, CuLeaf),
    N: Fn(SearchState, Place, u8) -> (SearchState, CuLeaf),
    T: Fn(&SearchState, Place) -> (bool, EncodeStats),
    B: Fn(&SearchState, Place) -> (BlockSearchBudget, i32),
    P: Fn(u64, u64) -> u64,
    K: Fn(BlockSearchBudget, u64, u64) -> bool,
    E: Fn(&CuLeaf) -> bool,
    R: Fn(SearchState, &CuPlan, Place, u8) -> (SearchState, CuNode),

    requires
        cu_env_ok(env),
        unit_spot(env.pic, &state, at, ct_depth),
    ensures
        leaf_only(env, at, ct_depth, state, r.0, r.1),
        left_whole(env.pic, at, ct_depth, &state, &r.0, &r.1.node),
{
    let ghost before = state;
    let (after, leaf) = (env.leaf)(state, at, ct_depth);
    let ghost kept = leaf;
    let node = cu_leaf_node(leaf, DecisionConfidence::Clear);
    proof {
        assert(call_ensures(env.leaf, (before, at, ct_depth), (after, kept)));
        lemma_unit_fits_same(env.pic, &before, &after, at.x, at.y, at.log2_size);
        lemma_leaf_fits(env.pic, &after, &node, at, ct_depth);
    }
    let cost = price_node(env, at, ct_depth, &after, &node);
    (after, CuTrial { node, cost, confidence: DecisionConfidence::Clear })
}

/// Decides between one and four prediction units.
pub fn decide_cu_8x8_part<'a, L, N, T, B, P, K, E, R>(
    env: &CuEnv<'a, L, N, T, B, P, K, E, R>,
    at: Place,
    ct_depth: u8,
    state: SearchState,
) -> (r: (SearchState, CuTrial)) where
    L: Fn(SearchState, Place, u8) -> (SearchState, CuLeaf),
    N: Fn(SearchState, Place, u8) -> (SearchState, CuLeaf),
    T: Fn(&SearchState, Place) -> (bool, EncodeStats),
    B: Fn(&SearchState, Place) -> (BlockSearchBudget, i32),
    P: Fn(u64, u64) -> u64,
    K: Fn(BlockSearchBudget, u64, u64) -> bool,
    E: Fn(&CuLeaf) -> bool,
    R: Fn(SearchState, &CuPlan, Place, u8) -> (SearchState, CuNode),

    requires
        cu_env_ok(env),
        unit_spot(env.pic, &state, at, ct_depth),
        at.log2_size == 3,
    ensures
        parts_decided(env, at, ct_depth, state, r.0, r.1),
        left_whole(env.pic, at, ct_depth, &state, &r.0, &r.1.node),
{
    let ghost before = state;
    let mut state = state;
    let base = save_region(&mut state, at.x, at.y, at.log2_size);
    let ghost held = state;
    proof {
        lemma_unit_fits_same(env.pic, &before, &held, at.x, at.y, at.log2_size);
        lemma_spot_same(env.pic, &before, &held, at, ct_depth);
    }
    let (mut state, leaf) = (env.leaf)(state, at, ct_depth);
    let ghost whole = state;
    let ghost first = leaf;
    proof {
        assert(call_ensures(env.leaf, (held, at, ct_depth), (whole, first)));
        lemma_same_trans(&before, &held, &whole);
        lemma_unit_fits_same(env.pic, &before, &whole, at.x, at.y, at.log2_size);
    }
    let cost = price_unit(env, at, &state, &leaf, 0);
    let kept = save_region(&mut state, at.x, at.y, at.log2_size);
    let ghost saved = state;
    proof {
        lemma_same_trans(&before, &whole, &saved);
        lemma_fits_same(&base, &before, &saved);
    }
    restore_region(&mut state, &base);
    let ghost again = state;
    proof {
        lemma_same_trans(&before, &saved, &again);
        lemma_unit_fits_same(env.pic, &before, &again, at.x, at.y, at.log2_size);
        lemma_spot_same(env.pic, &before, &again, at, ct_depth);
        lemma_fits_same(&kept, &saved, &again);
    }
    let (worth, work) = (env.try_nxn)(&state, at);
    state.count(work);
    let ghost asked_now = state;
    proof {
        assert(call_ensures(env.try_nxn, (&again, at), (worth, work)));
        assert(part_steps(base, kept, whole, again, first, cost, work));
        lemma_same_trans(&before, &again, &asked_now);
        lemma_unit_fits_same(env.pic, &before, &asked_now, at.x, at.y, at.log2_size);
        lemma_spot_same(env.pic, &before, &asked_now, at, ct_depth);
        lemma_fits_same(&kept, &again, &asked_now);
    }
    if !worth {
        restore_region(&mut state, &kept);
        let node = cu_leaf_node(leaf, DecisionConfidence::Clear);
        proof {
            lemma_same_trans(&before, &asked_now, &state);
            lemma_unit_fits_same(env.pic, &before, &state, at.x, at.y, at.log2_size);
            lemma_leaf_fits(env.pic, &state, &node, at, ct_depth);
        }
        return (state, CuTrial { node, cost, confidence: DecisionConfidence::Clear });
    }
    let (mut state, parted) = (env.nxn)(state, at, ct_depth);
    let ghost coded = state;
    let ghost second = parted;
    proof {
        assert(call_ensures(env.nxn, (asked_now, at, ct_depth), (coded, second)));
        lemma_same_trans(&before, &asked_now, &coded);
        lemma_unit_fits_same(env.pic, &before, &coded, at.x, at.y, at.log2_size);
    }
    let parted_cost = price_unit(env, at, &state, &parted, 0);
    assert(nxn_steps(coded, second, parted_cost));
    if parted_cost.cost < cost.cost {
        let node = cu_leaf_node(parted, DecisionConfidence::Clear);
        proof {
            lemma_leaf_fits(env.pic, &state, &node, at, ct_depth);
        }
        return (state, CuTrial { node, cost: parted_cost, confidence: DecisionConfidence::Clear });
    }
    proof {
        lemma_fits_same(&kept, &asked_now, &coded);
    }
    restore_region(&mut state, &kept);
    let node = cu_leaf_node(leaf, DecisionConfidence::Clear);
    proof {
        lemma_same_trans(&before, &coded, &state);
        lemma_unit_fits_same(env.pic, &before, &state, at.x, at.y, at.log2_size);
        lemma_leaf_fits(env.pic, &state, &node, at, ct_depth);
    }
    (state, CuTrial { node, cost, confidence: DecisionConfidence::Clear })
}

/// The children at places fit a state.
pub open spec fn kids_fit(
    pic: &SourcePicture,
    s: &SearchState,
    kids: Seq<CuNode>,
    places: Seq<(int, int)>,
    log2_size: u8,
    ct_depth: u8,
) -> bool {
    forall|i: int|
        0 <= i < kids.len() ==> node_fits(
            pic,
            s,
            &#[trigger] kids[i],
            kid_place(places[i], log2_size),
            ct_depth,
        )
}

pub proof fn lemma_kids_later(
    pic: &SourcePicture,
    a: &SearchState,
    b: &SearchState,
    kids: Seq<CuNode>,
    places: Seq<(int, int)>,
    log2_size: u8,
    ct_depth: u8,
)
    requires
        kids_fit(pic, a, kids, places, log2_size, ct_depth),
        a.frame.well_formed(),
        b.same_picture(a),
    ensures
        kids_fit(pic, b, kids, places, log2_size, ct_depth),
{
    assert forall|i: int| 0 <= i < kids.len() implies node_fits(
        pic,
        b,
        &#[trigger] kids[i],
        kid_place(places[i], log2_size),
        ct_depth,
    ) by {
        lemma_fits_later(pic, a, b, &kids[i], kid_place(places[i], log2_size), ct_depth);
    }
}

/// Splits a node and builds its children.
#[verifier::rlimit(40)]
fn split_alone<'a, L, N, T, B, P, K, E, R>(
    env: &CuEnv<'a, L, N, T, B, P, K, E, R>,
    at: Place,
    ct_depth: u8,
    state: SearchState,
) -> (r: (SearchState, CuTrial)) where
    L: Fn(SearchState, Place, u8) -> (SearchState, CuLeaf),
    N: Fn(SearchState, Place, u8) -> (SearchState, CuLeaf),
    T: Fn(&SearchState, Place) -> (bool, EncodeStats),
    B: Fn(&SearchState, Place) -> (BlockSearchBudget, i32),
    P: Fn(u64, u64) -> u64,
    K: Fn(BlockSearchBudget, u64, u64) -> bool,
    E: Fn(&CuLeaf) -> bool,
    R: Fn(SearchState, &CuPlan, Place, u8) -> (SearchState, CuNode),

    requires
        cu_env_ok(env),
        state.well_formed(),
        spot(env.pic, &state, at, ct_depth),
        at.log2_size > 3,
    ensures
        split_only(env, at, ct_depth, state, r.0, r.1),
        left_whole(env.pic, at, ct_depth, &state, &r.0, &r.1.node),
    decreases at.log2_size, 1nat,
{
    let ghost before = state;
    let ghost pv = kid_places(&before, at);
    proof {
        lemma_sides();
        assert(at.log2_size == 4 || at.log2_size == 5 || at.log2_size == 6);
    }
    let half: u32 = block_side(at.log2_size) / 2;
    let places = cu_kid_positions(at.x, at.y, half, state.maps.width, state.maps.height);
    assert(crate::geometry::positions_view(places@) == pv);
    let kl: u8 = at.log2_size - 1;
    let kd: u8 = ct_depth + 1;
    let n: usize = places.len();
    assert(pv.len() == n);
    let mut state = state;
    let mut kids: Vec<CuNode> = Vec::new();
    for i in 0..n
        invariant
            n == places@.len(),
            n == pv.len(),
            pv == crate::geometry::positions_view(places@),
            pv == kid_places(&before, at),
            cu_env_ok(env),
            before.well_formed(),
            spot(env.pic, &before, at, ct_depth),
            3 < at.log2_size,
            kl == at.log2_size - 1,
            kd == ct_depth + 1,
            state.well_formed(),
            state.same_picture(&before),
            kids@.len() == i,
            kids_fit(env.pic, &state, kids@, pv, kl, kd),
            kids_built(env, pv, kl, kd, before, state, kids@, i as nat),
    {
        let (kx, ky) = places[i];
        let kat = Place { x: kx, y: ky, log2_size: kl };
        let ghost mid = state;
        proof {
            assert(pv[i as int] == (kx as int, ky as int));
            assert(kat == kid_place(pv[i as int], kl));
            lemma_kid_spot(env.pic, &before, at, ct_depth, i as int);
            lemma_spot_same(env.pic, &before, &mid, kat, kd);
        }
        let (next, kid) = build_cu(env, kat, kd, state);
        let ghost old_kids = kids@;
        let ghost new_kid = kid;
        state = next;
        kids.push(kid);
        proof {
            lemma_same_trans(&before, &mid, &state);
            lemma_kids_later(env.pic, &mid, &state, old_kids, pv, kl, kd);
            assert forall|j: int| 0 <= j < kids@.len() implies node_fits(
                env.pic,
                &state,
                &#[trigger] kids@[j],
                kid_place(pv[j], kl),
                kd,
            ) by {
                if j < i {
                    assert(kids@[j] == old_kids[j]);
                }
            }
            assert(kids@.take(old_kids.len() as int) =~= old_kids);
            lemma_kids_prefix(env, pv, kl, kd, before, mid, old_kids, kids@, i as nat);
            assert(between(mid));
            assert(kids@[i as int] == new_kid);
        }
    }
    let ghost built = kids@;
    let node = CuNode::Split { kids };
    proof {
        lemma_spot_same(env.pic, &before, &state, at, ct_depth);
        assert(kid_places(&state, at) == pv);
        assert(node->kids@ == built);
        lemma_split_fits(env.pic, &state, &node, at, ct_depth);
    }
    let cost = price_node(env, at, ct_depth, &state, &node);
    (state, CuTrial { node, cost, confidence: DecisionConfidence::Clear })
}

/// Later children do not change what is said of the earlier.
proof fn lemma_kids_prefix<'a, L, N, T, B, P, K, E, R>(
    env: &CuEnv<'a, L, N, T, B, P, K, E, R>,
    places: Seq<(int, int)>,
    log2_size: u8,
    ct_depth: u8,
    before: SearchState,
    after: SearchState,
    a: Seq<CuNode>,
    b: Seq<CuNode>,
    n: nat,
) where
    L: Fn(SearchState, Place, u8) -> (SearchState, CuLeaf),
    N: Fn(SearchState, Place, u8) -> (SearchState, CuLeaf),
    T: Fn(&SearchState, Place) -> (bool, EncodeStats),
    B: Fn(&SearchState, Place) -> (BlockSearchBudget, i32),
    P: Fn(u64, u64) -> u64,
    K: Fn(BlockSearchBudget, u64, u64) -> bool,
    E: Fn(&CuLeaf) -> bool,
    R: Fn(SearchState, &CuPlan, Place, u8) -> (SearchState, CuNode),

    requires
        kids_built(env, places, log2_size, ct_depth, before, after, a, n),
        n <= a.len() <= b.len(),
        b.take(a.len() as int) == a,
    ensures
        kids_built(env, places, log2_size, ct_depth, before, after, b, n),
    decreases n,
{
    if n > 0 {
        let mid = choose|mid: SearchState|
            {
                &&& #[trigger] between(mid)
                &&& kids_built(
                    env,
                    places,
                    log2_size,
                    ct_depth,
                    before,
                    mid,
                    a,
                    (n - 1) as nat,
                )
                &&& unit_built(
                    env,
                    kid_place(places[n - 1], log2_size),
                    ct_depth,
                    mid,
                    after,
                    a[n - 1],
                )
            };
        lemma_kids_prefix(
            env,
            places,
            log2_size,
            ct_depth,
            before,
            mid,
            a,
            b,
            (n - 1) as nat,
        );
        assert(b[n - 1] == b.take(a.len() as int)[n - 1]);
        assert(between(mid));
    }
}

fn judge<'a, L, N, T, B, P, K, E, R>(env: &CuEnv<'a, L, N, T, B, P, K, E, R>, g: BlockSearchBudget, a: u64, b: u64) -> (c: DecisionConfidence) where
    L: Fn(SearchState, Place, u8) -> (SearchState, CuLeaf),
    N: Fn(SearchState, Place, u8) -> (SearchState, CuLeaf),
    T: Fn(&SearchState, Place) -> (bool, EncodeStats),
    B: Fn(&SearchState, Place) -> (BlockSearchBudget, i32),
    P: Fn(u64, u64) -> u64,
    K: Fn(BlockSearchBudget, u64, u64) -> bool,
    E: Fn(&CuLeaf) -> bool,
    R: Fn(SearchState, &CuPlan, Place, u8) -> (SearchState, CuNode),

    requires
        cu_env_ok(env),
    ensures
        confidence_of(env, g, a, b, c),
{
    let close: bool = if a <= b {
        (env.close)(g, a, b)
    } else {
        (env.close)(g, b, a)
    };
    decision_confidence(true, close)
}

/// Tries the split before the whole unit.
#[verifier::rlimit(40)]
fn decide_split_first<'a, L, N, T, B, P, K, E, R>(
    env: &CuEnv<'a, L, N, T, B, P, K, E, R>,
    g: BlockSearchBudget,
    at: Place,
    ct_depth: u8,
    state: SearchState,
) -> (r: (SearchState, CuTrial)) where
    L: Fn(SearchState, Place, u8) -> (SearchState, CuLeaf),
    N: Fn(SearchState, Place, u8) -> (SearchState, CuLeaf),
    T: Fn(&SearchState, Place) -> (bool, EncodeStats),
    B: Fn(&SearchState, Place) -> (BlockSearchBudget, i32),
    P: Fn(u64, u64) -> u64,
    K: Fn(BlockSearchBudget, u64, u64) -> bool,
    E: Fn(&CuLeaf) -> bool,
    R: Fn(SearchState, &CuPlan, Place, u8) -> (SearchState, CuNode),

    requires
        cu_env_ok(env),
        unit_spot(env.pic, &state, at, ct_depth),
        at.log2_size > 3,
    ensures
        split_first(env, g, at, ct_depth, state, r.0, r.1),
        left_whole(env.pic, at, ct_depth, &state, &r.0, &r.1.node),
    decreases at.log2_size, 2nat,
{
    let ghost before = state;
    let inc: usize = state.maps.split_ctx_inc(at.x, at.y, ct_depth);
    let flag: u64 = estimate_split_cu_flag_bits(env.ctxs, inc, false);
    let mut state = state;
    let base = save_region(&mut state, at.x, at.y, at.log2_size);
    let ghost held = state;
    proof {
        lemma_spot_same(env.pic, &before, &held, at, ct_depth);
    }
    let (mut state, split) = split_alone(env, at, ct_depth, state);
    let ghost apart = state;
    let ghost parted = split;
    proof {
        lemma_same_trans(&before, &held, &apart);
    }
    let kept = save_region(&mut state, at.x, at.y, at.log2_size);
    let ghost saved = state;
    proof {
        lemma_same_trans(&before, &apart, &saved);
        lemma_fits_same(&base, &before, &saved);
    }
    restore_region(&mut state, &base);
    let ghost again = state;
    proof {
        lemma_same_trans(&before, &saved, &again);
        lemma_unit_fits_same(env.pic, &before, &again, at.x, at.y, at.log2_size);
        lemma_spot_same(env.pic, &before, &again, at, ct_depth);
    }
    let (mut state, leaf) = (env.leaf)(state, at, ct_depth);
    let ghost whole = state;
    let ghost first = leaf;
    proof {
        assert(call_ensures(env.leaf, (again, at, ct_depth), (whole, first)));
        lemma_same_trans(&before, &again, &whole);
        lemma_unit_fits_same(env.pic, &before, &whole, at.x, at.y, at.log2_size);
    }
    let cost = price_unit(env, at, &state, &leaf, flag);
    let confidence = judge(env, g, cost.cost, split.cost.cost);
    assert(prefer_steps(base, parted, apart, again, whole, first, cost, kept));
    if split.cost.cost < cost.cost {
        proof {
            lemma_same_sym(&before, &apart);
            lemma_same_trans(&apart, &before, &whole);
            lemma_fits_same(&kept, &apart, &whole);
        }
        restore_region(&mut state, &kept);
        proof {
            lemma_same_trans(&before, &whole, &state);
            lemma_same_trans(&apart, &before, &state);
            lemma_fits_later(env.pic, &apart, &state, &split.node, at, ct_depth);
        }
        (state, CuTrial { node: split.node, cost: split.cost, confidence })
    } else {
        let node = cu_leaf_node(leaf, confidence);
        proof {
            lemma_leaf_fits(env.pic, &state, &node, at, ct_depth);
        }
        (state, CuTrial { node, cost, confidence })
    }
}

/// Builds the children of a split as far as it stays cheaper than the whole unit.
#[verifier::rlimit(60)]
fn race_split<'a, L, N, T, B, P, K, E, R>(
    env: &CuEnv<'a, L, N, T, B, P, K, E, R>,
    at: Place,
    ct_depth: u8,
    flag: u64,
    leaf_cost: u64,
    state: SearchState,
) -> (r: Race) where
    L: Fn(SearchState, Place, u8) -> (SearchState, CuLeaf),
    N: Fn(SearchState, Place, u8) -> (SearchState, CuLeaf),
    T: Fn(&SearchState, Place) -> (bool, EncodeStats),
    B: Fn(&SearchState, Place) -> (BlockSearchBudget, i32),
    P: Fn(u64, u64) -> u64,
    K: Fn(BlockSearchBudget, u64, u64) -> bool,
    E: Fn(&CuLeaf) -> bool,
    R: Fn(SearchState, &CuPlan, Place, u8) -> (SearchState, CuNode),

    requires
        cu_env_ok(env),
        unit_spot(env.pic, &state, at, ct_depth),
        fully_inside(&state.maps, at.x, at.y, at.log2_size),
        at.log2_size > 3,
        flag <= UNIT_BITS_MAX,
    ensures
        1 <= r.kids@.len() <= 4,
        race_run(
            env,
            kid_places(&state, at),
            (at.log2_size - 1) as u8,
            (ct_depth + 1) as u8,
            flag as int,
            leaf_cost,
            state,
            r.kids@.len(),
            r,
        ),
        r.cost >= leaf_cost || r.kids@.len() == 4,
        r.state.well_formed(),
        r.state.same_picture(&state),
        r.frac_bits <= 4 * UNIT_BITS_MAX,
        kids_fit(
            env.pic,
            &r.state,
            r.kids@,
            kid_places(&state, at),
            (at.log2_size - 1) as u8,
            (ct_depth + 1) as u8,
        ),
        kid_places(&state, at).len() == 4,
    decreases at.log2_size, 1nat,
{
    let ghost before = state;
    let ghost pv = kid_places(&before, at);
    proof {
        lemma_sides();
        assert(at.log2_size == 4 || at.log2_size == 5 || at.log2_size == 6);
        crate::quadtree::lemma_sse_caps();
    }
    let half: u32 = block_side(at.log2_size) / 2;
    let places = cu_kid_positions(at.x, at.y, half, state.maps.width, state.maps.height);
    assert(crate::geometry::positions_view(places@) == pv);
    let kl: u8 = at.log2_size - 1;
    let kd: u8 = ct_depth + 1;
    assert(pv.len() == 4);
    let mut race = Race { state, kids: Vec::new(), distortion: 0, frac_bits: 0, cost: 0 };
    let mut i: usize = 0;
    let mut done: bool = false;
    while !done
        invariant
            places@.len() == 4,
            pv.len() == 4,
            pv == crate::geometry::positions_view(places@),
            pv == kid_places(&before, at),
            cu_env_ok(env),
            unit_spot(env.pic, &before, at, ct_depth),
            fully_inside(&before.maps, at.x, at.y, at.log2_size),
            3 < at.log2_size <= 6,
            kl == at.log2_size - 1,
            kd == ct_depth + 1,
            flag <= UNIT_BITS_MAX,
            i <= 4,
            i == race.kids@.len(),
            !done ==> i < 4 && (i > 0 ==> race.cost < leaf_cost),
            done ==> i > 0 && (race.cost >= leaf_cost || i == 4),
            race.state.well_formed(),
            race.state.same_picture(&before),
            race.distortion <= i * 0x1_0000_0000_0000,
            race.frac_bits <= i * UNIT_BITS_MAX,
            kids_fit(env.pic, &race.state, race.kids@, pv, kl, kd),
            race_run(env, pv, kl, kd, flag as int, leaf_cost, before, i as nat, race),
            forall|l: u8|
                3 <= l <= 6 ==> 0 < #[trigger] crate::quadtree::sse_cap(l) <= 0x1_0000_0000_0000,
        decreases 4 - i,
    {
        let (kx, ky) = places[i];
        let kat = Place { x: kx, y: ky, log2_size: kl };
        let ghost p = race;
        proof {
            assert(pv[i as int] == (kx as int, ky as int));
            assert(kat == kid_place(pv[i as int], kl));
            lemma_kid_spot(env.pic, &before, at, ct_depth, i as int);
            lemma_spot_same(env.pic, &before, &p.state, kat, kd);
        }
        let Race { state: mid, mut kids, distortion, frac_bits, .. } = race;
        let (next, kid) = build_cu(env, kat, kd, mid);
        proof {
            lemma_same_trans(&before, &p.state, &next);
            lemma_spot_same(env.pic, &before, &next, kat, kd);
            lemma_spot_fits(env.pic, &next, kat, kd);
            lemma_unit_in_frame(env.pic, &next.frame, kx, ky, kl);
            lemma_node_bounds(env.pic, &next, env.ctxs@, &kid, kat, kd);
            lemma_kids_later(env.pic, &p.state, &next, p.kids@, pv, kl, kd);
            assert(crate::quadtree::sse_cap(kl) <= 0x1_0000_0000_0000);
        }
        let more: u64 = distortion_tt_region(env.pic, &next.frame, kx, ky, kl);
        let bits: u64 = estimate_cu_node_bits(
            env.ctxs,
            &next.maps,
            env.pic.cat,
            &kid,
            kx,
            ky,
            kl,
            kd,
        );
        let ghost new_kid = kid;
        let distortion: u64 = distortion + more;
        let frac_bits: u64 = frac_bits + bits;
        kids.push(kid);
        let cost: u64 = (env.price)(distortion, flag + frac_bits);
        race = Race { state: next, kids, distortion, frac_bits, cost };
        proof {
            assert(race.kids@.drop_last() =~= p.kids@);
            assert(race.kids@.last() == new_kid);
            assert(Place { log2_size: kl, ..kat } == kat);
            assert(raced(p));
            assert(race_step(env, kat, kl, kd, flag as int, p, race));
            assert forall|j: int| 0 <= j < race.kids@.len() implies node_fits(
                env.pic,
                &race.state,
                &#[trigger] race.kids@[j],
                kid_place(pv[j], kl),
                kd,
            ) by {
                if j < i {
                    assert(race.kids@[j] == p.kids@[j]);
                }
            }
        }
        i = i + 1;
        done = cost >= leaf_cost || i == 4;
    }
    race
}

/// Tries the whole unit before the split.
#[verifier::rlimit(40)]
fn decide_leaf_first<'a, L, N, T, B, P, K, E, R>(
    env: &CuEnv<'a, L, N, T, B, P, K, E, R>,
    g: BlockSearchBudget,
    qp: i32,
    at: Place,
    ct_depth: u8,
    state: SearchState,
) -> (r: (SearchState, CuTrial)) where
    L: Fn(SearchState, Place, u8) -> (SearchState, CuLeaf),
    N: Fn(SearchState, Place, u8) -> (SearchState, CuLeaf),
    T: Fn(&SearchState, Place) -> (bool, EncodeStats),
    B: Fn(&SearchState, Place) -> (BlockSearchBudget, i32),
    P: Fn(u64, u64) -> u64,
    K: Fn(BlockSearchBudget, u64, u64) -> bool,
    E: Fn(&CuLeaf) -> bool,
    R: Fn(SearchState, &CuPlan, Place, u8) -> (SearchState, CuNode),

    requires
        cu_env_ok(env),
        unit_spot(env.pic, &state, at, ct_depth),
        fully_inside(&state.maps, at.x, at.y, at.log2_size),
        at.log2_size > 3,
    ensures
        leaf_first(env, g, qp, at, ct_depth, state, r.0, r.1),
        left_whole(env.pic, at, ct_depth, &state, &r.0, &r.1.node),
    decreases at.log2_size, 2nat,
{
    let ghost before = state;
    let inc: usize = state.maps.split_ctx_inc(at.x, at.y, ct_depth);
    let flag: u64 = estimate_split_cu_flag_bits(env.ctxs, inc, false);
    let split_flag: u64 = estimate_split_cu_flag_bits(env.ctxs, inc, true);
    let mut state = state;
    let base = save_region(&mut state, at.x, at.y, at.log2_size);
    let ghost held = state;
    proof {
        lemma_unit_fits_same(env.pic, &before, &held, at.x, at.y, at.log2_size);
        lemma_spot_same(env.pic, &before, &held, at, ct_depth);
    }
    let (mut state, leaf) = (env.leaf)(state, at, ct_depth);
    let ghost whole = state;
    let ghost first = leaf;
    proof {
        assert(call_ensures(env.leaf, (held, at, ct_depth), (whole, first)));
        lemma_same_trans(&before, &held, &whole);
        lemma_unit_fits_same(env.pic, &before, &whole, at.x, at.y, at.log2_size);
    }
    let cost = price_unit(env, at, &state, &leaf, flag);
    let has_residual: bool = (env.residual)(&leaf);
    assert(leaf_steps(base, whole, first, has_residual, cost));
    let stop: bool = stops(env, g, qp, at, has_residual, cost.frac_bits);
    if stop && g.allow_cu_early_terminate {
        let node = cu_leaf_node(leaf, DecisionConfidence::Clear);
        proof {
            lemma_leaf_fits(env.pic, &state, &node, at, ct_depth);
        }
        return (state, CuTrial { node, cost, confidence: DecisionConfidence::Clear });
    }
    let kept = save_region(&mut state, at.x, at.y, at.log2_size);
    let ghost saved = state;
    proof {
        lemma_same_trans(&before, &whole, &saved);
        lemma_fits_same(&base, &before, &saved);
    }
    restore_region(&mut state, &base);
    let ghost again = state;
    proof {
        lemma_same_trans(&before, &saved, &again);
        lemma_unit_fits_same(env.pic, &before, &again, at.x, at.y, at.log2_size);
        lemma_spot_same(env.pic, &before, &again, at, ct_depth);
        assert(kid_places(&again, at) == kid_places(&before, at));
    }
    let race = race_split(env, at, ct_depth, split_flag, cost.cost, state);
    let ghost ended = race;
    proof {
        lemma_same_trans(&before, &again, &race.state);
        assert(race_steps(kept, again, race.kids@.len(), race));
    }
    if race.cost >= cost.cost {
        let Race { mut state, .. } = race;
        proof {
            lemma_same_sym(&before, &whole);
            lemma_same_trans(&whole, &before, &ended.state);
            lemma_fits_same(&kept, &whole, &ended.state);
        }
        restore_region(&mut state, &kept);
        let node = cu_leaf_node(leaf, DecisionConfidence::Clear);
        proof {
            lemma_same_trans(&before, &ended.state, &state);
            lemma_unit_fits_same(env.pic, &before, &state, at.x, at.y, at.log2_size);
            lemma_leaf_fits(env.pic, &state, &node, at, ct_depth);
        }
        return (state, CuTrial { node, cost, confidence: DecisionConfidence::Clear });
    }
    let confidence = judge(env, g, cost.cost, race.cost);
    let split_cost = RdCost {
        distortion: race.distortion,
        frac_bits: split_flag + race.frac_bits,
        cost: race.cost,
    };
    let Race { state, kids, .. } = race;
    let node = CuNode::Split { kids };
    proof {
        lemma_spot_same(env.pic, &before, &state, at, ct_depth);
        assert(kid_places(&state, at) == kid_places(&before, at));
        assert(node->kids@ == ended.kids@);
        lemma_split_fits(env.pic, &state, &node, at, ct_depth);
    }
    (state, CuTrial { node, cost: split_cost, confidence })
}

/// Tells whether a whole unit is good enough.
fn stops<'a, L, N, T, B, P, K, E, R>(
    env: &CuEnv<'a, L, N, T, B, P, K, E, R>,
    g: BlockSearchBudget,
    qp: i32,
    at: Place,
    has_residual: bool,
    frac_bits: u64,
) -> (r: bool) where
    L: Fn(SearchState, Place, u8) -> (SearchState, CuLeaf),
    N: Fn(SearchState, Place, u8) -> (SearchState, CuLeaf),
    T: Fn(&SearchState, Place) -> (bool, EncodeStats),
    B: Fn(&SearchState, Place) -> (BlockSearchBudget, i32),
    P: Fn(u64, u64) -> u64,
    K: Fn(BlockSearchBudget, u64, u64) -> bool,
    E: Fn(&CuLeaf) -> bool,
    R: Fn(SearchState, &CuPlan, Place, u8) -> (SearchState, CuNode),

    requires
        8 <= env.pic.bit_depth <= 16,
        3 <= at.log2_size <= 6,
        at.x + side(at.log2_size) <= u32::MAX,
        at.y + side(at.log2_size) <= u32::MAX,
    ensures
        r == g.terminates_cu(
            has_residual,
            frac_bits as int / CabacEstimator::SCALE as int,
            at.log2_size,
            qp,
            env.pic.bit_depth,
            luma_range(env.pic, at),
        ),
{
    proof {
        lemma_sides();
    }
    let pic = env.pic;
    let ask = || -> (range: u16)
        requires
            range_asked(pic, at),
        ensures
            range == luma_range(pic, at),
    { source_range(pic, at) };
    let stop: bool = g.should_early_terminate_cu(
        has_residual,
        frac_bits / CabacEstimator::SCALE,
        at.log2_size,
        qp,
        env.pic.bit_depth,
        ask,
    );
    stop
}

/// The range of a block's luma can be asked for.
pub open spec fn range_asked(pic: &SourcePicture, at: Place) -> bool {
    &&& 8 <= pic.bit_depth <= 16
    &&& 3 <= at.log2_size <= 6
    &&& at.x + side(at.log2_size) <= u32::MAX
    &&& at.y + side(at.log2_size) <= u32::MAX
}

/// The range of a block's luma.
fn source_range(pic: &SourcePicture, at: Place) -> (range: u16)
    requires
        range_asked(pic, at),
    ensures
        range == luma_range(pic, at),
{
    let size: u32 = block_side(at.log2_size);
    proof {
        lemma_sides();
        assert(at.log2_size == 3 || at.log2_size == 4 || at.log2_size == 5 || at.log2_size == 6);
        assert(64 <= size * size <= 4096) by (nonlinear_arith)
            requires
                8 <= size <= 64,
        ;
    }
    let src = pic.source_block(0, at.x, at.y, size);
    assert(src@ =~= luma_samples(pic, at));
    sample_range(&src)
}

/// Decides whether a node is coded as one unit or split.
#[verifier::rlimit(40)]
pub fn decide_cu<'a, L, N, T, B, P, K, E, R>(
    env: &CuEnv<'a, L, N, T, B, P, K, E, R>,
    at: Place,
    ct_depth: u8,
    state: SearchState,
) -> (r: (SearchState, CuTrial)) where
    L: Fn(SearchState, Place, u8) -> (SearchState, CuLeaf),
    N: Fn(SearchState, Place, u8) -> (SearchState, CuLeaf),
    T: Fn(&SearchState, Place) -> (bool, EncodeStats),
    B: Fn(&SearchState, Place) -> (BlockSearchBudget, i32),
    P: Fn(u64, u64) -> u64,
    K: Fn(BlockSearchBudget, u64, u64) -> bool,
    E: Fn(&CuLeaf) -> bool,
    R: Fn(SearchState, &CuPlan, Place, u8) -> (SearchState, CuNode),

    requires
        cu_env_ok(env),
        state.well_formed(),
        spot(env.pic, &state, at, ct_depth),
    ensures
        unit_decided(env, at, ct_depth, state, r.0, r.1),
        left_whole(env.pic, at, ct_depth, &state, &r.0, &r.1.node),
    decreases at.log2_size, 3nat,
{
    proof {
        lemma_sides();
        assert(at.log2_size == 3 || at.log2_size == 4 || at.log2_size == 5 || at.log2_size == 6);
    }
    let size: u32 = block_side(at.log2_size);
    let inside: bool = at.x + size <= state.maps.width && at.y + size <= state.maps.height;
    if at.log2_size <= 3 {
        proof {
            lemma_spot_fits(env.pic, &state, at, ct_depth);
        }
        if env.parts && env.pic.cat == 1 && inside {
            return decide_cu_8x8_part(env, at, ct_depth, state);
        }
        return whole_only(env, at, ct_depth, state);
    }
    if !inside {
        return split_alone(env, at, ct_depth, state);
    }
    proof {
        lemma_spot_fits(env.pic, &state, at, ct_depth);
    }
    let answer = (env.budget)(&state, at);
    let ghost asked = state;
    assert(call_ensures(env.budget, (&asked, at), answer));
    let (g, qp) = answer;
    match g.cu_split {
        SplitSearch::ForceLeaf => whole_only(env, at, ct_depth, state),
        SplitSearch::ForceSplit => split_alone(env, at, ct_depth, state),
        SplitSearch::PreferSplit => decide_split_first(env, g, at, ct_depth, state),
        _ => decide_leaf_first(env, g, qp, at, ct_depth, state),
    }
}

/// Decides a node, and codes the decision unless the search's own coding is kept.
pub fn build_cu<'a, L, N, T, B, P, K, E, R>(
    env: &CuEnv<'a, L, N, T, B, P, K, E, R>,
    at: Place,
    ct_depth: u8,
    state: SearchState,
) -> (r: (SearchState, CuNode)) where
    L: Fn(SearchState, Place, u8) -> (SearchState, CuLeaf),
    N: Fn(SearchState, Place, u8) -> (SearchState, CuLeaf),
    T: Fn(&SearchState, Place) -> (bool, EncodeStats),
    B: Fn(&SearchState, Place) -> (BlockSearchBudget, i32),
    P: Fn(u64, u64) -> u64,
    K: Fn(BlockSearchBudget, u64, u64) -> bool,
    E: Fn(&CuLeaf) -> bool,
    R: Fn(SearchState, &CuPlan, Place, u8) -> (SearchState, CuNode),

    requires
        cu_env_ok(env),
        state.well_formed(),
        spot(env.pic, &state, at, ct_depth),
    ensures
        unit_built(env, at, ct_depth, state, r.0, r.1),
        left_whole(env.pic, at, ct_depth, &state, &r.0, &r.1),
    decreases at.log2_size, 4nat,
{
    let ghost before = state;
    let mut state = state;
    let base = save_region(&mut state, at.x, at.y, at.log2_size);
    let ghost held = state;
    proof {
        lemma_spot_same(env.pic, &before, &held, at, ct_depth);
    }
    let (mut state, trial) = decide_cu(env, at, ct_depth, state);
    let ghost mid = state;
    proof {
        assert(build_steps(base, mid, trial));
        lemma_same_trans(&before, &held, &mid);
    }
    if env.keep {
        return (state, trial.node);
    }
    proof {
        lemma_fits_same(&base, &before, &mid);
    }
    restore_region(&mut state, &base);
    let ghost start = state;
    let plan = cu_to_plan(&trial.node);
    proof {
        lemma_same_trans(&before, &mid, &start);
        lemma_spot_same(env.pic, &before, &start, at, ct_depth);
        lemma_fits_later(env.pic, &mid, &start, &trial.node, at, ct_depth);
        assert(replayable(env.pic, &start, &plan, at, ct_depth));
    }
    let (after, coded) = (env.replay)(state, &plan, at, ct_depth);
    let ghost replayed_node = coded;
    proof {
        assert(call_ensures(env.replay, (start, &plan, at, ct_depth), (after, replayed_node)));
        assert(replay_steps(plan, start, replayed_node));
        lemma_same_trans(&before, &start, &after);
    }
    let node = annotate_root(coded, trial.confidence);
    (after, node)
}

/// More distortion or more bits never cost less.
pub open spec fn price_grows<P>(price: P) -> bool where P: Fn(u64, u64) -> u64 {
    forall|d: u64, b: u64, e: u64, c: u64, low: u64, high: u64|
        #![trigger call_ensures(price, (d, b), low), call_ensures(price, (e, c), high)]
        d <= e && b <= c && call_ensures(price, (d, b), low) && call_ensures(
            price,
            (e, c),
            high,
        ) ==> low <= high
}

/// From `n` children on, the others up to the `m`-th were built whatever they cost.
pub open spec fn raced_on<'a, L, N, T, B, P, K, E, R>(
    env: &CuEnv<'a, L, N, T, B, P, K, E, R>,
    places: Seq<(int, int)>,
    log2_size: u8,
    ct_depth: u8,
    flag: int,
    n: nat,
    m: nat,
    p: Race,
    r: Race,
) -> bool where
    L: Fn(SearchState, Place, u8) -> (SearchState, CuLeaf),
    N: Fn(SearchState, Place, u8) -> (SearchState, CuLeaf),
    T: Fn(&SearchState, Place) -> (bool, EncodeStats),
    B: Fn(&SearchState, Place) -> (BlockSearchBudget, i32),
    P: Fn(u64, u64) -> u64,
    K: Fn(BlockSearchBudget, u64, u64) -> bool,
    E: Fn(&CuLeaf) -> bool,
    R: Fn(SearchState, &CuPlan, Place, u8) -> (SearchState, CuNode),

    decreases m,
{
    if m <= n {
        r == p
    } else {
        exists|q: Race|
            {
                &&& #[trigger] raced(q)
                &&& raced_on(env, places, log2_size, ct_depth, flag, n, (m - 1) as nat, p, q)
                &&& race_step(
                    env,
                    kid_place(places[m - 1], log2_size),
                    log2_size,
                    ct_depth,
                    flag,
                    q,
                    r,
                )
            }
    }
}

/// A split that costs as much as the whole unit before all its children are built would
/// not have become cheaper with the others: giving it up changes no decision.
pub proof fn law_giving_up_is_safe<'a, L, N, T, B, P, K, E, R>(
    env: &CuEnv<'a, L, N, T, B, P, K, E, R>,
    places: Seq<(int, int)>,
    log2_size: u8,
    ct_depth: u8,
    flag: int,
    leaf_cost: u64,
    start: SearchState,
    n: nat,
    m: nat,
    p: Race,
    r: Race,
) where
    L: Fn(SearchState, Place, u8) -> (SearchState, CuLeaf),
    N: Fn(SearchState, Place, u8) -> (SearchState, CuLeaf),
    T: Fn(&SearchState, Place) -> (bool, EncodeStats),
    B: Fn(&SearchState, Place) -> (BlockSearchBudget, i32),
    P: Fn(u64, u64) -> u64,
    K: Fn(BlockSearchBudget, u64, u64) -> bool,
    E: Fn(&CuLeaf) -> bool,
    R: Fn(SearchState, &CuPlan, Place, u8) -> (SearchState, CuNode),

    requires
        price_grows(env.price),
        0 <= flag,
        n > 0,
        race_run(env, places, log2_size, ct_depth, flag, leaf_cost, start, n, p),
        p.cost >= leaf_cost,
        raced_on(env, places, log2_size, ct_depth, flag, n, m, p, r),
        flag + r.frac_bits <= u64::MAX,
    ensures
        r.cost >= leaf_cost,
{
    let q = choose|q: Race|
        {
            &&& #[trigger] raced(q)
            &&& race_run(
                env,
                places,
                log2_size,
                ct_depth,
                flag,
                leaf_cost,
                start,
                (n - 1) as nat,
                q,
            )
            &&& n > 1 ==> q.cost < leaf_cost
            &&& race_step(
                env,
                kid_place(places[n - 1], log2_size),
                log2_size,
                ct_depth,
                flag,
                q,
                p,
            )
        };
    assert(race_step(
        env,
        kid_place(places[n - 1], log2_size),
        log2_size,
        ct_depth,
        flag,
        q,
        p,
    ));
    lemma_race_grows(env, places, log2_size, ct_depth, flag, n, m, p, r);
    assert(call_ensures(env.price, (p.distortion, (flag + p.frac_bits) as u64), p.cost));
    assert(call_ensures(env.price, (r.distortion, (flag + r.frac_bits) as u64), r.cost));
}

proof fn lemma_race_grows<'a, L, N, T, B, P, K, E, R>(
    env: &CuEnv<'a, L, N, T, B, P, K, E, R>,
    places: Seq<(int, int)>,
    log2_size: u8,
    ct_depth: u8,
    flag: int,
    n: nat,
    m: nat,
    p: Race,
    r: Race,
) where
    L: Fn(SearchState, Place, u8) -> (SearchState, CuLeaf),
    N: Fn(SearchState, Place, u8) -> (SearchState, CuLeaf),
    T: Fn(&SearchState, Place) -> (bool, EncodeStats),
    B: Fn(&SearchState, Place) -> (BlockSearchBudget, i32),
    P: Fn(u64, u64) -> u64,
    K: Fn(BlockSearchBudget, u64, u64) -> bool,
    E: Fn(&CuLeaf) -> bool,
    R: Fn(SearchState, &CuPlan, Place, u8) -> (SearchState, CuNode),

    requires
        raced_on(env, places, log2_size, ct_depth, flag, n, m, p, r),
        call_ensures(env.price, (p.distortion, (flag + p.frac_bits) as u64), p.cost),
    ensures
        p.distortion <= r.distortion,
        p.frac_bits <= r.frac_bits,
        call_ensures(env.price, (r.distortion, (flag + r.frac_bits) as u64), r.cost),
    decreases m,
{
    if m > n {
        let q = choose|q: Race|
            {
                &&& #[trigger] raced(q)
                &&& raced_on(env, places, log2_size, ct_depth, flag, n, (m - 1) as nat, p, q)
                &&& race_step(
                    env,
                    kid_place(places[m - 1], log2_size),
                    log2_size,
                    ct_depth,
                    flag,
                    q,
                    r,
                )
            };
        lemma_race_grows(env, places, log2_size, ct_depth, flag, n, (m - 1) as nat, p, q);
    }
}

/// Names a trial of the whole unit.
pub open spec fn whole_trial(start: SearchState, whole: SearchState, leaf: CuLeaf, cost: RdCost) -> bool {
    true
}

/// The whole unit was tried, and the decision costs no more; a split costs less.
pub open spec fn no_dearer_than_whole<'a, L, N, T, B, P, K, E, R>(env: &CuEnv<'a, L, N, T, B, P, K, E, R>, at: Place, ct_depth: u8, flag: int, t: CuTrial) -> bool where
    L: Fn(SearchState, Place, u8) -> (SearchState, CuLeaf),
    N: Fn(SearchState, Place, u8) -> (SearchState, CuLeaf),
    T: Fn(&SearchState, Place) -> (bool, EncodeStats),
    B: Fn(&SearchState, Place) -> (BlockSearchBudget, i32),
    P: Fn(u64, u64) -> u64,
    K: Fn(BlockSearchBudget, u64, u64) -> bool,
    E: Fn(&CuLeaf) -> bool,
    R: Fn(SearchState, &CuPlan, Place, u8) -> (SearchState, CuNode),
 {
    exists|start: SearchState, whole: SearchState, leaf: CuLeaf, cost: RdCost|
        {
            &&& #[trigger] whole_trial(start, whole, leaf, cost)
            &&& call_ensures(env.leaf, (start, at, ct_depth), (whole, leaf))
            &&& unit_priced(env, at, &whole, &leaf, flag, cost)
            &&& t.cost.cost <= cost.cost
            &&& t.node is Split ==> t.cost.cost < cost.cost
        }
}

/// Whichever of whole and split is tried first, the decision costs no more than the whole
/// unit, and the node is split only where that costs less.
pub proof fn law_decision_no_dearer<'a, L, N, T, B, P, K, E, R>(
    env: &CuEnv<'a, L, N, T, B, P, K, E, R>,
    g: BlockSearchBudget,
    qp: i32,
    at: Place,
    ct_depth: u8,
    before: SearchState,
    after: SearchState,
    t: CuTrial,
) where
    L: Fn(SearchState, Place, u8) -> (SearchState, CuLeaf),
    N: Fn(SearchState, Place, u8) -> (SearchState, CuLeaf),
    T: Fn(&SearchState, Place) -> (bool, EncodeStats),
    B: Fn(&SearchState, Place) -> (BlockSearchBudget, i32),
    P: Fn(u64, u64) -> u64,
    K: Fn(BlockSearchBudget, u64, u64) -> bool,
    E: Fn(&CuLeaf) -> bool,
    R: Fn(SearchState, &CuPlan, Place, u8) -> (SearchState, CuNode),

    requires
        leaf_first(env, g, qp, at, ct_depth, before, after, t) || split_first(
            env,
            g,
            at,
            ct_depth,
            before,
            after,
            t,
        ),
    ensures
        no_dearer_than_whole(
            env,
            at,
            ct_depth,
            flag_cost(env.ctxs, &before, at, ct_depth, false),
            t,
        ),
{
    let flag = flag_cost(env.ctxs, &before, at, ct_depth, false);
    if leaf_first(env, g, qp, at, ct_depth, before, after, t) {
        let (base, whole, leaf, has_residual, cost) = choose|
            base: RegionSnapshot,
            whole: SearchState,
            leaf: CuLeaf,
            has_residual: bool,
            cost: RdCost,
        |
            {
                let stop = g.terminates_cu(
                    has_residual,
                    cost.frac_bits as int / CabacEstimator::SCALE as int,
                    at.log2_size,
                    qp,
                    env.pic.bit_depth,
                    luma_range(env.pic, at),
                );
                &&& #[trigger] leaf_steps(base, whole, leaf, has_residual, cost)
                &&& call_ensures(
                    env.leaf,
                    (worked(before, save_work(&base)), at, ct_depth),
                    (whole, leaf),
                )
                &&& unit_priced(env, at, &whole, &leaf, flag, cost)
                &&& if stop && g.allow_cu_early_terminate {
                    &&& t.node == confident(leaf, DecisionConfidence::Clear)
                    &&& t.cost == cost
                } else {
                    split_raced(env, g, at, ct_depth, before, base, whole, leaf, cost, after, t)
                }
            };
        assert(whole_trial(worked(before, save_work(&base)), whole, leaf, cost));
    } else {
        let (base, split, apart, again, whole, leaf, cost, tu) = choose|
            base: RegionSnapshot,
            split: CuTrial,
            apart: SearchState,
            again: SearchState,
            whole: SearchState,
            leaf: CuLeaf,
            cost: RdCost,
            kept: RegionSnapshot,
        |
            {
                &&& #[trigger] prefer_steps(base, split, apart, again, whole, leaf, cost, kept)
                &&& call_ensures(env.leaf, (again, at, ct_depth), (whole, leaf))
                &&& unit_priced(env, at, &whole, &leaf, flag, cost)
                &&& if split.cost.cost < cost.cost {
                    &&& t.node == split.node
                    &&& t.cost == split.cost
                } else {
                    &&& t.node == confident(leaf, t.confidence)
                    &&& t.cost == cost
                }
            };
        assert(whole_trial(again, whole, leaf, cost));
    }
}

} // verus!
