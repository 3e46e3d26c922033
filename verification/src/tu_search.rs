//! Choosing the shape of a transform tree.
//!
//! The caller codes leaves and subtrees; these functions say which of them a node needs
//! and which of two it keeps. Costs are order keys: the less the cost, the less the key.

use vstd::prelude::*;

use crate::block_eval::task_ok;
use crate::budget::BlockSearchBudget;
use crate::contexts::Contexts;
use crate::cost::{estimate_tt_bits, items_cost};
use crate::cost_bound::{
    block_small, kids_nodes, lemma_tt_cost_bound, node_cap, tt_nodes, tt_small,
};
use crate::cu_search::RdCost;
use crate::effort::SplitSearch;
use crate::final_code::{
    chroma_tasks, leaf_codes, leaf_tasks, parent_codes, lemma_quadrant_ok, parent_tasks, plan_full,
    plan_ok, plan_size, push_chroma_tasks,
    push_leaf_tasks, quadrant, square_ok, take_leaf, BlockTask, CodeSettings,
};
use crate::geometry::{block_side, can_split_tt, side, spec_can_split_tt, MAX_TB_LOG2};
use crate::items::{tt_depths_ok, tt_items};
use crate::math::{max_int, min_int};
use crate::policy::EvalKind;
use crate::queue::Queue;
use crate::rough::Place;
use crate::stats::EncodeStats;
use crate::syntax::{
    split_flags_ok, split_node, tt_plan_of, tt_to_plan, CodedBlock, DecisionConfidence,
    ParentChromaTu, Tt, TtPlan,
};
use crate::trial_region::TrialReconRegion;
use crate::write::lemma_half_side;

verus! {

/// What is coded for a node, and in which order.
#[derive(Clone, Copy, Debug, PartialEq, Eq, Structural)]
pub enum SplitOrder {
    LeafOnly,
    SplitOnly,
    LeafFirst,
    SplitFirst,
}

/// The order of a transform node: blocks too large are split, blocks that cannot be split
/// are leaves, and the budget decides elsewhere.
pub open spec fn tt_order(
    cat: u8,
    log2_size: u8,
    trafo_depth: u8,
    tu_split: SplitSearch,
) -> SplitOrder {
    if log2_size > MAX_TB_LOG2 {
        SplitOrder::SplitOnly
    } else if !spec_can_split_tt(cat, log2_size, trafo_depth) || tu_split
        == SplitSearch::ForceLeaf {
        SplitOrder::LeafOnly
    } else if tu_split == SplitSearch::ForceSplit {
        SplitOrder::SplitOnly
    } else if tu_split == SplitSearch::PreferSplit {
        SplitOrder::SplitFirst
    } else {
        SplitOrder::LeafFirst
    }
}

pub fn tt_split_order(
    cat: u8,
    log2_size: u8,
    trafo_depth: u8,
    budget: &BlockSearchBudget,
) -> (o: SplitOrder)
    ensures
        o == tt_order(cat, log2_size, trafo_depth, budget.tu_split),
{
    if log2_size > MAX_TB_LOG2 {
        return SplitOrder::SplitOnly;
    }
    if !can_split_tt(cat, log2_size, trafo_depth) {
        return SplitOrder::LeafOnly;
    }
    match budget.tu_split {
        SplitSearch::ForceLeaf => SplitOrder::LeafOnly,
        SplitSearch::ForceSplit => SplitOrder::SplitOnly,
        SplitSearch::PreferSplit => SplitOrder::SplitFirst,
        SplitSearch::PreferLeaf | SplitSearch::EvaluateBoth => SplitOrder::LeafFirst,
    }
}

/// Whether a leaf ends the search because it has no luma residual.
pub fn tu_split_early_terminate(leaf: &Tt, budget: &BlockSearchBudget) -> (r: bool)
    ensures
        r == ((leaf matches Tt::Leaf(l) && !l.luma.cbf)
            && budget.zero_residual_tu_early_terminate),
{
    match leaf {
        Tt::Leaf(l) => budget.tu_split_early_terminate(l.luma.cbf),
        Tt::Split { .. } => false,
    }
}

/// What a tree costs, chroma included.
pub fn tt_bits_full(ctxs: &Contexts, tt: &Tt, cat: u8) -> (bits: u64)
    requires
        ctxs.well_formed(),
        tt_depths_ok(tt),
        items_cost(ctxs@, tt_items(tt, cat, false, true, true)) <= u64::MAX,
    ensures
        bits == items_cost(ctxs@, tt_items(tt, cat, false, true, true)),
{
    estimate_tt_bits(ctxs, tt, cat, false, true, true)
}

/// What a tree's luma costs.
pub fn tt_bits_luma(ctxs: &Contexts, tt: &Tt) -> (bits: u64)
    requires
        ctxs.well_formed(),
        tt_depths_ok(tt),
        items_cost(ctxs@, tt_items(tt, 0, false, true, true)) <= u64::MAX,
    ensures
        bits == items_cost(ctxs@, tt_items(tt, 0, false, true, true)),
{
    estimate_tt_bits(ctxs, tt, 0, false, true, true)
}

/// How sure a decision was. One without a comparison is clear.
pub fn decision_confidence(compared: bool, close: bool) -> (c: DecisionConfidence)
    ensures
        c == if compared && close {
            DecisionConfidence::Close
        } else {
            DecisionConfidence::Clear
        },
{
    if compared && close {
        DecisionConfidence::Close
    } else {
        DecisionConfidence::Clear
    }
}

/// What coding a transform block gives.
pub struct BlockOutcome {
    pub coded: CodedBlock,
    pub distortion: u64,
    pub samples: Vec<u16>,
    pub work: EncodeStats,
}

/// What a transform tree search asks of its caller: to code a block on a region, to
/// price distortion and bits, to say whether a leaf's neighbours limit it, and for a
/// block's budget.
pub struct TtEnv<'a, W, C, P, L, B> {
    /// What the answers are given from.
    pub world: &'a W,
    pub code: C,
    pub price: P,
    pub limited: L,
    pub budget: B,
}

/// No block is further from the source than this.
pub const BLOCK_DISTORTION_MAX: u64 = 0x2000_0000_0000;

pub open spec fn outcome_ok(t: BlockTask, o: BlockOutcome) -> bool {
    &&& o.samples@.len() == side(t.log2_size) * side(t.log2_size)
    &&& o.distortion <= BLOCK_DISTORTION_MAX
    &&& block_small(&o.coded)
}

/// The caller codes blocks on regions in the size asked for, and answers for every node
/// that a tree can have.
pub open spec fn env_ok<W, C, P, L, B>(env: &TtEnv<W, C, P, L, B>) -> bool where
    C: Fn(&W, &TrialReconRegion, BlockTask, EvalKind) -> BlockOutcome,
    P: Fn(u64, u64) -> u64,
    L: Fn(&W, u32, u32, u8, &Tt) -> bool,
    B: Fn(&W, u32, u32, u8) -> BlockSearchBudget,
 {
    &&& forall|r: &TrialReconRegion, t: BlockTask, k: EvalKind|
        r.well_formed() && task_ok(t) ==> #[trigger] call_requires(env.code, (env.world, r, t, k))
    &&& forall|r: &TrialReconRegion, t: BlockTask, k: EvalKind, o: BlockOutcome| #[trigger]
        call_ensures(env.code, (env.world, r, t, k), o) && r.well_formed() && task_ok(t)
            ==> outcome_ok(t, o)
    &&& forall|d: u64, b: u64| #[trigger] call_requires(env.price, (d, b))
    &&& forall|x: u32, y: u32, l: u8, tt: &Tt|
        node_ok(x, y, l) && tt_shaped(tt, l) ==> #[trigger] call_requires(
            env.limited,
            (env.world, x, y, l, tt),
        )
    &&& forall|x: u32, y: u32, l: u8|
        node_ok(x, y, l) ==> #[trigger] call_requires(env.budget, (env.world, x, y, l))
}

/// A node of a transform tree lies in the coordinate range.
pub open spec fn node_ok(x: u32, y: u32, log2_size: u8) -> bool {
    log2_size <= 6 && square_ok(x as int, y as int, log2_size)
}

/// A region with a block's samples written.
pub open spec fn written(
    before: &TrialReconRegion,
    after: &TrialReconRegion,
    t: BlockTask,
    samples: Seq<u16>,
) -> bool {
    &&& after.well_formed()
    &&& after.same_area(before)
    &&& forall|c: int, px: int, py: int| #[trigger]
        after.read(c, px, py) == if c == t.c_idx && t.x <= px < t.x + side(t.log2_size) && t.y <= py
            < t.y + side(t.log2_size) && before.read(c, px, py) is Some {
            Some(samples[(py - t.y) * side(t.log2_size) + (px - t.x)])
        } else {
            before.read(c, px, py)
        }
}

/// Names a region between two blocks.
pub open spec fn midway(r: TrialReconRegion) -> bool {
    true
}

/// Blocks coded one after the other, each on the region that the one before left.
pub open spec fn tasks_coded<W, C>(
    world: &W,
    code: C,
    kind: EvalKind,
    tasks: Seq<BlockTask>,
    before: TrialReconRegion,
    after: TrialReconRegion,
    outs: Seq<BlockOutcome>,
) -> bool where C: Fn(&W, &TrialReconRegion, BlockTask, EvalKind) -> BlockOutcome
    decreases tasks.len(),
{
    &&& outs.len() == tasks.len()
    &&& if tasks.len() == 0 {
        after == before
    } else {
        exists|mid: TrialReconRegion|
            {
                &&& #[trigger] midway(mid)
                &&& tasks_coded(world, code, kind, tasks.drop_last(), before, mid, outs.drop_last())
                &&& call_ensures(code, (world, &mid, tasks.last(), kind), outs.last())
                &&& written(&mid, &after, tasks.last(), outs.last().samples@)
            }
    }
}

pub open spec fn codes_of(outs: Seq<BlockOutcome>) -> Seq<CodedBlock> {
    Seq::new(outs.len(), |i: int| outs[i].coded)
}

pub open spec fn total_distortion(outs: Seq<BlockOutcome>) -> nat
    decreases outs.len(),
{
    if outs.len() == 0 {
        0
    } else {
        total_distortion(outs.drop_last()) + outs.last().distortion as nat
    }
}

/// The work of coding blocks.
pub open spec fn total_work(outs: Seq<BlockOutcome>) -> EncodeStats
    decreases outs.len(),
{
    if outs.len() == 0 {
        EncodeStats::none()
    } else {
        total_work(outs.drop_last()).plus(outs.last().work)
    }
}

/// Blocks as blocks are coded.
pub open spec fn tasks_ok(tasks: Seq<BlockTask>) -> bool {
    forall|i: int| 0 <= i < tasks.len() ==> task_ok(#[trigger] tasks[i])
}

pub open spec fn outs_ok(tasks: Seq<BlockTask>, outs: Seq<BlockOutcome>) -> bool {
    &&& outs.len() == tasks.len()
    &&& forall|i: int| 0 <= i < outs.len() ==> outcome_ok(tasks[i], #[trigger] outs[i])
}

fn code_tasks<W, C, P, L, B>(
    env: &TtEnv<W, C, P, L, B>,
    kind: EvalKind,
    tasks: &Vec<BlockTask>,
    region: TrialReconRegion,
) -> (r: (TrialReconRegion, Vec<BlockOutcome>)) where
    C: Fn(&W, &TrialReconRegion, BlockTask, EvalKind) -> BlockOutcome,
    P: Fn(u64, u64) -> u64,
    L: Fn(&W, u32, u32, u8, &Tt) -> bool,
    B: Fn(&W, u32, u32, u8) -> BlockSearchBudget,

    requires
        env_ok(env),
        region.well_formed(),
        tasks_ok(tasks@),
    ensures
        tasks_coded(env.world, env.code, kind, tasks@, region, r.0, r.1@),
        outs_ok(tasks@, r.1@),
        r.0.well_formed(),
        r.0.same_area(&region),
{
    let ghost start = region;
    let mut region = region;
    let mut outs: Vec<BlockOutcome> = Vec::new();
    let n: usize = tasks.len();
    assert(tasks@.take(0) =~= Seq::empty());
    for i in 0..n
        invariant
            n == tasks@.len(),
            env_ok(env),
            tasks_ok(tasks@),
            region.well_formed(),
            region.same_area(&start),
            tasks_coded(env.world, env.code, kind, tasks@.take(i as int), start, region, outs@),
            outs_ok(tasks@.take(i as int), outs@),
    {
        let t = tasks[i];
        let ghost mid = region;
        let ghost before = outs@;
        let o = (env.code)(env.world, &region, t, kind);
        assert(call_ensures(env.code, (env.world, &mid, t, kind), o));
        region.write_block(t.c_idx, t.x, t.y, t.log2_size, &o.samples);
        proof {
            let all = tasks@.take(i + 1);
            assert(all.drop_last() =~= tasks@.take(i as int));
            assert(all.last() == t);
            assert(before.push(o).drop_last() =~= before);
            assert(midway(mid));
            assert(written(&mid, &region, t, o.samples@));
            assert(tasks_coded(env.world, env.code, kind, all, start, region, before.push(o)));
            assert forall|k: int| 0 <= k < before.push(o).len() implies outcome_ok(
                all[k],
                #[trigger] before.push(o)[k],
            ) by {
                if k < i {
                    assert(before.push(o)[k] == before[k]);
                    assert(all[k] == tasks@.take(i as int)[k]);
                }
            }
        }
        outs.push(o);
    }
    assert(tasks@.take(n as int) =~= tasks@);
    (region, outs)
}

pub proof fn lemma_total_push(outs: Seq<BlockOutcome>, o: BlockOutcome)
    ensures
        total_distortion(outs.push(o)) == total_distortion(outs) + o.distortion,
        total_work(outs.push(o)) == total_work(outs).plus(o.work),
{
    assert(outs.push(o).drop_last() =~= outs);
}

/// Takes the coded blocks out of outcomes, and adds up their distortions and their work.
pub fn split_outcomes(outs: Vec<BlockOutcome>) -> (r: (Vec<CodedBlock>, u64, EncodeStats))
    requires
        outs@.len() <= 8,
        forall|i: int|
            0 <= i < outs@.len() ==> (#[trigger] outs@[i]).distortion <= BLOCK_DISTORTION_MAX,
    ensures
        r.0@ == codes_of(outs@),
        r.1 == total_distortion(outs@),
        r.1 <= 8 * BLOCK_DISTORTION_MAX,
        r.2 == total_work(outs@),
{
    let ghost all = outs@;
    let n: usize = outs.len();
    let mut queue = Queue::new(outs);
    let mut blocks: Vec<CodedBlock> = Vec::new();
    let mut total: u64 = 0;
    let mut work = EncodeStats::default();
    assert(all.skip(0) =~= all);
    assert(all.take(0) =~= Seq::empty());
    for i in 0..n
        invariant
            n == all.len(),
            n <= 8,
            forall|k: int|
                0 <= k < all.len() ==> (#[trigger] all[k]).distortion <= BLOCK_DISTORTION_MAX,
            queue@ == all.skip(i as int),
            blocks@.len() == i,
            forall|k: int| 0 <= k < i ==> #[trigger] blocks@[k] == all[k].coded,
            total == total_distortion(all.take(i as int)),
            total <= i * BLOCK_DISTORTION_MAX,
            work == total_work(all.take(i as int)),
    {
        let o = queue.take();
        proof {
            assert(o == all[i as int]);
            assert(all.take(i + 1) =~= all.take(i as int).push(o));
            lemma_total_push(all.take(i as int), o);
            assert(queue@ =~= all.skip(i + 1));
        }
        total = total + o.distortion;
        work = work.joined(o.work);
        blocks.push(o.coded);
    }
    assert(all.take(n as int) =~= all);
    assert(blocks@ =~= codes_of(all));
    (blocks, total, work)
}

/// A coded tree with its distortion and the region that it leaves.
pub struct TtTrial {
    pub tt: Tt,
    pub distortion: u64,
    pub region: TrialReconRegion,
    /// The costs of the leaf and of the split, where the search of both luma and chroma
    /// compared them.
    pub race: Option<(u64, u64)>,
    /// The work of everything that was tried, whatever won.
    pub work: EncodeStats,
}

/// Names the outcomes of a leaf's blocks.
pub open spec fn leaf_outcomes(outs: Seq<BlockOutcome>) -> bool {
    true
}

/// A leaf was coded from a region.
pub open spec fn leaf_tried<W, C, P, L, B>(
    env: &TtEnv<W, C, P, L, B>,
    kind: EvalKind,
    s: CodeSettings,
    x0: int,
    y0: int,
    log2_size: u8,
    trafo_depth: u8,
    start: TrialReconRegion,
    r: TtTrial,
) -> bool where
    C: Fn(&W, &TrialReconRegion, BlockTask, EvalKind) -> BlockOutcome,
    P: Fn(u64, u64) -> u64,
    L: Fn(&W, u32, u32, u8, &Tt) -> bool,
    B: Fn(&W, u32, u32, u8) -> BlockSearchBudget,
 {
    exists|outs: Seq<BlockOutcome>|
        {
            &&& #[trigger] leaf_outcomes(outs)
            &&& tasks_coded(
                env.world,
                env.code,
                kind,
                leaf_tasks(s, x0, y0, log2_size),
                start,
                r.region,
                outs,
            )
            &&& r.tt matches Tt::Leaf(l)
            &&& leaf_codes(&l, s, x0, y0, log2_size, trafo_depth, codes_of(outs))
            &&& r.distortion == total_distortion(outs)
            &&& r.work == total_work(outs)
            &&& r.race is None
        }
}

/// A tree halves a square of a size: every split has four quadrants, and no leaf is larger
/// than 32x32.
pub open spec fn tt_shaped(tt: &Tt, log2_size: u8) -> bool
    decreases tt,
{
    &&& tt.size() == log2_size
    &&& match tt {
        Tt::Leaf(_) => log2_size <= MAX_TB_LOG2,
        Tt::Split { kids, .. } => {
            &&& log2_size > 0
            &&& kids@.len() == 4
            &&& forall|i: int|
                0 <= i < kids@.len() ==> tt_shaped(&#[trigger] kids@[i], (log2_size - 1) as u8)
        },
    }
}

/// The plan of a shaped tree has all of its quadrants.
pub proof fn lemma_shaped_plan(plan: &TtPlan, tt: &Tt, log2_size: u8)
    requires
        tt_shaped(tt, log2_size),
        tt_plan_of(plan, tt),
        log2_size < 31,
    ensures
        plan_ok(plan),
        plan_full(plan),
        plan_size(plan) == log2_size,
    decreases tt,
{
    match tt {
        Tt::Leaf(_) => {},
        Tt::Split { kids, .. } => {
            match plan {
                TtPlan::Split { kids: pk, .. } => {
                    assert forall|i: int| 0 <= i < pk@.len() implies plan_ok(&#[trigger] pk@[i])
                        && plan_full(&pk@[i]) && plan_size(&pk@[i]) == log2_size - 1 by {
                        assert(tt_plan_of(&pk@[i], &kids@[i]));
                        assert(tt_shaped(&kids@[i], (log2_size - 1) as u8));
                        lemma_shaped_plan(&pk@[i], &kids@[i], (log2_size - 1) as u8);
                    }
                },
                TtPlan::Leaf { .. } => {},
            }
        },
    }
}

/// What holds of every trial: enough to price it.
pub open spec fn trial_ok(r: &TtTrial, log2_size: u8) -> bool {
    &&& r.region.well_formed()
    &&& tt_shaped(&r.tt, log2_size)
    &&& tt_depths_ok(&r.tt)
    &&& tt_small(&r.tt)
    &&& tt_nodes(&r.tt) <= node_cap(log2_size as nat)
    &&& r.distortion <= 8 * node_cap(log2_size as nat) * BLOCK_DISTORTION_MAX
}

proof fn lemma_leaf_tasks_ok(s: CodeSettings, x0: int, y0: int, log2_size: u8)
    requires
        log2_size <= MAX_TB_LOG2,
        square_ok(x0, y0, log2_size),
    ensures
        tasks_ok(leaf_tasks(s, x0, y0, log2_size)),
        tasks_ok(chroma_tasks(s, x0, y0, log2_size)),
        leaf_tasks(s, x0, y0, log2_size).len() <= 5,
        chroma_tasks(s, x0, y0, log2_size).len() <= 4,
{
    if log2_size > 0 {
        lemma_half_side(log2_size);
    }
    vstd::arithmetic::power2::lemma_pow2_pos(log2_size as nat);
    let c = chroma_tasks(s, x0, y0, log2_size);
    assert forall|i: int| 0 <= i < c.len() implies task_ok(#[trigger] c[i]) by {
        assert(i == 0 || i == 1 || i == 2 || i == 3);
    }
    let all = leaf_tasks(s, x0, y0, log2_size);
    assert forall|i: int| 0 <= i < all.len() implies task_ok(#[trigger] all[i]) by {
        if i > 0 {
            assert(all[i] == c[i - 1]);
        }
    }
}

pub proof fn lemma_node_cap(log2_size: u8)
    requires
        log2_size <= 6,
    ensures
        1 <= node_cap(log2_size as nat) <= 5461,
{
    reveal_with_fuel(node_cap, 8);
}

/// Codes a leaf on a region.
pub fn try_leaf<W, C, P, L, B>(
    env: &TtEnv<W, C, P, L, B>,
    kind: EvalKind,
    s: CodeSettings,
    x0: u32,
    y0: u32,
    log2_size: u8,
    trafo_depth: u8,
    region: TrialReconRegion,
) -> (r: TtTrial) where
    C: Fn(&W, &TrialReconRegion, BlockTask, EvalKind) -> BlockOutcome,
    P: Fn(u64, u64) -> u64,
    L: Fn(&W, u32, u32, u8, &Tt) -> bool,
    B: Fn(&W, u32, u32, u8) -> BlockSearchBudget,

    requires
        env_ok(env),
        log2_size <= MAX_TB_LOG2,
        trafo_depth < 5,
        square_ok(x0 as int, y0 as int, log2_size),
        region.well_formed(),
    ensures
        leaf_tried(env, kind, s, x0 as int, y0 as int, log2_size, trafo_depth, region, r),
        trial_ok(&r, log2_size),
{
    let mut tasks: Vec<BlockTask> = Vec::new();
    push_leaf_tasks(&mut tasks, s, x0, y0, log2_size);
    proof {
        lemma_leaf_tasks_ok(s, x0 as int, y0 as int, log2_size);
        lemma_node_cap(log2_size);
        assert(tasks@ =~= leaf_tasks(s, x0 as int, y0 as int, log2_size));
    }
    let (after, outs) = code_tasks(env, kind, &tasks, region);
    let ghost all = outs@;
    proof {
        assert forall|i: int| 0 <= i < all.len() implies (#[trigger] all[i]).distortion
            <= BLOCK_DISTORTION_MAX by {
            assert(outcome_ok(tasks@[i], all[i]));
        }
    }
    let (blocks, distortion, work) = split_outcomes(outs);
    let mut queue = Queue::new(blocks);
    let l = take_leaf(s, x0, y0, log2_size, trafo_depth, &mut queue);
    proof {
        assert(leaf_outcomes(all));
        assert(outcome_ok(tasks@[0], all[0]));
        assert forall|i: int| 0 <= i < all.len() implies block_small(&codes_of(all)[i]) by {
            assert(outcome_ok(tasks@[i], all[i]));
        }
    }
    TtTrial { tt: Tt::Leaf(l), distortion, region: after, race: None, work }
}

/// The region that the first `n` children leave.
pub open spec fn region_after(
    start: TrialReconRegion,
    done: Seq<TtTrial>,
    n: int,
) -> TrialReconRegion {
    if n <= 0 {
        start
    } else {
        done[n - 1].region
    }
}

pub open spec fn kids_distortion(done: Seq<TtTrial>, n: nat) -> nat
    decreases n,
{
    if n == 0 {
        0
    } else {
        kids_distortion(done, (n - 1) as nat) + done[n - 1].distortion as nat
    }
}

/// The work of trying the first `n` children.
pub open spec fn kids_work(done: Seq<TtTrial>, n: nat) -> EncodeStats
    decreases n,
{
    if n == 0 {
        EncodeStats::none()
    } else {
        kids_work(done, (n - 1) as nat).plus(done[n - 1].work)
    }
}

/// Names the trials of a node's children and the outcomes of its own chroma.
pub open spec fn split_parts(done: Seq<TtTrial>, outs: Seq<BlockOutcome>) -> bool {
    true
}

/// The trees of trials.
pub open spec fn trees_of(done: Seq<TtTrial>) -> Seq<Tt> {
    Seq::new(done.len(), |i: int| done[i].tt)
}

/// A split was coded from a region: its four children in order, each on the region that
/// the one before left, then the node's own chroma.
pub open spec fn split_tried<W, C, P, L, B>(
    env: &TtEnv<W, C, P, L, B>,
    ctxs: Seq<int>,
    s: CodeSettings,
    x0: int,
    y0: int,
    log2_size: u8,
    trafo_depth: int,
    start: TrialReconRegion,
    r: TtTrial,
) -> bool where
    C: Fn(&W, &TrialReconRegion, BlockTask, EvalKind) -> BlockOutcome,
    P: Fn(u64, u64) -> u64,
    L: Fn(&W, u32, u32, u8, &Tt) -> bool,
    B: Fn(&W, u32, u32, u8) -> BlockSearchBudget,

    decreases log2_size, 1nat, 0nat,
{
    exists|done: Seq<TtTrial>, outs: Seq<BlockOutcome>|
        {
            &&& #[trigger] split_parts(done, outs)
            &&& done.len() == 4
            &&& kids_tried(env, ctxs, s, x0, y0, log2_size, trafo_depth, start, done, 4)
            &&& tasks_coded(
                env.world,
                env.code,
                EvalKind::CheapTrial,
                parent_tasks(s, x0, y0, log2_size, Some(2u8)),
                region_after(start, done, 4),
                r.region,
                outs,
            )
            &&& r.tt matches Tt::Split { kids, parent_chroma, .. }
            &&& r.tt.size() == log2_size
            &&& r.tt.depth() == trafo_depth
            &&& split_flags_ok(&r.tt)
            &&& kids@ == trees_of(done)
            &&& parent_codes(&parent_chroma, s, log2_size, Some(2u8), codes_of(outs))
            &&& r.distortion == kids_distortion(done, 4) + total_distortion(outs)
            &&& r.work == kids_work(done, 4).plus(total_work(outs))
            &&& r.race is None
        }
}

/// The first `n` children were searched in order.
pub open spec fn kids_tried<W, C, P, L, B>(
    env: &TtEnv<W, C, P, L, B>,
    ctxs: Seq<int>,
    s: CodeSettings,
    x0: int,
    y0: int,
    log2_size: u8,
    trafo_depth: int,
    start: TrialReconRegion,
    done: Seq<TtTrial>,
    n: nat,
) -> bool where
    C: Fn(&W, &TrialReconRegion, BlockTask, EvalKind) -> BlockOutcome,
    P: Fn(u64, u64) -> u64,
    L: Fn(&W, u32, u32, u8, &Tt) -> bool,
    B: Fn(&W, u32, u32, u8) -> BlockSearchBudget,

    decreases log2_size, 0nat, n,
{
    n == 0 || (log2_size > 0 && kids_tried(
        env,
        ctxs,
        s,
        x0,
        y0,
        log2_size,
        trafo_depth,
        start,
        done,
        (n - 1) as nat,
    ) && tt_tried(
        env,
        ctxs,
        s,
        quadrant(x0, y0, side(log2_size) / 2, n - 1).0,
        quadrant(x0, y0, side(log2_size) / 2, n - 1).1,
        (log2_size - 1) as u8,
        trafo_depth + 1,
        region_after(start, done, n - 1),
        done[n - 1],
    ))
}

/// The price of a trial: a key of its distortion and of what its syntax costs.
pub open spec fn priced<W, C, P, L, B>(
    env: &TtEnv<W, C, P, L, B>,
    ctxs: Seq<int>,
    cat: u8,
    t: TtTrial,
    cost: u64,
) -> bool where P: Fn(u64, u64) -> u64 {
    call_ensures(
        env.price,
        (t.distortion, items_cost(ctxs, tt_items(&t.tt, cat, false, true, true)) as u64),
        cost,
    )
}

/// The cheaper of two trials, the leaf where both cost the same, with both costs and the
/// work of both.
pub open spec fn raced(leaf: TtTrial, split: TtTrial, leaf_cost: u64, split_cost: u64) -> TtTrial {
    TtTrial {
        race: Some((leaf_cost, split_cost)),
        work: leaf.work.plus(split.work),
        ..if split_cost < leaf_cost {
            split
        } else {
            leaf
        }
    }
}

/// Names the two trials of a comparison and their prices.
pub open spec fn two_trials(leaf_cost: u64, split_cost: u64, split: TtTrial) -> bool {
    true
}

/// A split was tried against a leaf, and the cheaper kept: the leaf where both cost the
/// same.
pub open spec fn compared<W, C, P, L, B>(
    env: &TtEnv<W, C, P, L, B>,
    ctxs: Seq<int>,
    s: CodeSettings,
    x0: int,
    y0: int,
    log2_size: u8,
    trafo_depth: int,
    split_start: TrialReconRegion,
    leaf: TtTrial,
    r: TtTrial,
) -> bool where
    C: Fn(&W, &TrialReconRegion, BlockTask, EvalKind) -> BlockOutcome,
    P: Fn(u64, u64) -> u64,
    L: Fn(&W, u32, u32, u8, &Tt) -> bool,
    B: Fn(&W, u32, u32, u8) -> BlockSearchBudget,

    decreases log2_size, 2nat, 0nat,
{
    exists|leaf_cost: u64, split_cost: u64, split: TtTrial|
        {
            &&& #[trigger] two_trials(leaf_cost, split_cost, split)
            &&& split_tried(
                env,
                ctxs,
                s,
                x0,
                y0,
                log2_size,
                trafo_depth,
                split_start,
                split,
            )
            &&& priced(env, ctxs, s.cat, leaf, leaf_cost)
            &&& priced(env, ctxs, s.cat, split, split_cost)
            &&& r == raced(leaf, split, leaf_cost, split_cost)
        }
}

/// Names what a search knew when it judged a leaf.
pub open spec fn leaf_known(leaf: TtTrial, fork: TrialReconRegion, limited: bool) -> bool {
    true
}

/// A node was searched from a region.
pub open spec fn tt_tried<W, C, P, L, B>(
    env: &TtEnv<W, C, P, L, B>,
    ctxs: Seq<int>,
    s: CodeSettings,
    x0: int,
    y0: int,
    log2_size: u8,
    trafo_depth: int,
    start: TrialReconRegion,
    r: TtTrial,
) -> bool where
    C: Fn(&W, &TrialReconRegion, BlockTask, EvalKind) -> BlockOutcome,
    P: Fn(u64, u64) -> u64,
    L: Fn(&W, u32, u32, u8, &Tt) -> bool,
    B: Fn(&W, u32, u32, u8) -> BlockSearchBudget,

    decreases log2_size, 3nat, 0nat,
{
    exists|b: BlockSearchBudget|
        {
            &&& #[trigger] call_ensures(env.budget, (env.world, x0 as u32, y0 as u32, log2_size), b)
            &&& match tt_order(s.cat, log2_size, trafo_depth as u8, b.tu_split) {
                SplitOrder::LeafOnly => leaf_tried(
                    env,
                    EvalKind::CheapTrial,
                    s,
                    x0,
                    y0,
                    log2_size,
                    trafo_depth as u8,
                    start,
                    r,
                ),
                SplitOrder::SplitOnly => split_tried(
                    env,
                    ctxs,
                    s,
                    x0,
                    y0,
                    log2_size,
                    trafo_depth,
                    start,
                    r,
                ),
                SplitOrder::LeafFirst => exists|
                    leaf: TtTrial,
                    fork: TrialReconRegion,
                    limited: bool,
                |
                    {
                        &&& #[trigger] leaf_known(leaf, fork, limited)
                        &&& fork.same(&start)
                        &&& leaf_tried(
                            env,
                            EvalKind::CheapTrial,
                            s,
                            x0,
                            y0,
                            log2_size,
                            trafo_depth as u8,
                            fork,
                            leaf,
                        )
                        &&& if zero_residual(&leaf.tt) && b.zero_residual_tu_early_terminate {
                            r == leaf
                        } else {
                            &&& call_ensures(
                                env.limited,
                                (env.world, x0 as u32, y0 as u32, log2_size, &leaf.tt),
                                limited,
                            )
                            &&& if limited {
                                r == leaf
                            } else {
                                compared(
                                    env,
                                    ctxs,
                                    s,
                                    x0,
                                    y0,
                                    log2_size,
                                    trafo_depth,
                                    start,
                                    leaf,
                                    r,
                                )
                            }
                        }
                    },
                SplitOrder::SplitFirst => exists|
                    leaf: TtTrial,
                    fork: TrialReconRegion,
                    limited: bool,
                |
                    {
                        &&& #[trigger] leaf_known(leaf, fork, limited)
                        &&& fork.same(&start)
                        &&& leaf_tried(
                            env,
                            EvalKind::CheapTrial,
                            s,
                            x0,
                            y0,
                            log2_size,
                            trafo_depth as u8,
                            start,
                            leaf,
                        )
                        &&& compared(
                            env,
                            ctxs,
                            s,
                            x0,
                            y0,
                            log2_size,
                            trafo_depth,
                            fork,
                            leaf,
                            r,
                        )
                    },
            }
        }
}

/// A leaf without luma residual.
pub open spec fn zero_residual(tt: &Tt) -> bool {
    tt matches Tt::Leaf(l) && !l.luma.cbf
}

/// A depth that a node of a size can have.
pub open spec fn depth_ok(log2_size: u8, trafo_depth: u8) -> bool {
    &&& log2_size <= 6
    &&& trafo_depth <= if log2_size == 6 {
        2int
    } else {
        3
    }
}

pub proof fn lemma_kids_nodes_push(kids: Seq<Tt>, kid: Tt, n: nat)
    requires
        n <= kids.len(),
    ensures
        kids_nodes(kids.push(kid), n) == kids_nodes(kids, n),
    decreases n,
{
    if n > 0 {
        lemma_kids_nodes_push(kids, kid, (n - 1) as nat);
        assert(kids.push(kid)[n - 1] == kids[n - 1]);
    }
}

proof fn lemma_kids_tried_push<W, C, P, L, B>(
    env: &TtEnv<W, C, P, L, B>,
    ctxs: Seq<int>,
    s: CodeSettings,
    x0: int,
    y0: int,
    log2_size: u8,
    trafo_depth: int,
    start: TrialReconRegion,
    done: Seq<TtTrial>,
    next: TtTrial,
    n: nat,
) where
    C: Fn(&W, &TrialReconRegion, BlockTask, EvalKind) -> BlockOutcome,
    P: Fn(u64, u64) -> u64,
    L: Fn(&W, u32, u32, u8, &Tt) -> bool,
    B: Fn(&W, u32, u32, u8) -> BlockSearchBudget,

    requires
        n <= done.len(),
        kids_tried(env, ctxs, s, x0, y0, log2_size, trafo_depth, start, done, n),
    ensures
        kids_tried(env, ctxs, s, x0, y0, log2_size, trafo_depth, start, done.push(next), n),
        kids_distortion(done.push(next), n) == kids_distortion(done, n),
        kids_work(done.push(next), n) == kids_work(done, n),
    decreases n,
{
    if n > 0 {
        lemma_kids_tried_push(
            env,
            ctxs,
            s,
            x0,
            y0,
            log2_size,
            trafo_depth,
            start,
            done,
            next,
            (n - 1) as nat,
        );
        assert(done.push(next)[n - 1] == done[n - 1]);
        if n > 1 {
            assert(done.push(next)[n - 2] == done[n - 2]);
        }
    }
}

/// Codes a split on a region, searching its children.
fn try_split<W, C, P, L, B>(
    env: &TtEnv<W, C, P, L, B>,
    ctxs: &Contexts,
    s: CodeSettings,
    x0: u32,
    y0: u32,
    log2_size: u8,
    trafo_depth: u8,
    region: TrialReconRegion,
) -> (r: TtTrial) where
    C: Fn(&W, &TrialReconRegion, BlockTask, EvalKind) -> BlockOutcome,
    P: Fn(u64, u64) -> u64,
    L: Fn(&W, u32, u32, u8, &Tt) -> bool,
    B: Fn(&W, u32, u32, u8) -> BlockSearchBudget,

    requires
        env_ok(env),
        ctxs.well_formed(),
        log2_size > 2,
        depth_ok(log2_size, trafo_depth),
        trafo_depth < 3,
        square_ok(x0 as int, y0 as int, log2_size),
        region.well_formed(),
    ensures
        split_tried(
            env,
            ctxs@,
            s,
            x0 as int,
            y0 as int,
            log2_size,
            trafo_depth as int,
            region,
            r,
        ),
        trial_ok(&r, log2_size),
    decreases log2_size, 0nat,
{
    let half: u32 = block_side(log2_size) / 2;
    let ghost h = side(log2_size) / 2;
    let ghost (xi, yi) = (x0 as int, y0 as int);
    let ghost start = region;
    let ghost mut done: Seq<TtTrial> = Seq::empty();
    let ghost cap = node_cap((log2_size - 1) as nat);
    let ghost unit = 8 * cap * BLOCK_DISTORTION_MAX;
    let mut region = region;
    let mut kids: Vec<Tt> = Vec::new();
    let mut distortion: u64 = 0;
    let mut work = EncodeStats::default();
    proof {
        lemma_node_cap(log2_size);
        lemma_node_cap((log2_size - 1) as u8);
    }
    for i in 0..4usize
        invariant
            env_ok(env),
            ctxs.well_formed(),
            2 < log2_size,
            depth_ok(log2_size, trafo_depth),
            trafo_depth < 3,
            square_ok(xi, yi, log2_size),
            xi == x0,
            yi == y0,
            half == h,
            h == side(log2_size) / 2,
            cap == node_cap((log2_size - 1) as nat),
            cap <= 5461,
            region.well_formed(),
            done.len() == i,
            region == region_after(start, done, i as int),
            kids_tried(
                env,
                ctxs@,
                s,
                xi,
                yi,
                log2_size,
                trafo_depth as int,
                start,
                done,
                i as nat,
            ),
            kids@ == trees_of(done),
            distortion == kids_distortion(done, i as nat),
            work == kids_work(done, i as nat),
            unit == 8 * cap * BLOCK_DISTORTION_MAX,
            distortion <= i * unit,
            kids_nodes(kids@, i as nat) <= i * cap,
            forall|k: int|
                0 <= k < i ==> tt_depths_ok(&#[trigger] kids@[k]) && tt_small(&kids@[k])
                    && tt_shaped(&kids@[k], (log2_size - 1) as u8),
    {
        proof {
            lemma_quadrant_ok(xi, yi, log2_size, i as int);
            assert(i * unit + unit == (i + 1) * unit && (i + 1) * unit <= 4 * unit)
                by (nonlinear_arith)
                requires
                    0 <= i < 4,
                    unit >= 0,
            ;
            assert(i * cap + cap == (i + 1) * cap) by (nonlinear_arith);
        }
        let kx: u32 = if i % 2 == 1 {
            x0 + half
        } else {
            x0
        };
        let ky: u32 = if i / 2 == 1 {
            y0 + half
        } else {
            y0
        };
        assert((kx as int, ky as int) == quadrant(xi, yi, h, i as int)) by {
            assert(0 * h == 0 && 1 * h == h);
        }
        let kid = search_tt(env, ctxs, s, kx, ky, log2_size - 1, trafo_depth + 1, region);
        let ghost before = kids@;
        proof {
            let next = done.push(kid);
            lemma_kids_tried_push(
                env,
                ctxs@,
                s,
                xi,
                yi,
                log2_size,
                trafo_depth as int,
                start,
                done,
                kid,
                i as nat,
            );
            assert(next[i as int] == kid);
            assert(region_after(start, next, i as int) == region) by {
                if i > 0 {
                    assert(next[i - 1] == done[i - 1]);
                }
            }
            assert(kids_tried(
                env,
                ctxs@,
                s,
                xi,
                yi,
                log2_size,
                trafo_depth as int,
                start,
                next,
                (i + 1) as nat,
            ));
            lemma_kids_nodes_push(before, kid.tt, i as nat);
            assert(before.push(kid.tt)[i as int] == kid.tt);
            assert(trees_of(next) =~= before.push(kid.tt));
            done = next;
        }
        distortion = distortion + kid.distortion;
        work = work.joined(kid.work);
        kids.push(kid.tt);
        region = kid.region;
        proof {
            assert forall|k: int| 0 <= k < i + 1 implies tt_depths_ok(&#[trigger] kids@[k])
                && tt_small(&kids@[k]) && tt_shaped(&kids@[k], (log2_size - 1) as u8) by {
                if k < i {
                    assert(kids@[k] == before[k]);
                }
            }
        }
    }
    let mut tasks: Vec<BlockTask> = Vec::new();
    if s.cat == 1 && log2_size == 3 {
        push_chroma_tasks(&mut tasks, s, x0, y0, log2_size);
    }
    proof {
        if log2_size == 3 {
            lemma_leaf_tasks_ok(s, xi, yi, log2_size);
        }
        assert(tasks@ =~= parent_tasks(s, xi, yi, log2_size, Some(2u8)));
    }
    let (after, outs) = code_tasks(env, EvalKind::CheapTrial, &tasks, region);
    let ghost all = outs@;
    proof {
        assert forall|i: int| 0 <= i < all.len() implies (#[trigger] all[i]).distortion
            <= BLOCK_DISTORTION_MAX by {
            assert(outcome_ok(tasks@[i], all[i]));
        }
        assert forall|i: int| 0 <= i < all.len() implies block_small(&codes_of(all)[i]) by {
            assert(outcome_ok(tasks@[i], all[i]));
        }
    }
    let (blocks, own, own_work) = split_outcomes(outs);
    let work = work.joined(own_work);
    let mut queue = Queue::new(blocks);
    let pc: Option<ParentChromaTu> = if s.cat == 1 && log2_size == 3 {
        let cb = queue.take();
        let cr = queue.take();
        Some(
            ParentChromaTu { log2_size: log2_size - 1, chroma_mode: s.chroma_mode, cb, cr },
        )
    } else {
        None
    };
    let ghost kept = kids@;
    let tt = split_node(log2_size, trafo_depth, pc, kids);
    proof {
        let most = BLOCK_DISTORTION_MAX as int;
        assert(unit <= 8 * 5461 * most) by (nonlinear_arith)
            requires
                unit == 8 * cap * most,
                cap <= 5461,
                most >= 0,
        ;
        assert(8 * (1 + 4 * cap) * most == 8 * most + 4 * unit) by (nonlinear_arith)
            requires
                unit == 8 * cap * most,
        ;
    }
    let r = TtTrial { tt, distortion: distortion + own, region: after, race: None, work };
    proof {
        assert(split_parts(done, all));
        assert(r.tt->kids@ == kept);
        assert(tt_nodes(&r.tt) == 1 + kids_nodes(kept, 4));
        assert(node_cap(log2_size as nat) == 1 + 4 * cap);
    }
    r
}

/// Searches a node from a region: the leaf, the split, or the cheaper of both. The
/// region that is left is the winner's.
pub fn search_tt<W, C, P, L, B>(
    env: &TtEnv<W, C, P, L, B>,
    ctxs: &Contexts,
    s: CodeSettings,
    x0: u32,
    y0: u32,
    log2_size: u8,
    trafo_depth: u8,
    region: TrialReconRegion,
) -> (r: TtTrial) where
    C: Fn(&W, &TrialReconRegion, BlockTask, EvalKind) -> BlockOutcome,
    P: Fn(u64, u64) -> u64,
    L: Fn(&W, u32, u32, u8, &Tt) -> bool,
    B: Fn(&W, u32, u32, u8) -> BlockSearchBudget,

    requires
        env_ok(env),
        ctxs.well_formed(),
        depth_ok(log2_size, trafo_depth),
        square_ok(x0 as int, y0 as int, log2_size),
        region.well_formed(),
    ensures
        tt_tried(
            env,
            ctxs@,
            s,
            x0 as int,
            y0 as int,
            log2_size,
            trafo_depth as int,
            region,
            r,
        ),
        trial_ok(&r, log2_size),
    decreases log2_size, 1nat,
{
    let ghost start = region;
    let b = (env.budget)(env.world, x0, y0, log2_size);
    assert(call_ensures(env.budget, (env.world, x0, y0, log2_size), b));
    match tt_split_order(s.cat, log2_size, trafo_depth, &b) {
        SplitOrder::LeafOnly => try_leaf(env, EvalKind::CheapTrial, s, x0, y0, log2_size, trafo_depth, region),
        SplitOrder::SplitOnly => try_split(
            env,
            ctxs,
            s,
            x0,
            y0,
            log2_size,
            trafo_depth,
            region,
        ),
        SplitOrder::LeafFirst => {
            let fork = region.fork();
            let ghost gf = fork;
            let leaf = try_leaf(env, EvalKind::CheapTrial, s, x0, y0, log2_size, trafo_depth, fork);
            if tu_split_early_terminate(&leaf.tt, &b) {
                assert(leaf_known(leaf, gf, false));
                return leaf;
            }
            let limited: bool = (env.limited)(env.world, x0, y0, log2_size, &leaf.tt);
            assert(leaf_known(leaf, gf, limited));
            if limited {
                return leaf;
            }
            let split = try_split(env, ctxs, s, x0, y0, log2_size, trafo_depth, region);
            keep_cheaper(env, ctxs, s.cat, log2_size, leaf, split)
        },
        SplitOrder::SplitFirst => {
            let fork = region.fork();
            let ghost gf = fork;
            let split = try_split(env, ctxs, s, x0, y0, log2_size, trafo_depth, fork);
            let leaf = try_leaf(env, EvalKind::CheapTrial, s, x0, y0, log2_size, trafo_depth, region);
            assert(leaf_known(leaf, gf, false));
            keep_cheaper(env, ctxs, s.cat, log2_size, leaf, split)
        },
    }
}

/// Prices two trials and keeps the cheaper, the leaf where both cost the same.
fn keep_cheaper<W, C, P, L, B>(
    env: &TtEnv<W, C, P, L, B>,
    ctxs: &Contexts,
    cat: u8,
    log2_size: u8,
    leaf: TtTrial,
    split: TtTrial,
) -> (r: TtTrial) where
    C: Fn(&W, &TrialReconRegion, BlockTask, EvalKind) -> BlockOutcome,
    P: Fn(u64, u64) -> u64,
    L: Fn(&W, u32, u32, u8, &Tt) -> bool,
    B: Fn(&W, u32, u32, u8) -> BlockSearchBudget,

    requires
        env_ok(env),
        ctxs.well_formed(),
        log2_size <= 6,
        trial_ok(&leaf, log2_size),
        trial_ok(&split, log2_size),
    ensures
        exists|leaf_cost: u64, split_cost: u64|
            {
                &&& #[trigger] two_trials(leaf_cost, split_cost, split)
                &&& priced(env, ctxs@, cat, leaf, leaf_cost)
                &&& priced(env, ctxs@, cat, split, split_cost)
                &&& r == raced(leaf, split, leaf_cost, split_cost)
            },
{
    proof {
        lemma_node_cap(log2_size);
        lemma_tt_cost_bound(ctxs@, &leaf.tt, cat, false, true, true);
        lemma_tt_cost_bound(ctxs@, &split.tt, cat, false, true, true);
    }
    let leaf_bits: u64 = tt_bits_full(ctxs, &leaf.tt, cat);
    let leaf_cost: u64 = (env.price)(leaf.distortion, leaf_bits);
    let split_bits: u64 = tt_bits_full(ctxs, &split.tt, cat);
    let split_cost: u64 = (env.price)(split.distortion, split_bits);
    assert(two_trials(leaf_cost, split_cost, split));
    assert(priced(env, ctxs@, cat, leaf, leaf_cost));
    assert(priced(env, ctxs@, cat, split, split_cost));
    let work = leaf.work.joined(split.work);
    let mut kept = if split_cost < leaf_cost {
        split
    } else {
        leaf
    };
    kept.work = work;
    kept.race = Some((leaf_cost, split_cost));
    kept
}

/// A decision on a transform tree: what was coded, its plan, its price, and how sure the
/// decision was.
pub struct TtDecision {
    pub trial: TtTrial,
    pub plan: TtPlan,
    pub cost: RdCost,
    pub confidence: DecisionConfidence,
}

/// A transform tree was decided on. The decision is close where leaf and split were
/// compared at its root and their costs, the lower first, are close.
pub open spec fn tt_decided<W, C, P, L, B, K>(
    env: &TtEnv<W, C, P, L, B>,
    close: K,
    ctxs: Seq<int>,
    s: CodeSettings,
    x0: u32,
    y0: u32,
    log2_size: u8,
    trafo_depth: u8,
    start: TrialReconRegion,
    d: TtDecision,
) -> bool where
    C: Fn(&W, &TrialReconRegion, BlockTask, EvalKind) -> BlockOutcome,
    P: Fn(u64, u64) -> u64,
    L: Fn(&W, u32, u32, u8, &Tt) -> bool,
    B: Fn(&W, u32, u32, u8) -> BlockSearchBudget,
    K: Fn(&W, Place, u64, u64) -> bool,
 {
    let bits = items_cost(ctxs, tt_items(&d.trial.tt, s.cat, false, true, true));
    let at = Place { x: x0, y: y0, log2_size };
    &&& tt_tried(
        env,
        ctxs,
        s,
        x0 as int,
        y0 as int,
        log2_size,
        trafo_depth as int,
        start,
        d.trial,
    )
    &&& tt_plan_of(&d.plan, &d.trial.tt)
    &&& d.cost.distortion == d.trial.distortion
    &&& d.cost.frac_bits == bits
    &&& call_ensures(env.price, (d.cost.distortion, d.cost.frac_bits), d.cost.cost)
    &&& match d.trial.race {
        None => d.confidence == DecisionConfidence::Clear,
        Some((a, b)) => call_ensures(
            close,
            (env.world, at, min_int(a as int, b as int) as u64, max_int(a as int, b as int) as u64),
            d.confidence == DecisionConfidence::Close,
        ),
    }
}

/// Decides on a transform tree from a region.
pub fn decide_tt<W, C, P, L, B, K>(
    env: &TtEnv<W, C, P, L, B>,
    close: &K,
    ctxs: &Contexts,
    s: CodeSettings,
    x0: u32,
    y0: u32,
    log2_size: u8,
    trafo_depth: u8,
    region: TrialReconRegion,
) -> (d: TtDecision) where
    C: Fn(&W, &TrialReconRegion, BlockTask, EvalKind) -> BlockOutcome,
    P: Fn(u64, u64) -> u64,
    L: Fn(&W, u32, u32, u8, &Tt) -> bool,
    B: Fn(&W, u32, u32, u8) -> BlockSearchBudget,
    K: Fn(&W, Place, u64, u64) -> bool,

    requires
        env_ok(env),
        forall|a: u64, b: u64| #[trigger]
            call_requires(*close, (env.world, Place { x: x0, y: y0, log2_size }, a, b)),
        ctxs.well_formed(),
        depth_ok(log2_size, trafo_depth),
        square_ok(x0 as int, y0 as int, log2_size),
        region.well_formed(),
    ensures
        tt_decided(env, *close, ctxs@, s, x0, y0, log2_size, trafo_depth, region, d),
        trial_ok(&d.trial, log2_size),
{
    let trial = search_tt(env, ctxs, s, x0, y0, log2_size, trafo_depth, region);
    proof {
        lemma_node_cap(log2_size);
        lemma_tt_cost_bound(ctxs@, &trial.tt, s.cat, false, true, true);
    }
    let plan = tt_to_plan(&trial.tt);
    let frac_bits: u64 = tt_bits_full(ctxs, &trial.tt, s.cat);
    let cost: u64 = (env.price)(trial.distortion, frac_bits);
    let near: bool = match trial.race {
        Some((a, b)) => {
            let at = Place { x: x0, y: y0, log2_size };
            if a <= b {
                (*close)(env.world, at, a, b)
            } else {
                (*close)(env.world, at, b, a)
            }
        },
        None => false,
    };
    let confidence = decision_confidence(trial.race.is_some(), near);
    let cost = RdCost { distortion: trial.distortion, frac_bits, cost };
    TtDecision { trial, plan, cost, confidence }
}

/// A transform node is split only where its size forces or its place allows it, and is
/// never a leaf where it is too large.
pub proof fn law_split_where_allowed(
    cat: u8,
    log2_size: u8,
    trafo_depth: u8,
    tu_split: SplitSearch,
)
    ensures
        ({
            let o = tt_order(cat, log2_size, trafo_depth, tu_split);
            &&& o != SplitOrder::LeafOnly ==> log2_size > MAX_TB_LOG2 || spec_can_split_tt(
                cat,
                log2_size,
                trafo_depth,
            )
            &&& o != SplitOrder::SplitOnly ==> log2_size <= MAX_TB_LOG2
        }),
{
}

} // verus!
