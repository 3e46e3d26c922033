//! The staged search of a luma transform tree.
//!
//! A leaf is tried cheaply against the split; where their costs are close, the leaf is
//! tried again exactly before one of them is kept.

use vstd::prelude::*;

use crate::budget::BlockSearchBudget;
use crate::contexts::Contexts;
use crate::cost_bound::{
    kids_nodes, lemma_tt_cost_bound, node_cap, tt_nodes, tt_small,
};
use crate::final_code::{lemma_quadrant_ok, quadrant, square_ok, BlockTask, CodeSettings};
use crate::geometry::{block_side, side};
use crate::items::tt_depths_ok;
use crate::policy::EvalKind;
use crate::stats::EncodeStats;
use crate::syntax::{split_flags_ok, split_node, Tt};
use crate::trial_region::TrialReconRegion;
use crate::tu_search::{
    depth_ok, env_ok, kids_distortion, kids_work, leaf_tried, lemma_kids_nodes_push, lemma_node_cap, priced,
    region_after, trees_of, trial_ok, try_leaf, tt_bits_full, tt_order, tt_shaped, tt_split_order,
    tu_split_early_terminate, zero_residual, BlockOutcome, SplitOrder, TtEnv, TtTrial,
    BLOCK_DISTORTION_MAX,
};

verus! {

/// Names the trials of a node's children.
pub open spec fn luma_parts(done: Seq<TtTrial>) -> bool {
    true
}

/// A luma split was coded from a region: its four children in order, each on the region
/// that the one before left.
pub open spec fn luma_split_tried<W, C, P, L, B, K>(
    env: &TtEnv<W, C, P, L, B>,
    close: K,
    ctxs: Seq<int>,
    cat: u8,
    s: CodeSettings,
    x0: int,
    y0: int,
    log2_size: u8,
    trafo_depth: int,
    start: TrialReconRegion,
    r: TtTrial,
) -> bool where
    C: Fn(&W, &TrialReconRegion, BlockTask, EvalKind) -> BlockOutcome,
    P: Fn(u64, u64) -> u64,
    L: Fn(&W, u32, u32, u8, &Tt) -> bool,
    B: Fn(&W, u32, u32, u8) -> BlockSearchBudget,
    K: Fn(u64, u64, u32) -> bool,

    decreases log2_size, 1nat, 0nat,
{
    exists|done: Seq<TtTrial>|
        {
            &&& #[trigger] luma_parts(done)
            &&& done.len() == 4
            &&& luma_kids_tried(
                env,
                close,
                ctxs,
                cat,
                s,
                x0,
                y0,
                log2_size,
                trafo_depth,
                start,
                done,
                4,
            )
            &&& r.region == region_after(start, done, 4)
            &&& r.tt matches Tt::Split { kids, parent_chroma, .. }
            &&& r.tt.size() == log2_size
            &&& r.tt.depth() == trafo_depth
            &&& split_flags_ok(&r.tt)
            &&& kids@ == trees_of(done)
            &&& parent_chroma is None
            &&& r.distortion == kids_distortion(done, 4)
            &&& r.work == kids_work(done, 4)
        }
}

/// The first `n` children were searched in order.
pub open spec fn luma_kids_tried<W, C, P, L, B, K>(
    env: &TtEnv<W, C, P, L, B>,
    close: K,
    ctxs: Seq<int>,
    cat: u8,
    s: CodeSettings,
    x0: int,
    y0: int,
    log2_size: u8,
    trafo_depth: int,
    start: TrialReconRegion,
    done: Seq<TtTrial>,
    n: nat,
) -> bool where
    C: Fn(&W, &TrialReconRegion, BlockTask, EvalKind) -> BlockOutcome,
    P: Fn(u64, u64) -> u64,
    L: Fn(&W, u32, u32, u8, &Tt) -> bool,
    B: Fn(&W, u32, u32, u8) -> BlockSearchBudget,
    K: Fn(u64, u64, u32) -> bool,

    decreases log2_size, 0nat, n,
{
    n == 0 || (log2_size > 0 && luma_kids_tried(
        env,
        close,
        ctxs,
        cat,
        s,
        x0,
        y0,
        log2_size,
        trafo_depth,
        start,
        done,
        (n - 1) as nat,
    ) && luma_tried(
        env,
        close,
        ctxs,
        cat,
        s,
        quadrant(x0, y0, side(log2_size) / 2, n - 1).0,
        quadrant(x0, y0, side(log2_size) / 2, n - 1).1,
        (log2_size - 1) as u8,
        trafo_depth + 1,
        region_after(start, done, n - 1),
        done[n - 1],
    ))
}

/// Names the prices of a comparison and its split.
pub open spec fn luma_prices(
    leaf_cost: u64,
    split_cost: u64,
    split: TtTrial,
    split_start: TrialReconRegion,
    is_close: bool,
) -> bool {
    true
}

/// Names an exact leaf and its price.
pub open spec fn exact_leaf(leaf: TtTrial, cost: u64) -> bool {
    true
}

/// A split was tried against a cheap leaf. Where their costs were close, the leaf was
/// tried again exactly, and the cheaper of the exact leaf and the split was kept.
pub open spec fn staged_compared<W, C, P, L, B, K>(
    env: &TtEnv<W, C, P, L, B>,
    close: K,
    ctxs: Seq<int>,
    cat: u8,
    s: CodeSettings,
    x0: int,
    y0: int,
    log2_size: u8,
    trafo_depth: int,
    margin_milli: u32,
    start: TrialReconRegion,
    leaf: TtTrial,
    r: TtTrial,
) -> bool where
    C: Fn(&W, &TrialReconRegion, BlockTask, EvalKind) -> BlockOutcome,
    P: Fn(u64, u64) -> u64,
    L: Fn(&W, u32, u32, u8, &Tt) -> bool,
    B: Fn(&W, u32, u32, u8) -> BlockSearchBudget,
    K: Fn(u64, u64, u32) -> bool,

    decreases log2_size, 2nat, 0nat,
{
    exists|
        leaf_cost: u64,
        split_cost: u64,
        split: TtTrial,
        split_start: TrialReconRegion,
        is_close: bool,
    |
        {
            &&& #[trigger] luma_prices(leaf_cost, split_cost, split, split_start, is_close)
            &&& split_start.same(&start)
            &&& luma_split_tried(
                env,
                close,
                ctxs,
                cat,
                s,
                x0,
                y0,
                log2_size,
                trafo_depth,
                split_start,
                split,
            )
            &&& priced(env, ctxs, 0, leaf, leaf_cost)
            &&& priced(env, ctxs, 0, split, split_cost)
            &&& call_ensures(close, (leaf_cost, split_cost, margin_milli), is_close)
            &&& if is_close {
                exists|exact: TtTrial, exact_cost: u64|
                    {
                        &&& #[trigger] exact_leaf(exact, exact_cost)
                        &&& leaf_tried(
                            env,
                            EvalKind::ExactTrial,
                            s,
                            x0,
                            y0,
                            log2_size,
                            trafo_depth as u8,
                            start,
                            exact,
                        )
                        &&& priced(env, ctxs, 0, exact, exact_cost)
                        &&& r == (TtTrial {
                            work: leaf.work.plus(split.work).plus(exact.work),
                            ..if split_cost < exact_cost {
                                split
                            } else {
                                exact
                            }
                        })
                    }
            } else {
                r == (TtTrial {
                    work: leaf.work.plus(split.work),
                    ..if split_cost < leaf_cost {
                        split
                    } else {
                        leaf
                    }
                })
            }
        }
}

/// Names what a search knew when it judged a leaf.
pub open spec fn luma_leaf_known(leaf: TtTrial, fork: TrialReconRegion, limited: bool) -> bool {
    true
}

/// A luma node was searched from a region. `cat` is the picture's chroma format, which
/// limits splits; `s` codes luma alone.
pub open spec fn luma_tried<W, C, P, L, B, K>(
    env: &TtEnv<W, C, P, L, B>,
    close: K,
    ctxs: Seq<int>,
    cat: u8,
    s: CodeSettings,
    x0: int,
    y0: int,
    log2_size: u8,
    trafo_depth: int,
    start: TrialReconRegion,
    r: TtTrial,
) -> bool where
    C: Fn(&W, &TrialReconRegion, BlockTask, EvalKind) -> BlockOutcome,
    P: Fn(u64, u64) -> u64,
    L: Fn(&W, u32, u32, u8, &Tt) -> bool,
    B: Fn(&W, u32, u32, u8) -> BlockSearchBudget,
    K: Fn(u64, u64, u32) -> bool,

    decreases log2_size, 3nat, 0nat,
{
    exists|b: BlockSearchBudget|
        {
            &&& #[trigger] call_ensures(env.budget, (env.world, x0 as u32, y0 as u32, log2_size), b)
            &&& match tt_order(cat, log2_size, trafo_depth as u8, b.tu_split) {
                SplitOrder::LeafOnly => leaf_tried(
                    env,
                    EvalKind::ExactTrial,
                    s,
                    x0,
                    y0,
                    log2_size,
                    trafo_depth as u8,
                    start,
                    r,
                ),
                SplitOrder::SplitOnly => luma_split_tried(
                    env,
                    close,
                    ctxs,
                    cat,
                    s,
                    x0,
                    y0,
                    log2_size,
                    trafo_depth,
                    start,
                    r,
                ),
                _ => exists|leaf: TtTrial, fork: TrialReconRegion, limited: bool|
                    {
                        &&& #[trigger] luma_leaf_known(leaf, fork, limited)
                        &&& fork.same(&start)
                        &&& leaf_tried(
                            env,
                            EvalKind::CheapTrial,
                            s,
                            x0,
                            y0,
                            log2_size,
                            trafo_depth as u8,
                            fork,
                            leaf,
                        )
                        &&& if zero_residual(&leaf.tt) && b.zero_residual_tu_early_terminate {
                            r == leaf
                        } else {
                            &&& call_ensures(
                                env.limited,
                                (env.world, x0 as u32, y0 as u32, log2_size, &leaf.tt),
                                limited,
                            )
                            &&& if limited {
                                r == leaf
                            } else {
                                staged_compared(
                                    env,
                                    close,
                                    ctxs,
                                    cat,
                                    s,
                                    x0,
                                    y0,
                                    log2_size,
                                    trafo_depth,
                                    b.close_call_margin_milli,
                                    start,
                                    leaf,
                                    r,
                                )
                            }
                        }
                    },
            }
        }
}

proof fn lemma_luma_kids_push<W, C, P, L, B, K>(
    env: &TtEnv<W, C, P, L, B>,
    close: K,
    ctxs: Seq<int>,
    cat: u8,
    s: CodeSettings,
    x0: int,
    y0: int,
    log2_size: u8,
    trafo_depth: int,
    start: TrialReconRegion,
    done: Seq<TtTrial>,
    next: TtTrial,
    n: nat,
) where
    C: Fn(&W, &TrialReconRegion, BlockTask, EvalKind) -> BlockOutcome,
    P: Fn(u64, u64) -> u64,
    L: Fn(&W, u32, u32, u8, &Tt) -> bool,
    B: Fn(&W, u32, u32, u8) -> BlockSearchBudget,
    K: Fn(u64, u64, u32) -> bool,

    requires
        n <= done.len(),
        luma_kids_tried(
            env,
            close,
            ctxs,
            cat,
            s,
            x0,
            y0,
            log2_size,
            trafo_depth,
            start,
            done,
            n,
        ),
    ensures
        luma_kids_tried(
            env,
            close,
            ctxs,
            cat,
            s,
            x0,
            y0,
            log2_size,
            trafo_depth,
            start,
            done.push(next),
            n,
        ),
        kids_distortion(done.push(next), n) == kids_distortion(done, n),
        kids_work(done.push(next), n) == kids_work(done, n),
    decreases n,
{
    if n > 0 {
        lemma_luma_kids_push(
            env,
            close,
            ctxs,
            cat,
            s,
            x0,
            y0,
            log2_size,
            trafo_depth,
            start,
            done,
            next,
            (n - 1) as nat,
        );
        assert(done.push(next)[n - 1] == done[n - 1]);
        if n > 1 {
            assert(done.push(next)[n - 2] == done[n - 2]);
        }
    }
}

/// Codes a luma split on a region, searching its children.
fn luma_split<W, C, P, L, B, K>(
    env: &TtEnv<W, C, P, L, B>,
    close: &K,
    ctxs: &Contexts,
    cat: u8,
    s: CodeSettings,
    x0: u32,
    y0: u32,
    log2_size: u8,
    trafo_depth: u8,
    region: TrialReconRegion,
) -> (r: TtTrial) where
    C: Fn(&W, &TrialReconRegion, BlockTask, EvalKind) -> BlockOutcome,
    P: Fn(u64, u64) -> u64,
    L: Fn(&W, u32, u32, u8, &Tt) -> bool,
    B: Fn(&W, u32, u32, u8) -> BlockSearchBudget,
    K: Fn(u64, u64, u32) -> bool,

    requires
        env_ok(env),
        forall|a: u64, b: u64, m: u32| #[trigger] call_requires(*close, (a, b, m)),
        ctxs.well_formed(),
        log2_size > 2,
        depth_ok(log2_size, trafo_depth),
        trafo_depth < 3,
        square_ok(x0 as int, y0 as int, log2_size),
        region.well_formed(),
        s.cat == 0,
    ensures
        luma_split_tried(
            env,
            *close,
            ctxs@,
            cat,
            s,
            x0 as int,
            y0 as int,
            log2_size,
            trafo_depth as int,
            region,
            r,
        ),
        trial_ok(&r, log2_size),
    decreases log2_size, 0nat,
{
    let half: u32 = block_side(log2_size) / 2;
    let ghost h = side(log2_size) / 2;
    let ghost (xi, yi) = (x0 as int, y0 as int);
    let ghost start = region;
    let ghost mut done: Seq<TtTrial> = Seq::empty();
    let ghost cap = node_cap((log2_size - 1) as nat);
    let ghost unit = 8 * cap * BLOCK_DISTORTION_MAX;
    let mut region = region;
    let mut kids: Vec<Tt> = Vec::new();
    let mut distortion: u64 = 0;
    let mut work = EncodeStats::default();
    proof {
        lemma_node_cap(log2_size);
        lemma_node_cap((log2_size - 1) as u8);
        let most = BLOCK_DISTORTION_MAX as int;
        assert(unit <= 8 * 5461 * most) by (nonlinear_arith)
            requires
                unit == 8 * cap * most,
                cap <= 5461,
                most >= 0,
        ;
        assert(8 * (1 + 4 * cap) * most == 8 * most + 4 * unit) by (nonlinear_arith)
            requires
                unit == 8 * cap * most,
        ;
    }
    for i in 0..4usize
        invariant
            env_ok(env),
            forall|a: u64, b: u64, m: u32| #[trigger] call_requires(*close, (a, b, m)),
            ctxs.well_formed(),
            2 < log2_size,
            depth_ok(log2_size, trafo_depth),
            trafo_depth < 3,
            square_ok(xi, yi, log2_size),
            s.cat == 0,
            xi == x0,
            yi == y0,
            half == h,
            h == side(log2_size) / 2,
            cap == node_cap((log2_size - 1) as nat),
            cap <= 5461,
            unit == 8 * cap * BLOCK_DISTORTION_MAX,
            unit <= 8 * 5461 * BLOCK_DISTORTION_MAX,
            region.well_formed(),
            done.len() == i,
            region == region_after(start, done, i as int),
            luma_kids_tried(
                env,
                *close,
                ctxs@,
                cat,
                s,
                xi,
                yi,
                log2_size,
                trafo_depth as int,
                start,
                done,
                i as nat,
            ),
            kids@ == trees_of(done),
            distortion == kids_distortion(done, i as nat),
            work == kids_work(done, i as nat),
            distortion <= i * unit,
            kids_nodes(kids@, i as nat) <= i * cap,
            forall|k: int|
                0 <= k < i ==> tt_depths_ok(&#[trigger] kids@[k]) && tt_small(&kids@[k])
                    && tt_shaped(&kids@[k], (log2_size - 1) as u8),
    {
        proof {
            lemma_quadrant_ok(xi, yi, log2_size, i as int);
            assert(i * unit + unit == (i + 1) * unit && (i + 1) * unit <= 4 * unit)
                by (nonlinear_arith)
                requires
                    0 <= i < 4,
                    unit >= 0,
            ;
            assert(i * cap + cap == (i + 1) * cap) by (nonlinear_arith);
        }
        let kx: u32 = if i % 2 == 1 {
            x0 + half
        } else {
            x0
        };
        let ky: u32 = if i / 2 == 1 {
            y0 + half
        } else {
            y0
        };
        assert((kx as int, ky as int) == quadrant(xi, yi, h, i as int)) by {
            assert(0 * h == 0 && 1 * h == h);
        }
        let kid = decide_luma_tt(
            env,
            close,
            ctxs,
            cat,
            s,
            kx,
            ky,
            log2_size - 1,
            trafo_depth + 1,
            region,
        );
        let ghost before = kids@;
        proof {
            let next = done.push(kid);
            lemma_luma_kids_push(
                env,
                *close,
                ctxs@,
                cat,
                s,
                xi,
                yi,
                log2_size,
                trafo_depth as int,
                start,
                done,
                kid,
                i as nat,
            );
            assert(next[i as int] == kid);
            assert(region_after(start, next, i as int) == region) by {
                if i > 0 {
                    assert(next[i - 1] == done[i - 1]);
                }
            }
            assert(luma_kids_tried(
                env,
                *close,
                ctxs@,
                cat,
                s,
                xi,
                yi,
                log2_size,
                trafo_depth as int,
                start,
                next,
                (i + 1) as nat,
            ));
            lemma_kids_nodes_push(before, kid.tt, i as nat);
            assert(before.push(kid.tt)[i as int] == kid.tt);
            assert(trees_of(next) =~= before.push(kid.tt));
            done = next;
        }
        distortion = distortion + kid.distortion;
        work = work.joined(kid.work);
        kids.push(kid.tt);
        region = kid.region;
        proof {
            assert forall|k: int| 0 <= k < i + 1 implies tt_depths_ok(&#[trigger] kids@[k])
                && tt_small(&kids@[k]) && tt_shaped(&kids@[k], (log2_size - 1) as u8) by {
                if k < i {
                    assert(kids@[k] == before[k]);
                }
            }
        }
    }
    let ghost kept = kids@;
    let tt = split_node(log2_size, trafo_depth, None, kids);
    let r = TtTrial { tt, distortion, region, race: None, work };
    proof {
        assert(luma_parts(done));
        assert(r.tt->kids@ == kept);
        assert(tt_nodes(&r.tt) == 1 + kids_nodes(kept, 4));
        assert(node_cap(log2_size as nat) == 1 + 4 * cap);
    }
    r
}

fn luma_price<W, C, P, L, B>(
    env: &TtEnv<W, C, P, L, B>,
    ctxs: &Contexts,
    log2_size: u8,
    t: &TtTrial,
) -> (cost: u64) where
    C: Fn(&W, &TrialReconRegion, BlockTask, EvalKind) -> BlockOutcome,
    P: Fn(u64, u64) -> u64,
    L: Fn(&W, u32, u32, u8, &Tt) -> bool,
    B: Fn(&W, u32, u32, u8) -> BlockSearchBudget,

    requires
        env_ok(env),
        ctxs.well_formed(),
        log2_size <= 6,
        trial_ok(t, log2_size),
    ensures
        priced(env, ctxs@, 0, *t, cost),
{
    proof {
        lemma_node_cap(log2_size);
        lemma_tt_cost_bound(ctxs@, &t.tt, 0, false, true, true);
    }
    let bits: u64 = tt_bits_full(ctxs, &t.tt, 0);
    (env.price)(t.distortion, bits)
}

/// Searches a luma node from a region. A close decision is made on an exact leaf.
pub fn decide_luma_tt<W, C, P, L, B, K>(
    env: &TtEnv<W, C, P, L, B>,
    close: &K,
    ctxs: &Contexts,
    cat: u8,
    s: CodeSettings,
    x0: u32,
    y0: u32,
    log2_size: u8,
    trafo_depth: u8,
    region: TrialReconRegion,
) -> (r: TtTrial) where
    C: Fn(&W, &TrialReconRegion, BlockTask, EvalKind) -> BlockOutcome,
    P: Fn(u64, u64) -> u64,
    L: Fn(&W, u32, u32, u8, &Tt) -> bool,
    B: Fn(&W, u32, u32, u8) -> BlockSearchBudget,
    K: Fn(u64, u64, u32) -> bool,

    requires
        env_ok(env),
        forall|a: u64, b: u64, m: u32| #[trigger] call_requires(*close, (a, b, m)),
        ctxs.well_formed(),
        depth_ok(log2_size, trafo_depth),
        square_ok(x0 as int, y0 as int, log2_size),
        region.well_formed(),
        s.cat == 0,
    ensures
        luma_tried(
            env,
            *close,
            ctxs@,
            cat,
            s,
            x0 as int,
            y0 as int,
            log2_size,
            trafo_depth as int,
            region,
            r,
        ),
        trial_ok(&r, log2_size),
    decreases log2_size, 1nat,
{
    let b = (env.budget)(env.world, x0, y0, log2_size);
    assert(call_ensures(env.budget, (env.world, x0, y0, log2_size), b));
    let order = tt_split_order(cat, log2_size, trafo_depth, &b);
    if order == SplitOrder::LeafOnly {
        return try_leaf(env, EvalKind::ExactTrial, s, x0, y0, log2_size, trafo_depth, region);
    }
    if order == SplitOrder::SplitOnly {
        return luma_split(
            env,
            close,
            ctxs,
            cat,
            s,
            x0,
            y0,
            log2_size,
            trafo_depth,
            region,
        );
    }
    let fork = region.fork();
    let ghost gf = fork;
    let leaf = try_leaf(env, EvalKind::CheapTrial, s, x0, y0, log2_size, trafo_depth, fork);
    if tu_split_early_terminate(&leaf.tt, &b) {
        assert(luma_leaf_known(leaf, gf, false));
        return leaf;
    }
    let limited: bool = (env.limited)(env.world, x0, y0, log2_size, &leaf.tt);
    assert(luma_leaf_known(leaf, gf, limited));
    if limited {
        return leaf;
    }
    let leaf_cost: u64 = luma_price(env, ctxs, log2_size, &leaf);
    let split_region = region.fork();
    let ghost gs = split_region;
    let split = luma_split(
        env,
        close,
        ctxs,
        cat,
        s,
        x0,
        y0,
        log2_size,
        trafo_depth,
        split_region,
    );
    let split_cost: u64 = luma_price(env, ctxs, log2_size, &split);
    let is_close: bool = (*close)(leaf_cost, split_cost, b.close_call_margin_milli);
    assert(call_ensures(*close, (leaf_cost, split_cost, b.close_call_margin_milli), is_close));
    assert(luma_prices(leaf_cost, split_cost, split, gs, is_close));
    let mut work = leaf.work.joined(split.work);
    if is_close {
        let exact = try_leaf(
            env,
            EvalKind::ExactTrial,
            s,
            x0,
            y0,
            log2_size,
            trafo_depth,
            region,
        );
        let exact_cost: u64 = luma_price(env, ctxs, log2_size, &exact);
        assert(exact_leaf(exact, exact_cost));
        work = work.joined(exact.work);
        let mut kept = if split_cost < exact_cost {
            split
        } else {
            exact
        };
        kept.work = work;
        kept
    } else {
        let mut kept = if split_cost < leaf_cost {
            split
        } else {
            leaf
        };
        kept.work = work;
        kept
    }
}

} // verus!
