//! Building the coding trees of a slice, one coding tree block after the other.

use vstd::prelude::*;

use crate::budget::BlockSearchBudget;
use crate::cu_leaf::{lemma_same_sym, lemma_same_trans};
use crate::cu_search::{build_cu, cu_env_ok, unit_built, CuEnv};
use crate::geometry::CTB_LOG2;
use crate::math::{ceil_div, ceil_div_u32};
use crate::quadtree::{lemma_fits_later, lemma_sides, lemma_spot_same, node_fits, spot};
use crate::rough::Place;
use crate::search_state::{worked, SearchState};
use crate::slice::{ctu_position, trees_ok};
use crate::source::SourcePicture;
use crate::stats::EncodeStats;
use crate::syntax::{CuLeaf, CuNode, CuPlan};

verus! {

/// The `i`-th coding tree block of a picture.
pub open spec fn ctu_place(width: u32, i: int) -> Place {
    let (x, y) = ctu_position(width, i);
    Place { x: x as u32, y: y as u32, log2_size: CTB_LOG2 }
}

/// How many coding tree blocks a picture has.
pub open spec fn ctu_count(width: int, height: int) -> int {
    ceil_div(width, 64) * ceil_div(height, 64)
}

/// A coding tree block is counted.
pub open spec fn tree_work() -> EncodeStats {
    EncodeStats { ctu_count: 1, ..EncodeStats::none() }
}

/// Names the state between two coding tree blocks.
pub open spec fn next_tree(s: SearchState) -> bool {
    true
}

/// The first `n` coding trees were built, each on the state that the one before left.
pub open spec fn trees_built<'a, L, N, T, B, P, K, E, R>(
    env: &CuEnv<'a, L, N, T, B, P, K, E, R>,
    before: SearchState,
    after: SearchState,
    trees: Seq<CuNode>,
    n: nat,
) -> bool where
    L: Fn(SearchState, Place, u8) -> (SearchState, CuLeaf),
    N: Fn(SearchState, Place, u8) -> (SearchState, CuLeaf),
    T: Fn(&SearchState, Place) -> (bool, EncodeStats),
    B: Fn(&SearchState, Place) -> (BlockSearchBudget, i32),
    P: Fn(u64, u64) -> u64,
    K: Fn(BlockSearchBudget, u64, u64) -> bool,
    E: Fn(&CuLeaf) -> bool,
    R: Fn(SearchState, &CuPlan, Place, u8) -> (SearchState, CuNode),

    decreases n,
{
    if n == 0 {
        after == before
    } else {
        exists|mid: SearchState|
            {
                &&& #[trigger] next_tree(mid)
                &&& trees_built(env, before, mid, trees, (n - 1) as nat)
                &&& unit_built(
                    env,
                    ctu_place(env.pic.width, n - 1),
                    0,
                    worked(mid, tree_work()),
                    after,
                    trees[n - 1],
                )
            }
    }
}

proof fn lemma_trees_prefix<'a, L, N, T, B, P, K, E, R>(
    env: &CuEnv<'a, L, N, T, B, P, K, E, R>,
    before: SearchState,
    after: SearchState,
    trees: Seq<CuNode>,
    next: CuNode,
    n: nat,
) where
    L: Fn(SearchState, Place, u8) -> (SearchState, CuLeaf),
    N: Fn(SearchState, Place, u8) -> (SearchState, CuLeaf),
    T: Fn(&SearchState, Place) -> (bool, EncodeStats),
    B: Fn(&SearchState, Place) -> (BlockSearchBudget, i32),
    P: Fn(u64, u64) -> u64,
    K: Fn(BlockSearchBudget, u64, u64) -> bool,
    E: Fn(&CuLeaf) -> bool,
    R: Fn(SearchState, &CuPlan, Place, u8) -> (SearchState, CuNode),

    requires
        n <= trees.len(),
        trees_built(env, before, after, trees, n),
    ensures
        trees_built(env, before, after, trees.push(next), n),
    decreases n,
{
    if n > 0 {
        let mid = choose|mid: SearchState|
            {
                &&& #[trigger] next_tree(mid)
                &&& trees_built(env, before, mid, trees, (n - 1) as nat)
                &&& unit_built(
                    env,
                    ctu_place(env.pic.width, n - 1),
                    0,
                    worked(mid, tree_work()),
                    after,
                    trees[n - 1],
                )
            };
        lemma_trees_prefix(env, before, mid, trees, next, (n - 1) as nat);
        assert(trees.push(next)[n - 1] == trees[n - 1]);
        assert(next_tree(mid));
    }
}

/// A coding tree block of the picture begins inside it, on the grid.
proof fn lemma_ctu_spot(pic: &SourcePicture, st: &SearchState, i: int)
    requires
        spot(pic, st, Place { x: 0, y: 0, log2_size: CTB_LOG2 }, 0),
        0 <= i < ctu_count(pic.width as int, pic.height as int),
    ensures
        spot(pic, st, ctu_place(pic.width, i), 0),
        0 <= ctu_position(pic.width, i).0 < pic.width,
        0 <= ctu_position(pic.width, i).1 < pic.height,
{
    lemma_sides();
    let (w, h) = (pic.width as int, pic.height as int);
    let (across, down) = (ceil_div(w, 64), ceil_div(h, 64));
    assert(across >= 1);
    vstd::arithmetic::div_mod::lemma_fundamental_div_mod(i, across);
    let (q, r) = (i / across, i % across);
    assert(0 <= q < down) by (nonlinear_arith)
        requires
            i == across * q + r,
            0 <= r < across,
            0 <= i < across * down,
    ;
    assert(r * 64 < w && q * 64 < h);
    vstd::arithmetic::div_mod::lemma_mod_multiples_basic(r, 64);
    vstd::arithmetic::div_mod::lemma_mod_multiples_basic(q, 64);
}

/// Builds the coding trees of a picture, and counts them. They can be written as they are.
pub fn build_slice_trees<'a, L, N, T, B, P, K, E, R>(
    env: &CuEnv<'a, L, N, T, B, P, K, E, R>,
    state: SearchState,
) -> (r: (SearchState, Vec<CuNode>)) where
    L: Fn(SearchState, Place, u8) -> (SearchState, CuLeaf),
    N: Fn(SearchState, Place, u8) -> (SearchState, CuLeaf),
    T: Fn(&SearchState, Place) -> (bool, EncodeStats),
    B: Fn(&SearchState, Place) -> (BlockSearchBudget, i32),
    P: Fn(u64, u64) -> u64,
    K: Fn(BlockSearchBudget, u64, u64) -> bool,
    E: Fn(&CuLeaf) -> bool,
    R: Fn(SearchState, &CuPlan, Place, u8) -> (SearchState, CuNode),

    requires
        cu_env_ok(env),
        state.well_formed(),
        spot(env.pic, &state, Place { x: 0, y: 0, log2_size: CTB_LOG2 }, 0),
        ctu_count(env.pic.width as int, env.pic.height as int) <= u32::MAX,
    ensures
        r.1@.len() == ctu_count(env.pic.width as int, env.pic.height as int),
        trees_built(env, state, r.0, r.1@, r.1@.len()),
        trees_ok(&r.0.maps, r.1@),
        r.0.well_formed(),
        r.0.same_picture(&state),
{
    let ghost before = state;
    let ghost (w, h) = (env.pic.width as int, env.pic.height as int);
    let across: u32 = ceil_div_u32(env.pic.width, 64);
    let down: u32 = ceil_div_u32(env.pic.height, 64);
    assert(across >= 1);
    let total: u32 = across * down;
    let mut state = state;
    let mut trees: Vec<CuNode> = Vec::new();
    proof {
        assert(state.frame.same_shape(&before.frame));
    }
    for i in 0..total
        invariant
            cu_env_ok(env),
            w == env.pic.width,
            h == env.pic.height,
            across == ceil_div(w, 64),
            across >= 1,
            total == ctu_count(w, h),
            before.well_formed(),
            spot(env.pic, &before, Place { x: 0, y: 0, log2_size: CTB_LOG2 }, 0),
            state.well_formed(),
            state.same_picture(&before),
            trees@.len() == i,
            trees_built(env, before, state, trees@, i as nat),
            forall|k: int|
                0 <= k < i ==> node_fits(
                    env.pic,
                    &before,
                    &#[trigger] trees@[k],
                    ctu_place(env.pic.width, k),
                    0,
                ),
    {
        let ghost mid = state;
        let ghost done = trees@;
        state.count(EncodeStats { ctu_count: 1, ..EncodeStats::default() });
        let ghost counted = state;
        proof {
            lemma_same_trans(&before, &mid, &counted);
            lemma_ctu_spot(env.pic, &before, i as int);
            lemma_spot_same(env.pic, &before, &counted, ctu_place(env.pic.width, i as int), 0);
        }
        let at = Place { x: (i % across) * 64, y: (i / across) * 64, log2_size: CTB_LOG2 };
        assert(at == ctu_place(env.pic.width, i as int));
        let (after, node) = build_cu(env, at, 0, state);
        let ghost built = node;
        state = after;
        trees.push(node);
        proof {
            lemma_same_trans(&before, &counted, &state);
            lemma_same_sym(&before, &state);
            lemma_fits_later(env.pic, &state, &before, &built, at, 0);
            lemma_trees_prefix(env, before, mid, done, built, i as nat);
            assert(next_tree(mid));
            assert(trees@[i as int] == built);
            assert forall|k: int| 0 <= k < i + 1 implies node_fits(
                env.pic,
                &before,
                &#[trigger] trees@[k],
                ctu_place(env.pic.width, k),
                0,
            ) by {
                if k < i {
                    assert(trees@[k] == done[k]);
                }
            }
        }
    }
    proof {
        assert forall|k: int| 0 <= k < trees@.len() implies crate::write::cu_ok(
            &state.maps,
            &#[trigger] trees@[k],
            ctu_position(state.maps.width, k).0,
            ctu_position(state.maps.width, k).1,
            CTB_LOG2,
            0,
        ) by {
            lemma_ctu_spot(env.pic, &before, k);
            lemma_fits_later(
                env.pic,
                &before,
                &state,
                &trees@[k],
                ctu_place(env.pic.width, k),
                0,
            );
        }
    }
    (state, trees)
}

} // verus!
