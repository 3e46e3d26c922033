//! What holds of single steps of a search: where a node's children are tried and on what,
//! when a search stops, what a decision is charged, and what is noted of it.

use vstd::prelude::*;

use crate::budget::BlockSearchBudget;
use crate::cabac::bin_cost;
use crate::cu_leaf::{depth_noted, mode_noted};
use crate::cu_search::{
    between, four_compared, kids_built, leaf_first, leaf_steps, part_steps, parts_decided,
    race_run, race_steps, split_only, split_raced, unit_built, CuEnv, CuTrial, Race, RdCost,
};
use crate::effort::{kept_modes, modes_between, stepped};
use crate::final_code::{BlockTask, CodeSettings};
use crate::geometry::side;
use crate::items::cu_leaf_items;
use crate::maps::{cell_index, covers};
use crate::mode_search::nxn_winner;
use crate::nxn_search::{least, part_rechecked, part_rechecks, NxnEnv};
use crate::policy::EvalKind;
use crate::ranking::Scored;
use crate::refine::{change_priced, RefineEnv};
use crate::replay::{part_coded, parted_leaf, settings_of, CodeEnv};
use crate::rough::{has_mode, mode_forced, near_best, padded, Place};
use crate::search_state::{RegionSnapshot, SearchState};
use crate::stats::{EncodeStats, Tried};
use crate::syntax::{CuLeaf, CuNode, CuPlan, DecisionConfidence, Tt};
use crate::trial_region::TrialReconRegion;
use crate::tu_search::{
    kids_tried, split_parts, split_tried, tt_order, tt_tried, BlockOutcome, SplitOrder, TtEnv,
    TtTrial,
};

verus! {

/// The quadrants of a split transform tree are searched in order, each at its own corner,
/// half as large and one deeper, and on what the one before left.
pub proof fn law_quadrants_are_tried_in_order<W, C, P, L, B>(
    env: &TtEnv<W, C, P, L, B>,
    ctxs: Seq<int>,
    s: CodeSettings,
    x0: int,
    y0: int,
    log2_size: u8,
    trafo_depth: int,
    start: TrialReconRegion,
    r: TtTrial,
) -> (done: Seq<TtTrial>) where
    C: Fn(&W, &TrialReconRegion, BlockTask, EvalKind) -> BlockOutcome,
    P: Fn(u64, u64) -> u64,
    L: Fn(&W, u32, u32, u8, &Tt) -> bool,
    B: Fn(&W, u32, u32, u8) -> BlockSearchBudget,

    requires
        split_tried(env, ctxs, s, x0, y0, log2_size, trafo_depth, start, r),
    ensures
        ({
            let h = side(log2_size) / 2;
            let l = (log2_size - 1) as u8;
            let d = trafo_depth + 1;
            &&& done.len() == 4
            &&& tt_tried(env, ctxs, s, x0, y0, l, d, start, done[0])
            &&& tt_tried(env, ctxs, s, x0 + h, y0, l, d, done[0].region, done[1])
            &&& tt_tried(env, ctxs, s, x0, y0 + h, l, d, done[1].region, done[2])
            &&& tt_tried(env, ctxs, s, x0 + h, y0 + h, l, d, done[2].region, done[3])
            &&& r.tt is Split && r.tt->kids@.len() == 4
            &&& forall|i: int| 0 <= i < 4 ==> #[trigger] r.tt->kids@[i] == done[i].tt
            &&& r.tt.size() == log2_size && r.tt.depth() == trafo_depth
            &&& s.cat != 1 || log2_size != 3 ==> r.tt->parent_chroma is None
            &&& s.cat == 1 && log2_size == 3 ==> r.tt->parent_chroma is Some
        }),
{
    let (done, outs) = choose|done: Seq<TtTrial>, outs: Seq<BlockOutcome>|
        {
            &&& #[trigger] split_parts(done, outs)
            &&& done.len() == 4
            &&& kids_tried(env, ctxs, s, x0, y0, log2_size, trafo_depth, start, done, 4)
            &&& r.tt is Split
            &&& r.tt->kids@ == crate::tu_search::trees_of(done)
            &&& r.tt.size() == log2_size
            &&& r.tt.depth() == trafo_depth
            &&& crate::final_code::parent_codes(
                &r.tt->parent_chroma,
                s,
                log2_size,
                Some(2u8),
                crate::tu_search::codes_of(outs),
            )
        };
    let h = side(log2_size) / 2;
    assert(0 * h == 0 && 1 * h == h);
    assert(kids_tried(env, ctxs, s, x0, y0, log2_size, trafo_depth, start, done, 3));
    assert(kids_tried(env, ctxs, s, x0, y0, log2_size, trafo_depth, start, done, 2));
    assert(kids_tried(env, ctxs, s, x0, y0, log2_size, trafo_depth, start, done, 1));
    done
}

/// Every answer of the caller about a node says the same.
pub open spec fn settled<W, C, P, L, B>(
    env: &TtEnv<W, C, P, L, B>,
    x0: int,
    y0: int,
    log2_size: u8,
    b: BlockSearchBudget,
) -> bool where B: Fn(&W, u32, u32, u8) -> BlockSearchBudget {
    forall|g: BlockSearchBudget| #[trigger]
        call_ensures(env.budget, (env.world, x0 as u32, y0 as u32, log2_size), g) ==> g == b
}

/// A leaf that is tried first ends the search where it has no luma residual and the budget
/// lets that end it, or where its neighbours limit it. Where neither can be, leaf and split
/// are compared.
pub proof fn law_when_a_leaf_ends_the_search<W, C, P, L, B>(
    env: &TtEnv<W, C, P, L, B>,
    ctxs: Seq<int>,
    s: CodeSettings,
    x0: int,
    y0: int,
    log2_size: u8,
    trafo_depth: u8,
    start: TrialReconRegion,
    r: TtTrial,
    b: BlockSearchBudget,
) where
    C: Fn(&W, &TrialReconRegion, BlockTask, EvalKind) -> BlockOutcome,
    P: Fn(u64, u64) -> u64,
    L: Fn(&W, u32, u32, u8, &Tt) -> bool,
    B: Fn(&W, u32, u32, u8) -> BlockSearchBudget,

    requires
        tt_tried(env, ctxs, s, x0, y0, log2_size, trafo_depth as int, start, r),
        settled(env, x0, y0, log2_size, b),
        tt_order(s.cat, log2_size, trafo_depth, b.tu_split) == SplitOrder::LeafFirst,
        r.race is None ==> r.tt is Leaf,
    ensures
        !b.zero_residual_tu_early_terminate && (forall|l: &Tt| !#[trigger]
            call_ensures(env.limited, (env.world, x0 as u32, y0 as u32, log2_size, l), true))
            ==> r.race is Some,
        (forall|l: &Tt| !#[trigger]
            call_ensures(env.limited, (env.world, x0 as u32, y0 as u32, log2_size, l), true))
            && r.race is None ==> !r.tt->Leaf_0.luma.cbf,
        (forall|l: &Tt| !#[trigger]
            call_ensures(env.limited, (env.world, x0 as u32, y0 as u32, log2_size, l), false))
            ==> r.tt is Leaf,
{
    reveal_with_fuel(tt_tried, 1);
    reveal_with_fuel(crate::tu_search::compared, 1);
}

/// The children of a split unit are built in order, each at its place, one size smaller and
/// one deeper, and on what the one before left.
pub proof fn law_children_are_built_in_order<'a, L, N, T, B, P, K, E, R>(
    env: &CuEnv<'a, L, N, T, B, P, K, E, R>,
    places: Seq<(int, int)>,
    log2_size: u8,
    ct_depth: u8,
    before: SearchState,
    after: SearchState,
    kids: Seq<CuNode>,
    n: nat,
) -> (states: Seq<SearchState>) where
    L: Fn(SearchState, Place, u8) -> (SearchState, CuLeaf),
    N: Fn(SearchState, Place, u8) -> (SearchState, CuLeaf),
    T: Fn(&SearchState, Place) -> (bool, EncodeStats),
    B: Fn(&SearchState, Place) -> (BlockSearchBudget, i32),
    P: Fn(u64, u64) -> u64,
    K: Fn(BlockSearchBudget, u64, u64) -> bool,
    E: Fn(&CuLeaf) -> bool,
    R: Fn(SearchState, &CuPlan, Place, u8) -> (SearchState, CuNode),

    requires
        kids_built(env, places, log2_size, ct_depth, before, after, kids, n),
    ensures
        states.len() == n + 1,
        states[0] == before,
        states[n as int] == after,
        forall|i: int|
            0 <= i < n ==> unit_built(
                env,
                (Place { x: places[i].0 as u32, y: places[i].1 as u32, log2_size }),
                ct_depth,
                #[trigger] states[i],
                states[i + 1],
                kids[i],
            ),
    decreases n,
{
    if n == 0 {
        seq![before]
    } else {
        let mid = choose|mid: SearchState|
            {
                &&& #[trigger] between(mid)
                &&& kids_built(
                    env,
                    places,
                    log2_size,
                    ct_depth,
                    before,
                    mid,
                    kids,
                    (n - 1) as nat,
                )
                &&& unit_built(
                    env,
                    crate::quadtree::kid_place(places[n - 1], log2_size),
                    ct_depth,
                    mid,
                    after,
                    kids[n - 1],
                )
            };
        let states = law_children_are_built_in_order(
            env,
            places,
            log2_size,
            ct_depth,
            before,
            mid,
            kids,
            (n - 1) as nat,
        );
        let all = states.push(after);
        assert forall|i: int| 0 <= i < n implies unit_built(
            env,
            (Place { x: places[i].0 as u32, y: places[i].1 as u32, log2_size }),
            ct_depth,
            #[trigger] all[i],
            all[i + 1],
            kids[i],
        ) by {
            if i < n - 1 {
                assert(all[i] == states[i]);
                assert(all[i + 1] == states[i + 1]);
            }
        }
        all
    }
}

/// A unit that is split without a comparison has a child for every quadrant that begins in
/// the picture, each built one size smaller and one deeper.
pub proof fn law_forced_split<'a, L, N, T, B, P, K, E, R>(
    env: &CuEnv<'a, L, N, T, B, P, K, E, R>,
    at: Place,
    ct_depth: u8,
    before: SearchState,
    after: SearchState,
    t: CuTrial,
) -> (states: Seq<SearchState>) where
    L: Fn(SearchState, Place, u8) -> (SearchState, CuLeaf),
    N: Fn(SearchState, Place, u8) -> (SearchState, CuLeaf),
    T: Fn(&SearchState, Place) -> (bool, EncodeStats),
    B: Fn(&SearchState, Place) -> (BlockSearchBudget, i32),
    P: Fn(u64, u64) -> u64,
    K: Fn(BlockSearchBudget, u64, u64) -> bool,
    E: Fn(&CuLeaf) -> bool,
    R: Fn(SearchState, &CuPlan, Place, u8) -> (SearchState, CuNode),

    requires
        split_only(env, at, ct_depth, before, after, t),
        at.x + side(at.log2_size) <= before.maps.width,
        at.y + side(at.log2_size) <= before.maps.height,
        ct_depth < 255,
        side(at.log2_size) >= 2,
    ensures
        ({
            let h = side(at.log2_size) / 2;
            let l = (at.log2_size - 1) as u8;
            let d = (ct_depth + 1) as u8;
            let k = t.node->kids@;
            let (x1, y1) = ((at.x + h) as u32, (at.y + h) as u32);
            &&& t.node is Split && k.len() == 4 && states.len() == 5
            &&& states[0] == before && states[4] == after
            &&& unit_built(
                env,
                (Place { x: at.x, y: at.y, log2_size: l }),
                d,
                states[0],
                states[1],
                k[0],
            )
            &&& unit_built(
                env,
                (Place { x: x1, y: at.y, log2_size: l }),
                d,
                states[1],
                states[2],
                k[1],
            )
            &&& unit_built(
                env,
                (Place { x: at.x, y: y1, log2_size: l }),
                d,
                states[2],
                states[3],
                k[2],
            )
            &&& unit_built(
                env,
                (Place { x: x1, y: y1, log2_size: l }),
                d,
                states[3],
                states[4],
                k[3],
            )
        }),
{
    reveal_with_fuel(split_only, 1);
    let h = side(at.log2_size) / 2;
    let places = crate::quadtree::kid_places(&before, at);
    assert(places =~= seq![
        (at.x as int, at.y as int),
        (at.x + h, at.y as int),
        (at.x as int, at.y + h),
        (at.x + h, at.y + h),
    ]);
    let states = law_children_are_built_in_order(
        env,
        places,
        (at.log2_size - 1) as u8,
        (ct_depth + 1) as u8,
        before,
        after,
        t.node->kids@,
        4,
    );
    assert(states[0] == before);
    assert(states[1] == states[1]);
    assert(states[2] == states[2]);
    assert(states[3] == states[3]);
    states
}

/// A unit that is tried first and kept is charged for its syntax and for a split flag that
/// is not set; a split that wins over it for its children and a split flag that is set. The
/// flag stands in the context of the neighbours' depths.
pub proof fn law_what_a_decision_is_charged<'a, L, N, T, B, P, K, E, R>(
    env: &CuEnv<'a, L, N, T, B, P, K, E, R>,
    g: BlockSearchBudget,
    qp: i32,
    at: Place,
    ct_depth: u8,
    before: SearchState,
    after: SearchState,
    t: CuTrial,
) -> (r: (CuLeaf, Option<Race>)) where
    L: Fn(SearchState, Place, u8) -> (SearchState, CuLeaf),
    N: Fn(SearchState, Place, u8) -> (SearchState, CuLeaf),
    T: Fn(&SearchState, Place) -> (bool, EncodeStats),
    B: Fn(&SearchState, Place) -> (BlockSearchBudget, i32),
    P: Fn(u64, u64) -> u64,
    K: Fn(BlockSearchBudget, u64, u64) -> bool,
    E: Fn(&CuLeaf) -> bool,
    R: Fn(SearchState, &CuPlan, Place, u8) -> (SearchState, CuNode),

    requires
        leaf_first(env, g, qp, at, ct_depth, before, after, t),
    ensures
        ({
            let flag = env.ctxs@[2 + before.maps.split_inc(at.x, at.y, ct_depth)];
            &&& t.node is Leaf ==> t.node == crate::cu_search::confident(
                r.0,
                DecisionConfidence::Clear,
            ) && t.cost.frac_bits == crate::cost::items_cost(
                env.ctxs@,
                cu_leaf_items(&r.0, at.log2_size, env.pic.cat),
            ) + bin_cost(flag, 0)
            &&& t.node is Split ==> {
                &&& r.1 matches Some(race)
                &&& t.node->kids == race.kids
                &&& t.cost.distortion == race.distortion
                &&& t.cost.frac_bits == (bin_cost(flag, 1) + race.frac_bits) as u64
                &&& after == race.state
            }
            &&& !g.allow_cu_early_terminate ==> r.1 is Some
            &&& r.1 matches Some(race) ==> race.kids@.len() >= 1
        }),
{
    reveal_with_fuel(leaf_first, 1);
    let (base, whole, leaf, has_residual, cost) = choose|
        base: RegionSnapshot,
        whole: SearchState,
        leaf: CuLeaf,
        has_residual: bool,
        cost: RdCost,
    |
        {
            let stop = g.terminates_cu(
                has_residual,
                cost.frac_bits as int / crate::cabac::CabacEstimator::SCALE as int,
                at.log2_size,
                qp,
                env.pic.bit_depth,
                crate::cu_search::luma_range(env.pic, at),
            );
            &&& #[trigger] leaf_steps(base, whole, leaf, has_residual, cost)
            &&& crate::cu_search::unit_priced(
                env,
                at,
                &whole,
                &leaf,
                crate::cu_search::flag_cost(env.ctxs, &before, at, ct_depth, false),
                cost,
            )
            &&& if stop && g.allow_cu_early_terminate {
                &&& t.node == crate::cu_search::confident(leaf, DecisionConfidence::Clear)
                &&& t.cost == cost
            } else {
                split_raced(env, g, at, ct_depth, before, base, whole, leaf, cost, after, t)
            }
        };
    if split_raced(env, g, at, ct_depth, before, base, whole, leaf, cost, after, t) {
        reveal_with_fuel(split_raced, 1);
        let (kept, again, n, r) = choose|
            kept: RegionSnapshot,
            again: SearchState,
            n: nat,
            r: Race,
        |
            {
                let flag = crate::cu_search::flag_cost(env.ctxs, &before, at, ct_depth, true);
                &&& #[trigger] race_steps(kept, again, n, r)
                &&& 1 <= n <= 4
                &&& race_run(
                    env,
                    crate::quadtree::kid_places(&before, at),
                    (at.log2_size - 1) as u8,
                    (ct_depth + 1) as u8,
                    flag,
                    cost.cost,
                    again,
                    n,
                    r,
                )
                &&& if r.cost >= cost.cost {
                    &&& t.node == crate::cu_search::confident(leaf, DecisionConfidence::Clear)
                    &&& t.cost == cost
                } else {
                    &&& after == r.state
                    &&& t.node is Split
                    &&& t.node->kids == r.kids
                    &&& t.cost == (RdCost {
                        distortion: r.distortion,
                        frac_bits: (flag + r.frac_bits) as u64,
                        cost: r.cost,
                    })
                }
            };
        reveal_with_fuel(race_run, 2);
        reveal_with_fuel(crate::cu_search::race_step, 1);
        (leaf, Some(r))
    } else {
        (leaf, None)
    }
}

/// A unit is tried in four parts exactly where the caller finds that worth it.
pub proof fn law_parts_are_tried_where_worth_it<'a, L, N, T, B, P, K, E, R>(
    env: &CuEnv<'a, L, N, T, B, P, K, E, R>,
    at: Place,
    ct_depth: u8,
    before: SearchState,
    after: SearchState,
    t: CuTrial,
) where
    L: Fn(SearchState, Place, u8) -> (SearchState, CuLeaf),
    N: Fn(SearchState, Place, u8) -> (SearchState, CuLeaf),
    T: Fn(&SearchState, Place) -> (bool, EncodeStats),
    B: Fn(&SearchState, Place) -> (BlockSearchBudget, i32),
    P: Fn(u64, u64) -> u64,
    K: Fn(BlockSearchBudget, u64, u64) -> bool,
    E: Fn(&CuLeaf) -> bool,
    R: Fn(SearchState, &CuPlan, Place, u8) -> (SearchState, CuNode),

    requires
        parts_decided(env, at, ct_depth, before, after, t),
    ensures
        (forall|s: &SearchState, w: EncodeStats| !#[trigger]
            call_ensures(env.try_nxn, (s, at), (true, w))) ==> exists|
            s: SearchState,
            whole: SearchState,
            leaf: CuLeaf,
        | #[trigger]
            call_ensures(env.leaf, (s, at, ct_depth), (whole, leaf)) && t.node
                == crate::cu_search::confident(leaf, DecisionConfidence::Clear),
        (forall|s: &SearchState, w: EncodeStats| !#[trigger]
            call_ensures(env.try_nxn, (s, at), (false, w))) ==> exists|
            s: SearchState,
            coded: SearchState,
            parted: CuLeaf,
        | #[trigger] call_ensures(env.nxn, (s, at, ct_depth), (coded, parted)),
        t.node is Leaf,
{
    let (base, kept, whole, again, leaf, cost, work) = choose|
        base: RegionSnapshot,
        kept: RegionSnapshot,
        whole: SearchState,
        again: SearchState,
        leaf: CuLeaf,
        cost: RdCost,
        work: EncodeStats,
    |
        {
            &&& #[trigger] part_steps(base, kept, whole, again, leaf, cost, work)
            &&& call_ensures(
                env.leaf,
                (
                    crate::search_state::worked(before, crate::search_state::save_work(&base)),
                    at,
                    ct_depth,
                ),
                (whole, leaf),
            )
            &&& {
                ||| {
                    &&& call_ensures(env.try_nxn, (&again, at), (false, work))
                    &&& t.node == crate::cu_search::confident(leaf, DecisionConfidence::Clear)
                }
                ||| {
                    &&& call_ensures(env.try_nxn, (&again, at), (true, work))
                    &&& four_compared(
                        env,
                        at,
                        ct_depth,
                        crate::search_state::worked(again, work),
                        kept,
                        leaf,
                        cost,
                        after,
                        t,
                    )
                }
            }
        };
}

/// What is noted of a unit is found in the cells of its own square, and no other cell
/// changes: its depth by cells of 8x8.
pub proof fn law_depth_is_noted_in_place(
    before: SearchState,
    after: SearchState,
    x0: int,
    y0: int,
    log2_size: u8,
    depth: u8,
    cx: int,
    cy: int,
)
    requires
        depth_noted(before, after, x0, y0, log2_size, depth),
        3 <= log2_size <= 6,
        x0 >= 0,
        y0 >= 0,
        x0 % 8 == 0,
        y0 % 8 == 0,
        x0 + side(log2_size) <= 8 * before.maps.ct_depth_stride,
        0 <= cx < before.maps.ct_depth_stride,
        0 <= cy,
        cy * before.maps.ct_depth_stride + cx < before.maps.ct_depth_map@.len(),
    ensures
        ({
            let i = cy * before.maps.ct_depth_stride + cx;
            let inside = x0 <= 8 * cx < x0 + side(log2_size) && y0 <= 8 * cy < y0 + side(
                log2_size,
            );
            after.maps.ct_depth_map@[i] == if inside {
                depth
            } else {
                before.maps.ct_depth_map@[i]
            }
        }),
        after.maps.mode_map@ == before.maps.mode_map@,
        after.frame == before.frame && after.tu_depth_map == before.tu_depth_map,
{
    vstd::arithmetic::power2::lemma2_to64();
    assert(side(3) == 8 && side(4) == 16 && side(5) == 32 && side(6) == 64);
    assert(log2_size == 3 || log2_size == 4 || log2_size == 5 || log2_size == 6);
    lemma_cell_filled(
        before.maps.ct_depth_stride as int,
        x0 / 8,
        y0 / 8,
        side(log2_size) / 8,
        cx,
        cy,
    );
}

pub proof fn lemma_cell_filled(stride: int, sx: int, sy: int, n: int, cx: int, cy: int)
    requires
        0 <= sx,
        0 <= sy,
        sx + n <= stride,
        0 <= cx < stride,
        0 <= cy,
    ensures
        cy * stride + cx >= 0,
        covers(stride, sx, sy, n, cy * stride + cx) <==> sx <= cx < sx + n && sy <= cy < sy + n,
{
    let i = cy * stride + cx;
    assert(i >= 0) by (nonlinear_arith)
        requires
            i == cy * stride + cx,
            cy >= 0,
            cx >= 0,
            stride > cx,
    ;
    if sx <= cx < sx + n && sy <= cy < sy + n {
        assert(i == cell_index(stride, cx, cy));
    } else if covers(stride, sx, sy, n, i) {
        let (x, y) = choose|x: int, y: int|
            sx <= x < sx + n && sy <= y < sy + n && i == #[trigger] cell_index(stride, x, y);
        vstd::arithmetic::div_mod::lemma_fundamental_div_mod_converse(i, stride, cy, cx);
        vstd::arithmetic::div_mod::lemma_fundamental_div_mod_converse(i, stride, y, x);
    }
}

/// A unit's mode is noted in the cells of its own square, by 4x4, and no other cell
/// changes.
pub proof fn law_mode_is_noted_in_place(
    before: SearchState,
    after: SearchState,
    x0: int,
    y0: int,
    log2_size: u8,
    mode: u8,
    cx: int,
    cy: int,
)
    requires
        mode_noted(before, after, x0, y0, log2_size, mode),
        2 <= log2_size <= 6,
        x0 >= 0,
        y0 >= 0,
        x0 % 4 == 0,
        y0 % 4 == 0,
        x0 + side(log2_size) <= 4 * before.maps.mode_stride,
        0 <= cx < before.maps.mode_stride,
        0 <= cy,
        cy * before.maps.mode_stride + cx < before.maps.mode_map@.len(),
    ensures
        ({
            let i = cy * before.maps.mode_stride + cx;
            let inside = x0 <= 4 * cx < x0 + side(log2_size) && y0 <= 4 * cy < y0 + side(
                log2_size,
            );
            after.maps.mode_map@[i] == if inside {
                mode
            } else {
                before.maps.mode_map@[i]
            }
        }),
        after.maps.ct_depth_map@ == before.maps.ct_depth_map@,
        after.frame == before.frame && after.tu_depth_map == before.tu_depth_map,
{
    vstd::arithmetic::power2::lemma2_to64();
    assert(side(2) == 4 && side(3) == 8 && side(4) == 16 && side(5) == 32 && side(6) == 64);
    assert(log2_size == 2 || log2_size == 3 || log2_size == 4 || log2_size == 5 || log2_size == 6);
    lemma_cell_filled(
        before.maps.mode_stride as int,
        x0 / 4,
        y0 / 4,
        side(log2_size) / 4,
        cx,
        cy,
    );
}

/// Each setting of a unit goes to its own component: the first QP to luma, the second to
/// chroma.
pub proof fn law_settings_of_a_unit(cat: u8, luma: u8, chroma: u8, pred: u8, qp: (i32, i32))
    ensures
        settings_of(cat, luma, chroma, pred, qp).luma_mode == luma,
        settings_of(cat, luma, chroma, pred, qp).chroma_mode == chroma,
        settings_of(cat, luma, chroma, pred, qp).chroma_pred == pred,
        settings_of(cat, luma, chroma, pred, qp).qp_y == qp.0,
        settings_of(cat, luma, chroma, pred, qp).qp_c == qp.1,
        settings_of(cat, luma, chroma, pred, qp).cat == cat,
{
}

/// A unit of four parts takes its own mode and most probable modes from the first of them,
/// and its tree's chroma flags from the chroma that follows them.
pub proof fn law_unit_of_four_parts(
    leaf: CuLeaf,
    modes: Seq<u8>,
    mpms: Seq<[u8; 3]>,
    mode_idx: u8,
    pc: Option<crate::syntax::ParentChromaTu>,
    kids: Seq<Tt>,
)
    requires
        parted_leaf(&leaf, modes, mpms, mode_idx, pc, kids),
    ensures
        leaf.luma_mode == modes[0] && leaf.mpm == mpms[0],
        leaf.nxn is Some && leaf.nxn.unwrap().luma_modes@ == modes && leaf.nxn.unwrap().mpms@
            == mpms,
        leaf.chroma_mode_idx == mode_idx,
        leaf.tt is Split && leaf.tt.size() == 3 && leaf.tt.depth() == 0,
        leaf.tt->kids@ == kids && leaf.tt->parent_chroma == pc,
        pc matches Some(c) ==> leaf.tt.spec_cbf_cb() == c.cb.cbf && leaf.tt.spec_cbf_cr()
            == c.cr.cbf,
        pc is None ==> !leaf.tt.spec_cbf_cb() && !leaf.tt.spec_cbf_cr(),
        !leaf.tt.spec_cbf_cb1() && !leaf.tt.spec_cbf_cr1(),
{
}

/// A part is coded as one 4x4 leaf at the first depth, in its own mode, and its most
/// probable modes are those that the parts before it lead to.
pub proof fn law_part_is_coded_as_a_leaf<'a, F, Q, D>(
    env: &CodeEnv<'a, F, Q, D>,
    p: (int, int),
    qp: (i32, i32),
    mode: u8,
    before: SearchState,
    after: SearchState,
    mpm: [u8; 3],
    kid: Tt,
) where
    F: Fn(&SearchState, BlockTask) -> BlockOutcome,
    Q: Fn(u32, u32) -> (i32, i32),
    D: Fn(u8) -> u8,

    requires
        part_coded(env, p, qp, mode, before, after, mpm, kid),
    ensures
        kid is Leaf && kid.size() == 2 && kid.depth() == 1,
        kid->Leaf_0.luma_mode == mode,
        mpm@ == crate::unit_modes::mpm_at(
            &before.maps,
            before.maps.mode_map@,
            p.0 as u32,
            p.1 as u32,
        ),
{
}

/// A part's modes are screened, and each is held against the cheapest of them: a mode that
/// is not close is not tried again, and of those that are the cheapest wins.
pub proof fn law_close_part_modes_are_tried_again<'a, F, Q, D, S, T, K, R, X, B>(
    env: &NxnEnv<'a, F, Q, D, S, T, K, R, X, B>,
    st: &SearchState,
    at: Place,
    modes: Seq<u8>,
    costs: Seq<u64>,
    tried: EncodeStats,
    mode: u8,
    work: EncodeStats,
    i: int,
    cheapest: int,
) -> (r: (Seq<bool>, Seq<Tried>)) where
    F: Fn(&SearchState, BlockTask) -> BlockOutcome,
    Q: Fn(u32, u32) -> (i32, i32),
    D: Fn(u8) -> u8,
    S: Fn(&SearchState, Place, u8) -> u64,
    T: Fn(&SearchState, Place, u8, bool) -> Tried,
    K: Fn(&SearchState, Place, u64, u64) -> bool,
    R: Fn(&SearchState, Place, u8, u8) -> u64,
    X: Fn(&SearchState, Place, u8, u8, EvalKind) -> Tried,
    B: Fn(&SearchState, Place) -> BlockSearchBudget,

    requires
        part_rechecked(env, st, at, modes, costs, tried, mode, work),
        costs.len() == modes.len(),
        0 <= i < modes.len(),
        0 <= cheapest < costs.len(),
        forall|j: int| 0 <= j < costs.len() ==> costs[cheapest] <= #[trigger] costs[j],
    ensures
        r.0.len() == modes.len() && r.1.len() == modes.len(),
        call_ensures(env.close, (st, at, costs[i], costs[cheapest]), r.0[i]),
        r.0[i] ==> call_ensures(env.trial, (st, at, modes[i], true), r.1[i]),
        mode == nxn_winner(
            modes,
            r.0,
            crate::mode_search::costs_of(r.1),
            modes.len(),
        ).item,
{
    let (close, exact) = choose|close: Seq<bool>, exact: Seq<Tried>|
        {
            &&& #[trigger] part_rechecks(close, exact)
            &&& close.len() == modes.len()
            &&& exact.len() == modes.len()
            &&& forall|i: int|
                0 <= i < modes.len() ==> call_ensures(
                    env.close,
                    (st, at, costs[i], least(costs, costs.len())),
                    #[trigger] close[i],
                )
            &&& forall|i: int|
                0 <= i < modes.len() && close[i] ==> call_ensures(
                    env.trial,
                    (st, at, modes[i], true),
                    #[trigger] exact[i],
                )
            &&& mode == nxn_winner(
                modes,
                close,
                crate::mode_search::costs_of(exact),
                modes.len(),
            ).item
        };
    crate::unit_laws::law_least_is_least(costs, costs.len(), cheapest);
    let j = choose|j: int|
        0 <= j < costs.len() && #[trigger] costs[j] == least(costs, costs.len());
    assert(costs[cheapest] <= costs[j]);
    assert(close[i] == close[i]);
    assert(exact[i] == exact[i]);
    (close, exact)
}

/// A change that the tables know costs what they tell. One that clears the only level costs
/// nothing, and every other is counted anew.
pub proof fn law_price_of_a_change<D, T, O, F, A, C>(
    env: &RefineEnv<D, T, O, F, A, C>,
    levels: &Vec<i16>,
    idx: usize,
    other: i16,
    told: Option<u64>,
    bits: u64,
) where
    D: Fn(usize, i16) -> u64,
    T: Fn(&Vec<i16>) -> u64,
    O: Fn(&Vec<i16>, usize, i16) -> Option<u64>,
    F: Fn(&Vec<i16>, usize, i16) -> u64,
    A: Fn(&Vec<i16>, usize) -> bool,
    C: Fn(u64, u64) -> u64,

    requires
        change_priced(env, levels, idx, other, told, bits),
    ensures
        call_ensures(env.changed, (levels, idx, other), told),
        told is Some ==> told == Some(bits),
        told is None && other == 0 && crate::block_eval::nonzeros(levels@, levels@.len()) == 1
            ==> bits == 0,
        told is None && !(other == 0 && crate::block_eval::nonzeros(levels@, levels@.len()) == 1)
            ==> call_ensures(env.full, (levels, idx, other), bits),
{
}

/// A screen says that it forced the most probable mode exactly where it was scored and
/// would not have been kept by its cost or its place.
pub proof fn law_when_a_mode_is_forced(sorted: Seq<Scored<u8>>, mpm0: u8, max_cands: int)
    requires
        sorted.len() > 0,
        max_cands >= sorted.len(),
        crate::ranking::costs_ascend(sorted),
    ensures
        mode_forced(sorted, mpm0, max_cands) <==> exists|i: int|
            0 <= i < sorted.len() && (#[trigger] sorted[i]).item == mpm0 && sorted[i].cost
                > padded(sorted[0].cost),
{
    let limit = padded(sorted[0].cost);
    let near = near_best(sorted, mpm0);
    lemma_near_short(sorted, limit, mpm0);
    assert(near.take(near.len() as int) =~= near);
    if exists|i: int|
        0 <= i < sorted.len() && (#[trigger] sorted[i]).item == mpm0 && sorted[i].cost > limit {
        let i = choose|i: int|
            0 <= i < sorted.len() && (#[trigger] sorted[i]).item == mpm0 && sorted[i].cost > limit;
        crate::scan_laws::law_near_a_limit(sorted, limit, mpm0, sorted[i]);
        assert(sorted.contains(sorted[i]));
        let k = choose|k: int| 0 <= k < near.len() && near[k] == sorted[i];
        assert(near[k].item == mpm0 && near[k].cost > limit);
    }
    if crate::rough::dear_mode(near, mpm0, limit) {
        let k = choose|k: int|
            0 <= k < near.len() && (#[trigger] near[k]).item == mpm0 && near[k].cost > limit;
        crate::scan_laws::law_near_a_limit(sorted, limit, mpm0, near[k]);
        assert(near.contains(near[k]));
        let i = choose|i: int| 0 <= i < sorted.len() && sorted[i] == near[k];
        assert(sorted[i].item == mpm0);
    }
    if has_mode(sorted, mpm0) {
        let i = choose|i: int| 0 <= i < sorted.len() && (#[trigger] sorted[i]).item == mpm0;
        crate::scan_laws::law_near_a_limit(sorted, limit, mpm0, sorted[i]);
        assert(sorted.contains(sorted[i]));
        let k = choose|k: int| 0 <= k < near.len() && near[k] == sorted[i];
        assert(near[k].item == mpm0);
    }
}

proof fn lemma_near_short(s: Seq<Scored<u8>>, limit: u64, mpm0: u8)
    ensures
        crate::rough::near_limit(s, limit, mpm0).len() <= s.len(),
    decreases s.len(),
{
    if s.len() > 0 {
        lemma_near_short(s.drop_last(), limit, mpm0);
    }
}

/// The coarse modes that a progressive scan keeps are steps of its sweep. With one region or
/// more they include every step up to horizontal's side, and with none there are two at
/// most.
pub proof fn law_kept_coarse_modes(step: int, regions: int, m: u8)
    requires
        1 <= step <= 7,
        0 <= regions,
    ensures
        kept_modes(step, regions).contains(m) ==> stepped(step).contains(m),
        regions >= 1 && stepped(step).contains(m) && 2 <= m <= 9 ==> kept_modes(
            step,
            regions,
        ).contains(m),
        regions == 0 ==> kept_modes(step, regions).len() <= 2,
        kept_modes(step, regions).len() >= 1,
{
    let coarse = stepped(step);
    let limit = crate::math::min_int(regions, 3);
    let h = crate::effort::keep_direction(Seq::empty(), coarse, 2, 9, limit);
    let d = crate::effort::keep_direction(h, coarse, 10, 25, limit);
    let v = crate::effort::keep_direction(d, coarse, 26, 34, limit);
    lemma_between(coarse, 2, 9, m);
    lemma_between(coarse, 10, 25, m);
    lemma_between(coarse, 26, 34, m);
    lemma_sum_contains(Seq::empty(), modes_between(coarse, 2, 9), m);
    lemma_sum_contains(h, modes_between(coarse, 10, 25), m);
    lemma_sum_contains(d, modes_between(coarse, 26, 34), m);
    assert(coarse.len() >= 1) by (nonlinear_arith)
        requires
            coarse.len() == (32int / step + 1) as nat,
            1 <= step <= 7,
    ;
    assert(coarse[0] == 2) by {
        assert(0 * step == 0);
    }
    if v.len() == 0 {
        let two = crate::math::min_int(2, coarse.len() as int);
        if coarse.take(two).contains(m) {
            let i = choose|i: int| 0 <= i < two && coarse.take(two)[i] == m;
            assert(coarse[i] == m);
        }
        if regions >= 1 {
            lemma_between(coarse, 2, 9, 2);
            assert(coarse.contains(coarse[0]));
            assert(modes_between(coarse, 2, 9).contains(2));
            assert(h =~= modes_between(coarse, 2, 9));
            assert(h.len() > 0);
            assert(false);
        }
    }
}

proof fn lemma_between(modes: Seq<u8>, lo: u8, hi: u8, m: u8)
    ensures
        modes_between(modes, lo, hi).contains(m) <==> modes.contains(m) && lo <= m <= hi,
{
    broadcast use vstd::seq_lib::group_filter_ensures;

    let keep = |k: u8| lo <= k <= hi;
    let f = modes.filter(keep);
    assert(modes_between(modes, lo, hi) == f);
    if f.contains(m) {
        let i = choose|i: int| 0 <= i < f.len() && f[i] == m;
        assert(keep(f[i]));
        modes.lemma_filter_contains_rev(keep, m);
    }
    if modes.contains(m) && lo <= m <= hi {
        assert(keep(m));
        let i = choose|i: int| 0 <= i < modes.len() && modes[i] == m;
        assert(f.contains(modes[i]));
    }
}

proof fn lemma_sum_contains(a: Seq<u8>, b: Seq<u8>, m: u8)
    ensures
        (a + b).contains(m) <==> a.contains(m) || b.contains(m),
{
    if a.contains(m) {
        let i = choose|i: int| 0 <= i < a.len() && a[i] == m;
        assert((a + b)[i] == m);
    }
    if b.contains(m) {
        let i = choose|i: int| 0 <= i < b.len() && b[i] == m;
        assert((a + b)[a.len() + i] == m);
    }
}

} // verus!
