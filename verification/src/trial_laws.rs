//! What holds of trials and of what is built from them: what a candidate is charged, that
//! parts are searched in turn, that a unit's mode is one that was tried, and that refined
//! levels keep their signs.

use vstd::prelude::*;

use crate::arith_decode::bin_of;
use crate::block_eval::{Pricing, Quantiser};
use crate::block_laws::{distance, law_error_is_distance, samples_small};
use crate::budget::BlockSearchBudget;
use crate::cabac::bin_cost;
use crate::candidate_cost::{
    bits_of, chroma_candidate_tried, chroma_tried, error_of, kind_policy, luma_bits,
    luma_candidate_tried, part_candidate_tried, tried,
};
use crate::cost::items_cost;
use crate::cu_leaf::{
    all_steps, all_tried, depth_noted, leaf_built, leaf_steps, mode_built, trials_run, KeptLeaf,
    LeafQuestions, LeafSettings,
};
use crate::final_code::BlockTask;
use crate::geometry::{side, spec_chroma_mode};
use crate::items::{chroma_mode_items, luma_mode_items};
use crate::leaf_eval::{block_evaluated, EvalEnv};
use crate::mode_search::{
    costs_of, exact_winner, luma_ranked, ranked, ranking_known, recheck_modes, LumaScreen,
    LumaScreening,
};
use crate::nxn_search::{
    before_part, nxn_searched, part_decided, part_place, parts_searched, search_steps, NxnEnv,
};
use crate::policy::{EvalKind, EvalPolicy, RdoqPolicy, ResidualBitPolicy};
use crate::ranking::{by_cost, law_sorted, lemma_sorted_contains, place_of};
use crate::refine::{
    block_refined, level_refined, level_winner, levels_refined, other_levels, pass_refined,
    pass_start, passes_refined, refined_in, refining, tables_told, tried_costs, RefineEnv,
    Refining,
};
use crate::replay::part_coded;
use crate::rough::{LumaModePlan, Place};
use crate::search_state::{worked, RegionSnapshot, SearchState};
use crate::source::SourcePicture;
use crate::stats::{EncodeStats, Tried};
use crate::syntax::{CuLeaf, CuNode, Tt};
use crate::tu_search::BlockOutcome;
use crate::wins::{kids_nodes_of, nodes_of, NodeAt};

verus! {

/// A luma candidate costs the price of how far its block's samples are from the source, and
/// of the bits of its mode, its flag and its levels. The block is the luma square of the
/// place, in the candidate's mode.
pub proof fn law_cost_of_a_luma_candidate<'a, W, A, T, Q, H, I, X, P>(
    env: &EvalEnv<'a, A, T, Q, H, I, X>,
    world: &W,
    states: Seq<int>,
    at: Place,
    mpm: [u8; 3],
    mode: u8,
    qp: i32,
    kind: EvalKind,
    price: P,
    r: Tried,
) -> (out: BlockOutcome) where
    A: Fn(&W, BlockTask) -> Vec<u16>,
    T: Fn(&Vec<i16>, BlockTask, bool) -> Vec<i16>,
    Q: Fn(&Vec<i16>, BlockTask, Quantiser) -> (Vec<i16>, u32),
    H: Fn(Vec<i16>, &Vec<i16>, BlockTask, u32) -> (Vec<i16>, u32),
    I: Fn(&Vec<i16>, BlockTask, bool) -> Vec<i16>,
    X: Fn(&Vec<i16>, BlockTask, Pricing) -> u64,
    P: Fn(u64, u64) -> u64,

    requires
        luma_candidate_tried(env, world, states, at, mpm, mode, qp, kind, price, r),
        samples_small(
            env,
            world,
            (BlockTask { x: at.x, y: at.y, log2_size: at.log2_size, c_idx: 0, mode, qp }),
        ),
    ensures
        ({
            let t = BlockTask {
                x: at.x,
                y: at.y,
                log2_size: at.log2_size,
                c_idx: 0,
                mode,
                qp,
            };
            let far = distance(env.pic, t, out.samples@, out.samples@.len());
            let bits = luma_bits(
                states,
                mpm,
                mode,
                at.log2_size,
                out.coded.cbf,
                out.coded.frac_bits,
            );
            &&& far == out.distortion
            &&& call_ensures(price, (out.distortion, bits as u64), r.cost)
            &&& r.work == out.work
        }),
{
    let t = BlockTask { x: at.x, y: at.y, log2_size: at.log2_size, c_idx: 0, mode, qp };
    let policy = kind_policy(kind, crate::candidate_cost::luma_bucket(kind));
    let out = choose|out: BlockOutcome|
        {
            &&& #[trigger] tried(out)
            &&& block_evaluated(env, world, t, policy, out)
            &&& call_ensures(
                price,
                (
                    out.distortion,
                    luma_bits(
                        states,
                        mpm,
                        mode,
                        at.log2_size,
                        out.coded.cbf,
                        out.coded.frac_bits,
                    ) as u64,
                ),
                r.cost,
            )
            &&& r.work == out.work
        };
    law_error_is_distance(env, world, t, policy, out);
    out
}

/// A part's candidate pays for its mode, for its flag in the context of deeper blocks, and
/// for its levels if any is coded.
pub proof fn law_cost_of_a_part<'a, W, A, T, Q, H, I, X, P>(
    env: &EvalEnv<'a, A, T, Q, H, I, X>,
    world: &W,
    states: Seq<int>,
    at: Place,
    mpm: [u8; 3],
    mode: u8,
    qp: i32,
    policy: EvalPolicy,
    price: P,
    r: Tried,
) -> (out: BlockOutcome) where
    A: Fn(&W, BlockTask) -> Vec<u16>,
    T: Fn(&Vec<i16>, BlockTask, bool) -> Vec<i16>,
    Q: Fn(&Vec<i16>, BlockTask, Quantiser) -> (Vec<i16>, u32),
    H: Fn(Vec<i16>, &Vec<i16>, BlockTask, u32) -> (Vec<i16>, u32),
    I: Fn(&Vec<i16>, BlockTask, bool) -> Vec<i16>,
    X: Fn(&Vec<i16>, BlockTask, Pricing) -> u64,
    P: Fn(u64, u64) -> u64,

    requires
        part_candidate_tried(env, world, states, at, mpm, mode, qp, policy, price, r),
    ensures
        ({
            let t = BlockTask {
                x: at.x,
                y: at.y,
                log2_size: at.log2_size,
                c_idx: 0,
                mode,
                qp,
            };
            let own = items_cost(states, luma_mode_items(mpm, mode));
            &&& block_evaluated(env, world, t, policy, out)
            &&& out.coded.cbf ==> call_ensures(
                price,
                (
                    out.distortion,
                    (own + bin_cost(states[13], 1) + out.coded.frac_bits) as u64,
                ),
                r.cost,
            )
            &&& !out.coded.cbf ==> call_ensures(
                price,
                (out.distortion, (own + bin_cost(states[13], 0)) as u64),
                r.cost,
            )
        }),
{
    choose|out: BlockOutcome|
        {
            &&& #[trigger] tried(out)
            &&& block_evaluated(
                env,
                world,
                crate::candidate_cost::luma_block(at, mode, qp),
                policy,
                out,
            )
            &&& call_ensures(
                price,
                (
                    out.distortion,
                    (items_cost(states, luma_mode_items(mpm, mode)) + bin_cost(
                        states[crate::contexts::CBF_LUMA as int],
                        bin_of(out.coded.cbf),
                    ) + if out.coded.cbf {
                        out.coded.frac_bits as int
                    } else {
                        0
                    }) as u64,
                ),
                r.cost,
            )
        }
}

/// A chroma candidate costs the price of all its blocks' errors, and of all their bits and
/// its mode's. The blocks are Cb and Cr, in turn, and nothing of them is committed.
pub proof fn law_cost_of_a_chroma_candidate<'a, W, A, T, Q, H, I, X, P>(
    env: &EvalEnv<'a, A, T, Q, H, I, X>,
    world: &W,
    states: Seq<int>,
    cx: int,
    cy: int,
    clog2: u8,
    count: u8,
    mode_idx: u8,
    pred: u8,
    qp: i32,
    kind: EvalKind,
    price: P,
    r: Tried,
) -> (o: (Seq<BlockOutcome>, EvalPolicy)) where
    A: Fn(&W, BlockTask) -> Vec<u16>,
    T: Fn(&Vec<i16>, BlockTask, bool) -> Vec<i16>,
    Q: Fn(&Vec<i16>, BlockTask, Quantiser) -> (Vec<i16>, u32),
    H: Fn(Vec<i16>, &Vec<i16>, BlockTask, u32) -> (Vec<i16>, u32),
    I: Fn(&Vec<i16>, BlockTask, bool) -> Vec<i16>,
    X: Fn(&Vec<i16>, BlockTask, Pricing) -> u64,
    P: Fn(u64, u64) -> u64,

    requires
        chroma_candidate_tried(
            env,
            world,
            states,
            cx,
            cy,
            clog2,
            count,
            mode_idx,
            pred,
            qp,
            kind,
            price,
            r,
        ),
        count >= 1,
        0 <= cx <= 0x7fff_ffff,
        0 <= cy <= 0x7fff_ffff,
    ensures
        ({
            let (outs, policy) = o;
            let n = outs.len();
            &&& n == 2 * count
            &&& policy.rdoq == RdoqPolicy::Off <==> kind == EvalKind::CheapTrial
            &&& policy.bits == ResidualBitPolicy::Approx <==> kind == EvalKind::CheapTrial
            &&& !policy.commit
            &&& block_evaluated(
                env,
                world,
                (BlockTask {
                    x: cx as u32,
                    y: cy as u32,
                    log2_size: clog2,
                    c_idx: 1,
                    mode: pred,
                    qp,
                }),
                policy,
                outs[0],
            )
            &&& block_evaluated(
                env,
                world,
                (BlockTask {
                    x: cx as u32,
                    y: cy as u32,
                    log2_size: clog2,
                    c_idx: 2,
                    mode: pred,
                    qp,
                }),
                policy,
                outs[1],
            )
            &&& call_ensures(
                price,
                (
                    error_of(outs, n) as u64,
                    (bits_of(outs, n) + items_cost(states, chroma_mode_items(mode_idx))) as u64,
                ),
                r.cost,
            )
        }),
{
    let policy = EvalPolicy {
        commit: false,
        ..kind_policy(kind, crate::candidate_cost::chroma_bucket(kind))
    };
    let outs = choose|outs: Seq<BlockOutcome>|
        {
            &&& #[trigger] chroma_tried(outs)
            &&& outs.len() == 2 * count
            &&& forall|i: int|
                0 <= i < outs.len() ==> block_evaluated(
                    env,
                    world,
                    crate::candidate_cost::chroma_block(cx, cy, clog2, pred, qp, i),
                    policy,
                    #[trigger] outs[i],
                )
            &&& call_ensures(
                price,
                (
                    error_of(outs, outs.len()) as u64,
                    (bits_of(outs, outs.len()) + items_cost(states, chroma_mode_items(mode_idx)))
                        as u64,
                ),
                r.cost,
            )
        };
    assert(0 * side(clog2) == 0);
    assert(outs[0] == outs[0]);
    assert(outs[1] == outs[1]);
    (outs, policy)
}

/// A 4x4 part was decided on a state, and coded there in the mode that was decided.
#[verifier::opaque]
pub open spec fn part_searched<'a, F, Q, D, S, T, K, R, X, B>(
    env: &NxnEnv<'a, F, Q, D, S, T, K, R, X, B>,
    x: int,
    y: int,
    qp: (i32, i32),
    mode: u8,
    st: SearchState,
    work: EncodeStats,
    next: SearchState,
    mpm: [u8; 3],
    kid: Tt,
) -> bool where
    F: Fn(&SearchState, BlockTask) -> BlockOutcome,
    Q: Fn(u32, u32) -> (i32, i32),
    D: Fn(u8) -> u8,
    S: Fn(&SearchState, Place, u8) -> u64,
    T: Fn(&SearchState, Place, u8, bool) -> Tried,
    K: Fn(&SearchState, Place, u64, u64) -> bool,
    R: Fn(&SearchState, Place, u8, u8) -> u64,
    X: Fn(&SearchState, Place, u8, u8, EvalKind) -> Tried,
    B: Fn(&SearchState, Place) -> BlockSearchBudget,
 {
    &&& part_decided(env, &st, (Place { x: x as u32, y: y as u32, log2_size: 2 }), mode, work)
    &&& part_coded(&env.coding, (x, y), qp, mode, worked(st, work), next, mpm, kid)
}

proof fn lemma_last_part<'a, F, Q, D, S, T, K, R, X, B>(
    env: &NxnEnv<'a, F, Q, D, S, T, K, R, X, B>,
    at: Place,
    qp: (i32, i32),
    modes: Seq<u8>,
    before: SearchState,
    after: SearchState,
    mpms: Seq<[u8; 3]>,
    kids: Seq<Tt>,
    n: nat,
) -> (r: (SearchState, EncodeStats)) where
    F: Fn(&SearchState, BlockTask) -> BlockOutcome,
    Q: Fn(u32, u32) -> (i32, i32),
    D: Fn(u8) -> u8,
    S: Fn(&SearchState, Place, u8) -> u64,
    T: Fn(&SearchState, Place, u8, bool) -> Tried,
    K: Fn(&SearchState, Place, u64, u64) -> bool,
    R: Fn(&SearchState, Place, u8, u8) -> u64,
    X: Fn(&SearchState, Place, u8, u8, EvalKind) -> Tried,
    B: Fn(&SearchState, Place) -> BlockSearchBudget,

    requires
        parts_searched(env, at, qp, modes, before, after, mpms, kids, n),
        0 < n <= 4,
    ensures
        parts_searched(env, at, qp, modes, before, r.0, mpms, kids, (n - 1) as nat),
        part_searched(
            env,
            at.x + 4 * ((n - 1) % 2),
            at.y + 4 * ((n - 1) / 2),
            qp,
            modes[n - 1],
            r.0,
            r.1,
            after,
            mpms[n - 1],
            kids[n - 1],
        ),
{
    reveal(part_searched);
    choose|mid: SearchState, work: EncodeStats|
        {
            &&& #[trigger] before_part(mid, work)
            &&& parts_searched(env, at, qp, modes, before, mid, mpms, kids, (n - 1) as nat)
            &&& part_decided(env, &mid, part_place(at, n - 1), modes[n - 1], work)
            &&& part_coded(
                &env.coding,
                crate::final_code::quadrant(at.x as int, at.y as int, 4, n - 1),
                qp,
                modes[n - 1],
                worked(mid, work),
                after,
                mpms[n - 1],
                kids[n - 1],
            )
        }
}

/// The parts of a unit are searched in turn, row by row, each on what the parts before it
/// left.
pub proof fn law_parts_are_searched_in_turn<'a, F, Q, D, S, T, K, R, X, B>(
    env: &NxnEnv<'a, F, Q, D, S, T, K, R, X, B>,
    at: Place,
    qp: (i32, i32),
    modes: Seq<u8>,
    before: SearchState,
    after: SearchState,
    mpms: Seq<[u8; 3]>,
    kids: Seq<Tt>,
) -> (r: (Seq<SearchState>, Seq<EncodeStats>)) where
    F: Fn(&SearchState, BlockTask) -> BlockOutcome,
    Q: Fn(u32, u32) -> (i32, i32),
    D: Fn(u8) -> u8,
    S: Fn(&SearchState, Place, u8) -> u64,
    T: Fn(&SearchState, Place, u8, bool) -> Tried,
    K: Fn(&SearchState, Place, u64, u64) -> bool,
    R: Fn(&SearchState, Place, u8, u8) -> u64,
    X: Fn(&SearchState, Place, u8, u8, EvalKind) -> Tried,
    B: Fn(&SearchState, Place) -> BlockSearchBudget,

    requires
        parts_searched(env, at, qp, modes, before, after, mpms, kids, 4),
    ensures
        ({
            let (st, work) = r;
            let (x, y) = (at.x as int, at.y as int);
            &&& st[0] == before
            &&& part_searched(env, x, y, qp, modes[0], st[0], work[0], st[1], mpms[0], kids[0])
            &&& part_searched(env, x + 4, y, qp, modes[1], st[1], work[1], st[2], mpms[1], kids[1])
            &&& part_searched(env, x, y + 4, qp, modes[2], st[2], work[2], st[3], mpms[2], kids[2])
            &&& part_searched(
                env,
                x + 4,
                y + 4,
                qp,
                modes[3],
                st[3],
                work[3],
                after,
                mpms[3],
                kids[3],
            )
        }),
{
    let (s3, w3) = lemma_last_part(env, at, qp, modes, before, after, mpms, kids, 4);
    let (s2, w2) = lemma_last_part(env, at, qp, modes, before, s3, mpms, kids, 3);
    let (s1, w1) = lemma_last_part(env, at, qp, modes, before, s2, mpms, kids, 2);
    let (s0, w0) = lemma_last_part(env, at, qp, modes, before, s1, mpms, kids, 1);
    assert(s0 == before);
    (seq![s0, s1, s2, s3], seq![w0, w1, w2, w3])
}

/// The chroma of a unit of four parts is coded in the mode that its index selects next to
/// the mode of the first part.
pub proof fn law_chroma_of_four_parts<'a, F, Q, D, S, T, K, R, X, B>(
    env: &NxnEnv<'a, F, Q, D, S, T, K, R, X, B>,
    at: Place,
    ct_depth: u8,
    before: SearchState,
    after: SearchState,
    leaf: CuLeaf,
) -> (pred: u8) where
    F: Fn(&SearchState, BlockTask) -> BlockOutcome,
    Q: Fn(u32, u32) -> (i32, i32),
    D: Fn(u8) -> u8,
    S: Fn(&SearchState, Place, u8) -> u64,
    T: Fn(&SearchState, Place, u8, bool) -> Tried,
    K: Fn(&SearchState, Place, u64, u64) -> bool,
    R: Fn(&SearchState, Place, u8, u8) -> u64,
    X: Fn(&SearchState, Place, u8, u8, EvalKind) -> Tried,
    B: Fn(&SearchState, Place) -> BlockSearchBudget,

    requires
        nxn_searched(env, at, ct_depth, before, after, leaf),
    ensures
        leaf.nxn is Some,
        leaf.luma_mode == leaf.nxn.unwrap().luma_modes@[0],
        call_ensures(
            env.coding.pred,
            (spec_chroma_mode(leaf.luma_mode, leaf.chroma_mode_idx),),
            pred,
        ),
        leaf.tt.size() == 3 && leaf.tt is Split,
{
    let (marked, coded, qp, chroma, pred, modes, mpms, kids, pc, work) = choose|
        marked: SearchState,
        coded: SearchState,
        qp: (i32, i32),
        chroma: crate::mode_search::ChromaModePlan,
        pred: u8,
        modes: Seq<u8>,
        mpms: Seq<[u8; 3]>,
        kids: Seq<Tt>,
        pc: Option<crate::syntax::ParentChromaTu>,
        work: EncodeStats,
    |
        {
            &&& #[trigger] search_steps(
                marked,
                coded,
                qp,
                chroma,
                pred,
                modes,
                mpms,
                kids,
                pc,
                work,
            )
            &&& crate::mode_search::chroma_decided(
                &coded,
                Place { x: at.x, y: at.y, log2_size: 3 },
                env.coding.pic.cat,
                modes[0],
                env.rough,
                env.chroma_trial,
                env.close,
                env.chroma,
                chroma,
                work,
            )
            &&& call_ensures(env.coding.pred, (chroma.mode,), pred)
            &&& crate::replay::parted_leaf(&leaf, modes, mpms, chroma.mode_idx, pc, kids)
        };
    crate::unit_laws::law_chroma_mode_fits_its_index(
        &coded,
        Place { x: at.x, y: at.y, log2_size: 3 },
        env.coding.pic.cat,
        modes[0],
        env.rough,
        env.chroma_trial,
        env.close,
        env.chroma,
        chroma,
        work,
    );
    pred
}

/// Whichever way a unit's mode is ranked, it is one of the candidates.
pub proof fn law_ranked_mode_is_a_candidate<W, T, K>(
    world: &W,
    at: Place,
    trial: T,
    close: K,
    s: LumaScreening,
    screen: LumaScreen,
    candidates: Seq<u8>,
    mode: u8,
    work: EncodeStats,
) where T: Fn(&W, Place, u8, LumaScreen) -> Tried, K: Fn(&W, Place, u64, u64) -> bool
    requires
        luma_ranked(world, at, trial, close, s, screen, candidates, mode, work),
        candidates.len() > 0,
    ensures
        candidates.contains(mode),
{
    let (outs, close_runner_up, close_third, exact) = choose|
        outs: Seq<Tried>,
        close_runner_up: bool,
        close_third: bool,
        exact: Seq<Tried>,
    |
        {
            let seen = ranked(candidates, costs_of(outs));
            let filler = (candidates[0], 1usize);
            let again = recheck_modes(
                s,
                place_of(seen, 0, filler).item.0,
                place_of(seen, 1, filler).item.0,
                place_of(seen, 2, filler).item.0,
                close_runner_up,
                close_third,
            );
            &&& #[trigger] ranking_known(outs, close_runner_up, close_third, exact)
            &&& exact.len() == again.len()
            &&& mode == if again.len() == 0 {
                place_of(seen, 0, filler).item.0
            } else {
                exact_winner(again, costs_of(exact))
            }
        };
    let seen = ranked(candidates, costs_of(outs));
    let filler = (candidates[0], 1usize);
    let again = recheck_modes(
        s,
        place_of(seen, 0, filler).item.0,
        place_of(seen, 1, filler).item.0,
        place_of(seen, 2, filler).item.0,
        close_runner_up,
        close_third,
    );
    lemma_placed(candidates, costs_of(outs), 0);
    lemma_placed(candidates, costs_of(outs), 1);
    lemma_placed(candidates, costs_of(outs), 2);
    if again.len() > 0 {
        let w = crate::choice_laws::law_exact_trials_decide(again, costs_of(exact));
        assert(w == 0 || w == 1 || w == 2);
    }
}

proof fn lemma_placed(candidates: Seq<u8>, costs: Seq<u64>, k: int)
    requires
        candidates.len() > 0,
        0 <= k,
    ensures
        candidates.contains(
            place_of(ranked(candidates, costs), k, (candidates[0], 1usize)).item.0,
        ),
{
    let seen = ranked(candidates, costs);
    if k < seen.len() {
        law_sorted(seen);
        let e = by_cost(seen)[k];
        lemma_sorted_contains(seen, e);
        assert(by_cost(seen).contains(e));
        let i = choose|i: int| 0 <= i < seen.len() && seen[i] == e;
        assert(candidates[i] == e.item.0);
    } else {
        assert(candidates[0] == candidates[0]);
    }
}

/// A unit's mode is one of the candidates of its scan. Its most probable modes are those of
/// the neighbours as they were when it began.
pub proof fn law_unit_has_a_candidate_mode<S, T, Y, R, X, K, G, P>(
    q: &LeafQuestions<S, T, Y, R, X, K, G, P>,
    set: LeafSettings,
    budget: &BlockSearchBudget,
    pic: &SourcePicture,
    ctxs: Seq<int>,
    x0: u32,
    y0: u32,
    log2_size: u8,
    ct_depth: u8,
    before: SearchState,
    after: SearchState,
    leaf: CuLeaf,
) -> (plan: LumaModePlan) where
    S: Fn(&SearchState, Place, u8) -> u64,
    T: Fn(&SearchState, Place, u8, LumaScreen) -> Tried,
    Y: Fn(&SearchState, Place, u64, u64) -> bool,
    R: Fn(&SearchState, Place, u8, u8) -> u64,
    X: Fn(&SearchState, Place, u8, u8, EvalKind) -> Tried,
    K: Fn(&SearchState, Place, u64, u64) -> bool,
    G: Fn(SearchState, Place, u8, u8) -> (SearchState, Tt),
    P: Fn(u64, u64) -> u64,

    requires
        leaf_built(
            q,
            set,
            budget,
            pic,
            ctxs,
            x0,
            y0,
            log2_size,
            ct_depth,
            before,
            after,
            leaf,
        ),
    ensures
        plan.selection.candidates@.contains(leaf.luma_mode),
        leaf.nxn is None,
        leaf.mpm@ == crate::unit_modes::mpm_at(&before.maps, before.maps.mode_map@, x0, y0),
{
    let (marked, plan, work) = choose|marked: SearchState, plan: LumaModePlan, work: EncodeStats|
        {
            let scanned = worked(marked, crate::rough::scan_work(plan.scored as nat));
            let mpm = crate::unit_modes::mpm_at(&marked.maps, marked.maps.mode_map@, x0, y0);
            let candidates = plan.selection.candidates@;
            &&& #[trigger] leaf_steps(marked, plan, work)
            &&& depth_noted(before, marked, x0 as int, y0 as int, log2_size, ct_depth)
            &&& if candidates.len() > 1 && !set.reference {
                &&& luma_ranked(
                    &scanned,
                    Place { x: x0, y: y0, log2_size },
                    q.trial,
                    q.luma_close,
                    LumaScreening {
                        single_block: log2_size <= crate::geometry::MAX_TB_LOG2,
                        cheap: set.cheap,
                        fast: set.fast,
                    },
                    if log2_size > crate::geometry::MAX_TB_LOG2 {
                        LumaScreen::Subtree
                    } else if set.cheap {
                        LumaScreen::Block(EvalKind::CheapTrial)
                    } else {
                        LumaScreen::Block(EvalKind::ExactTrial)
                    },
                    candidates,
                    leaf.luma_mode,
                    work,
                )
                &&& mode_built(
                    q,
                    set,
                    x0,
                    y0,
                    log2_size,
                    mpm,
                    leaf.luma_mode,
                    worked(scanned, work),
                    after,
                    leaf,
                )
            } else {
                all_tried(
                    q,
                    set,
                    pic,
                    ctxs,
                    x0,
                    y0,
                    log2_size,
                    mpm,
                    candidates,
                    scanned,
                    after,
                    leaf,
                )
            }
        };
    let scanned = worked(marked, crate::rough::scan_work(plan.scored as nat));
    let mpm = crate::unit_modes::mpm_at(&marked.maps, marked.maps.mode_map@, x0, y0);
    let candidates = plan.selection.candidates@;
    assert(marked.maps.mode_map@ == before.maps.mode_map@);
    assert(mpm == crate::unit_modes::mpm_at(&before.maps, before.maps.mode_map@, x0, y0));
    if candidates.len() > 1 && !set.reference {
        law_ranked_mode_is_a_candidate(
            &scanned,
            Place { x: x0, y: y0, log2_size },
            q.trial,
            q.luma_close,
            LumaScreening {
                single_block: log2_size <= crate::geometry::MAX_TB_LOG2,
                cheap: set.cheap,
                fast: set.fast,
            },
            if log2_size > crate::geometry::MAX_TB_LOG2 {
                LumaScreen::Subtree
            } else if set.cheap {
                LumaScreen::Block(EvalKind::CheapTrial)
            } else {
                LumaScreen::Block(EvalKind::ExactTrial)
            },
            candidates,
            leaf.luma_mode,
            work,
        );
    } else {
        let (base, last, won) = choose|base: RegionSnapshot, last: SearchState, won: KeptLeaf|
            {
                &&& #[trigger] all_steps(base, last, won)
                &&& trials_run(
                    q,
                    set,
                    pic,
                    ctxs,
                    x0,
                    y0,
                    log2_size,
                    mpm,
                    candidates,
                    base,
                    worked(scanned, crate::search_state::save_work(&base)),
                    candidates.len(),
                    last,
                    Some(won),
                )
                &&& leaf == won.leaf
            };
        lemma_kept(
            q,
            set,
            pic,
            ctxs,
            x0,
            y0,
            log2_size,
            mpm,
            candidates,
            base,
            worked(scanned, crate::search_state::save_work(&base)),
            candidates.len(),
            last,
            Some(won),
        );
    }
    plan
}

/// What trials keep is one of the candidates, as it was built.
proof fn lemma_kept<S, T, Y, R, X, K, G, P>(
    q: &LeafQuestions<S, T, Y, R, X, K, G, P>,
    set: LeafSettings,
    pic: &SourcePicture,
    ctxs: Seq<int>,
    x0: u32,
    y0: u32,
    log2_size: u8,
    mpm: Seq<u8>,
    candidates: Seq<u8>,
    base: RegionSnapshot,
    before: SearchState,
    n: nat,
    after: SearchState,
    kept: Option<KeptLeaf>,
) where
    S: Fn(&SearchState, Place, u8) -> u64,
    T: Fn(&SearchState, Place, u8, LumaScreen) -> Tried,
    Y: Fn(&SearchState, Place, u64, u64) -> bool,
    R: Fn(&SearchState, Place, u8, u8) -> u64,
    X: Fn(&SearchState, Place, u8, u8, EvalKind) -> Tried,
    K: Fn(&SearchState, Place, u64, u64) -> bool,
    G: Fn(SearchState, Place, u8, u8) -> (SearchState, Tt),
    P: Fn(u64, u64) -> u64,

    requires
        n <= candidates.len(),
        trials_run(
            q,
            set,
            pic,
            ctxs,
            x0,
            y0,
            log2_size,
            mpm,
            candidates,
            base,
            before,
            n,
            after,
            kept,
        ),
    ensures
        kept matches Some(k) ==> candidates.contains(k.leaf.luma_mode) && k.leaf.nxn is None
            && k.leaf.mpm@ == mpm,
    decreases n,
{
    if n > 0 {
        let (mid, earlier, start, built, leaf, cost) = choose|
            mid: SearchState,
            earlier: Option<KeptLeaf>,
            start: SearchState,
            built: SearchState,
            leaf: CuLeaf,
            cost: u64,
        |
            {
                &&& #[trigger] crate::cu_leaf::trial_steps(mid, earlier, start, built, leaf, cost)
                &&& trials_run(
                    q,
                    set,
                    pic,
                    ctxs,
                    x0,
                    y0,
                    log2_size,
                    mpm,
                    candidates,
                    base,
                    before,
                    (n - 1) as nat,
                    mid,
                    earlier,
                )
                &&& mode_built(
                    q,
                    set,
                    x0,
                    y0,
                    log2_size,
                    mpm,
                    candidates[n - 1],
                    start,
                    built,
                    leaf,
                )
                &&& (kept matches Some(k) && k.leaf == leaf) || kept == earlier
            };
        lemma_kept(
            q,
            set,
            pic,
            ctxs,
            x0,
            y0,
            log2_size,
            mpm,
            candidates,
            base,
            before,
            (n - 1) as nat,
            mid,
            earlier,
        );
        assert(candidates[n - 1] == candidates[n - 1]);
    }
}

/// A level became another: zero stays zero, no sign changes, and it stays in range.
pub open spec fn same_sign(a: i16, b: i16) -> bool {
    &&& a == 0 ==> b == 0
    &&& a > 0 ==> b >= 0
    &&& a < 0 ==> b <= 0
    &&& b > i16::MIN
}

/// Every level of a list became another of the same sign.
pub open spec fn same_signs(a: Seq<i16>, b: Seq<i16>) -> bool {
    a.len() == b.len() && forall|i: int|
        0 <= i < a.len() ==> same_sign(a[i], #[trigger] b[i])
}

proof fn lemma_winner_sign(
    level: i16,
    own: (i16, u64, u64),
    errors: Seq<u64>,
    costs: Seq<u64>,
    n: nat,
)
    requires
        level > i16::MIN,
        own.0 == level,
        n <= other_levels(level).len(),
    ensures
        same_sign(level, level_winner(own, other_levels(level), errors, costs, n).0),
    decreases n,
{
    if n > 0 {
        lemma_winner_sign(level, own, errors, costs, (n - 1) as nat);
    }
}

proof fn lemma_levels_sign<D, T, O, F, A, C>(
    env: &RefineEnv<D, T, O, F, A, C>,
    n: nat,
    start: Refining,
    r: Refining,
    levels: Seq<i16>,
) where
    D: Fn(usize, i16) -> u64,
    T: Fn(&Vec<i16>) -> u64,
    O: Fn(&Vec<i16>, usize, i16) -> Option<u64>,
    F: Fn(&Vec<i16>, usize, i16) -> u64,
    A: Fn(&Vec<i16>, usize) -> bool,
    C: Fn(u64, u64) -> u64,

    requires
        levels_refined(env, n, start, r),
        same_signs(levels, start.levels@),
        n <= levels.len() <= usize::MAX,
    ensures
        same_signs(levels, r.levels@),
    decreases n,
{
    if n > 0 {
        let p = choose|p: Refining|
            {
                &&& #[trigger] refining(p)
                &&& levels_refined(env, (n - 1) as nat, start, p)
                &&& level_refined(env, (n - 1) as usize, p, r)
            };
        lemma_levels_sign(env, (n - 1) as nat, start, p, levels);
        let i = n - 1;
        let level = p.levels@[i];
        assert(same_sign(levels[i], p.levels@[i]));
        if level != 0 {
            let others = other_levels(level);
            let (errors, bits, costs, told, followed) = choose|
                errors: Seq<u64>,
                bits: Seq<u64>,
                costs: Seq<u64>,
                told: Seq<Option<u64>>,
                followed: bool,
            |
                {
                    let won = level_winner(
                        (level, p.errors@[i], p.best),
                        others,
                        errors,
                        costs,
                        others.len(),
                    );
                    &&& #[trigger] tried_costs(errors, bits, costs)
                    &&& #[trigger] tables_told(told, followed)
                    &&& r.levels@ == p.levels@.update(i, won.0)
                };
            lemma_winner_sign(level, (level, p.errors@[i], p.best), errors, costs, others.len());
            assert forall|j: int| 0 <= j < levels.len() implies same_sign(
                levels[j],
                #[trigger] r.levels@[j],
            ) by {
                assert(same_sign(levels[j], p.levels@[j]));
            }
        }
    }
}

proof fn lemma_passes_sign<D, T, O, F, A, C>(
    env: &RefineEnv<D, T, O, F, A, C>,
    n: nat,
    first: Refining,
    r: Refining,
    levels: Seq<i16>,
) where
    D: Fn(usize, i16) -> u64,
    T: Fn(&Vec<i16>) -> u64,
    O: Fn(&Vec<i16>, usize, i16) -> Option<u64>,
    F: Fn(&Vec<i16>, usize, i16) -> u64,
    A: Fn(&Vec<i16>, usize) -> bool,
    C: Fn(u64, u64) -> u64,

    requires
        passes_refined(env, n, first, r),
        same_signs(levels, first.levels@),
        levels.len() <= usize::MAX,
    ensures
        same_signs(levels, r.levels@),
    decreases n,
{
    if n > 0 {
        let p = choose|p: Refining|
            {
                &&& #[trigger] refining(p)
                &&& passes_refined(env, (n - 1) as nat, first, p)
                &&& pass_refined(env, p, r)
            };
        lemma_passes_sign(env, (n - 1) as nat, first, p, levels);
        let (bits, start) = choose|bits: u64, start: Refining|
            {
                &&& #[trigger] pass_start(bits, start)
                &&& start == (Refining { best: start.best, changed: false, ..p })
                &&& levels_refined(env, p.levels@.len(), start, r)
            };
        lemma_levels_sign(env, p.levels@.len(), start, r, levels);
    }
}

/// Refining keeps a block's zeros and the signs of its levels, whatever they are priced at;
/// no pass changes nothing.
pub proof fn law_refining_keeps_signs<D, T, O, F, A, C>(
    env: &RefineEnv<D, T, O, F, A, C>,
    levels: Seq<i16>,
    max_passes: u8,
    refined: Seq<i16>,
    nnz: int,
    work: EncodeStats,
) where
    D: Fn(usize, i16) -> u64,
    T: Fn(&Vec<i16>) -> u64,
    O: Fn(&Vec<i16>, usize, i16) -> Option<u64>,
    F: Fn(&Vec<i16>, usize, i16) -> u64,
    A: Fn(&Vec<i16>, usize) -> bool,
    C: Fn(u64, u64) -> u64,

    requires
        block_refined(env, levels, max_passes, refined, nnz, work),
        levels.len() <= 1024,
        forall|i: int| 0 <= i < levels.len() ==> #[trigger] levels[i] > i16::MIN,
    ensures
        same_signs(levels, refined),
        max_passes == 0 ==> refined == levels,
        nnz == crate::block_eval::nonzeros(refined, refined.len()),
{
    let (n, first, last) = choose|n: nat, first: Refining, last: Refining|
        {
            &&& #[trigger] refined_in(n, first, last)
            &&& first.levels@ == levels
            &&& n <= max_passes
            &&& passes_refined(env, n, first, last)
            &&& refined == last.levels@
            &&& nnz == crate::block_eval::nonzeros(refined, refined.len())
        };
    assert(same_signs(levels, first.levels@));
    lemma_passes_sign(env, n, first, last, levels);
}

/// The nodes of a split quadtree in the picture are the node itself and then those of its
/// quadrants, each at its own corner and one size smaller. A unit is one node.
pub proof fn law_nodes_of_a_quadtree(
    node: &CuNode,
    width: int,
    height: int,
    x: int,
    y: int,
    log2_size: u8,
)
    requires
        log2_size >= 1,
        x >= 0,
        y >= 0,
        x + side(log2_size) / 2 < width,
        y + side(log2_size) / 2 < height,
        node is Split ==> node->kids@.len() == 4,
    ensures
        ({
            let own = NodeAt {
                at: Place { x: x as u32, y: y as u32, log2_size },
                split: node is Split,
            };
            let all = nodes_of(node, width, height, x, y, log2_size);
            let h = side(log2_size) / 2;
            let s = (log2_size - 1) as u8;
            let k = node->kids@;
            &&& node is Leaf ==> all == seq![own]
            &&& node is Split ==> all == seq![own] + nodes_of(&k[0], width, height, x, y, s)
                + nodes_of(&k[1], width, height, x + h, y, s) + nodes_of(
                &k[2],
                width,
                height,
                x,
                y + h,
                s,
            ) + nodes_of(&k[3], width, height, x + h, y + h, s)
        }),
{
    if node is Split {
        let h = side(log2_size) / 2;
        let s = (log2_size - 1) as u8;
        let k = node->kids@;
        let places = crate::geometry::kid_positions(x, y, h, width, height);
        assert(places =~= seq![(x, y), (x + h, y), (x, y + h), (x + h, y + h)]);
        let list = |n: nat| kids_nodes_of(k, width, height, places, n, s);
        assert(list(0) == Seq::<NodeAt>::empty());
        assert(list(1) == list(0) + nodes_of(&k[0], width, height, x, y, s));
        assert(list(2) == list(1) + nodes_of(&k[1], width, height, x + h, y, s));
        assert(list(3) == list(2) + nodes_of(&k[2], width, height, x, y + h, s));
        assert(list(4) == list(3) + nodes_of(&k[3], width, height, x + h, y + h, s));
        let own = NodeAt {
            at: Place { x: x as u32, y: y as u32, log2_size },
            split: true,
        };
        assert(nodes_of(node, width, height, x, y, log2_size) == seq![own] + list(4));
        assert(seq![own] + list(4) =~= seq![own] + nodes_of(&k[0], width, height, x, y, s)
            + nodes_of(&k[1], width, height, x + h, y, s) + nodes_of(
            &k[2],
            width,
            height,
            x,
            y + h,
            s,
        ) + nodes_of(&k[3], width, height, x + h, y + h, s));
    }
}

} // verus!
