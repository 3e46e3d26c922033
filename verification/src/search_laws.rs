//! What holds of the parts of a search together: blocks as they are coded, the modes that
//! units come from, and the trees and pictures that are built of them.

use vstd::prelude::*;

use crate::block_code::{block_coded, code_steps, BlockPlan, BlockTrial};
use crate::block_eval::{eval_sse, recon_block, residual_of, Pricing, Quantiser};
use crate::block_laws::{
    distance, law_reconstruction_is_nearest, lemma_distance, restores, samples_small,
};
use crate::budget::BlockSearchBudget;
use crate::choice_laws::{cheapest_at, law_exact_trials_decide};
use crate::cu_search::{unit_built, CuEnv};
use crate::cu_tree::{screening, tree_built, tree_coded, tree_outcomes};
use crate::final_code::{BlockTask, CodeSettings};
use crate::geometry::side;
use crate::leaf_eval::EvalEnv;
use crate::mode_search::{costs_of, exact_winner};
use crate::nxn_search::{part_costs, part_ranked, NxnEnv};
use crate::policy::{block_counted, block_optimised, EvalKind, WorkStage};
use crate::ranking::{by_cost, law_sorted, lemma_sorted_contains, Scored};
use crate::refine::Refined;
use crate::replay_laws::{alike_trees, law_plan_repeats_the_tree};
use crate::rough::{
    chosen_from, first_modes, law_screen_keeps_probable_mode, modes_decided, scan_costs,
    scored_modes, screened, LumaModePlan, LumaSelection, Place,
};
use crate::search_state::SearchState;
use crate::slice::{item_ops, residual_count};
use crate::slice_build::{ctu_place, next_tree, trees_built};
use crate::stats::{EncodeStats, Tried};
use crate::stream::{encoded_once, Division, Encoded, NalType, PassEnv, Reconstruction, SliceData};
use crate::syntax::{CuLeaf, CuNode, CuPlan, Tt, TtPlan};
use crate::trial_region::TrialReconRegion;
use crate::tu_search::{codes_of, tt_tried, BlockOutcome, TtEnv, TtTrial};

verus! {

/// A block without switches follows its stage and quality. Levels are optimised in one scan
/// or in passes, never in both, and not at all where they are not optimised.
pub proof fn law_plan_of_a_block(p: BlockPlan, budget: &BlockSearchBudget, nnz: u32)
    ensures
        p.gates is None ==> p.optimised(budget) == block_optimised(p.stage, p.quality, budget),
        p.gates is None ==> p.exact(budget) == block_counted(p.stage, p.quality, budget),
        p.quantiser(budget) == Quantiser::SingleScan ==> p.passes(budget, nnz) == 0,
        p.passes(budget, nnz) > 0 ==> p.optimised(budget) && !p.single_scan,
        !p.optimised(budget) ==> p.quantiser(budget) == Quantiser::Plain && p.passes(budget, nnz)
            == 0,
        p.optimised(budget) && p.single_scan ==> p.quantiser(budget) == Quantiser::SingleScan,
        p.optimised(budget) && !p.single_scan ==> p.passes(budget, nnz)
            == budget.rdoq_pass_budget.spec_passes(p.task.log2_size, nnz),
{
}

/// A block without levels is free. So are final blocks whose price nobody asks for; all
/// others cost exactly or roughly, as planned.
pub proof fn law_price_of_a_block(p: BlockPlan, budget: &BlockSearchBudget, cbf: bool)
    ensures
        !cbf ==> p.pricing(budget, cbf) == Pricing::Free,
        cbf && p.pricing(budget, cbf) == Pricing::Free ==> p.elide_final_pricing && p.stage
            == WorkStage::FinalCode,
        cbf && p.elide_final_pricing && p.stage == WorkStage::FinalCode ==> p.pricing(budget, cbf)
            == Pricing::Free,
        p.pricing(budget, cbf) == Pricing::Exact ==> p.exact(budget),
        p.pricing(budget, cbf) == Pricing::Approx ==> !p.exact(budget),
{
}

/// A trial keeps its block and stage. Luma's quality is the forced one, the fast one or the
/// budget's; chroma's is always the budget's.
pub proof fn law_plan_of_a_trial(t: BlockTrial, budget: &BlockSearchBudget)
    ensures
        t.plan(budget).task == t.task && t.plan(budget).stage == t.stage,
        t.plan(budget).single_scan == t.single_scan && t.plan(budget).gates == t.gates,
        !t.plan(budget).elide_final_pricing,
        t.task.c_idx > 0 ==> t.plan(budget).quality == budget.chroma_trial_quality,
        t.task.c_idx == 0 && t.forced is Some ==> Some(t.plan(budget).quality) == t.forced,
        t.task.c_idx == 0 && t.forced is None && !t.fast_luma ==> t.plan(budget).quality
            == budget.luma_trial_quality,
{
}

/// The transforms, quantisers, refinements and hidden signs lose nothing of a block.
pub open spec fn lossless_code<'a, A, T, Q, H, I, X, R>(
    env: &EvalEnv<'a, A, T, Q, H, I, X>,
    refine: R,
    t: BlockTask,
    sine: bool,
) -> bool where
    T: Fn(&Vec<i16>, BlockTask, bool) -> Vec<i16>,
    Q: Fn(&Vec<i16>, BlockTask, Quantiser) -> (Vec<i16>, u32),
    H: Fn(Vec<i16>, &Vec<i16>, BlockTask, u32) -> (Vec<i16>, u32),
    I: Fn(&Vec<i16>, BlockTask, bool) -> Vec<i16>,
    R: Fn(Vec<i16>, &Vec<i16>, BlockTask, u8) -> Refined,
 {
    &&& forall|r: Vec<i16>, c: Vec<i16>, q: Quantiser, l: (Vec<i16>, u32)|
        #![trigger call_ensures(env.transform, (&r, t, sine), c), call_ensures(env.quantise, (&c, t, q), l)]
        call_ensures(env.transform, (&r, t, sine), c) && call_ensures(env.quantise, (&c, t, q), l)
            ==> restores(env, t, sine, r, l)
    &&& forall|r: Vec<i16>, c: Vec<i16>, l: Vec<i16>, n: u8, m: Refined|
        #![trigger call_ensures(env.transform, (&r, t, sine), c), call_ensures(refine, (l, &c, t, n), m)]
        call_ensures(env.transform, (&r, t, sine), c) && call_ensures(refine, (l, &c, t, n), m)
            ==> restores(env, t, sine, r, (m.levels, m.nonzeros))
    &&& forall|r: Vec<i16>, c: Vec<i16>, l: Vec<i16>, n: u32, h: (Vec<i16>, u32)|
        #![trigger call_ensures(env.transform, (&r, t, sine), c), call_ensures(env.hide, (l, &c, t, n), h)]
        call_ensures(env.transform, (&r, t, sine), c) && call_ensures(env.hide, (l, &c, t, n), h)
            ==> restores(env, t, sine, r, h)
}

/// A block that was coded as planned is as far from the source as it says, and shows the
/// source itself where nothing is lost.
pub proof fn law_coded_block_and_source<'a, W, A, T, Q, H, I, X, R>(
    env: &EvalEnv<'a, A, T, Q, H, I, X>,
    refine: R,
    world: &W,
    plan: BlockPlan,
    budget: &BlockSearchBudget,
    out: BlockOutcome,
    k: int,
) where
    A: Fn(&W, BlockTask) -> Vec<u16>,
    T: Fn(&Vec<i16>, BlockTask, bool) -> Vec<i16>,
    Q: Fn(&Vec<i16>, BlockTask, Quantiser) -> (Vec<i16>, u32),
    H: Fn(Vec<i16>, &Vec<i16>, BlockTask, u32) -> (Vec<i16>, u32),
    I: Fn(&Vec<i16>, BlockTask, bool) -> Vec<i16>,
    X: Fn(&Vec<i16>, BlockTask, Pricing) -> u64,
    R: Fn(Vec<i16>, &Vec<i16>, BlockTask, u8) -> Refined,

    requires
        block_coded(env, refine, world, plan, budget, out),
        samples_small(env, world, plan.task),
        env.pic.bit_depth <= 16,
        0 <= k < side(plan.task.log2_size) * side(plan.task.log2_size),
    ensures
        out.distortion == distance(env.pic, plan.task, out.samples@, out.samples@.len()),
        ({
            let t = plan.task;
            let s = env.pic.sample(
                t.c_idx,
                t.x + k % side(t.log2_size),
                t.y + k / side(t.log2_size),
            );
            lossless_code(env, refine, t, t.c_idx == 0 && t.log2_size == 2) && s
                < vstd::arithmetic::power2::pow2(env.pic.bit_depth as nat) ==> out.samples@[k] == s
        }),
{
    let t = plan.task;
    let sine = t.c_idx == 0 && t.log2_size == 2;
    let (pred, residual, coeffs, plain, refined, levels, recon) = choose|
        pred: Vec<u16>,
        residual: Vec<i16>,
        coeffs: Vec<i16>,
        plain: (Vec<i16>, u32),
        refined: Refined,
        levels: (Vec<i16>, u32),
        recon: Option<Vec<i16>>,
    |
        {
            let passes = plan.passes(budget, plain.1);
            &&& #[trigger] code_steps(pred, residual, coeffs, plain, refined, levels, recon)
            &&& call_ensures(env.predict, (world, t), pred)
            &&& residual@.len() == pred@.len()
            &&& forall|k: int|
                0 <= k < pred@.len() ==> #[trigger] residual@[k] == residual_of(
                    env.pic,
                    t.c_idx,
                    t.x as int,
                    t.y as int,
                    side(t.log2_size),
                    pred@,
                    k,
                ) as i16
            &&& call_ensures(env.transform, (&residual, t, sine), coeffs)
            &&& call_ensures(env.quantise, (&coeffs, t, plan.quantiser(budget)), plain)
            &&& if passes > 0 {
                call_ensures(refine, (plain.0, &coeffs, t, passes), refined)
            } else {
                refined.levels == plain.0 && refined.nonzeros == plain.1
            }
            &&& if env.hide_signs && refined.nonzeros > 0 {
                call_ensures(env.hide, (refined.levels, &coeffs, t, refined.nonzeros), levels)
            } else {
                levels == (refined.levels, refined.nonzeros)
            }
            &&& recon is Some == (levels.1 > 0)
            &&& recon matches Some(r) ==> call_ensures(env.invert, (&levels.0, t, sine), r)
            &&& out.samples@ == recon_block(
                pred@,
                crate::block_eval::opt_view(recon),
                env.pic.bit_depth,
            )
            &&& out.distortion == eval_sse(pred@, residual@, out.samples@, pred@.len())
        };
    lemma_distance(env.pic, t, pred@, residual@, out.samples@, pred@.len());
    let s = env.pic.sample(t.c_idx, t.x + k % side(t.log2_size), t.y + k / side(t.log2_size));
    if lossless_code(env, refine, t, sine) && s < vstd::arithmetic::power2::pow2(
        env.pic.bit_depth as nat,
    ) {
        assert(s <= 0x7fff);
        assert(pred@[k] <= 0x7fff);
        assert(residual@[k] == s - pred@[k]);
        assert(restores(env, t, sine, residual, (refined.levels, refined.nonzeros)));
        assert(restores(env, t, sine, residual, levels));
        if levels.1 == 0 {
            assert(residual@[k] == 0);
        } else {
            assert(recon.unwrap()@ == residual@);
        }
        law_reconstruction_is_nearest(pred@[k], residual@[k] as int, env.pic.bit_depth, s as int);
    }
}

/// Every candidate was scored.
pub proof fn law_candidates_were_scored(
    budget: &BlockSearchBudget,
    scored: Seq<Scored<u8>>,
    mpm0: u8,
    screen: Option<usize>,
    s: &LumaSelection,
    expansions: int,
    i: int,
) -> (k: int)
    requires
        chosen_from(budget, scored, mpm0, screen, s, expansions),
        screen matches Some(n) ==> n > 0,
        0 <= i < s.candidates@.len(),
    ensures
        0 <= k < scored.len(),
        scored[k].item == s.candidates@[i],
{
    let sorted = by_cost(scored);
    law_sorted(scored);
    let e = if screen is Some && scored.len() > 0 {
        law_screen_keeps_probable_mode(scored, mpm0, screen.unwrap() as int);
        screened(sorted, mpm0, screen.unwrap() as int)[i]
    } else {
        lemma_sorted_contains(scored, sorted[i]);
        assert(sorted.contains(sorted[i]));
        sorted[i]
    };
    assert(scored.contains(e));
    choose|k: int| 0 <= k < scored.len() && scored[k] == e
}

/// A block whose directions are dropped has candidates only among planar, DC and its most
/// probable modes, and those five are all that is scored.
pub proof fn law_dropped_directions_are_not_tried<W, S>(
    world: &W,
    at: Place,
    score: S,
    budget: &BlockSearchBudget,
    mpm: Seq<u8>,
    screen: Option<usize>,
    plan: &LumaModePlan,
    i: int,
) where S: Fn(&W, Place, u8) -> u64
    requires
        modes_decided(world, at, score, budget, mpm, screen, plan),
        plan.pruning.prune,
        screen matches Some(n) ==> n > 0,
        0 <= i < plan.selection.candidates@.len(),
    ensures
        plan.selection.candidates@[i] <= 1 || mpm.contains(plan.selection.candidates@[i]),
        plan.scored == 2 + mpm.len(),
{
    let (first_costs, second_costs) = choose|first_costs: Seq<u64>, second_costs: Seq<u64>|
        {
            let set = budget.rmd_mode_set;
            let first = first_modes(set, true, mpm);
            let second = crate::rough::refined_modes(set, true, mpm, first_costs);
            let all = scored_modes(first, first_costs) + scored_modes(second, second_costs);
            &&& #[trigger] scan_costs(first_costs, second_costs)
            &&& chosen_from(
                budget,
                all,
                mpm[0],
                screen,
                &plan.selection,
                plan.expansions as int,
            )
            &&& plan.scored == all.len()
        };
    let set = budget.rmd_mode_set;
    let first = first_modes(set, true, mpm);
    let second = crate::rough::refined_modes(set, true, mpm, first_costs);
    let all = scored_modes(first, first_costs) + scored_modes(second, second_costs);
    assert(second.len() == 0);
    assert(first =~= seq![0u8, 1u8] + mpm);
    let k = law_candidates_were_scored(
        budget,
        all,
        mpm[0],
        screen,
        &plan.selection,
        plan.expansions as int,
        i,
    );
    assert(all[k].item == first[k]);
    if k >= 2 {
        assert(mpm[k - 2] == first[k]);
    }
}

/// Where the parts of a unit are not screened, each has the first of the modes that cost
/// least in exact trials.
pub proof fn law_part_has_the_cheapest_mode<'a, F, Q, D, S, T, K, R, X, B>(
    env: &NxnEnv<'a, F, Q, D, S, T, K, R, X, B>,
    st: &SearchState,
    at: Place,
    modes: Seq<u8>,
    mode: u8,
    work: EncodeStats,
) -> (r: (Seq<Tried>, int)) where
    F: Fn(&SearchState, BlockTask) -> BlockOutcome,
    Q: Fn(u32, u32) -> (i32, i32),
    D: Fn(u8) -> u8,
    S: Fn(&SearchState, Place, u8) -> u64,
    T: Fn(&SearchState, Place, u8, bool) -> Tried,
    K: Fn(&SearchState, Place, u64, u64) -> bool,
    R: Fn(&SearchState, Place, u8, u8) -> u64,
    X: Fn(&SearchState, Place, u8, u8, EvalKind) -> Tried,
    B: Fn(&SearchState, Place) -> BlockSearchBudget,

    requires
        part_ranked(env, st, at, modes, mode, work),
        !env.adaptive,
        modes.len() > 0,
    ensures
        r.0.len() == modes.len(),
        forall|i: int|
            0 <= i < modes.len() ==> call_ensures(
                env.trial,
                (st, at, modes[i], true),
                #[trigger] r.0[i],
            ),
        cheapest_at(r.0, r.1),
        mode == modes[r.1],
{
    let outs = choose|outs: Seq<Tried>|
        {
            &&& #[trigger] part_costs(outs)
            &&& outs.len() == modes.len()
            &&& forall|i: int|
                0 <= i < modes.len() ==> call_ensures(
                    env.trial,
                    (st, at, modes[i], true),
                    #[trigger] outs[i],
                )
            &&& mode == exact_winner(modes, costs_of(outs))
        };
    let costs = costs_of(outs);
    let w = law_exact_trials_decide(modes, costs);
    assert forall|j: int| 0 <= j < outs.len() implies outs[w].cost <= (#[trigger] outs[j]).cost by {
        assert(costs[w] <= costs[j]);
    }
    assert forall|j: int| 0 <= j < w implies outs[w].cost < (#[trigger] outs[j]).cost by {
        assert(costs[w] < costs[j]);
    }
    (outs, w)
}

/// A tree that was built has the shape that won the search.
pub proof fn law_tree_is_built_as_searched<C, P, L, B, F>(
    code: C,
    price: P,
    limited: L,
    budget: B,
    final_code: F,
    ctxs: Seq<int>,
    s: CodeSettings,
    x0: u32,
    y0: u32,
    log2_size: u8,
    before: SearchState,
    after: SearchState,
    tt: Tt,
) -> (r: (TtTrial, TrialReconRegion)) where
    C: Fn(&SearchState, &TrialReconRegion, BlockTask, EvalKind) -> BlockOutcome,
    P: Fn(u64, u64) -> u64,
    L: Fn(&SearchState, u32, u32, u8, &Tt) -> bool,
    B: Fn(&SearchState, u32, u32, u8) -> BlockSearchBudget,
    F: Fn(&SearchState, BlockTask) -> BlockOutcome,

    requires
        tree_built(
            code,
            price,
            limited,
            budget,
            final_code,
            ctxs,
            s,
            x0,
            y0,
            log2_size,
            before,
            after,
            tt,
        ),
    ensures
        tt_tried(
            &TtEnv { world: &before, code, price, limited, budget },
            ctxs,
            s,
            x0 as int,
            y0 as int,
            log2_size,
            0,
            r.1,
            r.0,
        ),
        r.1.area.copies_block(&before.frame, x0, y0, log2_size),
        alike_trees(&r.0.tt, &tt),
{
    let (trial, region, plan, coded) = choose|
        trial: TtTrial,
        region: TrialReconRegion,
        plan: TtPlan,
        coded: SearchState,
    |
        {
            let env = TtEnv { world: &before, code, price, limited, budget };
            &&& #[trigger] screening(trial, region, plan, coded)
            &&& region.area.copies_block(&before.frame, x0, y0, log2_size)
            &&& tt_tried(&env, ctxs, s, x0 as int, y0 as int, log2_size, 0, region, trial)
            &&& crate::syntax::tt_plan_of(&plan, &trial.tt)
            &&& tree_coded(
                final_code,
                plan,
                s,
                x0 as int,
                y0 as int,
                crate::search_state::worked(before, trial.work),
                coded,
                tt,
            )
        };
    let outs = choose|outs: Seq<BlockOutcome>|
        {
            &&& #[trigger] tree_outcomes(outs)
            &&& crate::final_code::tt_codes(
                &tt,
                &plan,
                s,
                x0 as int,
                y0 as int,
                codes_of(outs),
            )
        };
    law_plan_repeats_the_tree(
        &trial.tt,
        &plan,
        &tt,
        s,
        x0 as int,
        y0 as int,
        codes_of(outs),
    );
    (trial, region)
}

/// Every coding tree of a picture was built at its own place in the rows of 64x64 blocks,
/// and at the root of its quadtree.
pub proof fn law_every_tree_is_built_in_place<'a, L, N, T, B, P, K, E, R>(
    env: &CuEnv<'a, L, N, T, B, P, K, E, R>,
    before: SearchState,
    after: SearchState,
    trees: Seq<CuNode>,
    n: nat,
    across: int,
    column: int,
    row: int,
) -> (r: (SearchState, SearchState)) where
    L: Fn(SearchState, Place, u8) -> (SearchState, CuLeaf),
    N: Fn(SearchState, Place, u8) -> (SearchState, CuLeaf),
    T: Fn(&SearchState, Place) -> (bool, EncodeStats),
    B: Fn(&SearchState, Place) -> (BlockSearchBudget, i32),
    P: Fn(u64, u64) -> u64,
    K: Fn(BlockSearchBudget, u64, u64) -> bool,
    E: Fn(&CuLeaf) -> bool,
    R: Fn(SearchState, &CuPlan, Place, u8) -> (SearchState, CuNode),

    requires
        trees_built(env, before, after, trees, n),
        env.pic.width > 0,
        env.pic.width <= across * 64 < env.pic.width + 64,
        0 <= column < across,
        0 <= row,
        row * 64 <= u32::MAX,
        row * across + column < n,
    ensures
        unit_built(
            env,
            Place { x: (column * 64) as u32, y: (row * 64) as u32, log2_size: 6 },
            0,
            r.0,
            r.1,
            trees[row * across + column],
        ),
    decreases n,
{
    assert(row * across >= 0) by (nonlinear_arith)
        requires
            row >= 0,
            across > 0,
    ;
    let mid = choose|mid: SearchState|
        {
            &&& #[trigger] next_tree(mid)
            &&& trees_built(env, before, mid, trees, (n - 1) as nat)
            &&& unit_built(
                env,
                ctu_place(env.pic.width, n - 1),
                0,
                crate::search_state::worked(mid, crate::slice_build::tree_work()),
                after,
                trees[n - 1],
            )
        };
    if row * across + column < n - 1 {
        law_every_tree_is_built_in_place(
            env,
            before,
            mid,
            trees,
            (n - 1) as nat,
            across,
            column,
            row,
        )
    } else {
        crate::state_laws::law_tree_blocks_stand_in_rows(env.pic.width, across, column, row);
        (crate::search_state::worked(mid, crate::slice_build::tree_work()), after)
    }
}

/// A picture without samples, or of a depth other than 8, 10 and 12 bits, gives an empty
/// stream and an empty picture that has samples and such a depth all the same.
pub proof fn law_what_cannot_be_coded<St, T, Q, O, V, B, M, D, S, W, A, C, I, E, Z, Sp, Pp, H, N>(
    env: &PassEnv<B, M, D, S, W, A, C, I, E, Z, Sp, Pp, H, N>,
    config: &crate::config::StillHevcConfig,
    run: crate::encode_pass::PassRun,
    div: Division,
    collect: bool,
    out: Encoded<St, Q, V>,
) where
    B: Fn(St, bool, bool) -> (St, T),
    M: Fn(&T) -> Q,
    D: Fn(St) -> St,
    S: Fn(&St) -> O,
    W: Fn(St, &T, &Option<O>, bool) -> (St, SliceData),
    A: Fn(St, &O) -> St,
    C: Fn(St) -> (St, SliceData),
    I: Fn(crate::encode_pass::PassSetup) -> St,
    E: Fn(&St, &Q) -> V,
    Z: Fn(&St) -> EncodeStats,
    Sp: Fn(&crate::config::StillHevcConfig) -> Vec<u8>,
    Pp: Fn(&crate::config::StillHevcConfig, bool) -> Vec<u8>,
    H: Fn(&crate::config::StillHevcConfig, bool, &Vec<usize>) -> Vec<u8>,
    N: Fn(Vec<u8>, NalType, &Vec<u8>) -> Vec<u8>,

    requires
        encoded_once::<St, T, Q, O, V, B, M, D, S, W, A, C, I, E, Z, Sp, Pp, H, N>(
            env,
            config,
            run,
            div,
            collect,
            out,
        ),
    ensures
        ({
            let depth_ok = config.bit_depth == 8 || config.bit_depth == 10 || config.bit_depth
                == 12;
            let coded = depth_ok && config.width > 0 && config.height > 0;
            &&& out.reconstruction is Coded <==> coded
            &&& !coded ==> out.bytes@.len() == 0 && out.measured is None
            &&& out.reconstruction matches Reconstruction::Empty { width, height, bit_depth } ==> {
                &&& width == config.width || (config.width == 0 && width == 1)
                &&& height == config.height || (config.height == 0 && height == 1)
                &&& width > 0 && height > 0
                &&& depth_ok ==> bit_depth == config.bit_depth
                &&& !depth_ok ==> bit_depth == 8
            }
        }),
{
}

/// The bins of a list of items are those of its items in order: one for every flag, as it
/// is, and for a residual block the bins of its own place among the residual blocks.
pub proof fn law_bins_of_items<'a>(
    items: Seq<crate::items::SyntaxItem<'a>>,
    item: crate::items::SyntaxItem<'a>,
    residuals: Seq<Vec<crate::bins::BinOp>>,
)
    ensures
        ({
            let before = item_ops(items, residuals);
            let after = item_ops(items.push(item), residuals);
            &&& item matches crate::items::SyntaxItem::Bin(ci, b) ==> after == before.push(
                crate::bins::BinOp::Context(ci, b),
            )
            &&& item matches crate::items::SyntaxItem::Bypass(b) ==> after == before.push(
                crate::bins::BinOp::Bypass(b),
            )
            &&& item matches crate::items::SyntaxItem::Terminate(b) ==> after == before.push(
                crate::bins::BinOp::Terminate(b),
            )
            &&& item is Residual ==> after == before + residuals[residual_count(items) as int]@
                && residual_count(items.push(item)) == residual_count(items) + 1
            &&& !(item is Residual) ==> residual_count(items.push(item)) == residual_count(items)
        }),
        item_ops(Seq::empty(), residuals).len() == 0 && residual_count(
            Seq::<crate::items::SyntaxItem>::empty(),
        ) == 0,
{
    assert(items.push(item).drop_last() =~= items);
    let before = item_ops(items, residuals);
    match item {
        crate::items::SyntaxItem::Bin(ci, b) => {
            assert(before + seq![crate::bins::BinOp::Context(ci, b)] =~= before.push(
                crate::bins::BinOp::Context(ci, b),
            ));
        },
        crate::items::SyntaxItem::Bypass(b) => {
            assert(before + seq![crate::bins::BinOp::Bypass(b)] =~= before.push(
                crate::bins::BinOp::Bypass(b),
            ));
        },
        crate::items::SyntaxItem::Terminate(b) => {
            assert(before + seq![crate::bins::BinOp::Terminate(b)] =~= before.push(
                crate::bins::BinOp::Terminate(b),
            ));
        },
        _ => {},
    }
}

} // verus!
