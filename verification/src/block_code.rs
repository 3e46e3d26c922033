//! Coding a transform block in a stage of the search, with the optimisation and pricing
//! that the stage and its quality ask for.

use vstd::prelude::*;

use crate::block_eval::{
    block_quantiser, block_residual, count_block, eval_sse, eval_work, is_dst, opt_view, recon_block, reconstruct,
    refine_passes, residual_of, scratch_distortion, task_area, task_ok, Pricing, Quantiser,
};
use crate::budget::BlockSearchBudget;
use crate::effort::TrialQuality;
use crate::final_code::BlockTask;
use crate::geometry::side;
use crate::leaf_eval::{eval_env_ok, lemma_small_area, levels_ok, EvalEnv};
use crate::policy::{
    effective_trial_quality, exact_residual_bits_for_block, luma_quality, rdoq_enabled_for_block,
    TrialGates, WorkStage,
};
use crate::refine::Refined;
use crate::stats::EncodeStats;
use crate::syntax::CodedBlock;
use crate::tu_search::{outcome_ok, BlockOutcome};

verus! {

/// How a block is coded in a stage.
#[derive(Clone, Copy, Debug, PartialEq, Eq, Structural)]
pub struct BlockPlan {
    pub task: BlockTask,
    pub stage: WorkStage,
    pub quality: TrialQuality,
    /// Levels are optimised in one scan rather than in passes.
    pub single_scan: bool,
    /// Final blocks are not priced.
    pub elide_final_pricing: bool,
    /// Switches of the staged search; without them trials follow their quality.
    pub gates: Option<TrialGates>,
}

impl BlockPlan {
    /// The levels are optimised.
    pub open spec fn optimised(self, budget: &BlockSearchBudget) -> bool {
        match self.gates {
            Some(g) => g.optimises(
                self.stage,
                self.quality,
                budget,
                self.task.c_idx,
                self.task.log2_size,
            ),
            None => self.stage == WorkStage::FinalCode || self.quality == TrialQuality::Final || (
            self.quality == TrialQuality::FullRd && budget.rdoq_for_trials),
        }
    }

    /// The levels of a coded block are priced exactly.
    pub open spec fn exact(self, budget: &BlockSearchBudget) -> bool {
        match self.gates {
            Some(g) => g.prices_exactly(self.stage, self.quality, budget),
            None => self.stage == WorkStage::FinalCode || self.quality == TrialQuality::FullRd || (
            self.quality == TrialQuality::Final && budget.exact_residual_bits_for_trials),
        }
    }

    /// The quantiser that the levels come from first.
    pub open spec fn quantiser(self, budget: &BlockSearchBudget) -> Quantiser {
        if self.single_scan && self.optimised(budget) {
            Quantiser::SingleScan
        } else {
            Quantiser::Plain
        }
    }

    /// How many passes refine plain levels.
    pub open spec fn passes(self, budget: &BlockSearchBudget, nnz: u32) -> u8 {
        if self.optimised(budget) && !self.single_scan {
            budget.rdoq_pass_budget.spec_passes(self.task.log2_size, nnz)
        } else {
            0
        }
    }

    /// How the levels are priced.
    pub open spec fn pricing(self, budget: &BlockSearchBudget, cbf: bool) -> Pricing {
        if !cbf || (self.stage == WorkStage::FinalCode && self.elide_final_pricing) {
            Pricing::Free
        } else if self.exact(budget) {
            Pricing::Exact
        } else {
            Pricing::Approx
        }
    }
}

/// The work of coding a block in a stage, without that of refining its levels.
pub open spec fn code_work(cbf: bool, pricing: Pricing) -> EncodeStats {
    EncodeStats { code_block_calls: 1, ..eval_work(cbf, pricing) }
}

/// Names what a block's coding goes through.
pub open spec fn code_steps(
    pred: Vec<u16>,
    residual: Vec<i16>,
    coeffs: Vec<i16>,
    plain: (Vec<i16>, u32),
    refined: Refined,
    levels: (Vec<i16>, u32),
    recon: Option<Vec<i16>>,
) -> bool {
    true
}

/// A block was coded as planned: predicted, its residual transformed and quantised, its
/// levels refined and made to hide signs, and reconstructed from them.
pub open spec fn block_coded<'a, W, A, T, Q, H, I, X, R>(
    env: &EvalEnv<'a, A, T, Q, H, I, X>,
    refine: R,
    world: &W,
    plan: BlockPlan,
    budget: &BlockSearchBudget,
    out: BlockOutcome,
) -> bool where
    A: Fn(&W, BlockTask) -> Vec<u16>,
    T: Fn(&Vec<i16>, BlockTask, bool) -> Vec<i16>,
    Q: Fn(&Vec<i16>, BlockTask, Quantiser) -> (Vec<i16>, u32),
    H: Fn(Vec<i16>, &Vec<i16>, BlockTask, u32) -> (Vec<i16>, u32),
    I: Fn(&Vec<i16>, BlockTask, bool) -> Vec<i16>,
    X: Fn(&Vec<i16>, BlockTask, Pricing) -> u64,
    R: Fn(Vec<i16>, &Vec<i16>, BlockTask, u8) -> Refined,
 {
    exists|
        pred: Vec<u16>,
        residual: Vec<i16>,
        coeffs: Vec<i16>,
        plain: (Vec<i16>, u32),
        refined: Refined,
        levels: (Vec<i16>, u32),
        recon: Option<Vec<i16>>,
    |
        {
            let t = plan.task;
            let dst = t.log2_size == 2 && t.c_idx == 0;
            let passes = plan.passes(budget, plain.1);
            let pricing = plan.pricing(budget, levels.1 > 0);
            &&& #[trigger] code_steps(pred, residual, coeffs, plain, refined, levels, recon)
            &&& call_ensures(env.predict, (world, t), pred)
            &&& residual@.len() == pred@.len()
            &&& forall|k: int|
                0 <= k < pred@.len() ==> #[trigger] residual@[k] == residual_of(
                    env.pic,
                    t.c_idx,
                    t.x as int,
                    t.y as int,
                    side(t.log2_size),
                    pred@,
                    k,
                ) as i16
            &&& call_ensures(env.transform, (&residual, t, dst), coeffs)
            &&& call_ensures(env.quantise, (&coeffs, t, plan.quantiser(budget)), plain)
            &&& if passes > 0 {
                call_ensures(refine, (plain.0, &coeffs, t, passes), refined)
            } else {
                refined == (Refined {
                    levels: plain.0,
                    nonzeros: plain.1,
                    work: EncodeStats::none(),
                })
            }
            &&& if env.hide_signs && refined.nonzeros > 0 {
                call_ensures(env.hide, (refined.levels, &coeffs, t, refined.nonzeros), levels)
            } else {
                levels == (refined.levels, refined.nonzeros)
            }
            &&& recon is Some == (levels.1 > 0)
            &&& recon matches Some(r) ==> call_ensures(env.invert, (&levels.0, t, dst), r)
            &&& out.samples@ == recon_block(pred@, opt_view(recon), env.pic.bit_depth)
            &&& out.distortion == eval_sse(pred@, residual@, out.samples@, pred@.len())
            &&& out.coded.cbf == (levels.1 > 0)
            &&& out.coded.levels == levels.0
            &&& if pricing == Pricing::Free {
                out.coded.frac_bits == 0
            } else {
                call_ensures(env.price, (&levels.0, t, pricing), out.coded.frac_bits)
            }
            &&& out.work == refined.work.plus(code_work(levels.1 > 0, pricing))
        }
}

/// The caller refines the levels of every block as blocks are coded.
pub open spec fn refine_ok<R>(refine: R) -> bool where
    R: Fn(Vec<i16>, &Vec<i16>, BlockTask, u8) -> Refined,
 {
    &&& forall|l: Vec<i16>, c: &Vec<i16>, t: BlockTask, n: u8|
        task_ok(t) && l@.len() == task_area(t) && c@.len() == task_area(t)
            ==> #[trigger] call_requires(refine, (l, c, t, n))
    &&& forall|l: Vec<i16>, c: &Vec<i16>, t: BlockTask, n: u8, r: Refined| #[trigger]
        call_ensures(refine, (l, c, t, n), r) && task_ok(t) && l@.len() == task_area(t)
            && c@.len() == task_area(t) ==> levels_ok(t, (r.levels, r.nonzeros))
}

/// Codes a block as planned.
pub fn code_block<'a, W, A, T, Q, H, I, X, R>(
    env: &EvalEnv<'a, A, T, Q, H, I, X>,
    refine: &R,
    world: &W,
    plan: BlockPlan,
    budget: &BlockSearchBudget,
) -> (out: BlockOutcome) where
    A: Fn(&W, BlockTask) -> Vec<u16>,
    T: Fn(&Vec<i16>, BlockTask, bool) -> Vec<i16>,
    Q: Fn(&Vec<i16>, BlockTask, Quantiser) -> (Vec<i16>, u32),
    H: Fn(Vec<i16>, &Vec<i16>, BlockTask, u32) -> (Vec<i16>, u32),
    I: Fn(&Vec<i16>, BlockTask, bool) -> Vec<i16>,
    X: Fn(&Vec<i16>, BlockTask, Pricing) -> u64,
    R: Fn(Vec<i16>, &Vec<i16>, BlockTask, u8) -> Refined,

    requires
        eval_env_ok(env, world),
        refine_ok(*refine),
        env.pic.bit_depth <= 16,
        task_ok(plan.task),
    ensures
        block_coded(env, *refine, world, plan, budget, out),
        outcome_ok(plan.task, out),
        !out.coded.cbf ==> out.coded.frac_bits == 0,
{
    let t = plan.task;
    proof {
        lemma_small_area(t.log2_size);
    }
    let dst: bool = is_dst(t.log2_size, t.c_idx);
    let pred = (env.predict)(world, t);
    let residual = block_residual(env.pic, t.c_idx, t.x, t.y, t.log2_size, &pred);
    let coeffs = (env.transform)(&residual, t, dst);
    let do_rdoq: bool = match plan.gates {
        Some(g) => g.rdoq_enabled(plan.stage, plan.quality, budget, t.c_idx, t.log2_size).0,
        None => rdoq_enabled_for_block(plan.stage, plan.quality, budget),
    };
    let quantiser = block_quantiser(plan.single_scan, do_rdoq);
    let plain = (env.quantise)(&coeffs, t, quantiser);
    let ghost first = plain;
    let passes: u8 = refine_passes(
        budget,
        do_rdoq && !plan.single_scan,
        t.log2_size,
        t.c_idx,
        plain.1,
    );
    let refined: Refined = if passes > 0 {
        (*refine)(plain.0, &coeffs, t, passes)
    } else {
        Refined { levels: plain.0, nonzeros: plain.1, work: EncodeStats::default() }
    };
    let ghost second = refined;
    let levels: (Vec<i16>, u32) = if env.hide_signs && refined.nonzeros > 0 {
        (env.hide)(refined.levels, &coeffs, t, refined.nonzeros)
    } else {
        (refined.levels, refined.nonzeros)
    };
    let ghost third = levels;
    let cbf: bool = levels.1 > 0;
    let recon: Option<Vec<i16>> = if cbf {
        Some((env.invert)(&levels.0, t, dst))
    } else {
        None
    };
    let elide: bool = match plan.stage {
        WorkStage::FinalCode => plan.elide_final_pricing,
        _ => false,
    };
    let exact: bool = match plan.gates {
        Some(g) => g.exact_bits(plan.stage, plan.quality, budget).0,
        None => exact_residual_bits_for_block(plan.stage, plan.quality, budget),
    };
    let pricing = if !cbf || elide {
        Pricing::Free
    } else if exact {
        Pricing::Exact
    } else {
        Pricing::Approx
    };
    let frac_bits: u64 = match pricing {
        Pricing::Free => 0,
        _ => (env.price)(&levels.0, t, pricing),
    };
    let mut own = count_block(cbf, pricing);
    own.code_block_calls = 1;
    let work = refined.work.joined(own);
    let samples = reconstruct(&pred, &recon, env.pic.bit_depth);
    let distortion: u64 = scratch_distortion(&pred, &residual, &samples);
    assert(code_steps(pred, residual, coeffs, first, second, third, recon));
    BlockOutcome {
        coded: CodedBlock { levels: levels.0, cbf, frac_bits },
        distortion,
        samples,
        work,
    }
}

/// A trial of a block.
#[derive(Clone, Copy, Debug, PartialEq, Eq, Structural)]
pub struct BlockTrial {
    pub task: BlockTask,
    pub stage: WorkStage,
    /// The quality that a recheck of luma asks for.
    pub forced: Option<TrialQuality>,
    pub fast_luma: bool,
    pub single_scan: bool,
    pub gates: Option<TrialGates>,
}

impl BlockTrial {
    /// How the block is coded under a budget.
    pub open spec fn plan(self, budget: &BlockSearchBudget) -> BlockPlan {
        BlockPlan {
            task: self.task,
            stage: self.stage,
            quality: if self.task.c_idx == 0 {
                luma_quality(self.forced, self.fast_luma, budget)
            } else {
                budget.chroma_trial_quality
            },
            single_scan: self.single_scan,
            elide_final_pricing: false,
            gates: self.gates,
        }
    }
}

/// Codes a block in a trial, at the quality of its component.
pub fn trial_code_block<'a, W, A, T, Q, H, I, X, R>(
    env: &EvalEnv<'a, A, T, Q, H, I, X>,
    refine: &R,
    world: &W,
    trial: BlockTrial,
    budget: &BlockSearchBudget,
) -> (out: BlockOutcome) where
    A: Fn(&W, BlockTask) -> Vec<u16>,
    T: Fn(&Vec<i16>, BlockTask, bool) -> Vec<i16>,
    Q: Fn(&Vec<i16>, BlockTask, Quantiser) -> (Vec<i16>, u32),
    H: Fn(Vec<i16>, &Vec<i16>, BlockTask, u32) -> (Vec<i16>, u32),
    I: Fn(&Vec<i16>, BlockTask, bool) -> Vec<i16>,
    X: Fn(&Vec<i16>, BlockTask, Pricing) -> u64,
    R: Fn(Vec<i16>, &Vec<i16>, BlockTask, u8) -> Refined,

    requires
        trial.stage != WorkStage::FinalCode,
        eval_env_ok(env, world),
        refine_ok(*refine),
        env.pic.bit_depth <= 16,
        task_ok(trial.task),
    ensures
        block_coded(env, *refine, world, trial.plan(budget), budget, out),
        outcome_ok(trial.task, out),
        !out.coded.cbf ==> out.coded.frac_bits == 0,
{
    let plan = BlockPlan {
        task: trial.task,
        stage: trial.stage,
        quality: effective_trial_quality(
            trial.task.c_idx,
            trial.forced,
            trial.fast_luma,
            budget,
        ),
        single_scan: trial.single_scan,
        elide_final_pricing: false,
        gates: trial.gates,
    };
    code_block(env, refine, world, plan, budget)
}

} // verus!
