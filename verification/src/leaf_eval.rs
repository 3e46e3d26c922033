//! Coding one transform block: prediction, residual, transform, quantisation, price and
//! reconstruction.

use vstd::prelude::*;

use crate::arith_decode::bin_of;
use crate::block_eval::{
    block_quantised, block_residual, count_block, eval_sse, eval_work, finish_eval, is_dst, lemma_none_counted, nonzeros,
    opt_view, policy_quantiser, pricing_of, recon_block, residual_of, residual_pricing, task_area,
    task_ok, Pricing, Quantiser,
};
use crate::cabac::{bin_cost, CabacEstimator};
use crate::contexts::{
    Contexts, COEFF_ABS_LEVEL_GREATER1_FLAG, COEFF_ABS_LEVEL_GREATER2_FLAG, SIG_COEFF_FLAG,
};
use crate::cost_bound::BLOCK_BITS_MAX;
use crate::final_code::BlockTask;
use crate::geometry::{block_side, side};
use crate::policy::{EvalPolicy, RdoqPolicy, ResidualBitPolicy};
use crate::source::SourcePicture;
use crate::tu_search::{outcome_ok, BlockOutcome};

verus! {

/// What coding a block works on and asks of its caller.
pub struct EvalEnv<'a, A, T, Q, H, I, X> {
    pub pic: &'a SourcePicture<'a>,
    /// Whether signs are hidden in the levels.
    pub hide_signs: bool,
    /// The prediction of a block from what is around it.
    pub predict: A,
    /// The forward transform of a residual, by sine or cosine.
    pub transform: T,
    /// The levels of coefficients, and how many are not zero.
    pub quantise: Q,
    /// Levels that hide signs, and how many are not zero.
    pub hide: H,
    /// The residual that levels stand for.
    pub invert: I,
    /// What levels cost, in fractional bits.
    pub price: X,
}

/// Levels of a block, and how many are not zero.
pub open spec fn levels_ok(t: BlockTask, l: (Vec<i16>, u32)) -> bool {
    &&& l.0@.len() == task_area(t)
    &&& l.1 == nonzeros(l.0@, l.0@.len())
}

/// The caller answers for every block as blocks are coded, in the block's size, and counts
/// the levels that are not zero.
pub open spec fn eval_env_ok<'a, W, A, T, Q, H, I, X>(
    env: &EvalEnv<'a, A, T, Q, H, I, X>,
    world: &W,
) -> bool where
    A: Fn(&W, BlockTask) -> Vec<u16>,
    T: Fn(&Vec<i16>, BlockTask, bool) -> Vec<i16>,
    Q: Fn(&Vec<i16>, BlockTask, Quantiser) -> (Vec<i16>, u32),
    H: Fn(Vec<i16>, &Vec<i16>, BlockTask, u32) -> (Vec<i16>, u32),
    I: Fn(&Vec<i16>, BlockTask, bool) -> Vec<i16>,
    X: Fn(&Vec<i16>, BlockTask, Pricing) -> u64,
 {
    &&& forall|t: BlockTask| task_ok(t) ==> #[trigger] call_requires(env.predict, (world, t))
    &&& forall|t: BlockTask, p: Vec<u16>| #[trigger]
        call_ensures(env.predict, (world, t), p) && task_ok(t) ==> p@.len() == task_area(t)
    &&& forall|r: &Vec<i16>, t: BlockTask, dst: bool|
        task_ok(t) && r@.len() == task_area(t) ==> #[trigger] call_requires(
            env.transform,
            (r, t, dst),
        )
    &&& forall|r: &Vec<i16>, t: BlockTask, dst: bool, c: Vec<i16>| #[trigger]
        call_ensures(env.transform, (r, t, dst), c) && task_ok(t) && r@.len() == task_area(t)
            ==> c@.len() == task_area(t)
    &&& forall|c: &Vec<i16>, t: BlockTask, q: Quantiser|
        task_ok(t) && c@.len() == task_area(t) ==> #[trigger] call_requires(
            env.quantise,
            (c, t, q),
        )
    &&& forall|c: &Vec<i16>, t: BlockTask, q: Quantiser, l: (Vec<i16>, u32)| #[trigger]
        call_ensures(env.quantise, (c, t, q), l) && task_ok(t) && c@.len() == task_area(t)
            ==> levels_ok(t, l)
    &&& forall|l: Vec<i16>, c: &Vec<i16>, t: BlockTask, n: u32|
        task_ok(t) && c@.len() == task_area(t) && levels_ok(t, (l, n)) && n > 0
            ==> #[trigger] call_requires(env.hide, (l, c, t, n))
    &&& forall|l: Vec<i16>, c: &Vec<i16>, t: BlockTask, n: u32, r: (Vec<i16>, u32)| #[trigger]
        call_ensures(env.hide, (l, c, t, n), r) && task_ok(t) && c@.len() == task_area(t)
            && levels_ok(t, (l, n)) ==> levels_ok(t, r)
    &&& forall|l: &Vec<i16>, t: BlockTask, dst: bool|
        task_ok(t) && l@.len() == task_area(t) ==> #[trigger] call_requires(
            env.invert,
            (l, t, dst),
        )
    &&& forall|l: &Vec<i16>, t: BlockTask, dst: bool, r: Vec<i16>| #[trigger]
        call_ensures(env.invert, (l, t, dst), r) && task_ok(t) && l@.len() == task_area(t)
            ==> r@.len() == task_area(t)
    &&& forall|l: &Vec<i16>, t: BlockTask, p: Pricing|
        task_ok(t) && l@.len() == task_area(t) ==> #[trigger] call_requires(env.price, (l, t, p))
    &&& forall|l: &Vec<i16>, t: BlockTask, p: Pricing, b: u64| #[trigger]
        call_ensures(env.price, (l, t, p), b) && task_ok(t) && l@.len() == task_area(t)
            ==> b <= BLOCK_BITS_MAX
}

/// Names what a block's coding goes through.
pub open spec fn eval_steps(
    pred: Vec<u16>,
    residual: Vec<i16>,
    coeffs: Vec<i16>,
    plain: (Vec<i16>, u32),
    levels: (Vec<i16>, u32),
    recon: Option<Vec<i16>>,
) -> bool {
    true
}

/// A block was coded: predicted, its residual transformed and quantised as the policy
/// says, priced, and reconstructed from its levels.
pub open spec fn block_evaluated<'a, W, A, T, Q, H, I, X>(
    env: &EvalEnv<'a, A, T, Q, H, I, X>,
    world: &W,
    t: BlockTask,
    policy: EvalPolicy,
    out: BlockOutcome,
) -> bool where
    A: Fn(&W, BlockTask) -> Vec<u16>,
    T: Fn(&Vec<i16>, BlockTask, bool) -> Vec<i16>,
    Q: Fn(&Vec<i16>, BlockTask, Quantiser) -> (Vec<i16>, u32),
    H: Fn(Vec<i16>, &Vec<i16>, BlockTask, u32) -> (Vec<i16>, u32),
    I: Fn(&Vec<i16>, BlockTask, bool) -> Vec<i16>,
    X: Fn(&Vec<i16>, BlockTask, Pricing) -> u64,
 {
    exists|
        pred: Vec<u16>,
        residual: Vec<i16>,
        coeffs: Vec<i16>,
        plain: (Vec<i16>, u32),
        levels: (Vec<i16>, u32),
        recon: Option<Vec<i16>>,
    |
        {
            let dst = t.log2_size == 2 && t.c_idx == 0;
            &&& #[trigger] eval_steps(pred, residual, coeffs, plain, levels, recon)
            &&& call_ensures(env.predict, (world, t), pred)
            &&& residual@.len() == pred@.len()
            &&& forall|k: int|
                0 <= k < pred@.len() ==> #[trigger] residual@[k] == residual_of(
                    env.pic,
                    t.c_idx,
                    t.x as int,
                    t.y as int,
                    side(t.log2_size),
                    pred@,
                    k,
                ) as i16
            &&& call_ensures(env.transform, (&residual, t, dst), coeffs)
            &&& call_ensures(env.quantise, (&coeffs, t, block_quantised(policy)), plain)
            &&& if env.hide_signs && plain.1 > 0 {
                call_ensures(env.hide, (plain.0, &coeffs, t, plain.1), levels)
            } else {
                levels == plain
            }
            &&& recon is Some == (levels.1 > 0)
            &&& recon matches Some(r) ==> call_ensures(env.invert, (&levels.0, t, dst), r)
            &&& out.samples@ == recon_block(pred@, opt_view(recon), env.pic.bit_depth)
            &&& out.distortion == eval_sse(pred@, residual@, out.samples@, pred@.len())
            &&& out.coded.cbf == (levels.1 > 0)
            &&& if pricing_of(levels.0@, policy) == Pricing::Free {
                out.coded.frac_bits == 0
            } else {
                call_ensures(
                    env.price,
                    (&levels.0, t, pricing_of(levels.0@, policy)),
                    out.coded.frac_bits,
                )
            }
            &&& out.coded.levels@ == if policy.commit || (policy.rdoq == RdoqPolicy::Off
                && policy.bits == ResidualBitPolicy::Exact) {
                levels.0@
            } else {
                Seq::empty()
            }
            &&& out.work == eval_work(levels.1 > 0, pricing_of(levels.0@, policy))
        }
}

/// Codes a block.
pub fn eval_leaf_block<'a, W, A, T, Q, H, I, X>(
    env: &EvalEnv<'a, A, T, Q, H, I, X>,
    world: &W,
    t: BlockTask,
    policy: EvalPolicy,
) -> (out: BlockOutcome) where
    A: Fn(&W, BlockTask) -> Vec<u16>,
    T: Fn(&Vec<i16>, BlockTask, bool) -> Vec<i16>,
    Q: Fn(&Vec<i16>, BlockTask, Quantiser) -> (Vec<i16>, u32),
    H: Fn(Vec<i16>, &Vec<i16>, BlockTask, u32) -> (Vec<i16>, u32),
    I: Fn(&Vec<i16>, BlockTask, bool) -> Vec<i16>,
    X: Fn(&Vec<i16>, BlockTask, Pricing) -> u64,

    requires
        eval_env_ok(env, world),
        env.pic.bit_depth <= 16,
        task_ok(t),
    ensures
        block_evaluated(env, world, t, policy, out),
        outcome_ok(t, out),
        !out.coded.cbf ==> out.coded.frac_bits == 0,
{
    proof {
        lemma_small_area(t.log2_size);
    }
    let dst: bool = is_dst(t.log2_size, t.c_idx);
    let pred = (env.predict)(world, t);
    let residual = block_residual(env.pic, t.c_idx, t.x, t.y, t.log2_size, &pred);
    let coeffs = (env.transform)(&residual, t, dst);
    let plain = (env.quantise)(&coeffs, t, policy_quantiser(policy));
    let ghost first = plain;
    let levels: (Vec<i16>, u32) = if env.hide_signs && plain.1 > 0 {
        (env.hide)(plain.0, &coeffs, t, plain.1)
    } else {
        plain
    };
    let recon: Option<Vec<i16>> = if levels.1 > 0 {
        Some((env.invert)(&levels.0, t, dst))
    } else {
        None
    };
    let pricing = residual_pricing(&levels.0, policy);
    let frac_bits: u64 = match pricing {
        Pricing::Free => 0,
        _ => (env.price)(&levels.0, t, pricing),
    };
    let ghost second = levels;
    proof {
        if levels.1 == 0 {
            lemma_none_counted(levels.0@, levels.0@.len());
        }
    }
    let (eval, samples) = finish_eval(
        policy,
        &pred,
        &residual,
        levels.0,
        levels.1,
        &recon,
        frac_bits,
        env.pic.bit_depth,
    );
    assert(eval_steps(pred, residual, coeffs, first, second, recon));
    let work = count_block(eval.coded.cbf, pricing);
    BlockOutcome { coded: eval.coded, distortion: eval.distortion, samples, work }
}

pub proof fn lemma_small_area(log2_size: u8)
    requires
        log2_size <= 5,
    ensures
        0 < side(log2_size) * side(log2_size) <= 1024,
{
    vstd::arithmetic::power2::lemma2_to64();
    vstd::arithmetic::power2::lemma_pow2_pos(log2_size as nat);
    if log2_size < 5 {
        vstd::arithmetic::power2::lemma_pow2_strictly_increases(log2_size as nat, 5);
    }
    let s = side(log2_size);
    assert(0 < s * s <= 1024) by (nonlinear_arith)
        requires
            0 < s <= 32,
    ;
}

/// The context of the flag for levels above one, as the estimate takes it.
pub open spec fn gt1_ctx(c_idx: u8) -> int {
    COEFF_ABS_LEVEL_GREATER1_FLAG + if c_idx > 0 {
        17int
    } else {
        9
    }
}

/// The context of the flag for levels above two, as the estimate takes it.
pub open spec fn gt2_ctx(c_idx: u8) -> int {
    COEFF_ABS_LEVEL_GREATER2_FLAG + if c_idx > 0 {
        4int
    } else {
        2
    }
}

pub open spec fn sig_ctx(c_idx: u8) -> int {
    SIG_COEFF_FLAG + if c_idx > 0 {
        27int
    } else {
        0
    }
}

/// The magnitude of a level.
pub open spec fn level_abs(level: i16) -> int {
    if level < 0 {
        -level
    } else {
        level as int
    }
}

/// What a level is estimated to cost. `rice` is the number of bins of what is above the
/// flags.
pub open spec fn level_estimate(states: Seq<int>, c_idx: u8, level: i16, rice: u32) -> int {
    let abs = level_abs(level);
    let above1 = bin_cost(states[gt1_ctx(c_idx)], 1);
    if abs == 0 {
        0
    } else if abs == 1 {
        bin_cost(states[gt1_ctx(c_idx)], 0) + CabacEstimator::SCALE
    } else if abs == 2 {
        above1 + bin_cost(states[gt2_ctx(c_idx)], 0) + CabacEstimator::SCALE
    } else {
        above1 + bin_cost(states[gt2_ctx(c_idx)], 1) + rice * CabacEstimator::SCALE
            + CabacEstimator::SCALE
    }
}

/// What the first `n` levels of a block are estimated to cost, beside their significance.
pub open spec fn levels_estimate(
    states: Seq<int>,
    c_idx: u8,
    levels: Seq<i16>,
    rice: Seq<u32>,
    n: nat,
) -> int
    decreases n,
{
    if n == 0 {
        0
    } else {
        levels_estimate(states, c_idx, levels, rice, (n - 1) as nat) + level_estimate(
            states,
            c_idx,
            levels[n - 1],
            rice[n - 1],
        )
    }
}

/// Names the Rice bins of a block's levels.
pub open spec fn rice_counts(rice: Seq<u32>) -> bool {
    true
}

/// What a block's levels are estimated to cost, from the contexts as they stand: a
/// significance flag per level and for a quarter of the block, the flags and remainders of
/// each level, and its sign.
pub open spec fn residual_estimate<R>(
    states: Seq<int>,
    log2_size: u8,
    c_idx: u8,
    levels: Seq<i16>,
    rice_bins: R,
    bits: int,
) -> bool where R: Fn(u32) -> u32 {
    let nnz = crate::block_eval::nonzeros(levels, levels.len());
    exists|rice: Seq<u32>|
        {
            &&& #[trigger] rice_counts(rice)
            &&& rice.len() == levels.len()
            &&& forall|i: int|
                0 <= i < levels.len() && level_abs(levels[i]) > 2 ==> call_ensures(
                    rice_bins,
                    ((level_abs(levels[i]) - 3) as u32,),
                    #[trigger] rice[i],
                )
            &&& bits == if nnz == 0 {
                0
            } else {
                nnz * bin_cost(states[sig_ctx(c_idx)], 1) + (side(log2_size) * side(log2_size) / 4)
                    * bin_cost(states[sig_ctx(c_idx)], 0) + levels_estimate(
                    states,
                    c_idx,
                    levels,
                    rice,
                    levels.len(),
                )
            }
        }
}

/// Estimates what a block's levels cost.
pub fn approx_residual_frac_bits<R>(
    ctxs: &Contexts,
    levels: &Vec<i16>,
    log2_size: u8,
    c_idx: u8,
    rice_bins: &R,
) -> (bits: u64) where R: Fn(u32) -> u32
    requires
        ctxs.well_formed(),
        log2_size <= 5,
        levels@.len() <= 1024,
        forall|v: u32| #[trigger] call_requires(*rice_bins, (v,)),
        forall|v: u32, b: u32| #[trigger] call_ensures(*rice_bins, (v,), b) ==> b <= 64,
    ensures
        residual_estimate(ctxs@, log2_size, c_idx, levels@, *rice_bins, bits as int),
        bits <= BLOCK_BITS_MAX,
{
    let scale: u64 = CabacEstimator::SCALE;
    let gt1_ci: usize = COEFF_ABS_LEVEL_GREATER1_FLAG + if c_idx > 0 {
        17usize
    } else {
        9
    };
    let gt2_ci: usize = COEFF_ABS_LEVEL_GREATER2_FLAG + if c_idx > 0 {
        4usize
    } else {
        2
    };
    let sig_ci: usize = SIG_COEFF_FLAG + if c_idx > 0 {
        27usize
    } else {
        0
    };
    let gt1_0: u64 = bin_bits(ctxs, gt1_ci, false);
    let gt1_1: u64 = bin_bits(ctxs, gt1_ci, true);
    let gt2_0: u64 = bin_bits(ctxs, gt2_ci, false);
    let gt2_1: u64 = bin_bits(ctxs, gt2_ci, true);
    let sig_1: u64 = bin_bits(ctxs, sig_ci, true);
    let sig_0: u64 = bin_bits(ctxs, sig_ci, false);
    let n: usize = levels.len();
    let mut nnz: u64 = 0;
    let mut level_bits: u64 = 0;
    let ghost mut rice: Seq<u32> = Seq::empty();
    for i in 0..n
        invariant
            n == levels@.len(),
            n <= 1024,
            scale == CabacEstimator::SCALE,
            scale == 32768,
            gt1_0 == bin_cost(ctxs@[gt1_ctx(c_idx)], 0),
            gt1_1 == bin_cost(ctxs@[gt1_ctx(c_idx)], 1),
            gt2_0 == bin_cost(ctxs@[gt2_ctx(c_idx)], 0),
            gt2_1 == bin_cost(ctxs@[gt2_ctx(c_idx)], 1),
            gt1_0 <= 0x3bfbb,
            gt1_1 <= 0x3bfbb,
            gt2_0 <= 0x3bfbb,
            gt2_1 <= 0x3bfbb,
            forall|v: u32| #[trigger] call_requires(*rice_bins, (v,)),
            forall|v: u32, b: u32| #[trigger] call_ensures(*rice_bins, (v,), b) ==> b <= 64,
            nnz == crate::block_eval::nonzeros(levels@, i as nat),
            nnz <= i,
            rice.len() == i,
            forall|k: int|
                0 <= k < i && level_abs(levels@[k]) > 2 ==> call_ensures(
                    *rice_bins,
                    ((level_abs(levels@[k]) - 3) as u32,),
                    #[trigger] rice[k],
                ),
            level_bits == levels_estimate(ctxs@, c_idx, levels@, rice, i as nat),
            level_bits <= i * 0x40_0000,
    {
        let level: i16 = levels[i];
        let abs: u32 = if level < 0 {
            (-(level as i32)) as u32
        } else {
            level as u32
        };
        assert(abs == level_abs(level));
        let ghost before = rice;
        if abs == 0 {
            proof {
                rice = rice.push(0);
            }
        } else {
            nnz = nnz + 1;
            let mag: u64 = if abs == 1 {
                proof {
                    rice = rice.push(0);
                }
                gt1_0
            } else if abs == 2 {
                proof {
                    rice = rice.push(0);
                }
                gt1_1 + gt2_0
            } else {
                let b: u32 = (*rice_bins)(abs - 3);
                proof {
                    rice = rice.push(b);
                }
                gt1_1 + gt2_1 + b as u64 * scale
            };
            level_bits = level_bits + mag + scale;
        }
        proof {
            lemma_estimate_prefix(ctxs@, c_idx, levels@, before, rice, i as nat);
        }
    }
    proof {
        assert(rice_counts(rice));
        lemma_small_area(log2_size);
        let size = side(log2_size);
        assert(nnz * sig_1 <= 1024 * 0x3bfbb) by (nonlinear_arith)
            requires
                0 <= nnz <= 1024,
                0 <= sig_1 <= 0x3bfbb,
        ;
    }
    if nnz == 0 {
        return 0;
    }
    let size: u64 = block_side(log2_size) as u64;
    let area: u64 = size * size;
    assert((area / 4) * sig_0 <= 256 * 0x3bfbb) by (nonlinear_arith)
        requires
            0 <= area / 4 <= 256,
            0 <= sig_0 <= 0x3bfbb,
    ;
    nnz * sig_1 + (area / 4) * sig_0 + level_bits
}

fn bin_bits(ctxs: &Contexts, ci: usize, bin: bool) -> (bits: u64)
    requires
        ctxs.well_formed(),
        ci < crate::contexts::NUM_CONTEXTS,
    ensures
        bits == bin_cost(ctxs@[ci as int], bin_of(bin)),
        bits <= 0x3bfbb,
{
    let m: crate::cabac::ContextModel = ctxs.models[ci];
    assert(ctxs@[ci as int] == m.packed());
    m.entropy_bits(bin as u8) as u64
}

proof fn lemma_estimate_prefix(
    states: Seq<int>,
    c_idx: u8,
    levels: Seq<i16>,
    a: Seq<u32>,
    b: Seq<u32>,
    n: nat,
)
    requires
        n <= a.len() <= b.len(),
        forall|i: int| 0 <= i < a.len() ==> a[i] == b[i],
    ensures
        levels_estimate(states, c_idx, levels, a, n) == levels_estimate(
            states,
            c_idx,
            levels,
            b,
            n,
        ),
    decreases n,
{
    if n > 0 {
        lemma_estimate_prefix(states, c_idx, levels, a, b, (n - 1) as nat);
    }
}

} // verus!
