//! What a candidate mode costs: its blocks coded on trial, and its mode.

use vstd::prelude::*;

use crate::arith_decode::bin_of;
use crate::block_eval::{block_ok, Pricing, Quantiser};
use crate::budget::BlockSearchBudget;
use crate::cabac::{bin_cost, CabacEstimator, ContextModel};
use crate::contexts::{Contexts, CBF_LUMA, PART_MODE};
use crate::cost::{estimate_intra_chroma_mode_bits, estimate_intra_luma_mode_bits, items_cost};
use crate::cost_bound::{lemma_tt_cost_bound, BLOCK_BITS_MAX};
use crate::final_code::{square_ok, BlockTask, CodeSettings};
use crate::geometry::{block_side, side, CHROMA_DM_IDX};
use crate::items::{chroma_mode_items, luma_mode_items, mpm_distinct, tt_items};
use crate::leaf_eval::{block_evaluated, eval_env_ok, eval_leaf_block, EvalEnv};
use crate::luma_search::{decide_luma_tt, luma_tried};
use crate::mode_search::chroma_rough_cost;
use crate::nxn_search::nxn_pu_bits;
use crate::policy::{EvalKind, EvalPolicy, RdoqPolicy, ResidualBitPolicy, WorkBucket};
use crate::rough::{luma_rough_score, Place};
use crate::stats::{EncodeStats, Tried};
use crate::syntax::Tt;
use crate::trial_region::TrialReconRegion;
use crate::tu_search::{
    env_ok, lemma_node_cap, lemma_total_push, total_work, tt_bits_luma, BlockOutcome, TtEnv, TtTrial,
    BLOCK_DISTORTION_MAX,
};

verus! {

/// The policy that a candidate of a kind is evaluated with.
pub open spec fn kind_policy(kind: EvalKind, bucket: WorkBucket) -> EvalPolicy {
    EvalPolicy {
        rdoq: if kind == EvalKind::CheapTrial {
            RdoqPolicy::Off
        } else {
            RdoqPolicy::FullSingleScan
        },
        bits: if kind == EvalKind::CheapTrial {
            ResidualBitPolicy::Approx
        } else {
            ResidualBitPolicy::Exact
        },
        commit: kind == EvalKind::Final,
        work_bucket: Some(bucket),
    }
}

/// Where the work on a luma candidate is booked.
pub open spec fn luma_bucket(kind: EvalKind) -> WorkBucket {
    match kind {
        EvalKind::CheapTrial => WorkBucket::LumaCandidateCheap,
        EvalKind::ExactTrial => WorkBucket::LumaCandidateExact,
        EvalKind::Final => WorkBucket::FinalReplay,
    }
}

/// Where the work on a chroma candidate is booked.
pub open spec fn chroma_bucket(kind: EvalKind) -> WorkBucket {
    match kind {
        EvalKind::CheapTrial => WorkBucket::ChromaCheap,
        EvalKind::ExactTrial => WorkBucket::ChromaExact,
        EvalKind::Final => WorkBucket::FinalReplay,
    }
}

/// What a luma candidate costs: the partition of a unit of the smallest size, the mode, the
/// coded flag and the levels.
pub open spec fn luma_bits(
    states: Seq<int>,
    mpm: [u8; 3],
    mode: u8,
    log2_cb_size: u8,
    cbf: bool,
    residual_bits: u64,
) -> int {
    (if log2_cb_size == 3 {
        bin_cost(states[PART_MODE as int], 1)
    } else {
        0
    }) + items_cost(states, luma_mode_items(mpm, mode)) + bin_cost(
        states[CBF_LUMA + 1],
        bin_of(cbf),
    ) + if cbf {
        residual_bits as int
    } else {
        0
    }
}

fn bin_bits(ctxs: &Contexts, ci: usize, bin: bool) -> (bits: u64)
    requires
        ctxs.well_formed(),
        ci < crate::contexts::NUM_CONTEXTS,
    ensures
        bits == bin_cost(ctxs@[ci as int], bin_of(bin)),
        bits <= 0x3bfbb,
{
    let m: ContextModel = ctxs.models[ci];
    assert(ctxs@[ci as int] == m.packed());
    m.entropy_bits(bin as u8) as u64
}

pub fn luma_candidate_bits(
    ctxs: &Contexts,
    mpm: [u8; 3],
    mode: u8,
    log2_cb_size: u8,
    cbf: bool,
    residual_bits: u64,
) -> (bits: u64)
    requires
        ctxs.well_formed(),
        mpm_distinct(mpm),
        residual_bits <= BLOCK_BITS_MAX,
    ensures
        bits == luma_bits(ctxs@, mpm, mode, log2_cb_size, cbf, residual_bits),
{
    let mut bits: u64 = estimate_intra_luma_mode_bits(ctxs, mpm, mode);
    if log2_cb_size == 3 {
        bits = bits + bin_bits(ctxs, PART_MODE, true);
    }
    bits = bits + bin_bits(ctxs, CBF_LUMA + 1, cbf);
    if cbf {
        bits = bits + residual_bits;
    }
    bits
}

/// Names the outcome of a candidate's block.
pub open spec fn tried(out: BlockOutcome) -> bool {
    true
}

/// The luma block of a place.
pub open spec fn luma_block(at: Place, mode: u8, qp: i32) -> BlockTask {
    BlockTask { x: at.x, y: at.y, log2_size: at.log2_size, c_idx: 0, mode, qp }
}

/// A luma candidate was evaluated: one block coded on trial, and priced with its mode.
pub open spec fn luma_candidate_tried<'a, W, A, T, Q, H, I, X, P>(
    env: &EvalEnv<'a, A, T, Q, H, I, X>,
    world: &W,
    states: Seq<int>,
    at: Place,
    mpm: [u8; 3],
    mode: u8,
    qp: i32,
    kind: EvalKind,
    price: P,
    r: Tried,
) -> bool where
    A: Fn(&W, BlockTask) -> Vec<u16>,
    T: Fn(&Vec<i16>, BlockTask, bool) -> Vec<i16>,
    Q: Fn(&Vec<i16>, BlockTask, Quantiser) -> (Vec<i16>, u32),
    H: Fn(Vec<i16>, &Vec<i16>, BlockTask, u32) -> (Vec<i16>, u32),
    I: Fn(&Vec<i16>, BlockTask, bool) -> Vec<i16>,
    X: Fn(&Vec<i16>, BlockTask, Pricing) -> u64,
    P: Fn(u64, u64) -> u64,
 {
    exists|out: BlockOutcome|
        {
            &&& #[trigger] tried(out)
            &&& block_evaluated(
                env,
                world,
                luma_block(at, mode, qp),
                kind_policy(kind, luma_bucket(kind)),
                out,
            )
            &&& call_ensures(
                price,
                (
                    out.distortion,
                    luma_bits(
                        states,
                        mpm,
                        mode,
                        at.log2_size,
                        out.coded.cbf,
                        out.coded.frac_bits,
                    ) as u64,
                ),
                r.cost,
            )
            &&& r.work == out.work
        }
}

/// Evaluates a luma candidate.
pub fn eval_luma_candidate<'a, W, A, T, Q, H, I, X, P>(
    env: &EvalEnv<'a, A, T, Q, H, I, X>,
    world: &W,
    ctxs: &Contexts,
    at: Place,
    mpm: [u8; 3],
    mode: u8,
    qp: i32,
    kind: EvalKind,
    price: &P,
) -> (r: Tried) where
    A: Fn(&W, BlockTask) -> Vec<u16>,
    T: Fn(&Vec<i16>, BlockTask, bool) -> Vec<i16>,
    Q: Fn(&Vec<i16>, BlockTask, Quantiser) -> (Vec<i16>, u32),
    H: Fn(Vec<i16>, &Vec<i16>, BlockTask, u32) -> (Vec<i16>, u32),
    I: Fn(&Vec<i16>, BlockTask, bool) -> Vec<i16>,
    X: Fn(&Vec<i16>, BlockTask, Pricing) -> u64,
    P: Fn(u64, u64) -> u64,

    requires
        eval_env_ok(env, world),
        env.pic.bit_depth <= 16,
        ctxs.well_formed(),
        mpm_distinct(mpm),
        block_ok(at.x, at.y, at.log2_size),
        at.log2_size <= 5,
        forall|d: u64, b: u64| #[trigger] call_requires(*price, (d, b)),
    ensures
        luma_candidate_tried(env, world, ctxs@, at, mpm, mode, qp, kind, *price, r),
{
    let bucket = match kind {
        EvalKind::CheapTrial => WorkBucket::LumaCandidateCheap,
        EvalKind::ExactTrial => WorkBucket::LumaCandidateExact,
        EvalKind::Final => WorkBucket::FinalReplay,
    };
    let policy = EvalPolicy::for_kind(kind).with_bucket(bucket);
    assert(policy == kind_policy(kind, luma_bucket(kind)));
    let t = BlockTask { x: at.x, y: at.y, log2_size: at.log2_size, c_idx: 0, mode, qp };
    let out = eval_leaf_block(env, world, t, policy);
    assert(tried(out));
    let bits: u64 = luma_candidate_bits(
        ctxs,
        mpm,
        mode,
        at.log2_size,
        out.coded.cbf,
        out.coded.frac_bits,
    );
    let cost: u64 = (*price)(out.distortion, bits);
    Tried { cost, work: out.work }
}

/// The chroma blocks of a candidate, Cb before Cr, one pair below the other.
pub open spec fn chroma_block(
    cx: int,
    cy: int,
    clog2: u8,
    pred: u8,
    qp: i32,
    i: int,
) -> BlockTask {
    BlockTask {
        x: cx as u32,
        y: (cy + (i / 2) * side(clog2)) as u32,
        log2_size: clog2,
        c_idx: (i % 2 + 1) as u8,
        mode: pred,
        qp,
    }
}

/// Names the outcomes of a candidate's chroma blocks.
pub open spec fn chroma_tried(outs: Seq<BlockOutcome>) -> bool {
    true
}

/// The distortion of the first `n` blocks.
pub open spec fn error_of(outs: Seq<BlockOutcome>, n: nat) -> int
    decreases n,
{
    if n == 0 {
        0
    } else {
        error_of(outs, (n - 1) as nat) + outs[n - 1].distortion
    }
}

/// The bits of the first `n` blocks.
pub open spec fn bits_of(outs: Seq<BlockOutcome>, n: nat) -> int
    decreases n,
{
    if n == 0 {
        0
    } else {
        bits_of(outs, (n - 1) as nat) + outs[n - 1].coded.frac_bits
    }
}

/// A chroma candidate was evaluated: its blocks coded on trial, and priced with its mode.
pub open spec fn chroma_candidate_tried<'a, W, A, T, Q, H, I, X, P>(
    env: &EvalEnv<'a, A, T, Q, H, I, X>,
    world: &W,
    states: Seq<int>,
    cx: int,
    cy: int,
    clog2: u8,
    count: u8,
    mode_idx: u8,
    pred: u8,
    qp: i32,
    kind: EvalKind,
    price: P,
    r: Tried,
) -> bool where
    A: Fn(&W, BlockTask) -> Vec<u16>,
    T: Fn(&Vec<i16>, BlockTask, bool) -> Vec<i16>,
    Q: Fn(&Vec<i16>, BlockTask, Quantiser) -> (Vec<i16>, u32),
    H: Fn(Vec<i16>, &Vec<i16>, BlockTask, u32) -> (Vec<i16>, u32),
    I: Fn(&Vec<i16>, BlockTask, bool) -> Vec<i16>,
    X: Fn(&Vec<i16>, BlockTask, Pricing) -> u64,
    P: Fn(u64, u64) -> u64,
 {
    exists|outs: Seq<BlockOutcome>|
        {
            let policy = EvalPolicy { commit: false, ..kind_policy(kind, chroma_bucket(kind)) };
            &&& #[trigger] chroma_tried(outs)
            &&& outs.len() == 2 * count
            &&& forall|i: int|
                0 <= i < outs.len() ==> block_evaluated(
                    env,
                    world,
                    chroma_block(cx, cy, clog2, pred, qp, i),
                    policy,
                    #[trigger] outs[i],
                )
            &&& call_ensures(
                price,
                (
                    error_of(outs, outs.len()) as u64,
                    (bits_of(outs, outs.len()) + items_cost(states, chroma_mode_items(mode_idx)))
                        as u64,
                ),
                r.cost,
            )
            &&& r.work == total_work(outs)
        }
}

/// Evaluates a chroma candidate.
pub fn eval_chroma_candidate<'a, W, A, T, Q, H, I, X, P>(
    env: &EvalEnv<'a, A, T, Q, H, I, X>,
    world: &W,
    ctxs: &Contexts,
    cx: u32,
    cy: u32,
    clog2: u8,
    count: u8,
    mode_idx: u8,
    pred: u8,
    qp: i32,
    kind: EvalKind,
    price: &P,
) -> (r: Tried) where
    A: Fn(&W, BlockTask) -> Vec<u16>,
    T: Fn(&Vec<i16>, BlockTask, bool) -> Vec<i16>,
    Q: Fn(&Vec<i16>, BlockTask, Quantiser) -> (Vec<i16>, u32),
    H: Fn(Vec<i16>, &Vec<i16>, BlockTask, u32) -> (Vec<i16>, u32),
    I: Fn(&Vec<i16>, BlockTask, bool) -> Vec<i16>,
    X: Fn(&Vec<i16>, BlockTask, Pricing) -> u64,
    P: Fn(u64, u64) -> u64,

    requires
        eval_env_ok(env, world),
        env.pic.bit_depth <= 16,
        ctxs.well_formed(),
        mode_idx <= CHROMA_DM_IDX,
        count <= 2,
        clog2 <= 5,
        cx + side(clog2) <= u32::MAX,
        cy + 2 * side(clog2) <= u32::MAX,
        forall|d: u64, b: u64| #[trigger] call_requires(*price, (d, b)),
    ensures
        chroma_candidate_tried(
            env,
            world,
            ctxs@,
            cx as int,
            cy as int,
            clog2,
            count,
            mode_idx,
            pred,
            qp,
            kind,
            *price,
            r,
        ),
{
    let bucket = match kind {
        EvalKind::CheapTrial => WorkBucket::ChromaCheap,
        EvalKind::ExactTrial => WorkBucket::ChromaExact,
        EvalKind::Final => WorkBucket::FinalReplay,
    };
    let mut policy = EvalPolicy::for_kind(kind).with_bucket(bucket);
    policy.commit = false;
    let ghost asked = EvalPolicy { commit: false, ..kind_policy(kind, chroma_bucket(kind)) };
    assert(policy == asked);
    let size: u32 = block_side(clog2);
    let ghost (xi, yi) = (cx as int, cy as int);
    let mut distortion: u64 = 0;
    let mut frac_bits: u64 = 0;
    let mut work = EncodeStats::default();
    let ghost mut outs: Seq<BlockOutcome> = Seq::empty();
    let n: u8 = 2 * count;
    for i in 0..n
        invariant
            n == 2 * count,
            count <= 2,
            xi == cx,
            yi == cy,
            policy == asked,
            size == side(clog2),
            clog2 <= 5,
            cx + side(clog2) <= u32::MAX,
            cy + 2 * side(clog2) <= u32::MAX,
            eval_env_ok(env, world),
            env.pic.bit_depth <= 16,
            outs.len() == i,
            forall|k: int|
                0 <= k < i ==> block_evaluated(
                    env,
                    world,
                    chroma_block(xi, yi, clog2, pred, qp, k),
                    asked,
                    #[trigger] outs[k],
                ),
            distortion == error_of(outs, i as nat),
            frac_bits == bits_of(outs, i as nat),
            work == total_work(outs),
            distortion <= i * BLOCK_DISTORTION_MAX,
            frac_bits <= i * BLOCK_BITS_MAX,
    {
        let row: u32 = if i / 2 == 1 {
            size
        } else {
            0
        };
        let t = BlockTask {
            x: cx,
            y: cy + row,
            log2_size: clog2,
            c_idx: i % 2 + 1,
            mode: pred,
            qp,
        };
        proof {
            assert(0 * side(clog2) == 0 && 1 * side(clog2) == side(clog2));
            assert(t == chroma_block(xi, yi, clog2, pred, qp, i as int));
        }
        let out = eval_leaf_block(env, world, t, policy);
        let ghost before = outs;
        proof {
            outs = outs.push(out);
            lemma_sums_prefix(before, outs, i as nat);
            lemma_total_push(before, out);
        }
        work = work.joined(out.work);
        distortion = distortion + out.distortion;
        frac_bits = frac_bits + out.coded.frac_bits;
    }
    assert(chroma_tried(outs));
    let mode_bits: u64 = estimate_intra_chroma_mode_bits(ctxs, mode_idx);
    let cost: u64 = (*price)(distortion, frac_bits + mode_bits);
    Tried { cost, work }
}

/// The sum of the first `n` transformed differences.
pub open spec fn satd_sum(satds: Seq<u32>, n: nat) -> int
    decreases n,
{
    if n == 0 {
        0
    } else {
        satd_sum(satds, (n - 1) as nat) + satds[n - 1]
    }
}

/// Adds up the transformed differences of blocks.
pub fn rough_chroma_cost(satds: &Vec<u32>) -> (s: u64)
    requires
        satds@.len() <= 0xffff_ffff,
    ensures
        s == satd_sum(satds@, satds@.len()),
        s <= satds@.len() * 0xffff_ffff,
{
    let n: usize = satds.len();
    let mut s: u64 = 0;
    for i in 0..n
        invariant
            n == satds@.len(),
            n <= 0xffff_ffff,
            s == satd_sum(satds@, i as nat),
            s <= i * 0xffff_ffff,
    {
        assert(i * 0xffff_ffff + 0xffff_ffff <= 0xffff_ffff * 0xffff_ffff) by (nonlinear_arith)
            requires
                i + 1 <= 0xffff_ffff,
        ;
        s = s + satds[i] as u64;
    }
    s
}

/// The rough score of a chroma mode: the transformed differences of its Cb and Cr blocks, and
/// the bits of the mode.
pub fn score_chroma_mode(
    ctxs: &Contexts,
    mode_idx: u8,
    cb: &Vec<u32>,
    cr: &Vec<u32>,
) -> (score: u64)
    requires
        ctxs.well_formed(),
        cb@.len() <= 64,
        cr@.len() <= 64,
    ensures
        score == (satd_sum(cb@, cb@.len()) + satd_sum(cr@, cr@.len())) * CabacEstimator::SCALE
            + items_cost(ctxs@, chroma_mode_items(mode_idx)),
{
    let bits: u64 = estimate_intra_chroma_mode_bits(ctxs, mode_idx);
    chroma_rough_cost(rough_chroma_cost(cb), rough_chroma_cost(cr), bits)
}

/// The rough score of a luma mode: the transformed difference of its prediction, and the
/// bits of the mode.
pub fn score_luma_mode(ctxs: &Contexts, mpm: [u8; 3], mode: u8, satd: u32) -> (score: u64)
    requires
        ctxs.well_formed(),
        mpm_distinct(mpm),
    ensures
        score == satd * CabacEstimator::SCALE + items_cost(ctxs@, luma_mode_items(mpm, mode)),
{
    let bits: u64 = estimate_intra_luma_mode_bits(ctxs, mpm, mode);
    luma_rough_score(satd, bits)
}

/// The policy that the parts of a unit are screened with, with approximate bits or exact
/// ones.
pub fn part_screen_policy(approximate: bool) -> (p: EvalPolicy)
    ensures
        p == (EvalPolicy {
            rdoq: RdoqPolicy::Off,
            bits: if approximate {
                ResidualBitPolicy::Approx
            } else {
                ResidualBitPolicy::Exact
            },
            commit: false,
            work_bucket: Some(WorkBucket::NxnPuCheap),
        }),
{
    EvalPolicy {
        rdoq: RdoqPolicy::Off,
        bits: if approximate {
            ResidualBitPolicy::Approx
        } else {
            ResidualBitPolicy::Exact
        },
        commit: false,
        work_bucket: Some(WorkBucket::NxnPuCheap),
    }
}

/// A mode of a part was evaluated: its block coded on trial, and priced with its mode and
/// its coded flag.
pub open spec fn part_candidate_tried<'a, W, A, T, Q, H, I, X, P>(
    env: &EvalEnv<'a, A, T, Q, H, I, X>,
    world: &W,
    states: Seq<int>,
    at: Place,
    mpm: [u8; 3],
    mode: u8,
    qp: i32,
    policy: EvalPolicy,
    price: P,
    r: Tried,
) -> bool where
    A: Fn(&W, BlockTask) -> Vec<u16>,
    T: Fn(&Vec<i16>, BlockTask, bool) -> Vec<i16>,
    Q: Fn(&Vec<i16>, BlockTask, Quantiser) -> (Vec<i16>, u32),
    H: Fn(Vec<i16>, &Vec<i16>, BlockTask, u32) -> (Vec<i16>, u32),
    I: Fn(&Vec<i16>, BlockTask, bool) -> Vec<i16>,
    X: Fn(&Vec<i16>, BlockTask, Pricing) -> u64,
    P: Fn(u64, u64) -> u64,
 {
    exists|out: BlockOutcome|
        {
            &&& #[trigger] tried(out)
            &&& block_evaluated(env, world, luma_block(at, mode, qp), policy, out)
            &&& call_ensures(
                price,
                (
                    out.distortion,
                    (items_cost(states, luma_mode_items(mpm, mode)) + bin_cost(
                        states[CBF_LUMA as int],
                        bin_of(out.coded.cbf),
                    ) + if out.coded.cbf {
                        out.coded.frac_bits as int
                    } else {
                        0
                    }) as u64,
                ),
                r.cost,
            )
            &&& r.work == out.work
        }
}

/// Evaluates a mode of a part of a unit.
pub fn eval_part_candidate<'a, W, A, T, Q, H, I, X, P>(
    env: &EvalEnv<'a, A, T, Q, H, I, X>,
    world: &W,
    ctxs: &Contexts,
    at: Place,
    mpm: [u8; 3],
    mode: u8,
    qp: i32,
    policy: EvalPolicy,
    price: &P,
) -> (r: Tried) where
    A: Fn(&W, BlockTask) -> Vec<u16>,
    T: Fn(&Vec<i16>, BlockTask, bool) -> Vec<i16>,
    Q: Fn(&Vec<i16>, BlockTask, Quantiser) -> (Vec<i16>, u32),
    H: Fn(Vec<i16>, &Vec<i16>, BlockTask, u32) -> (Vec<i16>, u32),
    I: Fn(&Vec<i16>, BlockTask, bool) -> Vec<i16>,
    X: Fn(&Vec<i16>, BlockTask, Pricing) -> u64,
    P: Fn(u64, u64) -> u64,

    requires
        eval_env_ok(env, world),
        env.pic.bit_depth <= 16,
        ctxs.well_formed(),
        mpm_distinct(mpm),
        block_ok(at.x, at.y, at.log2_size),
        at.log2_size <= 5,
        forall|d: u64, b: u64| #[trigger] call_requires(*price, (d, b)),
    ensures
        part_candidate_tried(env, world, ctxs@, at, mpm, mode, qp, policy, *price, r),
{
    let t = BlockTask { x: at.x, y: at.y, log2_size: at.log2_size, c_idx: 0, mode, qp };
    let out = eval_leaf_block(env, world, t, policy);
    assert(tried(out));
    let bits: u64 = nxn_pu_bits(ctxs, mpm, mode, out.coded.cbf, out.coded.frac_bits);
    let cost: u64 = (*price)(out.distortion, bits);
    Tried { cost, work: out.work }
}

/// Names the tree of a candidate that is larger than a block.
pub open spec fn subtree_tried(trial: TtTrial) -> bool {
    true
}

/// A luma candidate of a unit larger than a block was evaluated: its luma tree searched, and
/// priced with its mode.
pub open spec fn luma_subtree_tried<W, C, P, L, B, K>(
    env: &TtEnv<W, C, P, L, B>,
    close: K,
    states: Seq<int>,
    cat: u8,
    s: CodeSettings,
    at: Place,
    mpm: [u8; 3],
    start: TrialReconRegion,
    r: Tried,
) -> bool where
    C: Fn(&W, &TrialReconRegion, BlockTask, EvalKind) -> BlockOutcome,
    P: Fn(u64, u64) -> u64,
    L: Fn(&W, u32, u32, u8, &Tt) -> bool,
    B: Fn(&W, u32, u32, u8) -> BlockSearchBudget,
    K: Fn(u64, u64, u32) -> bool,
 {
    exists|trial: TtTrial|
        {
            &&& #[trigger] subtree_tried(trial)
            &&& luma_tried(
                env,
                close,
                states,
                cat,
                s,
                at.x as int,
                at.y as int,
                at.log2_size,
                0,
                start,
                trial,
            )
            &&& call_ensures(
                env.price,
                (
                    trial.distortion,
                    (items_cost(states, luma_mode_items(mpm, s.luma_mode)) + items_cost(
                        states,
                        tt_items(&trial.tt, 0, false, true, true),
                    )) as u64,
                ),
                r.cost,
            )
            &&& r.work == trial.work
        }
}

/// Evaluates a luma candidate of a unit larger than a block, on a private region.
pub fn eval_luma_subtree<W, C, P, L, B, K>(
    env: &TtEnv<W, C, P, L, B>,
    close: &K,
    ctxs: &Contexts,
    cat: u8,
    s: CodeSettings,
    at: Place,
    mpm: [u8; 3],
    region: TrialReconRegion,
) -> (r: Tried) where
    C: Fn(&W, &TrialReconRegion, BlockTask, EvalKind) -> BlockOutcome,
    P: Fn(u64, u64) -> u64,
    L: Fn(&W, u32, u32, u8, &Tt) -> bool,
    B: Fn(&W, u32, u32, u8) -> BlockSearchBudget,
    K: Fn(u64, u64, u32) -> bool,

    requires
        env_ok(env),
        forall|a: u64, b: u64, m: u32| #[trigger] call_requires(*close, (a, b, m)),
        ctxs.well_formed(),
        mpm_distinct(mpm),
        at.log2_size <= 6,
        square_ok(at.x as int, at.y as int, at.log2_size),
        region.well_formed(),
        s.cat == 0,
    ensures
        luma_subtree_tried(env, *close, ctxs@, cat, s, at, mpm, region, r),
{
    let trial = decide_luma_tt(env, close, ctxs, cat, s, at.x, at.y, at.log2_size, 0, region);
    proof {
        lemma_node_cap(at.log2_size);
        lemma_tt_cost_bound(ctxs@, &trial.tt, 0, false, true, true);
        assert(subtree_tried(trial));
    }
    let mode_bits: u64 = estimate_intra_luma_mode_bits(ctxs, mpm, s.luma_mode);
    let bits: u64 = mode_bits + tt_bits_luma(ctxs, &trial.tt);
    let cost: u64 = (env.price)(trial.distortion, bits);
    Tried { cost, work: trial.work }
}

proof fn lemma_sums_prefix(a: Seq<BlockOutcome>, b: Seq<BlockOutcome>, n: nat)
    requires
        n <= a.len() <= b.len(),
        forall|i: int| 0 <= i < a.len() ==> a[i] == b[i],
    ensures
        error_of(a, n) == error_of(b, n),
        bits_of(a, n) == bits_of(b, n),
    decreases n,
{
    if n > 0 {
        lemma_sums_prefix(a, b, (n - 1) as nat);
    }
}

} // verus!
