//! What holds of one coded block: what it shows, how far that is from the source, and how
//! much texture its source has.

use vstd::prelude::*;

use crate::block_eval::{
    block_quantised, eval_sse, eval_work, nonzeros, pricing_of, recon_block, recon_value,
    residual_of, Pricing, Quantiser,
};
use crate::final_code::BlockTask;
use crate::geometry::side;
use crate::leaf_eval::{block_evaluated, level_estimate, eval_steps, EvalEnv};
use crate::policy::{EvalPolicy, RdoqPolicy, ResidualBitPolicy};
use crate::source::SourcePicture;
use crate::texture::{is_uniform, sample_max, sample_min, sample_sum, spread_sum};
use crate::tu_search::BlockOutcome;

verus! {

/// A reconstructed sample is prediction and residual where their sum is a sample, and the
/// nearest sample elsewhere.
pub proof fn law_reconstruction_is_nearest(pred: u16, residual: int, bit_depth: u8, v: int)
    requires
        bit_depth <= 16,
        0 <= v < vstd::arithmetic::power2::pow2(bit_depth as nat),
    ensures
        ({
            let r = recon_value(pred, residual, bit_depth);
            let sum = pred + residual;
            &&& 0 <= r < vstd::arithmetic::power2::pow2(bit_depth as nat)
            &&& sum == v ==> r == v
            &&& sum >= v ==> r >= v
            &&& sum <= v ==> r <= v
        }),
{
    vstd::arithmetic::power2::lemma2_to64();
    vstd::arithmetic::power2::lemma_pow2_pos(bit_depth as nat);
    if bit_depth < 16 {
        vstd::arithmetic::power2::lemma_pow2_strictly_increases(bit_depth as nat, 16);
    }
}

/// The squared distance of the first `k` samples of a block from the source, row by row.
pub open spec fn distance(pic: &SourcePicture, t: BlockTask, samples: Seq<u16>, k: nat) -> int
    decreases k,
{
    if k == 0 {
        0
    } else {
        let i = k - 1;
        let s = pic.sample(t.c_idx, t.x + i % side(t.log2_size), t.y + i / side(t.log2_size));
        distance(pic, t, samples, (k - 1) as nat) + (s - samples[i]) * (s - samples[i])
    }
}

/// Every sample of the source, and every one that is predicted, is of 15 bits at most.
pub open spec fn samples_small<'a, W, A, T, Q, H, I, X>(
    env: &EvalEnv<'a, A, T, Q, H, I, X>,
    world: &W,
    t: BlockTask,
) -> bool where A: Fn(&W, BlockTask) -> Vec<u16> {
    &&& forall|x: int, y: int| #[trigger] env.pic.sample(t.c_idx, x, y) <= 0x7fff
    &&& forall|p: Vec<u16>| #[trigger]
        call_ensures(env.predict, (world, t), p) ==> p@.len() == side(t.log2_size) * side(
            t.log2_size,
        ) && forall|k: int| 0 <= k < p@.len() ==> #[trigger] p@[k] <= 0x7fff
}

/// The error of a coded block is the distance of its samples from the source, and it has a
/// sample for each place of its square.
pub proof fn law_error_is_distance<'a, W, A, T, Q, H, I, X>(
    env: &EvalEnv<'a, A, T, Q, H, I, X>,
    world: &W,
    t: BlockTask,
    policy: EvalPolicy,
    out: BlockOutcome,
) where
    A: Fn(&W, BlockTask) -> Vec<u16>,
    T: Fn(&Vec<i16>, BlockTask, bool) -> Vec<i16>,
    Q: Fn(&Vec<i16>, BlockTask, Quantiser) -> (Vec<i16>, u32),
    H: Fn(Vec<i16>, &Vec<i16>, BlockTask, u32) -> (Vec<i16>, u32),
    I: Fn(&Vec<i16>, BlockTask, bool) -> Vec<i16>,
    X: Fn(&Vec<i16>, BlockTask, Pricing) -> u64,

    requires
        block_evaluated(env, world, t, policy, out),
        samples_small(env, world, t),
    ensures
        out.samples@.len() == side(t.log2_size) * side(t.log2_size),
        out.distortion == distance(env.pic, t, out.samples@, out.samples@.len()),
{
    let (pred, residual, coeffs, plain, levels, recon) = choose|
        pred: Vec<u16>,
        residual: Vec<i16>,
        coeffs: Vec<i16>,
        plain: (Vec<i16>, u32),
        levels: (Vec<i16>, u32),
        recon: Option<Vec<i16>>,
    |
        {
            &&& #[trigger] eval_steps(pred, residual, coeffs, plain, levels, recon)
            &&& call_ensures(env.predict, (world, t), pred)
            &&& residual@.len() == pred@.len()
            &&& forall|k: int|
                0 <= k < pred@.len() ==> #[trigger] residual@[k] == residual_of(
                    env.pic,
                    t.c_idx,
                    t.x as int,
                    t.y as int,
                    side(t.log2_size),
                    pred@,
                    k,
                ) as i16
            &&& out.samples@.len() == pred@.len()
            &&& out.distortion == eval_sse(pred@, residual@, out.samples@, pred@.len())
        };
    lemma_distance(env.pic, t, pred@, residual@, out.samples@, pred@.len());
}

pub proof fn lemma_distance(
    pic: &SourcePicture,
    t: BlockTask,
    pred: Seq<u16>,
    residual: Seq<i16>,
    samples: Seq<u16>,
    k: nat,
)
    requires
        k <= pred.len(),
        residual.len() == pred.len(),
        samples.len() == pred.len(),
        forall|x: int, y: int| #[trigger] pic.sample(t.c_idx, x, y) <= 0x7fff,
        forall|i: int| 0 <= i < pred.len() ==> #[trigger] pred[i] <= 0x7fff,
        forall|i: int|
            0 <= i < pred.len() ==> #[trigger] residual[i] == residual_of(
                pic,
                t.c_idx,
                t.x as int,
                t.y as int,
                side(t.log2_size),
                pred,
                i,
            ) as i16,
    ensures
        eval_sse(pred, residual, samples, k) == distance(pic, t, samples, k),
    decreases k,
{
    if k > 0 {
        lemma_distance(pic, t, pred, residual, samples, (k - 1) as nat);
        let i = k - 1;
        let s = pic.sample(t.c_idx, t.x + i % side(t.log2_size), t.y + i / side(t.log2_size));
        assert(s <= 0x7fff);
        assert(pred[i] <= 0x7fff);
        assert(residual[i] == s - pred[i]);
        let d = s - samples[i];
        assert(d * d >= 0) by (nonlinear_arith);
    }
}

/// A block of which nothing is coded shows its prediction and costs no bits.
pub proof fn law_uncoded_block_shows_prediction<'a, W, A, T, Q, H, I, X>(
    env: &EvalEnv<'a, A, T, Q, H, I, X>,
    world: &W,
    t: BlockTask,
    policy: EvalPolicy,
    out: BlockOutcome,
) -> (pred: Vec<u16>) where
    A: Fn(&W, BlockTask) -> Vec<u16>,
    T: Fn(&Vec<i16>, BlockTask, bool) -> Vec<i16>,
    Q: Fn(&Vec<i16>, BlockTask, Quantiser) -> (Vec<i16>, u32),
    H: Fn(Vec<i16>, &Vec<i16>, BlockTask, u32) -> (Vec<i16>, u32),
    I: Fn(&Vec<i16>, BlockTask, bool) -> Vec<i16>,
    X: Fn(&Vec<i16>, BlockTask, Pricing) -> u64,

    requires
        block_evaluated(env, world, t, policy, out),
        !out.coded.cbf,
        env.pic.bit_depth <= 16,
        forall|p: Vec<u16>, k: int|
            call_ensures(env.predict, (world, t), p) && 0 <= k < p@.len() ==> #[trigger] p@[k]
                < vstd::arithmetic::power2::pow2(env.pic.bit_depth as nat),
    ensures
        call_ensures(env.predict, (world, t), pred),
        out.samples@ == pred@,
{
    let (pred, residual, coeffs, plain, levels, recon) = choose|
        pred: Vec<u16>,
        residual: Vec<i16>,
        coeffs: Vec<i16>,
        plain: (Vec<i16>, u32),
        levels: (Vec<i16>, u32),
        recon: Option<Vec<i16>>,
    |
        {
            &&& #[trigger] eval_steps(pred, residual, coeffs, plain, levels, recon)
            &&& call_ensures(env.predict, (world, t), pred)
            &&& recon is None
            &&& out.samples@ == recon_block(
                pred@,
                crate::block_eval::opt_view(recon),
                env.pic.bit_depth,
            )
        };
    assert forall|k: int| 0 <= k < pred@.len() implies out.samples@[k] == pred@[k] by {
        assert(pred@[k] < vstd::arithmetic::power2::pow2(env.pic.bit_depth as nat));
        law_reconstruction_is_nearest(pred@[k], 0, env.pic.bit_depth, pred@[k] as int);
    }
    assert(out.samples@ =~= pred@);
    pred
}

/// The transforms and quantisers lose nothing of a block: what its levels stand for is the
/// residual again, by the one transform asked for, and no level is left only where there
/// is no residual.
pub open spec fn lossless<'a, A, T, Q, H, I, X>(
    env: &EvalEnv<'a, A, T, Q, H, I, X>,
    t: BlockTask,
    sine: bool,
) -> bool where
    T: Fn(&Vec<i16>, BlockTask, bool) -> Vec<i16>,
    Q: Fn(&Vec<i16>, BlockTask, Quantiser) -> (Vec<i16>, u32),
    H: Fn(Vec<i16>, &Vec<i16>, BlockTask, u32) -> (Vec<i16>, u32),
    I: Fn(&Vec<i16>, BlockTask, bool) -> Vec<i16>,
 {
    forall|r: Vec<i16>, c: Vec<i16>, q: Quantiser, l: (Vec<i16>, u32)|
        #![trigger call_ensures(env.transform, (&r, t, sine), c), call_ensures(env.quantise, (&c, t, q), l)]
        call_ensures(env.transform, (&r, t, sine), c) && call_ensures(env.quantise, (&c, t, q), l)
            ==> restores(env, t, sine, r, l) && (l.1 > 0 ==> forall|h: (Vec<i16>, u32)|
            #[trigger] call_ensures(env.hide, (l.0, &c, t, l.1), h) ==> restores(
                env,
                t,
                sine,
                r,
                h,
            ))
}

/// Some levels stand for a residual.
pub open spec fn restores<'a, A, T, Q, H, I, X>(
    env: &EvalEnv<'a, A, T, Q, H, I, X>,
    t: BlockTask,
    sine: bool,
    residual: Vec<i16>,
    levels: (Vec<i16>, u32),
) -> bool where I: Fn(&Vec<i16>, BlockTask, bool) -> Vec<i16> {
    if levels.1 == 0 {
        forall|k: int| 0 <= k < residual@.len() ==> #[trigger] residual@[k] == 0
    } else {
        forall|b: Vec<i16>| #[trigger]
            call_ensures(env.invert, (&levels.0, t, sine), b) ==> b@ == residual@
    }
}

/// Where transforms and quantisers lose nothing, a coded block shows the source. The
/// transform is the sine transform for 4x4 luma, and the cosine transform for any other
/// block.
pub proof fn law_lossless_block_shows_source<'a, W, A, T, Q, H, I, X>(
    env: &EvalEnv<'a, A, T, Q, H, I, X>,
    world: &W,
    t: BlockTask,
    policy: EvalPolicy,
    out: BlockOutcome,
    k: int,
) where
    A: Fn(&W, BlockTask) -> Vec<u16>,
    T: Fn(&Vec<i16>, BlockTask, bool) -> Vec<i16>,
    Q: Fn(&Vec<i16>, BlockTask, Quantiser) -> (Vec<i16>, u32),
    H: Fn(Vec<i16>, &Vec<i16>, BlockTask, u32) -> (Vec<i16>, u32),
    I: Fn(&Vec<i16>, BlockTask, bool) -> Vec<i16>,
    X: Fn(&Vec<i16>, BlockTask, Pricing) -> u64,

    requires
        block_evaluated(env, world, t, policy, out),
        samples_small(env, world, t),
        lossless(env, t, t.c_idx == 0 && t.log2_size == 2),
        env.pic.bit_depth <= 16,
        forall|x: int, y: int| #[trigger]
            env.pic.sample(t.c_idx, x, y) < vstd::arithmetic::power2::pow2(
                env.pic.bit_depth as nat,
            ),
        0 <= k < side(t.log2_size) * side(t.log2_size),
    ensures
        out.samples@[k] == env.pic.sample(
            t.c_idx,
            t.x + k % side(t.log2_size),
            t.y + k / side(t.log2_size),
        ),
{
    let sine = t.c_idx == 0 && t.log2_size == 2;
    let (pred, residual, coeffs, plain, levels, recon) = choose|
        pred: Vec<u16>,
        residual: Vec<i16>,
        coeffs: Vec<i16>,
        plain: (Vec<i16>, u32),
        levels: (Vec<i16>, u32),
        recon: Option<Vec<i16>>,
    |
        {
            &&& #[trigger] eval_steps(pred, residual, coeffs, plain, levels, recon)
            &&& call_ensures(env.predict, (world, t), pred)
            &&& residual@.len() == pred@.len()
            &&& forall|k: int|
                0 <= k < pred@.len() ==> #[trigger] residual@[k] == residual_of(
                    env.pic,
                    t.c_idx,
                    t.x as int,
                    t.y as int,
                    side(t.log2_size),
                    pred@,
                    k,
                ) as i16
            &&& call_ensures(env.transform, (&residual, t, sine), coeffs)
            &&& call_ensures(env.quantise, (&coeffs, t, block_quantised(policy)), plain)
            &&& if env.hide_signs && plain.1 > 0 {
                call_ensures(env.hide, (plain.0, &coeffs, t, plain.1), levels)
            } else {
                levels == plain
            }
            &&& recon is Some == (levels.1 > 0)
            &&& recon matches Some(r) ==> call_ensures(env.invert, (&levels.0, t, sine), r)
            &&& out.samples@ == recon_block(
                pred@,
                crate::block_eval::opt_view(recon),
                env.pic.bit_depth,
            )
        };
    let s = env.pic.sample(t.c_idx, t.x + k % side(t.log2_size), t.y + k / side(t.log2_size));
    assert(s <= 0x7fff);
    assert(s < vstd::arithmetic::power2::pow2(env.pic.bit_depth as nat));
    assert(pred@[k] <= 0x7fff);
    assert(residual@[k] == s - pred@[k]);
    assert(restores(env, t, sine, residual, levels));
    if levels.1 == 0 {
        assert(residual@[k] == 0);
    } else {
        assert(recon.unwrap()@ == residual@);
    }
    law_reconstruction_is_nearest(pred@[k], residual@[k] as int, env.pic.bit_depth, s as int);
}

/// A block's levels are optimised in one scan exactly where its policy asks for it; they
/// cost nothing exactly where none is coded, and else are priced as the policy says.
pub proof fn law_policy_decides(levels: Seq<i16>, policy: EvalPolicy)
    ensures
        policy.rdoq == RdoqPolicy::FullSingleScan <==> block_quantised(policy)
            == Quantiser::SingleScan,
        pricing_of(levels, policy) == Pricing::Free <==> nonzeros(levels, levels.len()) == 0,
        pricing_of(levels, policy) == Pricing::Approx ==> policy.bits
            == ResidualBitPolicy::Approx,
        pricing_of(levels, policy) == Pricing::Exact ==> policy.bits == ResidualBitPolicy::Exact,
{
    if nonzeros(levels, levels.len()) == 0 {
        crate::block_eval::lemma_none_counted(levels, levels.len());
    } else if pricing_of(levels, policy) == Pricing::Free {
        lemma_none(levels, levels.len());
    }
}

proof fn lemma_none(levels: Seq<i16>, n: nat)
    requires
        n <= levels.len(),
        forall|i: int| 0 <= i < n ==> #[trigger] levels[i] == 0,
    ensures
        nonzeros(levels, n) == 0,
    decreases n,
{
    if n > 0 {
        lemma_none(levels, (n - 1) as nat);
        assert(levels[n - 1] == 0);
    }
}

/// Each level that is not zero counts once.
pub proof fn law_nonzeros_count_once(levels: Seq<i16>, n: nat, i: int, v: i16)
    requires
        0 <= i < n <= levels.len(),
        v != 0,
    ensures
        nonzeros(levels.update(i, v), n) == nonzeros(levels.update(i, 0), n) + 1,
    decreases n,
{
    if i < n - 1 {
        law_nonzeros_count_once(levels, (n - 1) as nat, i, v);
    } else {
        lemma_same_nonzeros(levels.update(i, v), levels.update(i, 0), (n - 1) as nat);
    }
}

proof fn lemma_same_nonzeros(a: Seq<i16>, b: Seq<i16>, n: nat)
    requires
        n <= a.len(),
        n <= b.len(),
        forall|i: int| 0 <= i < n ==> a[i] == b[i],
    ensures
        nonzeros(a, n) == nonzeros(b, n),
    decreases n,
{
    if n > 0 {
        lemma_same_nonzeros(a, b, (n - 1) as nat);
    }
}

/// Coding a block takes one transform there, one back where anything is coded, and one
/// estimate of its bits where they are exact.
pub proof fn law_work_of_a_block(cbf: bool, pricing: Pricing)
    ensures
        eval_work(cbf, pricing).forward_transforms == 1,
        eval_work(cbf, pricing).inverse_transforms == 1 <==> cbf,
        eval_work(cbf, pricing).inverse_transforms == 0 <==> !cbf,
        eval_work(cbf, pricing).residual_bit_estimates == 1 <==> pricing == Pricing::Exact,
        eval_work(cbf, pricing).residual_bit_estimates == 0 <==> pricing != Pricing::Exact,
{
}

/// The estimate of a level does not depend on its sign; a level of zero is free, and one
/// more bin of its remainder costs one bit more.
pub proof fn law_level_estimate(states: Seq<int>, c_idx: u8, level: i16, other: i16, rice: u32)
    requires
        other == -level,
        rice < u32::MAX,
    ensures
        level_estimate(states, c_idx, level, rice) == level_estimate(states, c_idx, other, rice),
        level == 0 ==> level_estimate(states, c_idx, level, rice) == 0,
        level > 2 ==> level_estimate(states, c_idx, level, (rice + 1) as u32) == level_estimate(
            states,
            c_idx,
            level,
            rice,
        ) + 32768,
        0 < level <= 2 ==> level_estimate(states, c_idx, level, (rice + 1) as u32)
            == level_estimate(states, c_idx, level, rice),
{
    assert((rice + 1) * 32768 == rice * 32768 + 32768);
}

/// Brightness is not texture: as much added to every sample leaves a block as uniform as
/// it was.
pub proof fn law_brightness_is_not_texture(
    s: Seq<u16>,
    t: Seq<u16>,
    c: int,
    size: int,
    threshold: Option<i64>,
    bit_depth: int,
)
    requires
        size > 0,
        s.len() == size * size,
        t.len() == s.len(),
        forall|i: int| 0 <= i < s.len() ==> #[trigger] t[i] == s[i] + c,
    ensures
        is_uniform(s, size, threshold, bit_depth) == is_uniform(t, size, threshold, bit_depth),
{
    let n = size * size;
    assert(n > 0) by (nonlinear_arith)
        requires
            size > 0,
            n == size * size,
    ;
    lemma_shifted_sum(s, t, c);
    let a = sample_sum(s) as int;
    assert(c * n == n * c) by (nonlinear_arith);
    assert((a + n * c) / n == a / n + c) by {
        vstd::arithmetic::div_mod::lemma_hoist_over_denominator(a, c, n as nat);
    }
    lemma_shifted_spread(s, t, c, a / n);
}

proof fn lemma_shifted_sum(s: Seq<u16>, t: Seq<u16>, c: int)
    requires
        t.len() == s.len(),
        forall|i: int| 0 <= i < s.len() ==> #[trigger] t[i] == s[i] + c,
    ensures
        sample_sum(t) == sample_sum(s) + c * s.len(),
    decreases s.len(),
{
    if s.len() > 0 {
        assert forall|i: int| 0 <= i < s.drop_last().len() implies #[trigger] t.drop_last()[i]
            == s.drop_last()[i] + c by {
            assert(t[i] == s[i] + c);
        }
        lemma_shifted_sum(s.drop_last(), t.drop_last(), c);
        assert(t[s.len() - 1] == s[s.len() - 1] + c);
        let n = s.len() as int;
        assert(c * n == c * (n - 1) + c) by (nonlinear_arith);
    } else {
        assert(c * 0 == 0);
    }
}

proof fn lemma_shifted_spread(s: Seq<u16>, t: Seq<u16>, c: int, mean: int)
    requires
        t.len() == s.len(),
        forall|i: int| 0 <= i < s.len() ==> #[trigger] t[i] == s[i] + c,
    ensures
        spread_sum(t, mean + c) == spread_sum(s, mean),
    decreases s.len(),
{
    if s.len() > 0 {
        assert forall|i: int| 0 <= i < s.drop_last().len() implies #[trigger] t.drop_last()[i]
            == s.drop_last()[i] + c by {
            assert(t[i] == s[i] + c);
        }
        lemma_shifted_spread(s.drop_last(), t.drop_last(), c, mean);
        assert(t[s.len() - 1] == s[s.len() - 1] + c);
    }
}

/// A block of one colour is uniform under any threshold above zero, and no block is under
/// none. One more bit of depth asks for four times the threshold.
pub proof fn law_uniform_thresholds(s: Seq<u16>, v: u16, size: int, th: i64, bit_depth: int)
    requires
        size > 0,
        s.len() == size * size,
        bit_depth >= 8,
        4 * th <= i64::MAX,
        4 * th >= i64::MIN,
    ensures
        !is_uniform(s, size, None, bit_depth),
        !(th > 0) ==> !is_uniform(s, size, Some(th), bit_depth),
        th > 0 && (forall|i: int| 0 <= i < s.len() ==> #[trigger] s[i] == v) ==> is_uniform(
            s,
            size,
            Some(th),
            bit_depth,
        ),
        is_uniform(s, size, Some(th), bit_depth + 1) == is_uniform(
            s,
            size,
            Some((4 * th) as i64),
            bit_depth,
        ),
{
    let n = size * size;
    assert(n > 0) by (nonlinear_arith)
        requires
            size > 0,
            n == size * size,
    ;
    let e = (2 * (bit_depth - 8)) as nat;
    let p = vstd::arithmetic::power2::pow2(e) as int;
    vstd::arithmetic::power2::lemma_pow2_pos(e);
    vstd::arithmetic::power2::lemma_pow2_unfold(e + 1);
    vstd::arithmetic::power2::lemma_pow2_unfold(e + 2);
    assert((2 * (bit_depth + 1 - 8)) as nat == e + 2);
    assert(th * (4 * p) == (4 * th) * p) by (nonlinear_arith);
    let mean = sample_sum(s) as int / n;
    assert(spread_sum(s, mean) as int / n >= 0) by {
        vstd::arithmetic::div_mod::lemma_div_pos_is_pos(spread_sum(s, mean) as int, n);
    }
    if th <= 0 {
        assert(th * p <= 0) by (nonlinear_arith)
            requires
                th <= 0,
                p > 0,
        ;
    } else {
        assert(th * p > 0) by (nonlinear_arith)
            requires
                th > 0,
                p > 0,
        ;
        if forall|i: int| 0 <= i < s.len() ==> #[trigger] s[i] == v {
            lemma_flat(s, v);
            assert(v * n / n == v) by {
                vstd::arithmetic::div_mod::lemma_div_by_multiple(v as int, n);
            }
            assert(0int / n == 0) by {
                vstd::arithmetic::div_mod::lemma_div_basics(n);
            }
        }
    }
}

proof fn lemma_flat(s: Seq<u16>, v: u16)
    requires
        forall|i: int| 0 <= i < s.len() ==> #[trigger] s[i] == v,
    ensures
        sample_sum(s) == v * s.len(),
        spread_sum(s, v as int) == 0,
    decreases s.len(),
{
    if s.len() > 0 {
        assert forall|i: int| 0 <= i < s.drop_last().len() implies #[trigger] s.drop_last()[i]
            == v by {
            assert(s[i] == v);
        }
        lemma_flat(s.drop_last(), v);
        assert(s[s.len() - 1] == v);
        let n = s.len() as int;
        assert(v * n == v * (n - 1) + v) by (nonlinear_arith);
        assert(0int * 0 == 0);
    } else {
        assert(v * 0 == 0);
    }
}

/// No sample is above the largest or below the smallest, and both are among the samples.
pub proof fn law_extremes(s: Seq<u16>, i: int)
    requires
        0 <= i < s.len(),
    ensures
        sample_min(s) <= s[i] <= sample_max(s),
        exists|j: int| 0 <= j < s.len() && #[trigger] s[j] == sample_max(s),
        exists|j: int| 0 <= j < s.len() && #[trigger] s[j] == sample_min(s),
    decreases s.len(),
{
    if s.len() == 1 {
        assert(s[0] == s[i]);
    } else {
        let d = s.drop_last();
        law_extremes(d, if i < d.len() {
            i
        } else {
            0
        });
        let a = choose|j: int| 0 <= j < d.len() && #[trigger] d[j] == sample_max(d);
        let b = choose|j: int| 0 <= j < d.len() && #[trigger] d[j] == sample_min(d);
        assert(s[a] == d[a] && s[b] == d[b]);
        assert(s[s.len() - 1] == s.last());
        if i < d.len() {
            assert(d[i] == s[i]);
        }
    }
}

} // verus!
