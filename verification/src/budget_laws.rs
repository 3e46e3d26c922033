//! How steering, quality and effort bear on the budget of a block.

use vstd::arithmetic::power2::{lemma2_to64, lemma_pow2_pos, pow2};
use vstd::prelude::*;

use crate::budget::{BlockDesc, BlockSearchBudget, RdoqPassBudget, RegionClass, SearchPolicy};
use crate::config::Effort;
use crate::effort::{
    CuEarlyTerminateRule, EffortTemplate, ResidualPriceLevel, SplitSearch, TrialQuality,
};
use crate::presets::spec_template;

verus! {

/// A block that is to stay whole gets no search for a split, and one that is to be split no
/// search for a leaf; to stay whole comes first. A preference for splits is followed where
/// nothing is forced, and a preset is left alone where nothing is steered.
pub proof fn law_splits_are_steered(t: &EffortTemplate, desc: BlockDesc)
    ensures
        ({
            let p = desc.policy;
            let b = t.budget_of(desc);
            &&& p.force_leaf ==> b.cu_split == SplitSearch::ForceLeaf
            &&& p.force_split && !p.force_leaf ==> b.cu_split == SplitSearch::ForceSplit
            &&& p.prefer_split && !p.force_split && !p.force_leaf ==> b.cu_split
                == SplitSearch::PreferSplit
            &&& !p.prefer_split && !p.force_split && !p.force_leaf ==> b.cu_split
                == t.cu.split_search
            // A forced leaf is never split below, nor does it force its transform tree.
            &&& t.name != Effort::Placebo && p.force_leaf ==> b.tu_split
                != SplitSearch::ForceSplit || t.tu.split_search == SplitSearch::ForceSplit
        }),
{
}

/// Transform trees follow the coding unit's steering towards splits, except where the preset
/// stops at empty leaves, which makes it prefer leaves; the reference preset is not steered.
pub proof fn law_transform_splits_follow(t: &EffortTemplate, desc: BlockDesc)
    ensures
        ({
            let p = desc.policy;
            let b = t.budget_of(desc);
            let stops = b.zero_residual_tu_early_terminate;
            &&& t.name == Effort::Placebo ==> b.tu_split == t.tu.split_search && !stops
            &&& t.name == Effort::Fast ==> stops
            &&& t.name == Effort::Slow ==> stops == (desc.qp > 37)
            &&& stops ==> b.tu_split == SplitSearch::PreferLeaf
            &&& t.name == Effort::Slow && !stops && !p.force_leaf && p.force_split ==> b.tu_split
                == SplitSearch::ForceSplit
            &&& t.name == Effort::Slow && !stops && !p.force_leaf && !p.force_split
                && p.prefer_split ==> b.tu_split == SplitSearch::PreferSplit
            &&& t.name == Effort::Slow && !stops && p.force_leaf && t.cu.split_search
                == SplitSearch::EvaluateBoth ==> b.tu_split == t.tu.split_search
            &&& t.name == Effort::Slow && !stops && !p.force_leaf && !p.force_split
                && !p.prefer_split && t.cu.split_search == SplitSearch::EvaluateBoth ==> b.tu_split
                == t.tu.split_search
        }),
{
}

/// What a region decides reaches the budget unchanged.
pub proof fn law_steering_reaches_the_budget(t: &EffortTemplate, desc: BlockDesc)
    ensures
        ({
            let b = t.budget_of(desc);
            &&& b.angular_prune == desc.policy.angular_prune
            &&& b.rmd_prune_factor_milli == desc.policy.rmd_prune_factor_milli
            &&& b.allow_cu_early_terminate == desc.policy.allow_early_term
            &&& b.effort == t.name
            &&& b.cu_early_terminate == t.cu.early_terminate
            &&& b.final_quality == TrialQuality::Final
            &&& b.rdoq_pass_budget.canonical == t.name
            &&& b.rdoq_pass_budget.qp == desc.qp
            &&& b.close_call_margin_milli == 20
            &&& !b.rdoq_for_trials
        }),
{
}

/// One candidate more in a block's steering is one candidate more in its budget, as far as
/// the preset's limits go; without steering the budget is the preset's own, between one and
/// its limit. Nothing but the number of luma candidates depends on their steering.
pub proof fn law_candidates_follow_steering(t: &EffortTemplate, desc: BlockDesc, more: BlockDesc)
    requires
        t.counts_fit(desc),
        t.counts_fit(more),
        more.policy.luma_rd_bias == desc.policy.luma_rd_bias + 1,
        more == (BlockDesc {
            policy: SearchPolicy { luma_rd_bias: more.policy.luma_rd_bias, ..desc.policy },
            ..desc
        }),
    ensures
        ({
            let (a, b) = (t.budget_of(desc), t.budget_of(more));
            let limit = if t.name == Effort::Fast {
                4int
            } else if t.name == Effort::Slow {
                8
            } else {
                t.luma.exact.max_modes as int
            };
            let base = a.luma_rd_candidates_base as int;
            &&& b == (BlockSearchBudget { luma_rd_candidates: b.luma_rd_candidates, ..a })
            &&& a.luma_rd_candidates <= b.luma_rd_candidates <= a.luma_rd_candidates + 1
            &&& 1 <= a.luma_rd_candidates && b.luma_rd_candidates <= limit
            &&& 1 <= base + desc.policy.luma_rd_bias < limit ==> b.luma_rd_candidates
                == a.luma_rd_candidates + 1
            &&& desc.policy.luma_rd_bias == 0 && 1 <= base <= limit ==> a.luma_rd_candidates
                == base
        }),
{
}

/// The same of chroma candidates: at most five, and none only where the preset has none.
pub proof fn law_chroma_candidates_follow_steering(
    t: &EffortTemplate,
    desc: BlockDesc,
    more: BlockDesc,
)
    requires
        t.counts_fit(desc),
        t.counts_fit(more),
        more.policy.chroma_rd_bias == desc.policy.chroma_rd_bias + 1,
        more == (BlockDesc {
            policy: SearchPolicy { chroma_rd_bias: more.policy.chroma_rd_bias, ..desc.policy },
            ..desc
        }),
    ensures
        ({
            let (a, b) = (t.budget_of(desc), t.budget_of(more));
            let base = a.chroma_rd_candidates_base as int;
            &&& b == (BlockSearchBudget { chroma_rd_candidates: b.chroma_rd_candidates, ..a })
            &&& a.chroma_rd_candidates <= b.chroma_rd_candidates <= a.chroma_rd_candidates + 1
            &&& b.chroma_rd_candidates <= 5
            &&& base > 0 ==> a.chroma_rd_candidates >= 1
            &&& 1 <= base + desc.policy.chroma_rd_bias < 5 ==> b.chroma_rd_candidates
                == a.chroma_rd_candidates + 1
            &&& desc.policy.chroma_rd_bias == 0 && base <= 5 ==> a.chroma_rd_candidates == base
        }),
{
}

/// Important text is split and unimportant blocks are kept whole, where the preset goes by
/// importance, whatever else a region says; the reference preset goes by neither.
pub proof fn law_importance_steers(t: &EffortTemplate, region: RegionClass, importance: u16)
    ensures
        ({
            let p = t.region_policy(region, importance);
            &&& t.name == Effort::Placebo ==> !p.force_leaf && !p.force_split && !p.prefer_split
                && p.angular_prune is None && p.luma_rd_bias == 0 && p.chroma_rd_bias == 0
                && p.allow_early_term && p.rmd_prune_factor_milli is None
            &&& t.name != Effort::Placebo ==> p.force_split == (region == RegionClass::TextLike
                && importance > 223)
            &&& t.name != Effort::Placebo ==> p.force_leaf == (t.preanalysis.importance_force_leaf
                && importance < 24)
            &&& t.name != Effort::Placebo ==> p.rmd_prune_factor_milli
                == t.preanalysis.importance_rmd_prune_factor_milli
        }),
{
}

/// Where a preset goes by the class of a region: smooth and noisy regions lose their angular
/// modes and edges keep them; edges and text are searched for splits and never given up
/// early; text may get luma candidates and critical chroma may get chroma candidates, smooth
/// regions lose one, and a preset that does not expand never gets more.
pub proof fn law_class_steers(t: &EffortTemplate, region: RegionClass, importance: u16)
    requires
        t.name != Effort::Placebo,
    ensures
        ({
            let p = t.region_policy(region, importance);
            let smooth = region == RegionClass::Flat || region == RegionClass::Gradient;
            let edgy = region == RegionClass::DirectionalEdge || region == RegionClass::TextLike;
            let on = t.preanalysis.class_steering;
            let grows = t.preanalysis.allow_candidate_expansion;
            &&& p.angular_prune == if on && (smooth || region == RegionClass::Noisy) {
                Some(true)
            } else if on && edgy {
                Some(false)
            } else {
                None
            }
            &&& p.prefer_split == (on && edgy)
            &&& p.allow_early_term == !(on && edgy)
            &&& p.luma_rd_bias == if on && smooth {
                -1int
            } else if on && grows && region == RegionClass::TextLike {
                1int
            } else {
                0
            }
            &&& p.chroma_rd_bias == if on && grows && region == RegionClass::ChromaCritical {
                1int
            } else {
                0
            }
        }),
{
}

/// Refinement takes no more passes for a larger block, for more levels or at a higher QP; the
/// fast preset takes none, and the reference preset always takes one.
pub proof fn law_refinement_passes(
    p: RdoqPassBudget,
    log2_size: u8,
    nnz: u32,
    larger: u8,
    more: u32,
    q: RdoqPassBudget,
)
    requires
        log2_size <= larger,
        nnz <= more,
        q.canonical == p.canonical,
        p.qp <= q.qp,
    ensures
        q.spec_passes(larger, more) <= p.spec_passes(log2_size, nnz) <= 2,
        p.canonical == Effort::Fast ==> p.spec_passes(log2_size, nnz) == 0,
        p.canonical == Effort::Placebo ==> p.spec_passes(log2_size, nnz) >= 1,
        p.canonical == Effort::Placebo && log2_size <= 4 && nnz <= 128 ==> p.spec_passes(
            log2_size,
            nnz,
        ) == 2,
        p.canonical == Effort::Placebo && (log2_size > 4 || nnz > 128) ==> p.spec_passes(
            log2_size,
            nnz,
        ) == 1,
        p.canonical == Effort::Slow ==> p.spec_passes(log2_size, nnz) <= 1,
        p.canonical == Effort::Slow && p.qp < 38 ==> (p.spec_passes(log2_size, nnz) == 1
            <==> log2_size <= 4 && nnz <= 64),
        p.canonical == Effort::Slow && 38 <= p.qp < 44 ==> (p.spec_passes(log2_size, nnz) == 1
            <==> log2_size <= 3 && nnz <= 32),
        p.canonical == Effort::Slow && p.qp >= 44 ==> p.spec_passes(log2_size, nnz) == 0,
{
}

/// The slow preset falls back to the fast one's modes and prices at high QPs, and tries fewer
/// candidates; the fast preset tries one luma candidate in small blocks.
pub proof fn law_high_qps_spend_less(desc: BlockDesc)
    ensures
        ({
            let (fast, slow) = (
                spec_template(Effort::Fast).budget_of(desc),
                spec_template(Effort::Slow).budget_of(desc),
            );
            let placebo = spec_template(Effort::Placebo).budget_of(desc);
            &&& desc.qp >= 38 ==> slow.rmd_mode_set == fast.rmd_mode_set
                && slow.exact_residual_bits_for_trials == fast.exact_residual_bits_for_trials
            &&& desc.qp < 38 ==> slow.rmd_mode_set == placebo.rmd_mode_set
                && slow.exact_residual_bits_for_trials && !fast.exact_residual_bits_for_trials
            &&& slow.luma_rd_candidates_base == if desc.qp >= 44 {
                1int
            } else if desc.qp >= 38 {
                2
            } else {
                4
            }
            &&& slow.chroma_rd_candidates_base == if desc.qp >= 44 {
                1int
            } else {
                2
            }
            &&& fast.luma_rd_candidates_base == if desc.log2_size >= 4 {
                2int
            } else {
                1
            }
            &&& fast.chroma_rd_candidates_base == 1
            &&& placebo.luma_rd_candidates_base == 12
            &&& placebo.chroma_rd_candidates_base == 3
            &&& fast.luma_trial_quality == TrialQuality::FastRd
            &&& slow.luma_trial_quality == TrialQuality::FullRd
            &&& placebo.luma_trial_quality == TrialQuality::Final
            &&& fast.chroma_trial_quality == TrialQuality::FastRd
            &&& slow.chroma_trial_quality == TrialQuality::FastRd
            &&& placebo.chroma_trial_quality == TrialQuality::Final
            &&& fast.angular_prune_var_threshold_8bit == Some(32i64)
            &&& slow.angular_prune_var_threshold_8bit is None
            &&& fast.cu_early_terminate == CuEarlyTerminateRule::Fast
            &&& slow.cu_early_terminate == CuEarlyTerminateRule::Balanced
        }),
{
}

/// A search ends no less readily for fewer bits, a larger block, a narrower source, at a
/// higher QP or without a residual.
pub proof fn law_ending_is_monotone(
    b: BlockSearchBudget,
    residual: bool,
    bits: int,
    log2_size: u8,
    qp: i32,
    bit_depth: u8,
    range: int,
    fewer: int,
    larger: u8,
    higher: i32,
    narrower: int,
)
    requires
        0 <= fewer <= bits,
        log2_size <= larger,
        qp <= higher,
        narrower <= range,
        8 <= bit_depth <= 16,
        b.terminates_cu(residual, bits, log2_size, qp, bit_depth, range),
    ensures
        b.terminates_cu(residual, fewer, larger, higher, bit_depth, narrower),
        b.terminates_cu(false, fewer, larger, higher, bit_depth, narrower),
{
    let (a, c) = (pow2(log2_size as nat) as int, pow2(larger as nat) as int);
    lemma_pow2_pos(log2_size as nat);
    if log2_size < larger {
        vstd::arithmetic::power2::lemma_pow2_strictly_increases(log2_size as nat, larger as nat);
    }
    assert(a * a <= c * c) by (nonlinear_arith)
        requires
            0 < a <= c,
    ;
    let (k, m) = (b.terminate_factor(qp), b.terminate_factor(higher));
    assert(0 <= m <= k);
    assert(fewer * m <= bits * k) by (nonlinear_arith)
        requires
            0 <= fewer <= bits,
            0 <= m <= k,
    ;
    let s = pow2((bit_depth - 8) as nat) as int;
    lemma_pow2_pos((bit_depth - 8) as nat);
    let (lo, hi) = (b.range_limit(qp), b.range_limit(higher));
    assert(lo * s <= hi * s) by (nonlinear_arith)
        requires
            0 <= lo <= hi,
            s > 0,
    ;
}

/// When a search ends on a leaf's bits: never under the disabled rule, and always without a
/// residual under the others; else where so many times the bits are fewer than the samples.
/// The fastest rule also ends on a source of little range, which grows with the bit depth.
pub proof fn law_when_a_search_ends(
    b: BlockSearchBudget,
    bits: int,
    log2_size: u8,
    qp: i32,
    bit_depth: u8,
    range: int,
)
    requires
        bits >= 0,
        8 <= bit_depth <= 16,
        range >= 0,
    ensures
        ({
            let n = pow2(log2_size as nat) as int;
            let r = b.terminates_cu(true, bits, log2_size, qp, bit_depth, range);
            let none = b.terminates_cu(false, bits, log2_size, qp, bit_depth, range);
            let rule = b.cu_early_terminate;
            &&& none == (rule != CuEarlyTerminateRule::Disabled)
            &&& rule == CuEarlyTerminateRule::Disabled ==> !r
            &&& rule == CuEarlyTerminateRule::Balanced && qp < 38 ==> !r
            &&& rule == CuEarlyTerminateRule::Balanced && 38 <= qp < 44 ==> r == (8 * bits < n * n)
            &&& rule == CuEarlyTerminateRule::Balanced && qp >= 44 ==> r == (4 * bits < n * n)
            &&& rule == CuEarlyTerminateRule::Fast && qp < 38 ==> r == (4 * bits < n * n)
            &&& rule == CuEarlyTerminateRule::Fast && 38 <= qp < 44 ==> r == (3 * bits < n * n)
            &&& rule == CuEarlyTerminateRule::Fast && qp >= 44 ==> r == (2 * bits < n * n)
            &&& rule == CuEarlyTerminateRule::Fastest && qp < 38 && bit_depth == 8 ==> r == (2
                * bits < n * n || range < 48)
            &&& rule == CuEarlyTerminateRule::Fastest && 38 <= qp < 44 && bit_depth == 8 ==> r == (2
                * bits < n * n || range < 64)
            &&& rule == CuEarlyTerminateRule::Fastest && qp >= 44 && bit_depth == 8 ==> r == (bits
                < n * n || range < 80)
            &&& bit_depth < 16 ==> b.terminates_cu(
                true,
                bits,
                log2_size,
                qp,
                (bit_depth + 1) as u8,
                2 * range,
            ) == r
        }),
{
    lemma2_to64();
    if bit_depth < 16 {
        vstd::arithmetic::power2::lemma_pow2_unfold((bit_depth + 1 - 8) as nat);
        let s = pow2((bit_depth - 8) as nat) as int;
        let l = b.range_limit(qp);
        assert(l * (2 * s) == 2 * (l * s)) by (nonlinear_arith);
    }
    assert(80 * 1 == 80 && 64 * 1 == 64 && 48 * 1 == 48);
}

/// What sets the presets apart: the reference preset alone is an oracle that no region
/// steers, the fast one prefers leaves and keeps unimportant blocks whole, the slow one alone
/// adds candidates, and all of them code the final pass in full.
pub proof fn law_presets_differ(effort: Effort)
    ensures
        ({
            let t = spec_template(effort);
            &&& t.name == effort
            &&& t.oracle == (effort == Effort::Placebo)
            &&& t.final_pass.rdoq_final && t.final_pass.sign_data_hiding
            &&& t.final_pass.residual_price == ResidualPriceLevel::Exact
            &&& t.preanalysis.class_steering == (effort != Effort::Placebo)
            &&& t.preanalysis.allow_candidate_expansion == (effort == Effort::Slow)
            &&& t.preanalysis.importance_force_leaf == (effort == Effort::Fast)
            &&& t.cu.split_search == if effort == Effort::Fast {
                SplitSearch::PreferLeaf
            } else {
                SplitSearch::EvaluateBoth
            }
            &&& t.tu.split_search == t.cu.split_search
            &&& t.luma.cheap.enabled == (effort != Effort::Placebo)
            &&& t.nxn.enabled
        }),
{
}

} // verus!
