//! What a preset lets the search spend on one block.

use vstd::prelude::*;

use crate::config::Effort;
use crate::effort::{
    ComponentKind, CuEarlyTerminateRule, EffortTemplate, ResidualPriceLevel, RmdModeSet,
    SplitSearch, TrialQuality,
};
use crate::geometry::side;
use crate::math::{clip3, min_int};
use crate::presets::{spec_template, template};

verus! {

/// What a region of the source looks like.
#[derive(Clone, Copy, Debug, PartialEq, Eq, Structural)]
pub enum RegionClass {
    Flat,
    Gradient,
    DirectionalEdge,
    TextLike,
    Texture,
    Noisy,
    ChromaCritical,
}

/// How a region steers the search.
#[derive(Clone, Copy, Debug, PartialEq, Eq, Structural)]
pub struct SearchPolicy {
    /// Whether angular modes are dropped, where the region decides it.
    pub angular_prune: Option<bool>,
    pub allow_early_term: bool,
    /// Candidates added to or taken from the preset's numbers.
    pub luma_rd_bias: i8,
    pub chroma_rd_bias: i8,
    pub prefer_split: bool,
    pub force_leaf: bool,
    pub force_split: bool,
    pub rmd_prune_factor_milli: Option<u32>,
}

/// A policy that leaves the preset as it is.
pub open spec fn inert_policy() -> SearchPolicy {
    SearchPolicy {
        angular_prune: None,
        allow_early_term: true,
        luma_rd_bias: 0,
        chroma_rd_bias: 0,
        prefer_split: false,
        force_leaf: false,
        force_split: false,
        rmd_prune_factor_milli: None,
    }
}

pub fn inert() -> (p: SearchPolicy)
    ensures
        p == inert_policy(),
{
    SearchPolicy {
        angular_prune: None,
        allow_early_term: true,
        luma_rd_bias: 0,
        chroma_rd_bias: 0,
        prefer_split: false,
        force_leaf: false,
        force_split: false,
        rmd_prune_factor_milli: None,
    }
}

/// Fewer luma candidates by one.
pub const ONE_FEWER: i8 = -1;

/// How a region's class steers the search: smooth and noisy regions drop angular modes,
/// edges and text keep them and prefer splits, text gets more luma candidates and
/// chroma-critical regions more chroma candidates.
pub open spec fn class_policy(class: RegionClass) -> SearchPolicy {
    match class {
        RegionClass::Flat => SearchPolicy {
            angular_prune: Some(true),
            luma_rd_bias: ONE_FEWER,
            ..inert_policy()
        },
        RegionClass::Gradient => SearchPolicy {
            angular_prune: Some(true),
            luma_rd_bias: ONE_FEWER,
            ..inert_policy()
        },
        RegionClass::DirectionalEdge => SearchPolicy {
            angular_prune: Some(false),
            allow_early_term: false,
            prefer_split: true,
            ..inert_policy()
        },
        RegionClass::TextLike => SearchPolicy {
            angular_prune: Some(false),
            allow_early_term: false,
            luma_rd_bias: 1,
            prefer_split: true,
            ..inert_policy()
        },
        RegionClass::Texture => inert_policy(),
        RegionClass::Noisy => SearchPolicy { angular_prune: Some(true), ..inert_policy() },
        RegionClass::ChromaCritical => SearchPolicy { chroma_rd_bias: 1, ..inert_policy() },
    }
}

pub fn policy_for(class: RegionClass) -> (p: SearchPolicy)
    ensures
        p == class_policy(class),
{
    let mut p = inert();
    match class {
        RegionClass::Flat | RegionClass::Gradient => {
            p.angular_prune = Some(true);
            p.luma_rd_bias = ONE_FEWER;
        },
        RegionClass::DirectionalEdge => {
            p.angular_prune = Some(false);
            p.allow_early_term = false;
            p.prefer_split = true;
        },
        RegionClass::TextLike => {
            p.angular_prune = Some(false);
            p.allow_early_term = false;
            p.luma_rd_bias = 1;
            p.prefer_split = true;
        },
        RegionClass::Texture => {},
        RegionClass::Noisy => {
            p.angular_prune = Some(true);
        },
        RegionClass::ChromaCritical => {
            p.chroma_rd_bias = 1;
        },
    }
    p
}

/// Below this importance a block is kept whole, where the preset says so.
pub const FORCE_LEAF_IMPORTANCE: u16 = 24;

/// From this importance on, text is split.
pub const FORCE_SPLIT_IMPORTANCE: u16 = 224;

/// Two costs closer than this are a close call, in thousandths.
pub const CLOSE_CALL_MARGIN_MILLI: u32 = 20;

/// A description of a block to find a budget for.
#[derive(Clone, Copy, Debug, PartialEq, Eq, Structural)]
pub struct BlockDesc {
    pub x: u32,
    pub y: u32,
    pub log2_size: u8,
    pub qp: i32,
    pub region: RegionClass,
    pub importance_q8: u16,
    pub component: ComponentKind,
    pub policy: SearchPolicy,
}

/// How many passes of coefficient refinement a block gets.
#[derive(Clone, Copy, Debug, PartialEq, Eq, Structural)]
pub struct RdoqPassBudget {
    pub effort: Effort,
    pub qp: i32,
    pub canonical: Effort,
}

impl RdoqPassBudget {
    /// None for the fast preset; one for small sparse blocks at moderate QPs for the slow
    /// one; one or two for placebo.
    pub open spec fn spec_passes(self, log2_size: u8, nnz: u32) -> u8 {
        match self.canonical {
            Effort::Fast => 0,
            Effort::Slow => if self.qp < 38 && log2_size <= 4 && nnz <= 64 {
                1
            } else if 38 <= self.qp < 44 && log2_size <= 3 && nnz <= 32 {
                1
            } else {
                0
            },
            Effort::Placebo => if log2_size <= 4 && nnz <= 128 {
                2
            } else {
                1
            },
        }
    }

    pub fn passes(self, log2_size: u8, _component: ComponentKind, nnz: u32) -> (n: u8)
        ensures
            n == self.spec_passes(log2_size, nnz),
    {
        match self.canonical {
            Effort::Fast => 0,
            Effort::Slow => {
                if self.qp < 38 {
                    if log2_size <= 4 && nnz <= 64 {
                        1
                    } else {
                        0
                    }
                } else if self.qp >= 44 {
                    0
                } else if log2_size <= 3 && nnz <= 32 {
                    1
                } else {
                    0
                }
            },
            Effort::Placebo => {
                if log2_size <= 4 && nnz <= 128 {
                    2
                } else {
                    1
                }
            },
        }
    }
}

/// The search budget of one block.
#[derive(Clone, Copy, Debug, PartialEq, Eq, Structural)]
pub struct BlockSearchBudget {
    pub effort: Effort,
    pub angular_prune: Option<bool>,
    pub angular_prune_var_threshold_8bit: Option<i64>,
    pub rmd_mode_set: RmdModeSet,
    pub luma_rd_candidates_base: u8,
    pub luma_rd_candidates: u8,
    pub chroma_rd_candidates_base: u8,
    pub chroma_rd_candidates: u8,
    pub luma_trial_quality: TrialQuality,
    pub chroma_trial_quality: TrialQuality,
    pub final_quality: TrialQuality,
    pub cu_split: SplitSearch,
    pub tu_split: SplitSearch,
    pub close_call_margin_milli: u32,
    pub exact_residual_bits_for_trials: bool,
    pub rdoq_for_trials: bool,
    pub rdoq_pass_budget: RdoqPassBudget,
    pub cu_early_terminate: CuEarlyTerminateRule,
    pub zero_residual_tu_early_terminate: bool,
    pub rmd_prune_factor_milli: Option<u32>,
    pub allow_cu_early_terminate: bool,
}

/// The effort whose tables a block uses: at high QPs slow falls back to fast.
pub open spec fn budget_effort(effort: Effort, qp: i32) -> Effort {
    if effort == Effort::Slow && qp >= 38 {
        Effort::Fast
    } else {
        effort
    }
}

pub fn qp_budget_effort(effort: Effort, qp: i32) -> (e: Effort)
    ensures
        e == budget_effort(effort, qp),
{
    if crate::presets::is_reference_tier(effort) {
        return effort;
    }
    match effort {
        Effort::Slow => if qp >= 38 {
            Effort::Fast
        } else {
            effort
        },
        _ => effort,
    }
}

/// The variance, for eight bits, below which the fast preset drops angular modes.
pub open spec fn smooth_threshold(effort: Effort) -> Option<i64> {
    if effort == Effort::Fast {
        Some(32i64)
    } else {
        None
    }
}

pub fn angular_prune_var_threshold_8bit(effort: Effort) -> (t: Option<i64>)
    ensures
        t == smooth_threshold(effort),
{
    match effort {
        Effort::Fast => Some(32),
        Effort::Slow => None,
        Effort::Placebo => None,
    }
}

impl EffortTemplate {
    /// The steering of a region: none for placebo, and no added candidates where the
    /// preset does not allow them.
    pub open spec fn region_policy(&self, region: RegionClass, importance_q8: u16) -> SearchPolicy {
        let pre = self.preanalysis;
        let base = if pre.class_steering {
            class_policy(region)
        } else {
            inert_policy()
        };
        if self.name == Effort::Placebo {
            inert_policy()
        } else {
            SearchPolicy {
                luma_rd_bias: if pre.allow_candidate_expansion {
                    base.luma_rd_bias
                } else {
                    min_int(base.luma_rd_bias as int, 0) as i8
                },
                chroma_rd_bias: if pre.allow_candidate_expansion {
                    base.chroma_rd_bias
                } else {
                    min_int(base.chroma_rd_bias as int, 0) as i8
                },
                rmd_prune_factor_milli: pre.importance_rmd_prune_factor_milli,
                force_leaf: base.force_leaf || (pre.importance_force_leaf && importance_q8
                    < FORCE_LEAF_IMPORTANCE),
                force_split: base.force_split || (region == RegionClass::TextLike && importance_q8
                    >= FORCE_SPLIT_IMPORTANCE),
                ..base
            }
        }
    }

    pub fn resolve_policy(&self, region: RegionClass, importance_q8: u16) -> (p: SearchPolicy)
        ensures
            p == self.region_policy(region, importance_q8),
    {
        let preanalysis = self.preanalysis;
        if self.is_reference() {
            return inert();
        }
        let mut policy = if preanalysis.class_steering {
            policy_for(region)
        } else {
            inert()
        };
        if !preanalysis.allow_candidate_expansion {
            if policy.luma_rd_bias > 0 {
                policy.luma_rd_bias = 0;
            }
            if policy.chroma_rd_bias > 0 {
                policy.chroma_rd_bias = 0;
            }
        }
        policy.rmd_prune_factor_milli = preanalysis.importance_rmd_prune_factor_milli;
        if preanalysis.importance_force_leaf && importance_q8 < FORCE_LEAF_IMPORTANCE {
            policy.force_leaf = true;
        }
        if region == RegionClass::TextLike && importance_q8 >= FORCE_SPLIT_IMPORTANCE {
            policy.force_split = true;
        }
        policy
    }

    /// Luma candidates before steering.
    pub open spec fn luma_base(&self, log2_size: u8, qp: i32) -> u8 {
        match self.name {
            Effort::Fast => if log2_size >= 4 {
                self.luma.exact.max_modes
            } else {
                1
            },
            Effort::Slow => if qp >= 44 {
                1
            } else if qp >= 38 {
                2
            } else {
                self.luma.exact.max_modes
            },
            Effort::Placebo => self.luma.exact.max_modes,
        }
    }

    pub fn luma_rd_candidates_base(&self, log2_size: u8, qp: i32) -> (n: u8)
        ensures
            n == self.luma_base(log2_size, qp),
    {
        if self.is_reference() {
            return self.luma.exact.max_modes;
        }
        match self.name {
            Effort::Fast => {
                if log2_size >= 4 {
                    self.luma.exact.max_modes
                } else {
                    1
                }
            },
            Effort::Slow => {
                if qp >= 44 {
                    1
                } else if qp >= 38 {
                    2
                } else {
                    self.luma.exact.max_modes
                }
            },
            Effort::Placebo => self.luma.exact.max_modes,
        }
    }

    /// Chroma candidates before steering.
    pub open spec fn chroma_base(&self, qp: i32) -> u8 {
        if self.name == Effort::Slow && qp >= 44 {
            1
        } else if self.name == Effort::Slow && qp >= 38 {
            2
        } else {
            self.chroma.max_candidates
        }
    }

    pub fn chroma_rd_candidates_base(&self, qp: i32) -> (n: u8)
        ensures
            n == self.chroma_base(qp),
    {
        match self.name {
            Effort::Fast => self.chroma.max_candidates,
            Effort::Slow => {
                if qp >= 44 {
                    1
                } else if qp >= 38 {
                    2
                } else {
                    self.chroma.max_candidates
                }
            },
            Effort::Placebo => self.chroma.max_candidates,
        }
    }

    /// The most luma candidates that steering may reach.
    pub open spec fn luma_cap(&self) -> int {
        match self.name {
            Effort::Placebo => self.luma.exact.max_modes as int,
            Effort::Slow => 8,
            Effort::Fast => 4,
        }
    }

    /// The numbers of candidates, steered and not, are such as a signed byte holds, and
    /// there is a luma candidate to keep.
    pub open spec fn counts_fit(&self, desc: BlockDesc) -> bool {
        let luma = self.luma_base(desc.log2_size, desc.qp);
        let chroma = self.chroma_base(desc.qp);
        &&& luma <= i8::MAX
        &&& i8::MIN <= luma + desc.policy.luma_rd_bias <= i8::MAX
        &&& chroma <= i8::MAX
        &&& i8::MIN <= chroma + desc.policy.chroma_rd_bias <= i8::MAX
        &&& self.luma_cap() >= 1
    }

    /// Whether a block without luma residual ends the transform split search.
    pub open spec fn zero_residual_stop(&self, qp: i32) -> bool {
        match self.name {
            Effort::Fast => true,
            Effort::Slow => qp >= 38,
            Effort::Placebo => false,
        }
    }

    /// The coding unit split search under a policy.
    pub open spec fn cu_split_under(&self, policy: SearchPolicy) -> SplitSearch {
        if policy.force_leaf {
            SplitSearch::ForceLeaf
        } else if policy.force_split {
            SplitSearch::ForceSplit
        } else if policy.prefer_split {
            SplitSearch::PreferSplit
        } else {
            self.cu.split_search
        }
    }

    /// The transform split search of a block.
    pub open spec fn tu_split_under(&self, policy: SearchPolicy, qp: i32) -> SplitSearch {
        let cu = self.cu_split_under(policy);
        if self.name == Effort::Placebo {
            self.tu.split_search
        } else if self.zero_residual_stop(qp) {
            SplitSearch::PreferLeaf
        } else if cu == SplitSearch::ForceSplit || cu == SplitSearch::PreferSplit {
            cu
        } else {
            self.tu.split_search
        }
    }

    /// The budget of a block.
    pub open spec fn budget_of(&self, desc: BlockDesc) -> BlockSearchBudget {
        let effective = spec_template(budget_effort(self.name, desc.qp));
        let base_luma = self.luma_base(desc.log2_size, desc.qp);
        let base_chroma = self.chroma_base(desc.qp);
        BlockSearchBudget {
            effort: self.name,
            angular_prune: desc.policy.angular_prune,
            angular_prune_var_threshold_8bit: if self.name == Effort::Fast {
                Some(32i64)
            } else {
                None
            },
            rmd_mode_set: effective.luma.rough.mode_set,
            luma_rd_candidates_base: base_luma,
            luma_rd_candidates: clip3(
                1,
                self.luma_cap(),
                base_luma + desc.policy.luma_rd_bias,
            ) as u8,
            chroma_rd_candidates_base: base_chroma,
            chroma_rd_candidates: clip3(
                if base_chroma == 0 {
                    0
                } else {
                    1
                },
                5,
                base_chroma + desc.policy.chroma_rd_bias,
            ) as u8,
            luma_trial_quality: if self.name == Effort::Placebo {
                TrialQuality::Final
            } else if self.name == Effort::Slow && self.luma.exact.residual_price
                == ResidualPriceLevel::Exact {
                TrialQuality::FullRd
            } else {
                TrialQuality::FastRd
            },
            chroma_trial_quality: if self.name == Effort::Placebo {
                TrialQuality::Final
            } else {
                TrialQuality::FastRd
            },
            final_quality: TrialQuality::Final,
            cu_split: self.cu_split_under(desc.policy),
            tu_split: self.tu_split_under(desc.policy, desc.qp),
            close_call_margin_milli: CLOSE_CALL_MARGIN_MILLI,
            exact_residual_bits_for_trials: effective.luma.exact.residual_price
                == ResidualPriceLevel::Exact,
            rdoq_for_trials: false,
            rdoq_pass_budget: RdoqPassBudget {
                effort: self.name,
                qp: desc.qp,
                canonical: self.name,
            },
            cu_early_terminate: self.cu.early_terminate,
            zero_residual_tu_early_terminate: self.zero_residual_stop(desc.qp),
            rmd_prune_factor_milli: desc.policy.rmd_prune_factor_milli,
            allow_cu_early_terminate: desc.policy.allow_early_term,
        }
    }

    pub fn resolve(&self, desc: BlockDesc) -> (b: BlockSearchBudget)
        requires
            self.counts_fit(desc),
        ensures
            b == self.budget_of(desc),
    {
        let policy = desc.policy;
        let effective_template = template(qp_budget_effort(self.name, desc.qp));
        let base_luma: u8 = self.luma_rd_candidates_base(desc.log2_size, desc.qp);
        let luma_rd_cap: u8 = match self.name {
            Effort::Placebo => self.luma.exact.max_modes,
            Effort::Slow => 8,
            Effort::Fast => 4,
        };
        let luma_rd_candidates: u8 = biased(base_luma, policy.luma_rd_bias, 1, luma_rd_cap);
        let base_chroma: u8 = self.chroma_rd_candidates_base(desc.qp);
        let chroma_min: u8 = if base_chroma == 0 {
            0
        } else {
            1
        };
        let chroma_rd_candidates: u8 = biased(base_chroma, policy.chroma_rd_bias, chroma_min, 5);
        let split_policy = if policy.force_leaf {
            SplitSearch::ForceLeaf
        } else if policy.force_split {
            SplitSearch::ForceSplit
        } else if policy.prefer_split {
            SplitSearch::PreferSplit
        } else {
            self.cu.split_search
        };
        let zero_residual_tu_early_terminate: bool = match self.name {
            Effort::Fast => true,
            Effort::Slow => desc.qp >= 38,
            Effort::Placebo => false,
        };
        let tu_split = if self.name == Effort::Placebo {
            self.tu.split_search
        } else if zero_residual_tu_early_terminate {
            SplitSearch::PreferLeaf
        } else if split_policy == SplitSearch::ForceSplit || split_policy
            == SplitSearch::PreferSplit {
            split_policy
        } else {
            self.tu.split_search
        };
        let exact_priced: bool = self.luma.exact.residual_price == ResidualPriceLevel::Exact;
        BlockSearchBudget {
            effort: self.name,
            angular_prune: policy.angular_prune,
            angular_prune_var_threshold_8bit: angular_prune_var_threshold_8bit(self.name),
            rmd_mode_set: effective_template.luma.rough.mode_set,
            luma_rd_candidates_base: base_luma,
            luma_rd_candidates,
            chroma_rd_candidates_base: base_chroma,
            chroma_rd_candidates,
            luma_trial_quality: if self.name == Effort::Placebo {
                TrialQuality::Final
            } else if self.name == Effort::Slow && exact_priced {
                TrialQuality::FullRd
            } else {
                TrialQuality::FastRd
            },
            chroma_trial_quality: if self.name == Effort::Placebo {
                TrialQuality::Final
            } else {
                TrialQuality::FastRd
            },
            final_quality: TrialQuality::Final,
            cu_split: split_policy,
            tu_split,
            close_call_margin_milli: CLOSE_CALL_MARGIN_MILLI,
            exact_residual_bits_for_trials: effective_template.luma.exact.residual_price
                == ResidualPriceLevel::Exact,
            rdoq_for_trials: false,
            rdoq_pass_budget: RdoqPassBudget {
                effort: self.name,
                qp: desc.qp,
                canonical: self.name,
            },
            cu_early_terminate: self.cu.early_terminate,
            zero_residual_tu_early_terminate,
            rmd_prune_factor_milli: policy.rmd_prune_factor_milli,
            allow_cu_early_terminate: policy.allow_early_term,
        }
    }
}

/// A number of candidates after steering.
fn biased(base: u8, bias: i8, lo: u8, hi: u8) -> (n: u8)
    requires
        lo <= hi,
    ensures
        n == clip3(lo as int, hi as int, base + bias),
{
    let v: i32 = base as i32 + bias as i32;
    if v < lo as i32 {
        lo
    } else if v > hi as i32 {
        hi
    } else {
        v as u8
    }
}

/// Names the range of a source block.
pub open spec fn range_known(range: u16) -> bool {
    true
}

impl BlockSearchBudget {
    /// The luma modes to score.
    pub fn rough_luma_modes(self, mpm: [u8; 3], prune_angular: bool) -> (modes: Vec<u8>)
        requires
            self.rmd_mode_set.well_formed(),
        ensures
            modes@ == crate::effort::scan_modes(
                if prune_angular {
                    RmdModeSet::MpmPlanarDcOnly
                } else {
                    self.rmd_mode_set
                },
            ) + mpm@,
    {
        if prune_angular {
            RmdModeSet::MpmPlanarDcOnly.modes(mpm)
        } else {
            self.rmd_mode_set.modes(mpm)
        }
    }

    pub fn rdoq_passes(self, log2_size: u8, component: ComponentKind, nnz: u32) -> (n: u8)
        ensures
            n == self.rdoq_pass_budget.spec_passes(log2_size, nnz),
    {
        self.rdoq_pass_budget.passes(log2_size, component, nnz)
    }

    /// Whether a leaf ends the transform split search.
    pub fn tu_split_early_terminate(self, luma_cbf: bool) -> (r: bool)
        ensures
            r == (!luma_cbf && self.zero_residual_tu_early_terminate),
    {
        !luma_cbf && self.zero_residual_tu_early_terminate
    }

    /// How many times a leaf's bits may fit into its area for the search to end.
    pub open spec fn terminate_factor(self, qp: i32) -> int {
        match self.cu_early_terminate {
            CuEarlyTerminateRule::Disabled => 0,
            CuEarlyTerminateRule::Balanced => if qp >= 44 {
                4
            } else {
                8
            },
            CuEarlyTerminateRule::Fast => if qp >= 44 {
                2
            } else if qp >= 38 {
                3
            } else {
                4
            },
            CuEarlyTerminateRule::Fastest => if qp >= 44 {
                1
            } else {
                2
            },
        }
    }

    /// The source range, for eight bits, below which the fastest rule ends the search.
    pub open spec fn range_limit(self, qp: i32) -> int {
        if qp >= 44 {
            80
        } else if qp >= 38 {
            64
        } else {
            48
        }
    }

    /// Whether a leaf's bits are held against its area.
    pub open spec fn weighs_bits(self, has_residual: bool, qp: i32) -> bool {
        has_residual && match self.cu_early_terminate {
            CuEarlyTerminateRule::Disabled => false,
            CuEarlyTerminateRule::Balanced => qp >= 38,
            CuEarlyTerminateRule::Fast | CuEarlyTerminateRule::Fastest => true,
        }
    }

    /// Whether a leaf is good enough that splits need not be tried.
    pub open spec fn terminates_cu(
        self,
        has_residual: bool,
        bits: int,
        log2_cb_size: u8,
        qp: i32,
        bit_depth: u8,
        source_range: int,
    ) -> bool {
        let small = bits * self.terminate_factor(qp) < side(log2_cb_size) * side(log2_cb_size);
        match self.cu_early_terminate {
            CuEarlyTerminateRule::Disabled => false,
            CuEarlyTerminateRule::Balanced => !has_residual || (qp >= 38 && small),
            CuEarlyTerminateRule::Fast => !has_residual || small,
            CuEarlyTerminateRule::Fastest => !has_residual || small || source_range
                < self.range_limit(qp) * side((bit_depth - 8) as u8),
        }
    }

    /// Whether the range of the source decides.
    pub open spec fn asks_range(
        self,
        has_residual: bool,
        bits: int,
        log2_cb_size: u8,
        qp: i32,
    ) -> bool {
        &&& self.cu_early_terminate == CuEarlyTerminateRule::Fastest
        &&& has_residual
        &&& bits * self.terminate_factor(qp) >= side(log2_cb_size) * side(log2_cb_size)
    }

    /// Whether a leaf is good enough that splits need not be tried. The range of the source
    /// is asked for where it decides.
    pub fn should_early_terminate_cu<F>(
        self,
        has_residual: bool,
        leaf_bits_whole: u64,
        log2_cb_size: u8,
        search_qp: i32,
        bit_depth: u8,
        source_luma_range: F,
    ) -> (r: bool) where F: FnOnce() -> u16
        requires
            self.asks_range(has_residual, leaf_bits_whole as int, log2_cb_size, search_qp)
                ==> call_requires(source_luma_range, ()),
            self.weighs_bits(has_residual, search_qp) ==> {
                &&& leaf_bits_whole * self.terminate_factor(search_qp) <= u64::MAX
                &&& log2_cb_size <= 31
                &&& self.cu_early_terminate == CuEarlyTerminateRule::Fastest ==> 8 <= bit_depth
                    <= 16
            },
        ensures
            exists|range: u16|
                {
                    &&& #[trigger] range_known(range)
                    &&& self.asks_range(
                        has_residual,
                        leaf_bits_whole as int,
                        log2_cb_size,
                        search_qp,
                    ) ==> call_ensures(source_luma_range, (), range)
                    &&& r == self.terminates_cu(
                        has_residual,
                        leaf_bits_whole as int,
                        log2_cb_size,
                        search_qp,
                        bit_depth,
                        range as int,
                    )
                },
    {
        assert(range_known(0));
        match self.cu_early_terminate {
            CuEarlyTerminateRule::Disabled => false,
            CuEarlyTerminateRule::Balanced => {
                if !has_residual {
                    return true;
                }
                if search_qp < 38 {
                    return false;
                }
                let k: u64 = if search_qp >= 44 {
                    4
                } else {
                    8
                };
                leaf_bits_whole * k < block_area(log2_cb_size)
            },
            CuEarlyTerminateRule::Fast => {
                if !has_residual {
                    return true;
                }
                let k: u64 = if search_qp >= 44 {
                    2
                } else if search_qp >= 38 {
                    3
                } else {
                    4
                };
                leaf_bits_whole * k < block_area(log2_cb_size)
            },
            CuEarlyTerminateRule::Fastest => {
                if !has_residual {
                    return true;
                }
                let k: u64 = if search_qp >= 44 {
                    1
                } else {
                    2
                };
                if leaf_bits_whole * k < block_area(log2_cb_size) {
                    return true;
                }
                let r_th_8: u32 = if search_qp >= 44 {
                    80
                } else if search_qp >= 38 {
                    64
                } else {
                    48
                };
                let scale: u32 = crate::geometry::block_side(bit_depth - 8);
                proof {
                    vstd::arithmetic::power2::lemma2_to64();
                    if bit_depth < 16 {
                        vstd::arithmetic::power2::lemma_pow2_strictly_increases(
                            (bit_depth - 8) as nat,
                            8,
                        );
                    }
                    assert(r_th_8 * scale <= 80 * 256) by (nonlinear_arith)
                        requires
                            0 <= r_th_8 <= 80,
                            0 <= scale <= 256,
                    ;
                }
                let range: u16 = source_luma_range();
                assert(range_known(range));
                (range as u32) < r_th_8 * scale
            },
        }
    }
}

/// How many samples a block has.
fn block_area(log2_size: u8) -> (area: u64)
    requires
        log2_size <= 31,
    ensures
        area == side(log2_size) * side(log2_size),
{
    let s: u64 = crate::geometry::block_side(log2_size) as u64;
    assert(s * s <= 0xffff_ffff * 0xffff_ffff) by (nonlinear_arith)
        requires
            0 <= s <= 0xffff_ffff,
    ;
    s * s
}

/// What a preset makes of a textured and of a flat, unimportant block.
#[derive(Clone, Copy, Debug, PartialEq, Eq, Structural)]
pub struct EffortDescription {
    pub template: EffortTemplate,
    pub original_effort: Effort,
    pub texture: BlockSearchBudget,
    pub flat_low_importance: BlockSearchBudget,
    pub qp: i32,
}

/// A 32x32 luma block for a description.
pub open spec fn sample_block(
    t: &EffortTemplate,
    qp: i32,
    region: RegionClass,
    importance_q8: u16,
) -> BlockDesc {
    BlockDesc {
        x: 0,
        y: 0,
        log2_size: 5,
        qp,
        region,
        importance_q8,
        component: ComponentKind::Luma,
        policy: t.region_policy(region, importance_q8),
    }
}

fn describe_block_desc(
    template: &EffortTemplate,
    qp: i32,
    region: RegionClass,
    importance_q8: u16,
) -> (d: BlockDesc)
    ensures
        d == sample_block(template, qp, region, importance_q8),
{
    BlockDesc {
        x: 0,
        y: 0,
        log2_size: 5,
        qp,
        region,
        importance_q8,
        component: ComponentKind::Luma,
        policy: template.resolve_policy(region, importance_q8),
    }
}

pub fn describe_effort(effort: Effort, qp: i32) -> (d: EffortDescription)
    ensures
        ({
            let t = spec_template(effort);
            d == (EffortDescription {
                template: t,
                original_effort: effort,
                texture: t.budget_of(sample_block(&t, qp, RegionClass::Texture, 256)),
                flat_low_importance: t.budget_of(sample_block(&t, qp, RegionClass::Flat, 0)),
                qp,
            })
        }),
{
    let t = template(effort);
    let texture = t.resolve(describe_block_desc(&t, qp, RegionClass::Texture, 256));
    let flat_low_importance = t.resolve(describe_block_desc(&t, qp, RegionClass::Flat, 0));
    EffortDescription { template: t, original_effort: effort, texture, flat_low_importance, qp }
}

/// The reference preset is never steered by a region, and never stops a search early.
pub proof fn law_placebo_is_unpruned(desc: BlockDesc, region: RegionClass, importance_q8: u16)
    ensures
        ({
            let t = spec_template(Effort::Placebo);
            let b = t.budget_of(desc);
            &&& t.region_policy(region, importance_q8) == inert_policy()
            &&& b.cu_early_terminate == CuEarlyTerminateRule::Disabled
            &&& !b.zero_residual_tu_early_terminate
            &&& b.angular_prune_var_threshold_8bit is None
            &&& b.rmd_mode_set == RmdModeSet::Exhaustive
        }),
{
}

/// The steering of a region keeps every preset's numbers of candidates in range.
pub proof fn law_budget_in_range(effort: Effort, desc: BlockDesc)
    ensures
        ({
            let b = spec_template(effort).budget_of(desc);
            &&& 1 <= b.luma_rd_candidates <= 12
            &&& b.chroma_rd_candidates <= 5
            &&& b.rmd_mode_set.well_formed()
        }),
{
}

/// Every preset has a budget for every block that it steers itself.
pub proof fn law_presets_resolve(
    effort: Effort,
    desc: BlockDesc,
    region: RegionClass,
    importance_q8: u16,
)
    requires
        desc.policy == spec_template(effort).region_policy(region, importance_q8),
    ensures
        spec_template(effort).counts_fit(desc),
{
}

} // verus!
