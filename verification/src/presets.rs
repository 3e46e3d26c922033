//! The three presets.

use vstd::prelude::*;

use crate::config::Effort;
use crate::effort::{
    CheapLumaPolicy, ChromaSearchPolicy, ChromaTiming, ComponentScope, CuEarlyTerminateRule,
    CuSearchPolicy, EffortTemplate, EntropyContextMode, ExactLumaPolicy, ExactPromotionPolicy,
    ExactUsage, FinalSearchPolicy, LumaSearchPolicy, LumaShortlistPolicy, NxnSearchPolicy,
    PreanalysisTemplate, RdoqTrialPolicy, ResidualPriceLevel, RmdModeSet, RoughLumaPolicy,
    SplitSearch, TrialQuant, TrialRdoqMode, TuExactPolicy, TuSearchPolicy, TuSplitMode,
};

verus! {

/// The value for a preset out of those for fast, slow and placebo.
pub open spec fn spec_pick<T>(effort: Effort, fast: T, slow: T, placebo: T) -> T {
    match effort {
        Effort::Fast => fast,
        Effort::Slow => slow,
        Effort::Placebo => placebo,
    }
}

fn pick<T: Copy>(effort: Effort, fast: T, slow: T, placebo: T) -> (r: T)
    ensures
        r == spec_pick(effort, fast, slow, placebo),
{
    match effort {
        Effort::Fast => fast,
        Effort::Slow => slow,
        Effort::Placebo => placebo,
    }
}

/// The canonical preset of an effort: itself.
pub fn canonical_effort(e: Effort) -> (r: Effort)
    ensures
        r == e,
{
    e
}

/// Whether an effort is the one that the others are measured against.
pub fn is_reference_tier(effort: Effort) -> (r: bool)
    ensures
        r == (effort == Effort::Placebo),
{
    effort == Effort::Placebo
}

impl EffortTemplate {
    /// Whether this is the preset that the others are measured against.
    pub fn is_reference(&self) -> (r: bool)
        ensures
            r == (self.name == Effort::Placebo),
    {
        self.name == Effort::Placebo
    }
}

/// The preset of an effort.
///
/// Fast spends search where evidence is strong and gives up the last few percent of
/// compression. Slow is the preset for production. Placebo disables pruning and serves
/// as the reference for the others.
pub open spec fn spec_template(effort: Effort) -> EffortTemplate {
    EffortTemplate {
        name: effort,
        oracle: spec_pick(effort, false, false, true),
        entropy_context: spec_pick(
            effort,
            EntropyContextMode::Running,
            EntropyContextMode::Running,
            EntropyContextMode::FrozenSliceInit,
        ),
        parallel_analysis: true,
        luma: LumaSearchPolicy {
            rough: RoughLumaPolicy {
                mode_set: spec_pick(
                    effort,
                    RmdModeSet::Step4,
                    RmdModeSet::Exhaustive,
                    RmdModeSet::Exhaustive,
                ),
                score_all_modes: true,
                use_mode_bits: true,
                angular_family_detection: true,
            },
            shortlist: LumaShortlistPolicy {
                max_modes: spec_pick(effort, 5u8, 8u8, 12u8),
                include_best_global: true,
                include_best_planar_dc: true,
                include_best_angular: true,
                include_mpm: true,
                angular_family_slots: spec_pick(effort, 0u8, 2u8, 3u8),
                angular_neighbor_radius: spec_pick(effort, 0u8, 1u8, 2u8),
            },
            cheap: CheapLumaPolicy {
                enabled: spec_pick(effort, true, true, false),
                max_ranked_modes: spec_pick(effort, 4u8, 0u8, 0u8),
                scope: ComponentScope::LumaOnly,
                allow_optional_tu_split: false,
                residual_price: spec_pick(
                    effort,
                    ResidualPriceLevel::Approx,
                    ResidualPriceLevel::Exact,
                    ResidualPriceLevel::Approx,
                ),
                quant: spec_pick(effort, TrialQuant::HardQuant, TrialQuant::Rdoq, TrialQuant::Rdoq),
                chroma_satd_in_cheap: false,
            },
            exact: ExactLumaPolicy {
                max_modes: spec_pick(effort, 2u8, 4u8, 12u8),
                scope: spec_pick(
                    effort,
                    ComponentScope::LumaOnly,
                    ComponentScope::LumaOnly,
                    ComponentScope::FullComponents,
                ),
                residual_price: spec_pick(
                    effort,
                    ResidualPriceLevel::Approx,
                    ResidualPriceLevel::Exact,
                    ResidualPriceLevel::Exact,
                ),
                quant: spec_pick(effort, TrialQuant::HardQuant, TrialQuant::Rdoq, TrialQuant::Rdoq),
                promote: if effort == Effort::Placebo {
                    ExactPromotionPolicy::everything()
                } else {
                    ExactPromotionPolicy {
                        max_exact_modes: 1,
                        include_cheap_winner: true,
                        include_best_rough_angular_if_pd_wins_cheap: false,
                        include_best_rough_pd_if_angular_wins_cheap: false,
                        cheap_close_margin_milli: spec_pick(effort, 1050u32, 1100u32, 1000u32),
                    }
                },
                exact_usage: spec_pick(
                    effort,
                    ExactUsage::Disabled,
                    ExactUsage::X265Shape,
                    ExactUsage::AllShortlist,
                ),
            },
        },
        tu: TuSearchPolicy {
            min_split_log2: spec_pick(effort, 3u8, 2u8, 2u8),
            leaf_first: true,
            split_search: spec_pick(
                effort,
                SplitSearch::PreferLeaf,
                SplitSearch::EvaluateBoth,
                SplitSearch::EvaluateBoth,
            ),
            zero_residual_early_terminate: spec_pick(effort, true, true, false),
            low_residual_early_terminate: spec_pick(effort, true, true, false),
            low_residual_bits_per_px_milli: spec_pick(effort, 50u32, 20u32, 0u32),
            low_distortion_per_px_milli: spec_pick(effort, 1000u32, 500u32, 0u32),
        },
        tu_exact: TuExactPolicy {
            split_mode: spec_pick(
                effort,
                TuSplitMode::LeafFirstEarlyTerminate,
                TuSplitMode::EvaluateBoth,
                TuSplitMode::EvaluateBoth,
            ),
            max_extra_depth: spec_pick(effort, 1u8, 2u8, 2u8),
            min_split_log2: spec_pick(effort, 3u8, 2u8, 2u8),
            leaf_first: true,
            zero_residual_early_terminate: spec_pick(effort, true, true, false),
            low_residual_early_terminate: spec_pick(effort, true, true, false),
            low_residual_bits_per_px_milli: spec_pick(effort, 50u32, 15u32, 0u32),
            low_distortion_per_px_milli: spec_pick(effort, 1000u32, 350u32, 0u32),
            rdoq_split_trials: spec_pick(effort, false, false, true),
        },
        cu: CuSearchPolicy {
            split_search: spec_pick(
                effort,
                SplitSearch::PreferLeaf,
                SplitSearch::EvaluateBoth,
                SplitSearch::EvaluateBoth,
            ),
            early_terminate: spec_pick(
                effort,
                CuEarlyTerminateRule::Fast,
                CuEarlyTerminateRule::Balanced,
                CuEarlyTerminateRule::Disabled,
            ),
            use_preanalysis_force_leaf: spec_pick(effort, true, true, false),
            use_preanalysis_force_split: spec_pick(effort, false, true, false),
            force_split_log2: spec_pick(effort, None::<u8>, Some(6u8), None::<u8>),
            leaf_first: true,
            descent_gate_t16_milli: spec_pick(effort, 0u32, 4000u32, 0u32),
            descent_gate_t32_milli: spec_pick(effort, 0u32, 1000u32, 0u32),
        },
        nxn: NxnSearchPolicy {
            enabled: true,
            rough_gate_enabled: spec_pick(effort, true, true, false),
            rough_satd_threshold_milli: spec_pick(effort, 1_000_000u32, 1_000_000u32, 0u32),
            require_directional_or_texture: spec_pick(effort, true, false, false),
            exact_eval: true,
        },
        chroma: ChromaSearchPolicy {
            timing: spec_pick(
                effort,
                ChromaTiming::WinnerOnly,
                ChromaTiming::WinnerOnly,
                ChromaTiming::DuringExactTrials,
            ),
            max_candidates: spec_pick(effort, 1u8, 2u8, 3u8),
            residual_price: spec_pick(
                effort,
                ResidualPriceLevel::Approx,
                ResidualPriceLevel::Exact,
                ResidualPriceLevel::Exact,
            ),
            quant: spec_pick(effort, TrialQuant::HardQuant, TrialQuant::Rdoq, TrialQuant::Rdoq),
            rough_k: spec_pick(effort, 1u8, 1u8, 4u8),
            skip_satd_per_sample_milli: 0,
        },
        final_pass: FinalSearchPolicy {
            quant: TrialQuant::Rdoq,
            residual_price: ResidualPriceLevel::Exact,
            rdoq_final: true,
            sign_data_hiding: true,
        },
        rdoq_trials: RdoqTrialPolicy {
            mode: spec_pick(
                effort,
                TrialRdoqMode::Off,
                TrialRdoqMode::ExactOnly,
                TrialRdoqMode::Off,
            ),
            close_margin_milli: spec_pick(effort, 1000u32, 1000u32, 999_000u32),
            max_rdoq_modes: spec_pick(effort, 0u8, 35u8, 0u8),
            level: spec_pick(effort, 0u8, 2u8, 1u8),
        },
        preanalysis: if effort == Effort::Placebo {
            PreanalysisTemplate::disabled()
        } else {
            PreanalysisTemplate {
                class_steering: true,
                allow_candidate_expansion: spec_pick(effort, false, true, false),
                importance_rmd_prune_factor_milli: spec_pick(effort, Some(800u32), None, None),
                importance_force_leaf: spec_pick(effort, true, false, false),
            }
        },
    }
}

/// The preset of an effort.
pub fn template(effort: Effort) -> (t: EffortTemplate)
    ensures
        t == spec_template(effort),
{
    EffortTemplate {
        name: effort,
        oracle: pick(effort, false, false, true),
        entropy_context: pick(
            effort,
            EntropyContextMode::Running,
            EntropyContextMode::Running,
            EntropyContextMode::FrozenSliceInit,
        ),
        parallel_analysis: true,
        luma: LumaSearchPolicy {
            rough: RoughLumaPolicy {
                mode_set: pick(
                    effort,
                    RmdModeSet::Step4,
                    RmdModeSet::Exhaustive,
                    RmdModeSet::Exhaustive,
                ),
                score_all_modes: true,
                use_mode_bits: true,
                angular_family_detection: true,
            },
            shortlist: LumaShortlistPolicy {
                max_modes: pick(effort, 5u8, 8u8, 12u8),
                include_best_global: true,
                include_best_planar_dc: true,
                include_best_angular: true,
                include_mpm: true,
                angular_family_slots: pick(effort, 0u8, 2u8, 3u8),
                angular_neighbor_radius: pick(effort, 0u8, 1u8, 2u8),
            },
            cheap: CheapLumaPolicy {
                enabled: pick(effort, true, true, false),
                max_ranked_modes: pick(effort, 4u8, 0u8, 0u8),
                scope: ComponentScope::LumaOnly,
                allow_optional_tu_split: false,
                residual_price: pick(
                    effort,
                    ResidualPriceLevel::Approx,
                    ResidualPriceLevel::Exact,
                    ResidualPriceLevel::Approx,
                ),
                quant: pick(effort, TrialQuant::HardQuant, TrialQuant::Rdoq, TrialQuant::Rdoq),
                chroma_satd_in_cheap: false,
            },
            exact: ExactLumaPolicy {
                max_modes: pick(effort, 2u8, 4u8, 12u8),
                scope: pick(
                    effort,
                    ComponentScope::LumaOnly,
                    ComponentScope::LumaOnly,
                    ComponentScope::FullComponents,
                ),
                residual_price: pick(
                    effort,
                    ResidualPriceLevel::Approx,
                    ResidualPriceLevel::Exact,
                    ResidualPriceLevel::Exact,
                ),
                quant: pick(effort, TrialQuant::HardQuant, TrialQuant::Rdoq, TrialQuant::Rdoq),
                promote: if effort == Effort::Placebo {
                    ExactPromotionPolicy::all_shortlist()
                } else {
                    ExactPromotionPolicy {
                        max_exact_modes: 1,
                        include_cheap_winner: true,
                        include_best_rough_angular_if_pd_wins_cheap: false,
                        include_best_rough_pd_if_angular_wins_cheap: false,
                        cheap_close_margin_milli: pick(effort, 1050u32, 1100u32, 1000u32),
                    }
                },
                exact_usage: pick(
                    effort,
                    ExactUsage::Disabled,
                    ExactUsage::X265Shape,
                    ExactUsage::AllShortlist,
                ),
            },
        },
        tu: TuSearchPolicy {
            min_split_log2: pick(effort, 3u8, 2u8, 2u8),
            leaf_first: true,
            split_search: pick(
                effort,
                SplitSearch::PreferLeaf,
                SplitSearch::EvaluateBoth,
                SplitSearch::EvaluateBoth,
            ),
            zero_residual_early_terminate: pick(effort, true, true, false),
            low_residual_early_terminate: pick(effort, true, true, false),
            low_residual_bits_per_px_milli: pick(effort, 50u32, 20u32, 0u32),
            low_distortion_per_px_milli: pick(effort, 1000u32, 500u32, 0u32),
        },
        tu_exact: TuExactPolicy {
            split_mode: pick(
                effort,
                TuSplitMode::LeafFirstEarlyTerminate,
                TuSplitMode::EvaluateBoth,
                TuSplitMode::EvaluateBoth,
            ),
            max_extra_depth: pick(effort, 1u8, 2u8, 2u8),
            min_split_log2: pick(effort, 3u8, 2u8, 2u8),
            leaf_first: true,
            zero_residual_early_terminate: pick(effort, true, true, false),
            low_residual_early_terminate: pick(effort, true, true, false),
            low_residual_bits_per_px_milli: pick(effort, 50u32, 15u32, 0u32),
            low_distortion_per_px_milli: pick(effort, 1000u32, 350u32, 0u32),
            rdoq_split_trials: pick(effort, false, false, true),
        },
        cu: CuSearchPolicy {
            split_search: pick(
                effort,
                SplitSearch::PreferLeaf,
                SplitSearch::EvaluateBoth,
                SplitSearch::EvaluateBoth,
            ),
            early_terminate: pick(
                effort,
                CuEarlyTerminateRule::Fast,
                CuEarlyTerminateRule::Balanced,
                CuEarlyTerminateRule::Disabled,
            ),
            use_preanalysis_force_leaf: pick(effort, true, true, false),
            use_preanalysis_force_split: pick(effort, false, true, false),
            force_split_log2: pick(effort, None::<u8>, Some(6u8), None::<u8>),
            leaf_first: true,
            descent_gate_t16_milli: pick(effort, 0u32, 4000u32, 0u32),
            descent_gate_t32_milli: pick(effort, 0u32, 1000u32, 0u32),
        },
        nxn: NxnSearchPolicy {
            enabled: true,
            rough_gate_enabled: pick(effort, true, true, false),
            rough_satd_threshold_milli: pick(effort, 1_000_000u32, 1_000_000u32, 0u32),
            require_directional_or_texture: pick(effort, true, false, false),
            exact_eval: true,
        },
        chroma: ChromaSearchPolicy {
            timing: pick(
                effort,
                ChromaTiming::WinnerOnly,
                ChromaTiming::WinnerOnly,
                ChromaTiming::DuringExactTrials,
            ),
            max_candidates: pick(effort, 1u8, 2u8, 3u8),
            residual_price: pick(
                effort,
                ResidualPriceLevel::Approx,
                ResidualPriceLevel::Exact,
                ResidualPriceLevel::Exact,
            ),
            quant: pick(effort, TrialQuant::HardQuant, TrialQuant::Rdoq, TrialQuant::Rdoq),
            rough_k: pick(effort, 1u8, 1u8, 4u8),
            skip_satd_per_sample_milli: 0,
        },
        final_pass: FinalSearchPolicy {
            quant: TrialQuant::Rdoq,
            residual_price: ResidualPriceLevel::Exact,
            rdoq_final: true,
            sign_data_hiding: true,
        },
        rdoq_trials: RdoqTrialPolicy {
            mode: pick(effort, TrialRdoqMode::Off, TrialRdoqMode::ExactOnly, TrialRdoqMode::Off),
            close_margin_milli: pick(effort, 1000u32, 1000u32, 999_000u32),
            max_rdoq_modes: pick(effort, 0u8, 35u8, 0u8),
            level: pick(effort, 0u8, 2u8, 1u8),
        },
        preanalysis: if effort == Effort::Placebo {
            PreanalysisTemplate::oracle_disabled()
        } else {
            PreanalysisTemplate {
                class_steering: true,
                allow_candidate_expansion: pick(effort, false, true, false),
                importance_rmd_prune_factor_milli: pick(effort, Some(800u32), None, None),
                importance_force_leaf: pick(effort, true, false, false),
            }
        },
    }
}

/// The preset that an encode uses.
pub fn template_for_encode(effort: Effort) -> (t: EffortTemplate)
    ensures
        t == spec_template(effort),
{
    template(effort)
}

} // verus!
