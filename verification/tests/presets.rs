//! The presets and what they make of blocks.

use still265::budget::{
    angular_prune_var_threshold_8bit, describe_effort, inert, policy_for, qp_budget_effort,
    BlockDesc, BlockSearchBudget, RdoqPassBudget, RegionClass,
};
use still265::config::Effort;
use still265::effort::{
    AngularFamily, ComponentKind, CuEarlyTerminateRule, ExactPromotionPolicy, ExactUsage,
    PreanalysisTemplate, ResidualPriceLevel, RmdModeSet, SplitSearch, TrialQuality, TrialRdoqMode,
};
use still265::policy::{effective_trial_quality, TrialGates, TrialRdoqGate, WorkStage};
use still265::presets::{canonical_effort, is_reference_tier, template, template_for_encode};
use still265::rough::{narrow_screen_limit, screen_limit};

#[test]
fn canonical_slow_is_x265shape() {
    let slow = template(Effort::Slow);
    assert_eq!(slow.luma.rough.mode_set, RmdModeSet::Exhaustive);
    assert!(slow.luma.rough.score_all_modes);
    assert_eq!(slow.luma.cheap.max_ranked_modes, 0);
    assert_eq!(slow.luma.cheap.residual_price, ResidualPriceLevel::Exact);
    assert_eq!(slow.luma.exact.exact_usage, ExactUsage::X265Shape);
    assert_eq!(slow.luma.exact.promote.max_exact_modes, 1);
    assert!(!slow.luma.cheap.chroma_satd_in_cheap);
    assert!(!slow.luma.exact.promote.include_best_rough_angular_if_pd_wins_cheap);
    assert!(!slow.luma.exact.promote.include_best_rough_pd_if_angular_wins_cheap);
    assert_eq!(slow.nxn.rough_satd_threshold_milli, 1_000_000);
    assert_eq!(slow.nxn.rough_satd_threshold_milli as f64 / 1000.0, 1000.0);
    assert_eq!(slow.rdoq_trials.mode, TrialRdoqMode::ExactOnly);
    assert_eq!(slow.rdoq_trials.max_rdoq_modes, 35);
    assert_eq!(slow.rdoq_trials.level, 2);
}

#[test]
fn efforts_are_their_own_canonical_form() {
    assert_eq!(canonical_effort(Effort::Fast), Effort::Fast);
    assert_eq!(canonical_effort(Effort::Slow), Effort::Slow);
    assert_eq!(canonical_effort(Effort::Placebo), Effort::Placebo);
}

#[test]
fn placebo_alone_is_the_reference() {
    assert!(!is_reference_tier(Effort::Fast));
    assert!(!is_reference_tier(Effort::Slow));
    assert!(is_reference_tier(Effort::Placebo));
    assert!(template(Effort::Placebo).is_reference());
    assert!(!template(Effort::Slow).is_reference());
}

#[test]
fn encodes_use_the_templates() {
    for e in [Effort::Fast, Effort::Slow, Effort::Placebo] {
        assert_eq!(template_for_encode(e), template(e));
        assert_eq!(template(e).name, e);
    }
}

#[test]
fn slow_falls_back_to_fast_at_high_qps() {
    assert_eq!(qp_budget_effort(Effort::Slow, 37), Effort::Slow);
    assert_eq!(qp_budget_effort(Effort::Slow, 38), Effort::Fast);
    assert_eq!(qp_budget_effort(Effort::Fast, 20), Effort::Fast);
    assert_eq!(qp_budget_effort(Effort::Placebo, 51), Effort::Placebo);
}

#[test]
fn exhaustive_scan_lists_all_modes_and_the_probable_ones() {
    let modes = RmdModeSet::Exhaustive.modes([0, 1, 26]);
    assert_eq!(modes.len(), 40);
    assert_eq!(&modes[..2], &[0, 1]);
    for m in 0..35u8 {
        assert_eq!(modes[2 + m as usize], m);
    }
    assert_eq!(&modes[37..], &[0, 1, 26]);
}

#[test]
fn stepped_scans_visit_every_so_many_directions() {
    let modes = RmdModeSet::Step4.modes([0, 1, 26]);
    assert_eq!(modes, vec![0, 1, 2, 6, 10, 14, 18, 22, 26, 30, 34, 0, 1, 26]);
}

#[test]
fn the_narrowest_set_lists_planar_and_dc_with_the_probable_modes() {
    assert_eq!(RmdModeSet::MpmPlanarDcOnly.modes([10, 26, 0]), vec![0, 1, 10, 26, 0]);
}

#[test]
fn components_go_by_their_index() {
    assert_eq!(ComponentKind::from_c_idx(0), ComponentKind::Luma);
    assert_eq!(ComponentKind::from_c_idx(1), ComponentKind::ChromaCb);
    assert_eq!(ComponentKind::from_c_idx(2), ComponentKind::ChromaCr);
}

#[test]
fn planar_and_dc_have_no_angular_family() {
    assert_eq!(AngularFamily::classify(0), None);
    assert_eq!(AngularFamily::classify(1), None);
    assert_eq!(AngularFamily::classify(2), Some(AngularFamily::Horizontal));
    assert_eq!(AngularFamily::classify(9), Some(AngularFamily::Horizontal));
    assert_eq!(AngularFamily::classify(10), Some(AngularFamily::Diagonal));
    assert_eq!(AngularFamily::classify(25), Some(AngularFamily::Diagonal));
    assert_eq!(AngularFamily::classify(26), Some(AngularFamily::Vertical));
    assert_eq!(AngularFamily::classify(34), Some(AngularFamily::Vertical));
    assert_eq!(AngularFamily::classify(35), None);
}

#[test]
fn the_oracle_is_not_steered() {
    let p = PreanalysisTemplate::oracle_disabled();
    assert!(!p.class_steering);
    assert!(!p.allow_candidate_expansion);
    assert_eq!(p.importance_rmd_prune_factor_milli, None);
    assert!(!p.importance_force_leaf);
    let all = ExactPromotionPolicy::all_shortlist();
    assert_eq!(all.max_exact_modes, u8::MAX);
}

fn desc(region: RegionClass, importance_q8: u16, qp: i32, log2_size: u8) -> BlockDesc {
    BlockDesc {
        x: 0,
        y: 0,
        log2_size,
        qp,
        region,
        importance_q8,
        component: ComponentKind::Luma,
        policy: inert(),
    }
}

fn budget(effort: Effort, qp: i32) -> BlockSearchBudget {
    template(effort).resolve(desc(RegionClass::Texture, 128, qp, 4))
}

#[test]
fn texture_is_searched_as_it_is() {
    assert_eq!(policy_for(RegionClass::Texture), inert());
    assert_ne!(policy_for(RegionClass::Flat), inert());
    assert_eq!(policy_for(RegionClass::Noisy).angular_prune, Some(true));
    assert_eq!(policy_for(RegionClass::ChromaCritical).chroma_rd_bias, 1);
}

#[test]
fn every_budget_tries_a_luma_mode() {
    for e in [Effort::Fast, Effort::Slow, Effort::Placebo] {
        for qp in [0, 22, 37, 38, 51] {
            let b = budget(e, qp);
            assert!(b.luma_rd_candidates >= 1, "{:?} at {}", e, qp);
        }
    }
}

#[test]
fn a_budget_with_a_rule_stops_at_units_without_residual() {
    let mut b = budget(Effort::Fast, 30);
    b.cu_early_terminate = CuEarlyTerminateRule::Disabled;
    assert!(!b.should_early_terminate_cu(false, 0, 4, 30, 8, || panic!("not asked")));
    b.cu_early_terminate = CuEarlyTerminateRule::Balanced;
    assert!(b.should_early_terminate_cu(false, 1_000, 4, 30, 8, || 255));
    // 16x16 at QP 38: eight times the bits against 256 samples.
    assert!(b.should_early_terminate_cu(true, 31, 4, 38, 8, || 255));
    assert!(!b.should_early_terminate_cu(true, 32, 4, 38, 8, || 255));
    assert!(!b.should_early_terminate_cu(true, 31, 4, 37, 8, || 255));
    b.cu_early_terminate = CuEarlyTerminateRule::Fast;
    assert!(b.should_early_terminate_cu(true, 63, 4, 30, 8, || panic!("not asked")));
    assert!(!b.should_early_terminate_cu(true, 64, 4, 30, 8, || 255));
    b.cu_early_terminate = CuEarlyTerminateRule::Fastest;
    assert!(b.should_early_terminate_cu(true, 10_000, 4, 30, 8, || 47));
    assert!(!b.should_early_terminate_cu(true, 10_000, 4, 30, 8, || 48));
    // At ten bits the range is four times as wide.
    assert!(b.should_early_terminate_cu(true, 10_000, 4, 30, 10, || 191));
    assert!(!b.should_early_terminate_cu(true, 10_000, 4, 30, 10, || 192));
}

#[test]
fn a_description_holds_both_sample_blocks() {
    let d = describe_effort(Effort::Slow, 28);
    assert_eq!(d.original_effort, Effort::Slow);
    assert_eq!(d.qp, 28);
    assert_eq!(d.template, template(Effort::Slow));
}

#[test]
fn the_fast_preset_alone_prunes_by_variance() {
    assert_eq!(angular_prune_var_threshold_8bit(Effort::Fast), Some(32));
    assert_eq!(angular_prune_var_threshold_8bit(Effort::Slow), None);
    assert_eq!(angular_prune_var_threshold_8bit(Effort::Placebo), None);
}

#[test]
fn refinement_passes_depend_on_the_block() {
    let of = |effort: Effort, qp: i32| RdoqPassBudget { effort, qp, canonical: effort };
    let luma = ComponentKind::Luma;
    assert_eq!(of(Effort::Fast, 20).passes(2, luma, 1), 0);
    assert_eq!(of(Effort::Slow, 37).passes(4, luma, 64), 1);
    assert_eq!(of(Effort::Slow, 37).passes(4, luma, 65), 0);
    assert_eq!(of(Effort::Slow, 37).passes(5, luma, 1), 0);
    assert_eq!(of(Effort::Slow, 38).passes(3, luma, 32), 1);
    assert_eq!(of(Effort::Slow, 38).passes(3, luma, 33), 0);
    assert_eq!(of(Effort::Slow, 44).passes(2, luma, 1), 0);
    assert_eq!(of(Effort::Placebo, 44).passes(4, luma, 128), 2);
    assert_eq!(of(Effort::Placebo, 44).passes(4, luma, 129), 1);
    assert_eq!(budget(Effort::Slow, 30).rdoq_passes(2, luma, 3), 1);
}

#[test]
fn split_search_of_the_reference_compares_both() {
    let b = budget(Effort::Placebo, 30);
    assert_eq!(b.cu_split, SplitSearch::EvaluateBoth);
}

fn gates() -> TrialGates {
    TrialGates { cheap: false, exact: false, rdoq: TrialRdoqGate::Off, approx_bits: false }
}

#[test]
fn exact_residual_bits_are_for_trials_that_ask_for_them() {
    let slow = budget(Effort::Slow, 30);
    let fast = budget(Effort::Fast, 30);
    let stage = WorkStage::LumaTrial;
    let full = TrialQuality::FullRd;
    assert_eq!(gates().exact_bits(stage, full, &slow), (true, false));
    assert_eq!(gates().exact_bits(stage, full, &fast), (false, false));
    assert_eq!(gates().exact_bits(stage, TrialQuality::FastRd, &slow), (false, false));
    let exact = TrialGates { exact: true, approx_bits: true, ..gates() };
    assert_eq!(exact.exact_bits(stage, full, &fast), (true, false));
    assert_eq!(exact.exact_bits(stage, TrialQuality::Final, &fast), (false, false));
    let approx = TrialGates { approx_bits: true, ..gates() };
    assert_eq!(approx.exact_bits(stage, full, &slow), (false, false));
    let cheap = TrialGates { cheap: true, ..gates() };
    assert_eq!(cheap.exact_bits(stage, full, &slow), (false, true));
    assert_eq!(cheap.exact_bits(WorkStage::FinalCode, full, &slow), (true, false));
}

#[test]
fn trials_are_optimised_where_their_switches_allow() {
    let slow = budget(Effort::Slow, 30);
    let stage = WorkStage::TuDecision;
    let last = TrialQuality::Final;
    assert_eq!(gates().rdoq_enabled(stage, last, &slow, 0, 5), (true, false));
    assert_eq!(gates().rdoq_enabled(stage, TrialQuality::FullRd, &slow, 0, 5), (false, false));
    let with = |rdoq| TrialGates { rdoq, ..gates() };
    assert_eq!(
        with(TrialRdoqGate::Luma32).rdoq_enabled(stage, last, &slow, 0, 5),
        (false, false)
    );
    assert_eq!(with(TrialRdoqGate::Luma32).rdoq_enabled(stage, last, &slow, 0, 4), (true, false));
    assert_eq!(with(TrialRdoqGate::Chroma).rdoq_enabled(stage, last, &slow, 1, 3), (false, false));
    assert_eq!(with(TrialRdoqGate::Large).rdoq_enabled(stage, last, &slow, 0, 4), (false, false));
    assert_eq!(
        with(TrialRdoqGate::SmallLuma).rdoq_enabled(stage, TrialQuality::Rough, &slow, 0, 2),
        (true, false)
    );
    let cheap = TrialGates { cheap: true, ..gates() };
    assert_eq!(cheap.rdoq_enabled(stage, last, &slow, 0, 2), (false, true));
    assert_eq!(cheap.rdoq_enabled(WorkStage::FinalCode, last, &slow, 0, 2), (true, false));
}

#[test]
fn a_forced_quality_is_for_luma() {
    let slow = budget(Effort::Slow, 30);
    let forced = Some(TrialQuality::Final);
    assert_eq!(effective_trial_quality(0, forced, true, &slow), TrialQuality::Final);
    assert_eq!(effective_trial_quality(0, None, true, &slow), TrialQuality::FastRd);
    assert_eq!(effective_trial_quality(0, None, false, &slow), TrialQuality::FullRd);
    assert_eq!(effective_trial_quality(2, forced, false, &slow), TrialQuality::FastRd);
}

#[test]
fn screens_keep_more_modes_in_deeper_units() {
    assert_eq!((screen_limit(0), screen_limit(3)), (8, 9));
    assert_eq!((narrow_screen_limit(0), narrow_screen_limit(3), narrow_screen_limit(9)), (5, 6, 8));
}
