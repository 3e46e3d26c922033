//! Search presets and the budget that they give a block.
//!
//! A search runs in four levels: rough scoring of modes, cheap trials of a shortlist,
//! exact trials of the modes promoted from it, and final coding of the winner. A preset
//! says how much each level may spend. Ratios and rates are held in thousandths.

use vstd::prelude::*;

use crate::config::Effort;

verus! {

#[derive(Clone, Copy, Debug, PartialEq, Eq, Structural)]
pub enum EntropyContextMode {
    Running,
    FrozenSliceInit,
}

/// Which luma modes the rough pass scores.
#[derive(Clone, Copy, Debug, PartialEq, Eq, Structural)]
pub enum RmdModeSet {
    MpmPlanarDcOnly,
    Step4,
    Step3,
    Step2,
    Dense,
    Exhaustive,
    Progressive { coarse_step: u8, top_regions: u8, refine_radius: u8 },
}

/// The angular modes from 2 to 34 in steps.
pub open spec fn stepped(step: int) -> Seq<u8> {
    Seq::new((32int / step + 1) as nat, |i: int| (2 + i * step) as u8)
}

/// The modes of a list that lie between two modes.
pub open spec fn modes_between(modes: Seq<u8>, lo: u8, hi: u8) -> Seq<u8> {
    modes.filter(|m: u8| lo <= m <= hi)
}

/// One direction's coarse modes join the kept ones while fewer than `limit` are kept.
pub open spec fn keep_direction(kept: Seq<u8>, coarse: Seq<u8>, lo: u8, hi: u8, limit: int) -> Seq<
    u8,
> {
    if kept.len() < limit {
        kept + modes_between(coarse, lo, hi)
    } else {
        kept
    }
}

/// The coarse modes that a progressive scan keeps: horizontal, diagonal, vertical, or
/// the first two where that leaves none.
pub open spec fn kept_modes(coarse_step: int, top_regions: int) -> Seq<u8> {
    let coarse = stepped(coarse_step);
    let limit = crate::math::min_int(top_regions, 3);
    let h = keep_direction(Seq::empty(), coarse, 2, 9, limit);
    let d = keep_direction(h, coarse, 10, 25, limit);
    let v = keep_direction(d, coarse, 26, 34, limit);
    if v.len() == 0 {
        coarse.take(crate::math::min_int(2, coarse.len() as int))
    } else {
        v
    }
}

/// A mode joins a list that does not hold it.
pub open spec fn join_mode(modes: Seq<u8>, m: u8) -> Seq<u8> {
    if modes.contains(m) {
        modes
    } else {
        modes.push(m)
    }
}

/// The first `n` modes from `lo` on join a list.
pub open spec fn join_range(modes: Seq<u8>, lo: int, n: nat) -> Seq<u8>
    decreases n,
{
    if n == 0 {
        modes
    } else {
        join_mode(join_range(modes, lo, (n - 1) as nat), (lo + n - 1) as u8)
    }
}

/// The lower end of the neighbourhood of a mode.
pub open spec fn refine_lo(m: u8, radius: u8) -> int {
    crate::math::max_int(m - radius, 2)
}

/// The upper end of the neighbourhood of a mode.
pub open spec fn refine_hi(m: u8, radius: u8) -> int {
    crate::math::min_int(m + radius, 34)
}

/// How many modes the neighbourhood of a mode holds.
pub open spec fn refine_len(m: u8, radius: u8) -> nat {
    let (lo, hi) = (refine_lo(m, radius), refine_hi(m, radius));
    if hi < lo {
        0
    } else {
        (hi - lo + 1) as nat
    }
}

/// The neighbourhoods of the first `n` kept modes join a list.
pub open spec fn join_refined(modes: Seq<u8>, kept: Seq<u8>, radius: u8, n: nat) -> Seq<u8>
    decreases n,
{
    if n == 0 {
        modes
    } else {
        let m = kept[n - 1];
        join_range(
            join_refined(modes, kept, radius, (n - 1) as nat),
            refine_lo(m, radius),
            refine_len(m, radius),
        )
    }
}

/// The modes of a scan in scoring order, before the most probable ones.
pub open spec fn scan_modes(set: RmdModeSet) -> Seq<u8> {
    let base = seq![0u8, 1u8];
    match set {
        RmdModeSet::MpmPlanarDcOnly => base,
        RmdModeSet::Step4 => base + stepped(4),
        RmdModeSet::Step3 => base + stepped(3),
        RmdModeSet::Step2 => base + stepped(2),
        RmdModeSet::Dense => base + stepped(1),
        RmdModeSet::Exhaustive => base + Seq::new(35, |i: int| i as u8),
        RmdModeSet::Progressive { coarse_step, top_regions, refine_radius } => {
            let kept = kept_modes(coarse_step as int, top_regions as int);
            if refine_radius == 0 {
                base + kept
            } else {
                join_refined(base + kept, kept, refine_radius, kept.len())
            }
        },
    }
}

/// Appends the angular modes from 2 to 34 in steps.
pub fn push_stepped(modes: &mut Vec<u8>, step: u8)
    requires
        step > 0,
    ensures
        final(modes)@ == old(modes)@ + stepped(step as int),
{
    let ghost start = modes@;
    let n: u8 = 32 / step + 1;
    let mut i: u8 = 0;
    proof {
        assert((32int / step as int) * step <= 32) by (nonlinear_arith)
            requires
                step > 0,
        ;
        assert(start + stepped(step as int).take(0) =~= start);
    }
    while i < n
        invariant
            i <= n,
            n == 32int / step as int + 1,
            n <= 33,
            (n - 1) * step <= 32,
            step > 0,
            modes@ == start + stepped(step as int).take(i as int),
        decreases n - i,
    {
        assert(i * step <= (n - 1) * step) by (nonlinear_arith)
            requires
                i <= n - 1,
                step > 0,
        ;
        modes.push(2 + i * step);
        i = i + 1;
        assert(modes@ =~= start + stepped(step as int).take(i as int));
    }
    assert(stepped(step as int).take(n as int) =~= stepped(step as int));
}

/// Whether a list holds a mode.
pub fn contains_mode(modes: &Vec<u8>, m: u8) -> (r: bool)
    ensures
        r == modes@.contains(m),
{
    let n: usize = modes.len();
    for i in 0..n
        invariant
            n == modes@.len(),
            forall|k: int| 0 <= k < i ==> #[trigger] modes@[k] != m,
    {
        if modes[i] == m {
            return true;
        }
    }
    false
}

fn push_between(kept: &mut Vec<u8>, coarse: &Vec<u8>, lo: u8, hi: u8, limit: usize)
    ensures
        final(kept)@ == keep_direction(old(kept)@, coarse@, lo, hi, limit as int),
{
    let ghost start = kept@;
    let ghost inside = |m: u8| lo <= m <= hi;
    if kept.len() < limit {
        let n: usize = coarse.len();
        reveal(Seq::filter);
        assert(coarse@.take(0).filter(inside) =~= Seq::<u8>::empty());
        assert(start + Seq::<u8>::empty() =~= start);
        for i in 0..n
            invariant
                n == coarse@.len(),
                inside == (|m: u8| lo <= m <= hi),
                kept@ == start + coarse@.take(i as int).filter(inside),
        {
            let ghost before = coarse@.take(i as int);
            let ghost after = coarse@.take(i + 1);
            proof {
                reveal(Seq::filter);
                assert(after.drop_last() =~= before);
                assert(after.last() == coarse@[i as int]);
            }
            if lo <= coarse[i] && coarse[i] <= hi {
                kept.push(coarse[i]);
                assert(kept@ =~= start + before.filter(inside).push(coarse@[i as int]));
            }
        }
        assert(coarse@.take(n as int) =~= coarse@);
    }
}

/// Appends the `n` modes from `lo` on that a list does not hold.
pub fn push_joined(modes: &mut Vec<u8>, lo: u8, n: u8)
    requires
        lo + n <= 255,
    ensures
        final(modes)@ == join_range(old(modes)@, lo as int, n as nat),
{
    let mut i: u8 = 0;
    while i < n
        invariant
            i <= n,
            lo + n <= 255,
            modes@ == join_range(old(modes)@, lo as int, i as nat),
        decreases n - i,
    {
        if !contains_mode(modes, lo + i) {
            modes.push(lo + i);
        }
        i = i + 1;
    }
}

impl RmdModeSet {
    /// A progressive scan steps forward, and its neighbourhoods are mode numbers.
    pub open spec fn well_formed(self) -> bool {
        match self {
            RmdModeSet::Progressive { coarse_step, top_regions, refine_radius } => {
                &&& coarse_step > 0
                &&& refine_radius > 0 ==> forall|i: int|
                    0 <= i < kept_modes(coarse_step as int, top_regions as int).len()
                        ==> #[trigger] kept_modes(
                        coarse_step as int,
                        top_regions as int,
                    )[i] + refine_radius <= 255
            },
            _ => true,
        }
    }

    /// The modes to score, the most probable ones last. A mode may occur twice.
    pub fn modes(self, mpm: [u8; 3]) -> (modes: Vec<u8>)
        requires
            self.well_formed(),
        ensures
            modes@ == scan_modes(self) + mpm@,
    {
        let mut modes: Vec<u8> = Vec::new();
        modes.push(0);
        modes.push(1);
        assert(modes@ =~= seq![0u8, 1u8]);
        match self {
            RmdModeSet::MpmPlanarDcOnly => {},
            RmdModeSet::Step4 => {
                push_stepped(&mut modes, 4);
            },
            RmdModeSet::Step3 => {
                push_stepped(&mut modes, 3);
            },
            RmdModeSet::Step2 => {
                push_stepped(&mut modes, 2);
            },
            RmdModeSet::Dense => {
                push_stepped(&mut modes, 1);
            },
            RmdModeSet::Exhaustive => {
                modes.push(0);
                modes.push(1);
                push_stepped(&mut modes, 1);
                assert(modes@ =~= seq![0u8, 1u8] + Seq::new(35, |i: int| i as u8));
            },
            RmdModeSet::Progressive { coarse_step, top_regions, refine_radius } => {
                let mut coarse: Vec<u8> = Vec::new();
                push_stepped(&mut coarse, coarse_step);
                assert(coarse@ =~= stepped(coarse_step as int));
                let limit: usize = if top_regions < 3 {
                    top_regions as usize
                } else {
                    3
                };
                let mut kept: Vec<u8> = Vec::new();
                push_between(&mut kept, &coarse, 2, 9, limit);
                push_between(&mut kept, &coarse, 10, 25, limit);
                push_between(&mut kept, &coarse, 26, 34, limit);
                if kept.len() == 0 {
                    kept.push(coarse[0]);
                    if coarse.len() > 1 {
                        kept.push(coarse[1]);
                    }
                    assert(kept@ =~= coarse@.take(
                        crate::math::min_int(2, coarse@.len() as int),
                    ));
                }
                let ghost all_kept = kept_modes(coarse_step as int, top_regions as int);
                assert(kept@ == all_kept);
                extend_modes(&mut modes, &kept);
                if refine_radius > 0 {
                    let ghost base = modes@;
                    let n: usize = kept.len();
                    for i in 0..n
                        invariant
                            n == kept@.len(),
                            kept@ == all_kept,
                            refine_radius > 0,
                            forall|k: int|
                                0 <= k < all_kept.len() ==> #[trigger] all_kept[k] + refine_radius
                                    <= 255,
                            modes@ == join_refined(base, kept@, refine_radius, i as nat),
                    {
                        let m: u8 = kept[i];
                        assert(all_kept[i as int] + refine_radius <= 255);
                        let lo: u8 = if m > refine_radius && m - refine_radius > 2 {
                            m - refine_radius
                        } else {
                            2
                        };
                        let hi: u8 = if m + refine_radius < 34 {
                            m + refine_radius
                        } else {
                            34
                        };
                        let len: u8 = if hi < lo {
                            0
                        } else {
                            hi - lo + 1
                        };
                        assert(lo == refine_lo(m, refine_radius));
                        assert(len == refine_len(m, refine_radius));
                        push_joined(&mut modes, lo, len);
                    }
                }
            },
        }
        let ghost scanned = modes@;
        modes.push(mpm[0]);
        modes.push(mpm[1]);
        modes.push(mpm[2]);
        assert(modes@ =~= scanned + mpm@);
        modes
    }
}

fn extend_modes(modes: &mut Vec<u8>, more: &Vec<u8>)
    ensures
        final(modes)@ == old(modes)@ + more@,
{
    let n: usize = more.len();
    assert(modes@ =~= old(modes)@ + more@.take(0));
    for i in 0..n
        invariant
            n == more@.len(),
            modes@ == old(modes)@ + more@.take(i as int),
    {
        modes.push(more[i]);
        assert(modes@ =~= old(modes)@ + more@.take(i + 1));
    }
    assert(more@.take(n as int) =~= more@);
}

/// Every scan scores planar and DC first and the most probable modes last.
pub proof fn law_scan_has_base_modes(set: RmdModeSet)
    requires
        set.well_formed(),
    ensures
        scan_modes(set).len() >= 2,
        scan_modes(set)[0] == 0,
        scan_modes(set)[1] == 1,
{
    match set {
        RmdModeSet::Progressive { coarse_step, top_regions, refine_radius } => {
            let kept = kept_modes(coarse_step as int, top_regions as int);
            let base = seq![0u8, 1u8] + kept;
            let all = scan_modes(set);
            lemma_join_refined_prefix(base, kept, refine_radius, kept.len());
            assert(base[0] == 0 && base[1] == 1);
            assert(base.is_prefix_of(all));
            assert(all.take(base.len() as int) =~= base);
            assert(all[0] == all.take(base.len() as int)[0]);
            assert(all[1] == all.take(base.len() as int)[1]);
        },
        _ => {},
    }
}

pub proof fn lemma_join_range_prefix(modes: Seq<u8>, lo: int, n: nat)
    ensures
        modes.is_prefix_of(join_range(modes, lo, n)),
        modes.len() <= join_range(modes, lo, n).len(),
    decreases n,
{
    if n > 0 {
        lemma_join_range_prefix(modes, lo, (n - 1) as nat);
    }
}

pub proof fn lemma_join_refined_prefix(modes: Seq<u8>, kept: Seq<u8>, radius: u8, n: nat)
    requires
        n <= kept.len(),
    ensures
        modes.is_prefix_of(join_refined(modes, kept, radius, n)),
        modes.len() <= join_refined(modes, kept, radius, n).len(),
    decreases n,
{
    if n > 0 {
        let prev = join_refined(modes, kept, radius, (n - 1) as nat);
        lemma_join_refined_prefix(modes, kept, radius, (n - 1) as nat);
        lemma_join_range_prefix(
            prev,
            refine_lo(kept[n - 1], radius),
            refine_len(kept[n - 1], radius),
        );
    }
}

/// Whether leaf, split or both are tried, and in which order.
#[derive(Clone, Copy, Debug, PartialEq, Eq, Structural)]
pub enum SplitSearch {
    ForceLeaf,
    PreferLeaf,
    EvaluateBoth,
    PreferSplit,
    ForceSplit,
}

#[derive(Clone, Copy, Debug, PartialEq, Eq, Structural)]
pub enum ComponentKind {
    Luma,
    ChromaCb,
    ChromaCr,
}

impl ComponentKind {
    pub fn from_c_idx(c_idx: u8) -> (k: Self)
        ensures
            k == if c_idx == 0 {
                ComponentKind::Luma
            } else if c_idx == 1 {
                ComponentKind::ChromaCb
            } else {
                ComponentKind::ChromaCr
            },
    {
        match c_idx {
            0 => ComponentKind::Luma,
            1 => ComponentKind::ChromaCb,
            _ => ComponentKind::ChromaCr,
        }
    }
}

/// The direction of an angular mode.
#[derive(Clone, Copy, Debug, PartialEq, Eq, Structural)]
pub enum AngularFamily {
    Horizontal,
    Diagonal,
    Vertical,
}

impl AngularFamily {
    pub open spec fn of(mode: u8) -> Option<Self> {
        if 2 <= mode <= 9 {
            Some(AngularFamily::Horizontal)
        } else if 10 <= mode <= 25 {
            Some(AngularFamily::Diagonal)
        } else if 26 <= mode <= 34 {
            Some(AngularFamily::Vertical)
        } else {
            None
        }
    }

    /// The family of a mode, none for planar, DC and numbers that are no mode.
    pub fn classify(mode: u8) -> (f: Option<Self>)
        ensures
            f == Self::of(mode),
    {
        match mode {
            2..=9 => Some(AngularFamily::Horizontal),
            10..=25 => Some(AngularFamily::Diagonal),
            26..=34 => Some(AngularFamily::Vertical),
            _ => None,
        }
    }
}

#[derive(Clone, Copy, Debug, PartialEq, Eq, Structural)]
pub enum CuEarlyTerminateRule {
    Disabled,
    Balanced,
    Fast,
    Fastest,
}

/// Which trials run rate-distortion optimised quantisation.
#[derive(Clone, Copy, Debug, PartialEq, Eq, Structural)]
pub enum TrialRdoqMode {
    Off,
    ExactOnly,
    ExactCloseOnly,
    CheapCloseAndExact,
    PlaceboAllExact,
}

#[derive(Clone, Copy, Debug, PartialEq, Eq, Structural)]
pub struct RdoqTrialPolicy {
    pub mode: TrialRdoqMode,
    /// Candidates within this ratio of the best are tried again, in thousandths.
    pub close_margin_milli: u32,
    pub max_rdoq_modes: u8,
    pub level: u8,
}

#[derive(Clone, Copy, Debug, PartialEq, Eq, Structural)]
pub enum TuSplitMode {
    Disabled,
    LeafFirstEarlyTerminate,
    EvaluateBoth,
    ForceSplit,
}

#[derive(Clone, Copy, Debug, PartialEq, Eq, Structural)]
pub struct TuExactPolicy {
    pub split_mode: TuSplitMode,
    pub max_extra_depth: u8,
    pub min_split_log2: u8,
    pub leaf_first: bool,
    pub zero_residual_early_terminate: bool,
    pub low_residual_early_terminate: bool,
    pub low_residual_bits_per_px_milli: u32,
    pub low_distortion_per_px_milli: u32,
    pub rdoq_split_trials: bool,
}

#[derive(Clone, Copy, Debug, PartialEq, Eq, Structural)]
pub enum SearchLevel {
    Rough,
    Cheap,
    Exact,
    Final,
}

#[derive(Clone, Copy, Debug, PartialEq, Eq, Structural)]
pub enum ComponentScope {
    LumaOnly,
    FullComponents,
}

#[derive(Clone, Copy, Debug, PartialEq, Eq, Structural)]
pub enum TrialQuant {
    HardQuant,
    Rdoq,
}

#[derive(Clone, Copy, Debug, PartialEq, Eq, Structural)]
pub enum ResidualPriceLevel {
    Unpriced,
    Approx,
    Exact,
}

#[derive(Clone, Copy, Debug, PartialEq, Eq, Structural)]
pub enum ChromaTiming {
    Never,
    WinnerOnly,
    DuringExactTrials,
}

/// How modes are scored in the rough pass.
#[derive(Clone, Copy, Debug, PartialEq, Eq, Structural)]
pub struct RoughLumaPolicy {
    pub mode_set: RmdModeSet,
    pub score_all_modes: bool,
    pub use_mode_bits: bool,
    pub angular_family_detection: bool,
}

#[derive(Clone, Copy, Debug, PartialEq, Eq, Structural)]
pub enum ModeClass {
    Planar,
    Dc,
    Angular,
}

/// The cheap luma trials.
#[derive(Clone, Copy, Debug, PartialEq, Eq, Structural)]
pub struct CheapLumaPolicy {
    pub enabled: bool,
    pub max_ranked_modes: u8,
    pub scope: ComponentScope,
    pub allow_optional_tu_split: bool,
    pub residual_price: ResidualPriceLevel,
    pub quant: TrialQuant,
    pub chroma_satd_in_cheap: bool,
}

/// Whether the exact pass runs behind the cheap one.
#[derive(Clone, Copy, Debug, PartialEq, Eq, Structural)]
pub enum ExactUsage {
    Disabled,
    PromotedModes,
    AllShortlist,
    X265Shape,
}

/// Which modes the exact pass takes.
#[derive(Clone, Copy, Debug, PartialEq, Eq, Structural)]
pub struct ExactPromotionPolicy {
    pub max_exact_modes: u8,
    pub include_cheap_winner: bool,
    pub include_best_rough_angular_if_pd_wins_cheap: bool,
    pub include_best_rough_pd_if_angular_wins_cheap: bool,
    pub cheap_close_margin_milli: u32,
}

impl ExactPromotionPolicy {
    pub open spec fn everything() -> Self {
        ExactPromotionPolicy {
            max_exact_modes: 255,
            include_cheap_winner: false,
            include_best_rough_angular_if_pd_wins_cheap: false,
            include_best_rough_pd_if_angular_wins_cheap: false,
            cheap_close_margin_milli: 1000,
        }
    }

    /// Every mode of the shortlist.
    pub fn all_shortlist() -> (p: Self)
        ensures
            p == Self::everything(),
    {
        ExactPromotionPolicy {
            max_exact_modes: 255,
            include_cheap_winner: false,
            include_best_rough_angular_if_pd_wins_cheap: false,
            include_best_rough_pd_if_angular_wins_cheap: false,
            cheap_close_margin_milli: 1000,
        }
    }
}

#[derive(Clone, Copy, Debug, PartialEq, Eq, Structural)]
pub struct ExactLumaPolicy {
    pub max_modes: u8,
    pub scope: ComponentScope,
    pub residual_price: ResidualPriceLevel,
    pub quant: TrialQuant,
    pub promote: ExactPromotionPolicy,
    pub exact_usage: ExactUsage,
}

/// The final coding of the winner.
#[derive(Clone, Copy, Debug, PartialEq, Eq, Structural)]
pub struct FinalSearchPolicy {
    pub quant: TrialQuant,
    pub residual_price: ResidualPriceLevel,
    pub rdoq_final: bool,
    pub sign_data_hiding: bool,
}

/// What the shortlist takes from the rough pass.
#[derive(Clone, Copy, Debug, PartialEq, Eq, Structural)]
pub struct LumaShortlistPolicy {
    pub max_modes: u8,
    pub include_best_global: bool,
    pub include_best_planar_dc: bool,
    pub include_best_angular: bool,
    pub include_mpm: bool,
    pub angular_family_slots: u8,
    pub angular_neighbor_radius: u8,
}

#[derive(Clone, Copy, Debug, PartialEq, Eq, Structural)]
pub struct LumaSearchPolicy {
    pub rough: RoughLumaPolicy,
    pub shortlist: LumaShortlistPolicy,
    pub cheap: CheapLumaPolicy,
    pub exact: ExactLumaPolicy,
}

#[derive(Clone, Copy, Debug, PartialEq, Eq, Structural)]
pub struct TuSearchPolicy {
    pub min_split_log2: u8,
    pub leaf_first: bool,
    pub split_search: SplitSearch,
    pub zero_residual_early_terminate: bool,
    pub low_residual_early_terminate: bool,
    pub low_residual_bits_per_px_milli: u32,
    pub low_distortion_per_px_milli: u32,
}

#[derive(Clone, Copy, Debug, PartialEq, Eq, Structural)]
pub struct CuSearchPolicy {
    pub split_search: SplitSearch,
    pub early_terminate: CuEarlyTerminateRule,
    pub use_preanalysis_force_leaf: bool,
    pub use_preanalysis_force_split: bool,
    /// Blocks of this size are split without trying a leaf.
    pub force_split_log2: Option<u8>,
    pub leaf_first: bool,
    /// A leaf cheaper than this per pixel ends the descent at 16x16 and 32x32; 0 never
    /// does.
    pub descent_gate_t16_milli: u32,
    pub descent_gate_t32_milli: u32,
}

#[derive(Clone, Copy, Debug, PartialEq, Eq, Structural)]
pub struct NxnSearchPolicy {
    pub enabled: bool,
    pub rough_gate_enabled: bool,
    pub rough_satd_threshold_milli: u32,
    pub require_directional_or_texture: bool,
    pub exact_eval: bool,
}

#[derive(Clone, Copy, Debug, PartialEq, Eq, Structural)]
pub struct ChromaSearchPolicy {
    pub timing: ChromaTiming,
    pub max_candidates: u8,
    pub residual_price: ResidualPriceLevel,
    pub quant: TrialQuant,
    pub rough_k: u8,
    pub skip_satd_per_sample_milli: u32,
}

#[derive(Clone, Copy, Debug, PartialEq, Eq, Structural)]
pub struct PreanalysisTemplate {
    pub class_steering: bool,
    pub allow_candidate_expansion: bool,
    pub importance_rmd_prune_factor_milli: Option<u32>,
    pub importance_force_leaf: bool,
}

impl PreanalysisTemplate {
    pub open spec fn disabled() -> Self {
        PreanalysisTemplate {
            class_steering: false,
            allow_candidate_expansion: false,
            importance_rmd_prune_factor_milli: None,
            importance_force_leaf: false,
        }
    }

    /// No steering at all.
    pub fn oracle_disabled() -> (p: Self)
        ensures
            p == Self::disabled(),
    {
        PreanalysisTemplate {
            class_steering: false,
            allow_candidate_expansion: false,
            importance_rmd_prune_factor_milli: None,
            importance_force_leaf: false,
        }
    }
}

/// A preset.
#[derive(Clone, Copy, Debug, PartialEq, Eq, Structural)]
pub struct EffortTemplate {
    pub name: Effort,
    pub oracle: bool,
    pub entropy_context: EntropyContextMode,
    pub parallel_analysis: bool,
    pub luma: LumaSearchPolicy,
    pub tu: TuSearchPolicy,
    pub tu_exact: TuExactPolicy,
    pub cu: CuSearchPolicy,
    pub nxn: NxnSearchPolicy,
    pub chroma: ChromaSearchPolicy,
    pub final_pass: FinalSearchPolicy,
    pub rdoq_trials: RdoqTrialPolicy,
    pub preanalysis: PreanalysisTemplate,
}

/// Quality of a trial.
#[derive(Clone, Copy, Debug, PartialEq, Eq, Structural)]
pub enum TrialQuality {
    Rough,
    FastRd,
    FullRd,
    Final,
}

} // verus!
