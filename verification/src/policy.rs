//! How a transform block is evaluated.
//!
//! Obvious candidates are tried cheaply, close decisions are made on exact trials, and
//! the chosen path is coded once.

use vstd::prelude::*;

use crate::budget::BlockSearchBudget;
use crate::effort::TrialQuality;

verus! {

#[derive(Clone, Copy, Debug, PartialEq, Eq, Structural)]
pub enum EvalKind {
    /// Plain quantisation and approximate residual bits; the reconstruction is kept out
    /// of the frame.
    CheapTrial,
    /// Optimised quantisation and exact residual bits; the reconstruction is kept out of
    /// the frame.
    ExactTrial,
    /// As an exact trial, and the reconstruction goes into the frame.
    Final,
}

#[derive(Clone, Copy, Debug, PartialEq, Eq, Structural)]
pub enum RdoqPolicy {
    Off,
    FullSingleScan,
}

#[derive(Clone, Copy, Debug, PartialEq, Eq, Structural)]
pub enum ResidualBitPolicy {
    Approx,
    Exact,
}

/// Where the work of an evaluation is booked.
#[derive(Clone, Copy, Debug, PartialEq, Eq, Structural)]
pub enum WorkBucket {
    RoughLumaAllAngles,
    RoughChroma,
    LumaCandidateCheap,
    LumaCandidateExact,
    ChromaCheap,
    ChromaExact,
    TtLeafCheap,
    TtLeafExact,
    NxnPuCheap,
    NxnPuExact,
    FinalReplay,
}

#[derive(Clone, Copy, Debug, PartialEq, Eq, Structural)]
pub struct EvalPolicy {
    pub rdoq: RdoqPolicy,
    pub bits: ResidualBitPolicy,
    /// The reconstruction is written for later blocks to predict from.
    pub commit: bool,
    pub work_bucket: Option<WorkBucket>,
}

impl EvalPolicy {
    /// The policy of a kind.
    pub open spec fn of_kind(kind: EvalKind) -> Self {
        EvalPolicy {
            rdoq: if kind == EvalKind::CheapTrial {
                RdoqPolicy::Off
            } else {
                RdoqPolicy::FullSingleScan
            },
            bits: if kind == EvalKind::CheapTrial {
                ResidualBitPolicy::Approx
            } else {
                ResidualBitPolicy::Exact
            },
            commit: kind == EvalKind::Final,
            work_bucket: if kind == EvalKind::Final {
                Some(WorkBucket::FinalReplay)
            } else {
                None
            },
        }
    }

    pub fn for_kind(kind: EvalKind) -> (p: Self)
        ensures
            p == Self::of_kind(kind),
    {
        match kind {
            EvalKind::CheapTrial => EvalPolicy {
                rdoq: RdoqPolicy::Off,
                bits: ResidualBitPolicy::Approx,
                commit: false,
                work_bucket: None,
            },
            EvalKind::ExactTrial => EvalPolicy {
                rdoq: RdoqPolicy::FullSingleScan,
                bits: ResidualBitPolicy::Exact,
                commit: false,
                work_bucket: None,
            },
            EvalKind::Final => EvalPolicy {
                rdoq: RdoqPolicy::FullSingleScan,
                bits: ResidualBitPolicy::Exact,
                commit: true,
                work_bucket: Some(WorkBucket::FinalReplay),
            },
        }
    }

    pub fn with_bucket(self, bucket: WorkBucket) -> (p: Self)
        ensures
            p == (EvalPolicy { work_bucket: Some(bucket), ..self }),
    {
        EvalPolicy {
            rdoq: self.rdoq,
            bits: self.bits,
            commit: self.commit,
            work_bucket: Some(bucket),
        }
    }

    /// Where the work of an evaluation is booked, also where it names no bucket.
    pub open spec fn booked(self) -> WorkBucket {
        match self.work_bucket {
            Some(bucket) => bucket,
            None => if self.commit {
                WorkBucket::FinalReplay
            } else if self.rdoq == RdoqPolicy::Off {
                WorkBucket::TtLeafCheap
            } else {
                WorkBucket::TtLeafExact
            },
        }
    }

    pub fn bucket(self) -> (b: WorkBucket)
        ensures
            b == self.booked(),
    {
        match self.work_bucket {
            Some(bucket) => bucket,
            None => match (self.commit, self.rdoq) {
                (true, _) => WorkBucket::FinalReplay,
                (false, RdoqPolicy::Off) => WorkBucket::TtLeafCheap,
                (false, RdoqPolicy::FullSingleScan) => WorkBucket::TtLeafExact,
            },
        }
    }

    /// Whether the levels of an evaluation are handed out with its result. Those of
    /// optimised trials and of cheap trials stay in scratch memory.
    pub open spec fn hands_out(self) -> bool {
        self.commit || (self.rdoq == RdoqPolicy::Off && self.bits == ResidualBitPolicy::Exact)
    }

    pub fn keeps_levels(self) -> (r: bool)
        ensures
            r == self.hands_out(),
    {
        match self.rdoq {
            RdoqPolicy::Off => !(!self.commit && self.bits == ResidualBitPolicy::Approx),
            RdoqPolicy::FullSingleScan => self.commit,
        }
    }
}

/// What a block is coded for.
#[derive(Clone, Copy, Debug, PartialEq, Eq, Structural)]
pub enum WorkStage {
    LumaTrial,
    ChromaTrial,
    TuDecision,
    FinalCode,
}

/// Whether a block's quantisation is optimised: always in final coding, and in trials of
/// final quality.
pub open spec fn block_optimised(
    stage: WorkStage,
    quality: TrialQuality,
    budget: &BlockSearchBudget,
) -> bool {
    stage == WorkStage::FinalCode || quality == TrialQuality::Final || (quality
        == TrialQuality::FullRd && budget.rdoq_for_trials)
}

pub fn rdoq_enabled_for_block(
    stage: WorkStage,
    quality: TrialQuality,
    budget: &BlockSearchBudget,
) -> (r: bool)
    ensures
        r == block_optimised(stage, quality, budget),
{
    match stage {
        WorkStage::FinalCode => true,
        _ => match quality {
            TrialQuality::Rough | TrialQuality::FastRd => false,
            TrialQuality::FullRd => budget.rdoq_for_trials,
            TrialQuality::Final => true,
        },
    }
}

/// Whether a block's residual bits are counted exactly.
pub open spec fn block_counted(
    stage: WorkStage,
    quality: TrialQuality,
    budget: &BlockSearchBudget,
) -> bool {
    stage == WorkStage::FinalCode || quality == TrialQuality::FullRd || (quality
        == TrialQuality::Final && budget.exact_residual_bits_for_trials)
}

pub fn exact_residual_bits_for_block(
    stage: WorkStage,
    quality: TrialQuality,
    budget: &BlockSearchBudget,
) -> (r: bool)
    ensures
        r == block_counted(stage, quality, budget),
{
    match stage {
        WorkStage::FinalCode => true,
        _ => match quality {
            TrialQuality::Rough | TrialQuality::FastRd => false,
            TrialQuality::FullRd => true,
            TrialQuality::Final => budget.exact_residual_bits_for_trials,
        },
    }
}

/// Trials whose quantisation is left plain to save time.
#[derive(Clone, Copy, Debug, PartialEq, Eq, Structural)]
pub enum TrialRdoqGate {
    Off,
    Chroma,
    Luma32,
    Large,
    SmallLuma,
}

/// Switches of the staged search, for trials alone.
#[derive(Clone, Copy, Debug, PartialEq, Eq, Structural)]
pub struct TrialGates {
    /// Every trial is cheap.
    pub cheap: bool,
    /// Every trial follows its quality.
    pub exact: bool,
    pub rdoq: TrialRdoqGate,
    /// Residual bits are approximate.
    pub approx_bits: bool,
}

impl TrialGates {
    /// Whether the switches let a block's trial be optimised.
    pub open spec fn allow_rdoq(self, c_idx: u8, log2_size: u8) -> bool {
        !self.cheap && (self.exact || match self.rdoq {
            TrialRdoqGate::Off => true,
            TrialRdoqGate::Chroma => c_idx == 0,
            TrialRdoqGate::Luma32 => c_idx != 0 || log2_size < 5,
            TrialRdoqGate::Large => c_idx != 0 || log2_size <= 3,
            TrialRdoqGate::SmallLuma => c_idx == 0 && log2_size <= 3,
        })
    }

    /// The restriction to small luma stands in for the quality of a trial.
    pub open spec fn overrides_quality(self) -> bool {
        !self.cheap && !self.exact && self.rdoq == TrialRdoqGate::SmallLuma
    }

    /// Whether a block's quantisation is optimised under the switches.
    pub open spec fn optimises(
        self,
        stage: WorkStage,
        quality: TrialQuality,
        budget: &BlockSearchBudget,
        c_idx: u8,
        log2_size: u8,
    ) -> bool {
        let full = quality == TrialQuality::Final || (quality == TrialQuality::FullRd
            && budget.rdoq_for_trials);
        stage == WorkStage::FinalCode || (self.allow_rdoq(c_idx, log2_size) && (full
            || self.overrides_quality()))
    }

    /// Whether a block's residual bits are exact under the switches.
    pub open spec fn prices_exactly(
        self,
        stage: WorkStage,
        quality: TrialQuality,
        budget: &BlockSearchBudget,
    ) -> bool {
        let full = quality == TrialQuality::FullRd || (quality == TrialQuality::Final
            && budget.exact_residual_bits_for_trials);
        let plain = (quality == TrialQuality::FullRd || quality == TrialQuality::Final)
            && budget.exact_residual_bits_for_trials;
        stage == WorkStage::FinalCode || (!self.cheap && if self.exact {
            full
        } else {
            plain && !self.approx_bits
        })
    }

    /// Whether a block's quantisation is optimised under the switches, and whether the
    /// cheap switch saved that.
    pub fn rdoq_enabled(
        self,
        stage: WorkStage,
        quality: TrialQuality,
        budget: &BlockSearchBudget,
        c_idx: u8,
        log2_size: u8,
    ) -> (r: (bool, bool))
        ensures
            r.0 == self.optimises(stage, quality, budget, c_idx, log2_size),
            r.1 == (stage != WorkStage::FinalCode && self.cheap && (quality == TrialQuality::Final
                || (quality == TrialQuality::FullRd && budget.rdoq_for_trials))),
    {
        let full = rdoq_enabled_for_block(stage, quality, budget);
        if stage == WorkStage::FinalCode {
            return (full, false);
        }
        if self.cheap {
            return (false, full);
        }
        if self.exact {
            return (full, false);
        }
        match self.rdoq {
            TrialRdoqGate::Off => {},
            TrialRdoqGate::Chroma => {
                if c_idx != 0 {
                    return (false, false);
                }
            },
            TrialRdoqGate::Luma32 => {
                if c_idx == 0 && log2_size >= 5 {
                    return (false, false);
                }
            },
            TrialRdoqGate::Large => {
                if c_idx == 0 && log2_size > 3 {
                    return (false, false);
                }
            },
            TrialRdoqGate::SmallLuma => {
                return (c_idx == 0 && log2_size <= 3, false);
            },
        }
        (full, false)
    }

    /// Whether a block's residual bits are exact under the switches, and whether the
    /// cheap switch saved that.
    pub fn exact_bits(
        self,
        stage: WorkStage,
        quality: TrialQuality,
        budget: &BlockSearchBudget,
    ) -> (r: (bool, bool))
        ensures
            r.0 == self.prices_exactly(stage, quality, budget),
            r.1 == (stage != WorkStage::FinalCode && self.cheap && (quality == TrialQuality::FullRd
                || (quality == TrialQuality::Final && budget.exact_residual_bits_for_trials))),
    {
        let full = exact_residual_bits_for_block(stage, quality, budget);
        if stage == WorkStage::FinalCode {
            return (full, false);
        }
        if self.cheap {
            return (false, full);
        }
        if self.exact {
            return (full, false);
        }
        if self.approx_bits {
            return (false, false);
        }
        match quality {
            TrialQuality::Rough | TrialQuality::FastRd => (false, false),
            TrialQuality::FullRd | TrialQuality::Final => (
                budget.exact_residual_bits_for_trials,
                false,
            ),
        }
    }
}

pub open spec fn luma_quality(
    forced: Option<TrialQuality>,
    fast_luma: bool,
    budget: &BlockSearchBudget,
) -> TrialQuality {
    match forced {
        Some(q) => q,
        None => if fast_luma {
            TrialQuality::FastRd
        } else {
            budget.luma_trial_quality
        },
    }
}

/// The quality of luma trials: one that a recheck forces comes first, then the switch
/// for fast trials, then the budget.
pub fn luma_trial_quality(
    forced: Option<TrialQuality>,
    fast_luma: bool,
    budget: &BlockSearchBudget,
) -> (q: TrialQuality)
    ensures
        q == luma_quality(forced, fast_luma, budget),
{
    if let Some(quality) = forced {
        quality
    } else if fast_luma {
        TrialQuality::FastRd
    } else {
        budget.luma_trial_quality
    }
}

/// The quality of a component's trials.
pub fn effective_trial_quality(
    c_idx: u8,
    forced: Option<TrialQuality>,
    fast_luma: bool,
    budget: &BlockSearchBudget,
) -> (q: TrialQuality)
    ensures
        q == if c_idx == 0 {
            luma_quality(forced, fast_luma, budget)
        } else {
            budget.chroma_trial_quality
        },
{
    match c_idx {
        0 => luma_trial_quality(forced, fast_luma, budget),
        _ => budget.chroma_trial_quality,
    }
}

} // verus!
