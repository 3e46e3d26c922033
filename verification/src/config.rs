//! What an encode is asked to do.

use vstd::prelude::*;

verus! {

/// Chroma sampling of a picture.
#[derive(Clone, Copy, Debug, PartialEq, Eq, Structural)]
pub enum ChromaFormat {
    Gray,
    Yuv420,
    Yuv422,
    Yuv444,
}

/// How much search an encode spends.
#[derive(Clone, Copy, Debug, PartialEq, Eq, Structural)]
pub enum Effort {
    Fast,
    Slow,
    Placebo,
}

#[derive(Clone, Copy, Debug, PartialEq, Eq, Structural)]
pub enum SaoMode {
    Off,
    On,
}

#[derive(Clone, Copy, Debug, PartialEq, Eq, Structural)]
pub enum DeblockMode {
    Off,
    On,
}

/// Adaptive quantisation strategy.
#[derive(Clone, Copy, Debug, PartialEq, Eq, Structural)]
pub enum AqMode {
    Off,
    TwoPassMeasured,
}

/// Parameters of one still-image encode.
#[derive(Clone, Copy, Debug, PartialEq, Eq, Structural)]
pub struct StillHevcConfig {
    pub width: u32,
    pub height: u32,
    pub bit_depth: u8,
    pub chroma: ChromaFormat,
    pub qp: u8,
    pub effort: Effort,
    pub sao: SaoMode,
    pub deblock: DeblockMode,
    pub adaptive_qp: bool,
    pub aq_mode: AqMode,
    /// Strength of the adaptive quantisation, in thousandths.
    pub aq_strength_milli: u32,
    pub aq_clamp: u8,
    pub two_pass_gate: bool,
}

} // verus!
