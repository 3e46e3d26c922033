//! The still-picture encoder's settings, and what it accepts.

use vstd::prelude::*;

use crate::config::{AqMode, ChromaFormat, DeblockMode, Effort, SaoMode, StillHevcConfig};
use crate::frame::Frame;
use crate::source::Source;
use crate::stats::{EncodeStats, LastEncodeStats};

verus! {

/// What a picture container asks of an encode.
#[derive(Clone, Copy, Debug, PartialEq, Eq, Structural)]
pub struct HevcEncodeParams {
    pub width: u32,
    pub height: u32,
    pub bit_depth: u8,
    pub chroma_format: ChromaFormat,
    pub qp: u8,
}

/// A picture: luma, and two planes of chroma where its format has any.
pub struct Image {
    pub planes: Vec<Vec<u16>>,
}

impl Image {
    /// The samples of a plane, none where it is missing.
    pub open spec fn samples(&self, c_idx: int) -> Seq<u16> {
        if c_idx < self.planes@.len() {
            self.planes@[c_idx]@
        } else {
            Seq::empty()
        }
    }

    /// A source that holds the planes.
    pub open spec fn is_source(&self, src: Source) -> bool {
        &&& src.y@ == self.samples(0)
        &&& src.cb@ == self.samples(1)
        &&& src.cr@ == self.samples(2)
    }

    fn plane(&self, c_idx: usize) -> (samples: &[u16])
        requires
            self.planes@.len() > 0,
        ensures
            samples@ == self.samples(c_idx as int),
    {
        if c_idx < self.planes.len() {
            self.planes[c_idx].as_slice()
        } else {
            vstd::slice::slice_subrange(self.planes[0].as_slice(), 0, 0)
        }
    }

    /// The planes as a source.
    pub fn source(&self) -> (src: Source<'_>)
        requires
            self.planes@.len() > 0,
        ensures
            self.is_source(src),
    {
        Source { y: self.plane(0), cb: self.plane(1), cr: self.plane(2) }
    }
}

/// Why an encode is refused.
#[derive(Clone, Copy, Debug, PartialEq, Eq, Structural)]
pub enum EncodeError {
    UnsupportedChroma,
    UnsupportedBitDepth,
}

impl EncodeError {
    pub open spec fn text(self) -> Seq<char> {
        match self {
            EncodeError::UnsupportedChroma => "still265 backend supports only 4:2:0/4:4:4 chroma"@,
            EncodeError::UnsupportedBitDepth => "still265 backend supports only 8/10/12-bit"@,
        }
    }

    pub fn message(self) -> (s: &'static str)
        ensures
            s@ == self.text(),
    {
        match self {
            EncodeError::UnsupportedChroma => "still265 backend supports only 4:2:0/4:4:4 chroma",
            EncodeError::UnsupportedBitDepth => "still265 backend supports only 8/10/12-bit",
        }
    }
}

/// What an encoder can code.
#[derive(Clone, Copy, Debug)]
pub struct HevcBackendCaps {
    pub bit_depths: [u8; 3],
    pub chroma_formats: [ChromaFormat; 4],
    pub supports_sao: bool,
    pub supports_deblock: bool,
    pub supports_lossless: bool,
    pub supports_alpha: bool,
}

impl HevcBackendCaps {
    pub fn supports_bit_depth(&self, bit_depth: u8) -> (r: bool)
        ensures
            r == self.bit_depths@.contains(bit_depth),
    {
        for i in 0..3usize
            invariant
                forall|k: int| 0 <= k < i ==> #[trigger] self.bit_depths@[k] != bit_depth,
        {
            if self.bit_depths[i] == bit_depth {
                assert(self.bit_depths@[i as int] == bit_depth);
                return true;
            }
        }
        false
    }

    pub fn supports_chroma_format(&self, format: ChromaFormat) -> (r: bool)
        ensures
            r == self.chroma_formats@.contains(format),
    {
        for i in 0..4usize
            invariant
                forall|k: int| 0 <= k < i ==> #[trigger] self.chroma_formats@[k] != format,
        {
            if self.chroma_formats[i] == format {
                assert(self.chroma_formats@[i as int] == format);
                return true;
            }
        }
        false
    }
}

/// The bit depths that can be coded.
pub open spec fn bit_depth_coded(bit_depth: u8) -> bool {
    bit_depth == 8 || bit_depth == 10 || bit_depth == 12
}

pub fn supports_bit_depth(bit_depth: u8) -> (r: bool)
    ensures
        r == bit_depth_coded(bit_depth),
{
    bit_depth == 8 || bit_depth == 10 || bit_depth == 12
}

/// The encoder's settings, and what it keeps of its last encode.
pub struct RustStillHevcEncoder {
    pub effort: Effort,
    pub debug_stats: bool,
    pub sao: SaoMode,
    pub deblock: DeblockMode,
    pub adaptive_qp: bool,
    pub aq_mode: AqMode,
    /// In thousandths.
    pub aq_strength_milli: u32,
    pub aq_clamp: u8,
    pub two_pass_gate: bool,
    pub last_stats: Option<LastEncodeStats>,
    pub last_recon: Option<Frame>,
}

impl RustStillHevcEncoder {
    /// Deblocking and the comparison of two passes on, all else off.
    pub fn new(effort: Effort) -> (e: Self)
        ensures
            e == (RustStillHevcEncoder {
                effort,
                debug_stats: false,
                sao: SaoMode::Off,
                deblock: DeblockMode::On,
                adaptive_qp: false,
                aq_mode: AqMode::Off,
                aq_strength_milli: 350,
                aq_clamp: 2,
                two_pass_gate: true,
                last_stats: None,
                last_recon: None,
            }),
    {
        RustStillHevcEncoder {
            effort,
            debug_stats: false,
            sao: SaoMode::Off,
            deblock: DeblockMode::On,
            adaptive_qp: false,
            aq_mode: AqMode::Off,
            aq_strength_milli: 350,
            aq_clamp: 2,
            two_pass_gate: true,
            last_stats: None,
            last_recon: None,
        }
    }

    /// Per-unit adaptive quantisation on the production tiers.
    pub fn with_adaptive_qp(self, adaptive_qp: bool) -> (e: Self)
        ensures
            e == (RustStillHevcEncoder { adaptive_qp, ..self }),
    {
        let mut e = self;
        e.adaptive_qp = adaptive_qp;
        e
    }

    /// Selects the adaptive quantisation strategy, its strength and its clamp.
    pub fn with_aq(self, mode: AqMode, strength_milli: u32, clamp: u8) -> (e: Self)
        ensures
            e == (RustStillHevcEncoder {
                aq_mode: mode,
                aq_strength_milli: strength_milli,
                aq_clamp: clamp,
                ..self
            }),
    {
        let mut e = self;
        e.aq_mode = mode;
        e.aq_strength_milli = strength_milli;
        e.aq_clamp = clamp;
        e
    }

    /// Whether two-pass encoding keeps its adaptive candidate only where that wins.
    pub fn with_two_pass_gate(self, enabled: bool) -> (e: Self)
        ensures
            e == (RustStillHevcEncoder { two_pass_gate: enabled, ..self }),
    {
        let mut e = self;
        e.two_pass_gate = enabled;
        e
    }

    pub fn with_debug_stats(self, debug_stats: bool) -> (e: Self)
        ensures
            e == (RustStillHevcEncoder { debug_stats, ..self }),
    {
        let mut e = self;
        e.debug_stats = debug_stats;
        e
    }

    pub fn with_sao(self, sao: SaoMode) -> (e: Self)
        ensures
            e == (RustStillHevcEncoder { sao, ..self }),
    {
        let mut e = self;
        e.sao = sao;
        e
    }

    pub fn with_deblock(self, deblock: DeblockMode) -> (e: Self)
        ensures
            e == (RustStillHevcEncoder { deblock, ..self }),
    {
        let mut e = self;
        e.deblock = deblock;
        e
    }

    /// Three bit depths, every chroma format, both filters; neither lossless coding nor
    /// alpha.
    pub fn caps(&self) -> (c: HevcBackendCaps)
        ensures
            c.bit_depths@ == seq![8u8, 10, 12],
            c.chroma_formats@ == seq![
                ChromaFormat::Gray,
                ChromaFormat::Yuv420,
                ChromaFormat::Yuv422,
                ChromaFormat::Yuv444,
            ],
            c.supports_sao,
            c.supports_deblock,
            !c.supports_lossless,
            !c.supports_alpha,
            forall|b: u8| #[trigger] c.bit_depths@.contains(b) == bit_depth_coded(b),
            forall|f: ChromaFormat| #[trigger] c.chroma_formats@.contains(f),
    {
        let c = HevcBackendCaps {
            bit_depths: [8, 10, 12],
            chroma_formats: [
                ChromaFormat::Gray,
                ChromaFormat::Yuv420,
                ChromaFormat::Yuv422,
                ChromaFormat::Yuv444,
            ],
            supports_sao: true,
            supports_deblock: true,
            supports_lossless: false,
            supports_alpha: false,
        };
        proof {
            assert(c.bit_depths@ =~= seq![8u8, 10, 12]);
            assert forall|b: u8| #[trigger] c.bit_depths@.contains(b) == bit_depth_coded(b) by {
                assert(c.bit_depths@[0] == 8 && c.bit_depths@[1] == 10 && c.bit_depths@[2] == 12);
            }
            assert forall|f: ChromaFormat| #[trigger] c.chroma_formats@.contains(f) by {
                let s = c.chroma_formats@;
                match f {
                    ChromaFormat::Gray => assert(s[0] == f),
                    ChromaFormat::Yuv420 => assert(s[1] == f),
                    ChromaFormat::Yuv422 => assert(s[2] == f),
                    ChromaFormat::Yuv444 => assert(s[3] == f),
                }
            }
        }
        c
    }

    /// The configuration of an encode with these settings.
    pub open spec fn config_of(&self, params: HevcEncodeParams) -> StillHevcConfig {
        StillHevcConfig {
            width: params.width,
            height: params.height,
            bit_depth: params.bit_depth,
            chroma: params.chroma_format,
            qp: params.qp,
            effort: self.effort,
            sao: self.sao,
            deblock: self.deblock,
            adaptive_qp: self.adaptive_qp,
            aq_mode: self.aq_mode,
            aq_strength_milli: self.aq_strength_milli,
            aq_clamp: self.aq_clamp,
            two_pass_gate: self.two_pass_gate,
        }
    }

    /// The configuration of an encode, or why it is refused.
    pub fn still_config(&self, params: HevcEncodeParams) -> (r: Result<StillHevcConfig, EncodeError>)
        ensures
            r == if bit_depth_coded(params.bit_depth) {
                Ok::<StillHevcConfig, EncodeError>(self.config_of(params))
            } else {
                Err::<StillHevcConfig, EncodeError>(EncodeError::UnsupportedBitDepth)
            },
    {
        let caps = self.caps();
        if !caps.supports_chroma_format(params.chroma_format) {
            return Err(EncodeError::UnsupportedChroma);
        }
        if !caps.supports_bit_depth(params.bit_depth) {
            return Err(EncodeError::UnsupportedBitDepth);
        }
        Ok(
            StillHevcConfig {
                width: params.width,
                height: params.height,
                bit_depth: params.bit_depth,
                chroma: params.chroma_format,
                qp: params.qp,
                effort: self.effort,
                sao: self.sao,
                deblock: self.deblock,
                adaptive_qp: self.adaptive_qp,
                aq_mode: self.aq_mode,
                aq_strength_milli: self.aq_strength_milli,
                aq_clamp: self.aq_clamp,
                two_pass_gate: self.two_pass_gate,
            },
        )
    }

    /// Encodes a picture: refuses what cannot be coded, and keeps the counters and the
    /// reconstruction of what was.
    pub fn encode_still<'a, E>(
        &mut self,
        image: &'a Image,
        params: HevcEncodeParams,
        encode: &E,
    ) -> (r: Result<Vec<u8>, EncodeError>) where
        E: Fn(StillHevcConfig, Source<'a>) -> (Vec<u8>, Frame, EncodeStats),

        requires
            bit_depth_coded(params.bit_depth) ==> {
                &&& image.planes@.len() > 0
                &&& forall|src: Source<'a>|
                    image.is_source(src) ==> #[trigger] call_requires(
                        *encode,
                        (old(self).config_of(params), src),
                    )
            },
        ensures
            !bit_depth_coded(params.bit_depth) ==> {
                &&& r == Err::<Vec<u8>, EncodeError>(EncodeError::UnsupportedBitDepth)
                &&& *final(self) == *old(self)
            },
            bit_depth_coded(params.bit_depth) ==> {
                &&& r matches Ok(bytes)
                &&& final(self).last_stats matches Some(last)
                &&& final(self).last_recon matches Some(recon)
                &&& last.annexb_bytes == bytes@.len()
                &&& exists|src: Source<'a>| #[trigger]
                    image.is_source(src) && call_ensures(
                        *encode,
                        (old(self).config_of(params), src),
                        (bytes, recon, last.stats),
                    )
                &&& *final(self) == (RustStillHevcEncoder {
                    last_stats: Some(last),
                    last_recon: Some(recon),
                    ..*old(self)
                })
            },
    {
        let config = match self.still_config(params) {
            Ok(config) => config,
            Err(e) => {
                return Err(e);
            },
        };
        let src = image.source();
        let (bytes, recon, stats) = (*encode)(config, src);
        self.last_stats = Some(LastEncodeStats { annexb_bytes: bytes.len(), stats });
        self.last_recon = Some(recon);
        Ok(bytes)
    }

    /// The counters of the most recent encode.
    pub fn last_encode_stats(&self) -> (s: Option<LastEncodeStats>)
        ensures
            s == self.last_stats,
    {
        self.last_stats
    }

    /// The reconstruction of the most recent encode.
    pub fn last_reconstruction(&self) -> (f: Option<&Frame>)
        ensures
            f == match self.last_recon {
                Some(ref frame) => Some(frame),
                None => None,
            },
    {
        match &self.last_recon {
            Some(frame) => Some(frame),
            None => None,
        }
    }
}

impl Default for RustStillHevcEncoder {
    /// The production preset.
    fn default() -> (e: Self)
        ensures
            e.effort == Effort::Slow,
            e.deblock == DeblockMode::On,
            e.sao == SaoMode::Off,
            !e.debug_stats && !e.adaptive_qp && e.two_pass_gate,
            e.aq_mode == AqMode::Off && e.aq_strength_milli == 350 && e.aq_clamp == 2,
            e.last_stats is None && e.last_recon is None,
    {
        RustStillHevcEncoder::new(Effort::Slow)
    }
}

} // verus!
