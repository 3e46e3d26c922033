//! Decisions of a finished analysis, kept for reuse.

use vstd::prelude::*;

use crate::config::{ChromaFormat, Effort};
use crate::geometry::{block_side, side};
use crate::maps::{fill_region, filled};
use crate::math::{ceil_div, ceil_div_u32};

verus! {

/// A cell that no decision has been recorded for.
pub const UNKNOWN_U8: u8 = 0xFF;

/// How sure a recorded decision was.
#[derive(Clone, Copy, Debug, PartialEq, Eq, Structural)]
pub enum CacheDecisionConfidence {
    Unknown,
    Clear,
    Close,
}

impl Default for CacheDecisionConfidence {
    fn default() -> (c: Self)
        ensures
            c == CacheDecisionConfidence::Unknown,
    {
        CacheDecisionConfidence::Unknown
    }
}

impl CacheDecisionConfidence {
    /// The number that stands for a confidence in a map.
    pub open spec fn code(self) -> u8 {
        match self {
            CacheDecisionConfidence::Unknown => 0,
            CacheDecisionConfidence::Clear => 1,
            CacheDecisionConfidence::Close => 2,
        }
    }

    pub fn as_u8(self) -> (r: u8)
        ensures
            r == self.code(),
    {
        match self {
            CacheDecisionConfidence::Unknown => 0,
            CacheDecisionConfidence::Clear => 1,
            CacheDecisionConfidence::Close => 2,
        }
    }
}

/// What an analysis was made of.
#[derive(Clone, Copy, Debug, PartialEq, Eq, Structural)]
pub struct AnalysisCacheMeta {
    pub width: u32,
    pub height: u32,
    pub bit_depth: u8,
    pub chroma: ChromaFormat,
    pub effort: Effort,
    pub qp: u8,
    pub source_hash: u64,
}

/// Recorded decisions of one picture.
pub struct AnalysisCache {
    pub meta: AnalysisCacheMeta,
    pub cu_stride: usize,
    pub cu_height: usize,
    pub pu_stride: usize,
    pub pu_height: usize,
    /// Coding unit depth per 8x8 cell.
    pub cu_depth: Vec<u8>,
    /// Confidence in the coding unit decision per 8x8 cell.
    pub cu_confidence: Vec<u8>,
    /// Luma mode per 4x4 cell.
    pub luma_mode: Vec<u8>,
    /// Chroma mode index per 4x4 cell.
    pub chroma_mode_idx: Vec<u8>,
    /// Transform split depth per 4x4 cell.
    pub tu_depth: Vec<u8>,
}

/// A map of `n` equal cells.
pub open spec fn uniform(map: Seq<u8>, n: int, value: u8) -> bool {
    map.len() == n && forall|i: int| 0 <= i < n ==> #[trigger] map[i] == value
}

fn uniform_map(n: usize, value: u8) -> (map: Vec<u8>)
    ensures
        uniform(map@, n as int, value),
{
    let mut map: Vec<u8> = Vec::new();
    for i in 0..n
        invariant
            uniform(map@, i as int, value),
    {
        map.push(value);
    }
    map
}

fn reset_map(map: &mut Vec<u8>, value: u8)
    ensures
        uniform(final(map)@, old(map)@.len() as int, value),
{
    let n: usize = map.len();
    for i in 0..n
        invariant
            n == map@.len(),
            n == old(map)@.len(),
            forall|k: int| 0 <= k < i ==> #[trigger] map@[k] == value,
    {
        map.set(i, value);
    }
}

/// The number of cells of a `cell` by `cell` grid over a picture.
pub open spec fn grid_cells(width: int, height: int, cell: int) -> int {
    ceil_div(width, cell) * ceil_div(height, cell)
}

impl AnalysisCache {
    /// The maps have the grid sizes of the picture.
    pub open spec fn well_formed(&self) -> bool {
        let (w, h) = (self.meta.width as int, self.meta.height as int);
        &&& self.cu_stride == ceil_div(w, 8)
        &&& self.cu_height == ceil_div(h, 8)
        &&& self.pu_stride == ceil_div(w, 4)
        &&& self.pu_height == ceil_div(h, 4)
        &&& self.cu_depth@.len() == grid_cells(w, h, 8)
        &&& self.cu_confidence@.len() == grid_cells(w, h, 8)
        &&& self.luma_mode@.len() == grid_cells(w, h, 4)
        &&& self.chroma_mode_idx@.len() == grid_cells(w, h, 4)
        &&& self.tu_depth@.len() == grid_cells(w, h, 4)
    }

    /// Nothing has been recorded.
    pub open spec fn is_empty(&self) -> bool {
        &&& uniform(self.cu_depth@, self.cu_depth@.len() as int, UNKNOWN_U8)
        &&& uniform(
            self.cu_confidence@,
            self.cu_confidence@.len() as int,
            CacheDecisionConfidence::Unknown.code(),
        )
        &&& uniform(self.luma_mode@, self.luma_mode@.len() as int, UNKNOWN_U8)
        &&& uniform(self.chroma_mode_idx@, self.chroma_mode_idx@.len() as int, UNKNOWN_U8)
        &&& uniform(self.tu_depth@, self.tu_depth@.len() as int, UNKNOWN_U8)
    }

    /// An empty cache for a picture.
    pub fn new(
        width: u32,
        height: u32,
        bit_depth: u8,
        chroma: ChromaFormat,
        effort: Effort,
        qp: u8,
        source_hash: u64,
    ) -> (c: Self)
        requires
            grid_cells(width as int, height as int, 8) <= usize::MAX,
            grid_cells(width as int, height as int, 4) <= usize::MAX,
        ensures
            c.well_formed(),
            c.is_empty(),
            c.meta == (AnalysisCacheMeta {
                width,
                height,
                bit_depth,
                chroma,
                effort,
                qp,
                source_hash,
            }),
    {
        let cu_stride: usize = ceil_div_u32(width, 8) as usize;
        let cu_height: usize = ceil_div_u32(height, 8) as usize;
        let pu_stride: usize = ceil_div_u32(width, 4) as usize;
        let pu_height: usize = ceil_div_u32(height, 4) as usize;
        let cu_cells: usize = cu_stride * cu_height;
        let pu_cells: usize = pu_stride * pu_height;
        AnalysisCache {
            meta: AnalysisCacheMeta { width, height, bit_depth, chroma, effort, qp, source_hash },
            cu_stride,
            cu_height,
            pu_stride,
            pu_height,
            cu_depth: uniform_map(cu_cells, UNKNOWN_U8),
            cu_confidence: uniform_map(cu_cells, CacheDecisionConfidence::Unknown.as_u8()),
            luma_mode: uniform_map(pu_cells, UNKNOWN_U8),
            chroma_mode_idx: uniform_map(pu_cells, UNKNOWN_U8),
            tu_depth: uniform_map(pu_cells, UNKNOWN_U8),
        }
    }

    /// An empty cache for the same picture.
    pub fn empty_like(&self) -> (c: Self)
        requires
            grid_cells(self.meta.width as int, self.meta.height as int, 8) <= usize::MAX,
            grid_cells(self.meta.width as int, self.meta.height as int, 4) <= usize::MAX,
        ensures
            c.well_formed(),
            c.is_empty(),
            c.meta == self.meta,
    {
        Self::new(
            self.meta.width,
            self.meta.height,
            self.meta.bit_depth,
            self.meta.chroma,
            self.meta.effort,
            self.meta.qp,
            self.meta.source_hash,
        )
    }

    /// Everything but the maps' contents is as in `other`.
    pub open spec fn same_frame(&self, other: &Self) -> bool {
        &&& self.meta == other.meta
        &&& self.cu_stride == other.cu_stride
        &&& self.cu_height == other.cu_height
        &&& self.pu_stride == other.pu_stride
        &&& self.pu_height == other.pu_height
    }

    /// Forgets every decision.
    pub fn clear(&mut self)
        ensures
            final(self).same_frame(old(self)),
            final(self).is_empty(),
            final(self).cu_depth@.len() == old(self).cu_depth@.len(),
            final(self).cu_confidence@.len() == old(self).cu_confidence@.len(),
            final(self).luma_mode@.len() == old(self).luma_mode@.len(),
            final(self).chroma_mode_idx@.len() == old(self).chroma_mode_idx@.len(),
            final(self).tu_depth@.len() == old(self).tu_depth@.len(),
            old(self).well_formed() ==> final(self).well_formed(),
    {
        reset_map(&mut self.cu_depth, UNKNOWN_U8);
        reset_map(&mut self.cu_confidence, CacheDecisionConfidence::Unknown.as_u8());
        reset_map(&mut self.luma_mode, UNKNOWN_U8);
        reset_map(&mut self.chroma_mode_idx, UNKNOWN_U8);
        reset_map(&mut self.tu_depth, UNKNOWN_U8);
    }

    /// The depth and the confidence of a coding unit were recorded in the 8x8 cells that it
    /// covers.
    pub open spec fn unit_recorded(
        &self,
        before: &Self,
        x0: int,
        y0: int,
        log2_size: u8,
        depth: u8,
        confidence: CacheDecisionConfidence,
    ) -> bool {
        &&& self.same_frame(before)
        &&& filled(
            before.cu_depth@,
            self.cu_depth@,
            before.cu_stride as int,
            x0 / 8,
            y0 / 8,
            ceil_div(side(log2_size), 8),
            depth,
        )
        &&& filled(
            before.cu_confidence@,
            self.cu_confidence@,
            before.cu_stride as int,
            x0 / 8,
            y0 / 8,
            ceil_div(side(log2_size), 8),
            confidence.code(),
        )
        &&& self.luma_mode == before.luma_mode
        &&& self.chroma_mode_idx == before.chroma_mode_idx
        &&& self.tu_depth == before.tu_depth
    }

    pub fn record_cu_region(
        &mut self,
        x0: u32,
        y0: u32,
        log2_size: u8,
        depth: u8,
        confidence: CacheDecisionConfidence,
    )
        requires
            log2_size < 32,
            old(self).cu_confidence@.len() == old(self).cu_depth@.len(),
        ensures
            final(self).unit_recorded(
                old(self),
                x0 as int,
                y0 as int,
                log2_size,
                depth,
                confidence,
            ),
    {
        let n: u32 = ceil_div_u32(block_side(log2_size), 8);
        let sx: u32 = x0 / 8;
        let sy: u32 = y0 / 8;
        fill_region(&mut self.cu_depth, self.cu_stride, sx, sy, n, depth);
        fill_region(&mut self.cu_confidence, self.cu_stride, sx, sy, n, confidence.as_u8());
    }

    /// The modes of a coding unit were recorded in the 4x4 cells that it covers.
    pub open spec fn modes_recorded(
        &self,
        before: &Self,
        x0: int,
        y0: int,
        log2_size: u8,
        luma_mode: u8,
        chroma_mode_idx: u8,
    ) -> bool {
        &&& self.same_frame(before)
        &&& filled(
            before.luma_mode@,
            self.luma_mode@,
            before.pu_stride as int,
            x0 / 4,
            y0 / 4,
            side(log2_size) / 4,
            luma_mode,
        )
        &&& filled(
            before.chroma_mode_idx@,
            self.chroma_mode_idx@,
            before.pu_stride as int,
            x0 / 4,
            y0 / 4,
            side(log2_size) / 4,
            chroma_mode_idx,
        )
        &&& self.cu_depth == before.cu_depth
        &&& self.cu_confidence == before.cu_confidence
        &&& self.tu_depth == before.tu_depth
    }

    pub fn record_leaf_modes(
        &mut self,
        x0: u32,
        y0: u32,
        log2_size: u8,
        luma_mode: u8,
        chroma_mode_idx: u8,
    )
        requires
            log2_size < 32,
        ensures
            final(self).modes_recorded(
                old(self),
                x0 as int,
                y0 as int,
                log2_size,
                luma_mode,
                chroma_mode_idx,
            ),
    {
        let n: u32 = block_side(log2_size) / 4;
        fill_region(&mut self.chroma_mode_idx, self.pu_stride, x0 / 4, y0 / 4, n, chroma_mode_idx);
        fill_region(&mut self.luma_mode, self.pu_stride, x0 / 4, y0 / 4, n, luma_mode);
    }

    /// The split depth of a transform block was recorded in the 4x4 cells that it covers.
    pub open spec fn block_recorded(
        &self,
        before: &Self,
        x0: int,
        y0: int,
        log2_size: u8,
        depth: u8,
    ) -> bool {
        &&& self.same_frame(before)
        &&& filled(
            before.tu_depth@,
            self.tu_depth@,
            before.pu_stride as int,
            x0 / 4,
            y0 / 4,
            side(log2_size) / 4,
            depth,
        )
        &&& self.cu_depth == before.cu_depth
        &&& self.cu_confidence == before.cu_confidence
        &&& self.luma_mode == before.luma_mode
        &&& self.chroma_mode_idx == before.chroma_mode_idx
    }

    pub fn record_tu_region(&mut self, x0: u32, y0: u32, log2_size: u8, depth: u8)
        requires
            log2_size < 32,
        ensures
            final(self).block_recorded(old(self), x0 as int, y0 as int, log2_size, depth),
    {
        let n: u32 = block_side(log2_size) / 4;
        fill_region(&mut self.tu_depth, self.pu_stride, x0 / 4, y0 / 4, n, depth);
    }
}

/// Clearing a cache gives the maps of a new one for the same picture.
pub proof fn law_clear_is_new(cleared: AnalysisCache, fresh: AnalysisCache)
    requires
        cleared.well_formed(),
        fresh.well_formed(),
        cleared.meta == fresh.meta,
        cleared.is_empty(),
        fresh.is_empty(),
    ensures
        cleared.same_frame(&fresh),
        cleared.cu_depth@ == fresh.cu_depth@,
        cleared.cu_confidence@ == fresh.cu_confidence@,
        cleared.luma_mode@ == fresh.luma_mode@,
        cleared.chroma_mode_idx@ == fresh.chroma_mode_idx@,
        cleared.tu_depth@ == fresh.tu_depth@,
{
    assert(cleared.cu_depth@ =~= fresh.cu_depth@);
    assert(cleared.cu_confidence@ =~= fresh.cu_confidence@);
    assert(cleared.luma_mode@ =~= fresh.luma_mode@);
    assert(cleared.chroma_mode_idx@ =~= fresh.chroma_mode_idx@);
    assert(cleared.tu_depth@ =~= fresh.tu_depth@);
}

} // verus!
