//! What holds of the QPs of groups and of what is recorded of a picture.

use vstd::prelude::*;

use crate::analysis_cache::{AnalysisCache, CacheDecisionConfidence};
use crate::aq::{group_qps, qg_target, QgOffsets};
use crate::config::StillHevcConfig;
use crate::decision_laws::lemma_cell_filled;
use crate::encode_pass::{setup_of, PassRun};
use crate::geometry::{side, spec_chroma_array_type};

verus! {

/// A group's QP is the slice's and the offset that the table has for its 32x32 samples,
/// kept between 0 and 51. Groups that the table does not reach have the slice's.
pub proof fn law_target_of_a_group(slice_qp: int, offsets: &QgOffsets, x: int, y: int)
    requires
        0 <= slice_qp <= 51,
        0 <= x,
        0 <= y,
    ensures
        ({
            let i = (y / 32) * offsets.cells_x + x / 32;
            let t = qg_target(slice_qp, offsets, x, y);
            let o = offsets.offsets@[i];
            &&& 0 <= t <= 51
            &&& i >= offsets.offsets@.len() ==> t == slice_qp
            &&& i < offsets.offsets@.len() && 0 <= slice_qp + o <= 51 ==> t - slice_qp == o
            &&& i < offsets.offsets@.len() && slice_qp + o > 51 ==> t == 51
            &&& i < offsets.offsets@.len() && slice_qp + o < 0 ==> t == 0
        }),
{
}

/// Offsets that are all zero lead to the QPs of an encode without adaptive quantisation
/// and without a chroma offset.
pub proof fn law_zero_offsets_change_nothing(
    config: &StillHevcConfig,
    run: PassRun,
    offsets: &QgOffsets,
    x: int,
    y: int,
)
    requires
        8 <= config.bit_depth <= 16,
        config.qp <= 51,
        run.chroma_qp_offset == 0,
        0 <= x,
        0 <= y,
        forall|i: int| 0 <= i < offsets.offsets@.len() ==> #[trigger] offsets.offsets@[i] == 0,
    ensures
        ({
            let s = setup_of(config, run);
            let q = group_qps(
                config.qp as int,
                s.qp_bd_offset as int,
                offsets,
                spec_chroma_array_type(config.chroma),
                x,
                y,
            );
            q.0 == s.qp_y && q.1 == s.qp_c
        }),
{
    let i = (y / 32) * offsets.cells_x + x / 32;
    assert(i >= 0) by (nonlinear_arith)
        requires
            i == (y / 32) * offsets.cells_x + x / 32,
            y >= 0,
            x >= 0,
            offsets.cells_x >= 0,
    ;
    if i < offsets.offsets@.len() {
        assert(offsets.offsets@[i] == 0);
    }
}

/// A group's luma QP is its target with the bit depth offset. Full chroma has the same one.
pub proof fn law_qps_of_a_group(
    slice_qp: int,
    bd_offset: int,
    offsets: &QgOffsets,
    x: int,
    y: int,
)
    requires
        bd_offset >= 0,
    ensures
        ({
            let t = qg_target(slice_qp, offsets, x, y);
            let full = group_qps(slice_qp, bd_offset, offsets, 3, x, y);
            let sub = group_qps(slice_qp, bd_offset, offsets, 1, x, y);
            &&& full.0 == t + bd_offset && sub.0 == t + bd_offset
            &&& full.1 == full.0
            &&& t < 30 ==> sub.1 == sub.0
            &&& t >= 43 ==> sub.1 == sub.0 - 6
        }),
{
}

/// The cell of a map that a place belongs to.
pub open spec fn cell_of(map: Seq<u8>, stride: usize, cx: int, cy: int) -> u8 {
    map[cy * stride + cx]
}

/// A unit's depth and confidence are recorded at every 8x8 cell of its square, and nothing
/// else is.
pub proof fn law_units_are_recorded_in_place(
    before: AnalysisCache,
    after: AnalysisCache,
    x0: int,
    y0: int,
    log2_size: u8,
    depth: u8,
    confidence: CacheDecisionConfidence,
    cx: int,
    cy: int,
)
    requires
        after.unit_recorded(&before, x0, y0, log2_size, depth, confidence),
        3 <= log2_size <= 6,
        0 <= x0 && x0 % 8 == 0,
        0 <= y0 && y0 % 8 == 0,
        x0 + side(log2_size) <= 8 * before.cu_stride,
        0 <= cx < before.cu_stride,
        0 <= cy,
        cy * before.cu_stride + cx < before.cu_depth@.len(),
        before.cu_confidence@.len() == before.cu_depth@.len(),
    ensures
        ({
            let inside = x0 <= 8 * cx < x0 + side(log2_size) && y0 <= 8 * cy < y0 + side(
                log2_size,
            );
            &&& cell_of(after.cu_depth@, before.cu_stride, cx, cy) == if inside {
                depth
            } else {
                cell_of(before.cu_depth@, before.cu_stride, cx, cy)
            }
            &&& inside && confidence == CacheDecisionConfidence::Close ==> cell_of(
                after.cu_confidence@,
                before.cu_stride,
                cx,
                cy,
            ) == 2
            &&& inside && confidence == CacheDecisionConfidence::Clear ==> cell_of(
                after.cu_confidence@,
                before.cu_stride,
                cx,
                cy,
            ) == 1
            &&& !inside ==> cell_of(after.cu_confidence@, before.cu_stride, cx, cy) == cell_of(
                before.cu_confidence@,
                before.cu_stride,
                cx,
                cy,
            )
        }),
        after.luma_mode == before.luma_mode && after.chroma_mode_idx == before.chroma_mode_idx,
        after.tu_depth == before.tu_depth,
{
    vstd::arithmetic::power2::lemma2_to64();
    assert(side(3) == 8 && side(4) == 16 && side(5) == 32 && side(6) == 64);
    assert(log2_size == 3 || log2_size == 4 || log2_size == 5 || log2_size == 6);
    lemma_cell_filled(before.cu_stride as int, x0 / 8, y0 / 8, side(log2_size) / 8, cx, cy);
    let i = cy * before.cu_stride + cx;
    assert(after.cu_depth@[i] == after.cu_depth@[i]);
    assert(after.cu_confidence@[i] == after.cu_confidence@[i]);
}

/// A unit's modes, each in its own map, and a block's depth are recorded at every 4x4 cell
/// of their squares, and nothing else is.
pub proof fn law_modes_are_recorded_in_place(
    before: AnalysisCache,
    after: AnalysisCache,
    deeper: AnalysisCache,
    x0: int,
    y0: int,
    log2_size: u8,
    luma: u8,
    chroma: u8,
    depth: u8,
    cx: int,
    cy: int,
)
    requires
        after.modes_recorded(&before, x0, y0, log2_size, luma, chroma),
        deeper.block_recorded(&after, x0, y0, log2_size, depth),
        2 <= log2_size <= 6,
        0 <= x0 && x0 % 4 == 0,
        0 <= y0 && y0 % 4 == 0,
        x0 + side(log2_size) <= 4 * before.pu_stride,
        0 <= cx < before.pu_stride,
        0 <= cy,
        cy * before.pu_stride + cx < before.luma_mode@.len(),
        before.chroma_mode_idx@.len() == before.luma_mode@.len(),
        before.tu_depth@.len() == before.luma_mode@.len(),
    ensures
        ({
            let inside = x0 <= 4 * cx < x0 + side(log2_size) && y0 <= 4 * cy < y0 + side(
                log2_size,
            );
            let s = before.pu_stride;
            &&& inside ==> cell_of(deeper.luma_mode@, s, cx, cy) == luma && cell_of(
                deeper.chroma_mode_idx@,
                s,
                cx,
                cy,
            ) == chroma && cell_of(deeper.tu_depth@, s, cx, cy) == depth
            &&& !inside ==> cell_of(deeper.luma_mode@, s, cx, cy) == cell_of(
                before.luma_mode@,
                s,
                cx,
                cy,
            ) && cell_of(deeper.chroma_mode_idx@, s, cx, cy) == cell_of(
                before.chroma_mode_idx@,
                s,
                cx,
                cy,
            ) && cell_of(deeper.tu_depth@, s, cx, cy) == cell_of(before.tu_depth@, s, cx, cy)
        }),
        deeper.cu_depth == before.cu_depth && deeper.cu_confidence == before.cu_confidence,
        after.tu_depth == before.tu_depth && deeper.luma_mode == after.luma_mode,
{
    vstd::arithmetic::power2::lemma2_to64();
    assert(side(2) == 4 && side(3) == 8 && side(4) == 16 && side(5) == 32 && side(6) == 64);
    assert(log2_size == 2 || log2_size == 3 || log2_size == 4 || log2_size == 5 || log2_size == 6);
    lemma_cell_filled(before.pu_stride as int, x0 / 4, y0 / 4, side(log2_size) / 4, cx, cy);
    let i = cy * before.pu_stride + cx;
    assert(after.luma_mode@[i] == after.luma_mode@[i]);
    assert(after.chroma_mode_idx@[i] == after.chroma_mode_idx@[i]);
    assert(deeper.tu_depth@[i] == deeper.tu_depth@[i]);
}

} // verus!
