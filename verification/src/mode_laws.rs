//! What holds of intra modes, of the neighbours they are predicted from, and of the blocks
//! and QPs of chroma.

use vstd::prelude::*;

use crate::cabac::pre_ctx_state;
use crate::config::ChromaFormat;
use crate::geometry::{
    side, spec_can_split_tt, spec_chroma_array_type, spec_chroma_mode, spec_chroma_qp,
    spec_chroma_tb_geom, spec_second_cbf,
};
use crate::maps::BlockMaps;
use crate::unit_modes::{mpm_at, mpm_of};

verus! {

/// Two directions are next to each other on the wheel of 32 directions from 2 to 33; 34
/// stands where 2 does.
pub open spec fn turned(from: u8, to: u8, by: int) -> bool {
    2 <= to <= 33 && (to - from - by) % 32 == 0
}

/// Neighbours with one direction make it the first of the most probable modes, and the
/// directions on either side of it the second and third. Neighbours that differ come
/// first and second, left before above, and the third is the first of planar, DC and
/// vertical that is neither. Neighbours that agree on planar or DC leave just those three.
pub proof fn law_most_probable_modes(left: u8, above: u8)
    requires
        left <= 34,
        above <= 34,
    ensures
        left == above && left >= 2 ==> {
            let m = mpm_of(left, above);
            m[0] == left && turned(left, m[1], -1) && turned(left, m[2], 1)
        },
        left == above && left < 2 ==> {
            let m = mpm_of(left, above);
            m[0] == 0 && m[1] == 1 && m[2] == 26
        },
        left != above ==> {
            let m = mpm_of(left, above);
            &&& m[0] == left && m[1] == above
            &&& m[2] == 0 || m[2] == 1 || m[2] == 26
            &&& m[2] != left && m[2] != above
            &&& m[2] > 0 ==> (left == 0 || above == 0)
            &&& m[2] > 1 ==> (left == 1 || above == 1)
        },
{
}

/// The most probable modes of a block look at two places: the 4x4 cell left of its corner,
/// in the same tile, and the cell above it, if that lies in the same tile and in the same
/// row of 64 samples. Whichever is missing counts as DC.
pub proof fn law_probable_modes_look_left_and_above(
    pic: &BlockMaps,
    modes: Seq<u8>,
    x0: u32,
    y0: u32,
    left: u8,
    above: u8,
)
    requires
        pic.tile_grid.col_starts@.len() == 0,
        pic.tile_grid.row_starts@.len() == 0,
        if x0 == 0 {
            left == 1
        } else {
            let i = (y0 / 4) * pic.mode_stride + (x0 - 1) / 4;
            0 <= i < modes.len() && left == modes[i] && left <= 34
        },
        if y0 % 64 == 0 {
            above == 1
        } else {
            let i = ((y0 - 1) / 4) * pic.mode_stride + x0 / 4;
            0 <= i < modes.len() && above == modes[i] && above <= 34
        },
    ensures
        mpm_at(pic, modes, x0, y0) == mpm_of(left, above),
        left != above ==> mpm_at(pic, modes, x0, y0)[0] == left && mpm_at(
            pic,
            modes,
            x0,
            y0,
        )[1] == above,
{
    if x0 > 0 {
        assert((x0 - 1) as u32 / 4 == (x0 - 1) / 4);
    }
    if y0 > 0 {
        assert((y0 - 1) as u32 / 4 == (y0 - 1) / 4);
    }
}

/// A tile boundary hides the neighbour behind it.
pub proof fn law_tiles_hide_neighbours(pic: &BlockMaps, modes: Seq<u8>, x0: u32, y0: u32)
    requires
        pic.tile_grid.row_starts@.len() == 0,
        pic.tile_grid.col_starts@ == seq![(x0 / 64) as u32],
        x0 > 0,
        x0 % 64 == 0,
    ensures
        mpm_at(pic, modes, x0, y0) == mpm_at(pic, modes, 0, y0) || y0 % 64 != 0,
        y0 % 64 == 0 ==> mpm_at(pic, modes, x0, y0) == seq![0u8, 1u8, 26u8],
{
    reveal_with_fuel(crate::maps::tile_rank, 3);
    assert(((x0 - 1) as u32) as int / 64 == x0 as int / 64 - 1);
    let starts = pic.tile_grid.col_starts@;
    assert(starts.drop_last() =~= Seq::<u32>::empty());
    assert(starts.last() == starts[0]);
}

/// The context of a split flag counts the neighbours of a unit's corner, left and above,
/// whose 8x8 cells were noted deeper than the unit. A neighbour that does not exist or of
/// which nothing is noted counts as not deeper.
pub proof fn law_split_context_counts_deeper_neighbours(
    maps: &BlockMaps,
    x0: u32,
    y0: u32,
    depth: u8,
    left: u8,
    above: u8,
)
    requires
        maps.tile_grid.col_starts@.len() == 0,
        maps.tile_grid.row_starts@.len() == 0,
        x0 > 0 ==> {
            let i = (y0 / 8) * maps.ct_depth_stride + (x0 - 1) / 8;
            0 <= i < maps.ct_depth_map@.len() && left == maps.ct_depth_map@[i]
        },
        y0 > 0 ==> {
            let i = ((y0 - 1) / 8) * maps.ct_depth_stride + x0 / 8;
            0 <= i < maps.ct_depth_map@.len() && above == maps.ct_depth_map@[i]
        },
    ensures
        0 <= maps.split_inc(x0, y0, depth) <= 2,
        maps.split_inc(x0, y0, depth) == 2 <==> x0 > 0 && y0 > 0 && depth < left < 255 && depth
            < above < 255,
        maps.split_inc(x0, y0, depth) == 0 <==> !(x0 > 0 && depth < left < 255) && !(y0 > 0
            && depth < above < 255),
{
}

/// An explicit chroma mode is planar, vertical, horizontal or DC by its index, unless luma
/// has that mode already: then it is the last direction. The fifth index takes luma's.
pub proof fn law_chroma_mode_of_index(luma_mode: u8)
    ensures
        spec_chroma_mode(luma_mode, 4) == luma_mode,
        luma_mode != 0 ==> spec_chroma_mode(luma_mode, 0) == 0,
        luma_mode != 26 ==> spec_chroma_mode(luma_mode, 1) == 26,
        luma_mode != 10 ==> spec_chroma_mode(luma_mode, 2) == 10,
        luma_mode != 1 ==> spec_chroma_mode(luma_mode, 3) == 1,
        forall|i: u8| i < 4 && luma_mode != 34 ==> #[trigger] spec_chroma_mode(luma_mode, i)
            != luma_mode,
        forall|i: u8, j: u8|
            i < 4 && j < 4 && i != j ==> #[trigger] spec_chroma_mode(luma_mode, i)
                != #[trigger] spec_chroma_mode(luma_mode, j),
        spec_chroma_mode(0, 0) == 34 && spec_chroma_mode(26, 1) == 34 && spec_chroma_mode(10, 2)
            == 34 && spec_chroma_mode(1, 3) == 34,
{
}

/// The chroma QP of 4:2:0 is the luma QP up to 29 and six less from 43 on. Between them it
/// falls behind by one at 30, and by one more at every second step from 35 on. Other
/// formats take the luma QP up to 51.
pub proof fn law_chroma_qp_bends(qp: int, cat: u8)
    ensures
        cat == 1 && qp <= 29 ==> spec_chroma_qp(qp, cat) == qp,
        cat == 1 && qp >= 43 ==> spec_chroma_qp(qp, cat) == qp - 6,
        cat == 1 && 30 <= qp <= 34 ==> spec_chroma_qp(qp, cat) == qp - 1,
        cat == 1 && 34 <= qp <= 43 ==> spec_chroma_qp(qp, cat) == 33 + (qp - 34) / 2,
        cat != 1 && qp <= 51 ==> spec_chroma_qp(qp, cat) == qp,
        cat != 1 && qp >= 51 ==> spec_chroma_qp(qp, cat) == 51,
{
}

/// The chroma blocks of a luma block cover its area, in the chroma planes' own samples:
/// half as wide unless chroma is full, half as high only in 4:2:0. Blocks of 4:2:2 are two
/// squares, one below the other. Chroma smaller than 4x4 does not exist.
pub proof fn law_chroma_blocks_cover_luma(chroma: ChromaFormat, x0: u32, y0: u32, log2_size: u8)
    requires
        2 <= log2_size <= 5,
    ensures
        match spec_chroma_tb_geom(spec_chroma_array_type(chroma), x0, y0, log2_size) {
            Some((x, y, log2_chroma, blocks)) => {
                let (w, h) = (side(log2_size), side(log2_size));
                &&& chroma != ChromaFormat::Gray
                &&& log2_chroma >= 2
                &&& chroma == ChromaFormat::Yuv444 ==> x == x0 && side(log2_chroma) == w
                &&& chroma != ChromaFormat::Yuv444 ==> x == x0 / 2 && side(log2_chroma) * 2 == w
                &&& chroma == ChromaFormat::Yuv420 ==> y == y0 / 2 && blocks * side(log2_chroma)
                    * 2 == h
                &&& chroma != ChromaFormat::Yuv420 ==> y == y0 && blocks * side(log2_chroma) == h
            },
            None => chroma == ChromaFormat::Gray || (chroma != ChromaFormat::Yuv444 && log2_size
                == 2),
        },
{
    vstd::arithmetic::power2::lemma2_to64();
    assert(side(2) == 4 && side(3) == 8 && side(4) == 16 && side(5) == 32);
    assert(log2_size == 2 || log2_size == 3 || log2_size == 4 || log2_size == 5);
}

/// Two coded block flags per component are coded exactly where the two chroma squares of
/// a 4:2:2 block stand: where the transform tree ends, or where its chroma cannot follow
/// luma down to 4x4.
pub proof fn law_second_flag_where_two_blocks(cat: u8, log2_size: u8, is_split: bool)
    requires
        cat <= 3,
        2 <= log2_size <= 5,
        spec_can_split_tt(3, log2_size, 0) || !is_split,
    ensures
        spec_second_cbf(cat, log2_size, is_split) ==> cat == 2,
        !is_split && log2_size >= 3 ==> (spec_second_cbf(cat, log2_size, is_split) <==> (
        spec_chroma_tb_geom(cat, 0, 0, log2_size) matches Some(g) && g.3 == 2)),
        is_split && cat == 2 ==> (spec_second_cbf(cat, log2_size, is_split) <==>
            spec_chroma_tb_geom(cat, 0, 0, (log2_size - 1) as u8) is None),
{
}

/// A transform tree can be split from 32x32 down to 8x8, twice at most; 8x8 blocks only if
/// their chroma can follow.
pub proof fn law_where_transforms_split(cat: u8, log2_size: u8, depth: u8)
    requires
        cat <= 3,
    ensures
        spec_can_split_tt(cat, log2_size, depth) ==> 3 <= log2_size <= 5 && depth <= 1,
        4 <= log2_size <= 5 && depth <= 1 ==> spec_can_split_tt(cat, log2_size, depth),
        log2_size == 3 && depth <= 1 ==> (spec_can_split_tt(cat, log2_size, depth) <==> cat == 0
            || cat == 3),
{
}

/// A context starts from eight times the lower half of its initialisation value, less 16,
/// at QP 0. Every 16 steps of QP add five times the upper half, less 45. It stays between
/// 1 and 126.
pub proof fn law_context_start(init: int, qp: int)
    requires
        0 <= init <= 255,
        0 <= qp,
        qp + 16 <= 51,
    ensures
        ({
            let low = pre_ctx_state(init, qp);
            let high = pre_ctx_state(init, qp + 16);
            let step = 5 * (init / 16) - 45;
            let start = 8 * (init % 16) - 16;
            &&& 1 <= low <= 126
            &&& qp == 0 && 1 <= start <= 126 ==> low == start
            &&& qp == 0 && start < 1 ==> low == 1
            &&& 1 < low < 126 && 1 < high < 126 ==> high - low == step
            &&& 1 < low < 126 && low + step <= 1 ==> high == 1
            &&& 1 < low < 126 && low + step >= 126 ==> high == 126
            &&& step == 0 ==> low == high && low == pre_ctx_state(init, 0)
        }),
{
    let m = (init / 16) * 5 - 45;
    assert(m * (qp + 16) == m * qp + 16 * m) by (nonlinear_arith);
    assert(m * 0 == 0);
    let a = m * qp;
    assert((a + 16 * m) / 16 == a / 16 + m) by (nonlinear_arith);
    if m == 0 {
        assert(m * qp == 0);
    }
}

/// A context moves one way only as the QP rises, and QPs outside 0 to 51 count as the
/// nearest within.
pub proof fn law_context_start_follows_qp(init: int, qp: int)
    requires
        0 <= init <= 255,
    ensures
        init >= 9 * 16 ==> pre_ctx_state(init, qp) <= pre_ctx_state(init, qp + 1),
        init < 10 * 16 ==> pre_ctx_state(init, qp) >= pre_ctx_state(init, qp + 1),
        qp < 0 ==> pre_ctx_state(init, qp) == pre_ctx_state(init, 0),
        qp >= 51 ==> pre_ctx_state(init, qp) == pre_ctx_state(init, 51),
{
    let m = (init / 16) * 5 - 45;
    assert(m * (qp + 1) == m * qp + m) by (nonlinear_arith);
}

} // verus!
