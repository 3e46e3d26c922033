//! Block geometry: chroma blocks, splits and quadtree children.

use vstd::arithmetic::power2::pow2;
use vstd::prelude::*;

use crate::config::ChromaFormat;
use crate::math::min_int;

verus! {

pub const CTB_LOG2: u8 = 6;

pub const MAX_TB_LOG2: u8 = 5;

pub const MIN_TB_LOG2: u8 = 2;

pub const MAX_INTRA_TT_DEPTH: u8 = 2;

/// Chroma takes the luma mode.
pub const CHROMA_DM_IDX: u8 = 4;

/// `chroma_format_idc` of a format.
pub open spec fn spec_chroma_array_type(chroma: ChromaFormat) -> u8 {
    match chroma {
        ChromaFormat::Gray => 0,
        ChromaFormat::Yuv420 => 1,
        ChromaFormat::Yuv422 => 2,
        ChromaFormat::Yuv444 => 3,
    }
}

pub fn chroma_array_type(chroma: ChromaFormat) -> (cat: u8)
    ensures
        cat == spec_chroma_array_type(chroma),
{
    match chroma {
        ChromaFormat::Gray => 0,
        ChromaFormat::Yuv420 => 1,
        ChromaFormat::Yuv422 => 2,
        ChromaFormat::Yuv444 => 3,
    }
}

/// Whether a leaf transform block carries chroma blocks of its own. Subsampled chroma
/// of a 4x4 luma block is coded with the parent.
pub open spec fn spec_has_chroma_tb(cat: u8, log2_size: u8) -> bool {
    cat == 3 || ((cat == 1 || cat == 2) && log2_size >= 3)
}

pub fn has_chroma_tb(cat: u8, log2_size: u8) -> (r: bool)
    ensures
        r == spec_has_chroma_tb(cat, log2_size),
{
    cat == 3 || ((cat == 1 || cat == 2) && log2_size >= 3)
}

/// The chroma transform blocks that go with a luma block: their position, size and how
/// many there are one below the other.
pub open spec fn spec_chroma_tb_geom(cat: u8, x0: u32, y0: u32, log2_size: u8) -> Option<
    (u32, u32, u8, u8),
> {
    if !spec_has_chroma_tb(cat, log2_size) {
        None
    } else if cat == 1 {
        Some((x0 / 2, y0 / 2, (log2_size - 1) as u8, 1u8))
    } else if cat == 2 {
        Some((x0 / 2, y0, (log2_size - 1) as u8, 2u8))
    } else {
        Some((x0, y0, log2_size, 1u8))
    }
}

pub fn chroma_tb_geom(cat: u8, x0: u32, y0: u32, log2_size: u8) -> (r: Option<(u32, u32, u8, u8)>)
    ensures
        r == spec_chroma_tb_geom(cat, x0, y0, log2_size),
{
    match cat {
        1 => if log2_size >= 3 {
            Some((x0 / 2, y0 / 2, log2_size - 1, 1u8))
        } else {
            None
        },
        2 => if log2_size >= 3 {
            Some((x0 / 2, y0, log2_size - 1, 2u8))
        } else {
            None
        },
        3 => Some((x0, y0, log2_size, 1u8)),
        _ => None,
    }
}

/// A leaf has chroma blocks exactly when they have a place.
pub proof fn law_chroma_tb(cat: u8, x0: u32, y0: u32, log2_size: u8)
    ensures
        spec_chroma_tb_geom(cat, x0, y0, log2_size) is Some <==> spec_has_chroma_tb(cat, log2_size),
{
}

/// Whether a second chroma coded block flag is coded: 4:2:2 blocks that are not split
/// further in chroma.
pub open spec fn spec_second_cbf(cat: u8, log2_size: u8, is_split: bool) -> bool {
    cat == 2 && (!is_split || log2_size == 3)
}

pub fn decode_second_cbf(cat: u8, log2_size: u8, is_split: bool) -> (r: bool)
    ensures
        r == spec_second_cbf(cat, log2_size, is_split),
{
    cat == 2 && (!is_split || log2_size == 3)
}

/// Chroma QP of 4:2:0 for luma QPs from 30 to 42.
pub const CHROMA_QP_TABLE: [i32; 13] = [29, 30, 31, 32, 33, 33, 34, 34, 35, 35, 36, 36, 37];

/// The chroma QP that goes with a luma QP: bent by a table for 4:2:0, capped elsewhere.
pub open spec fn spec_chroma_qp(qpi: int, cat: u8) -> int {
    if cat != 1 {
        min_int(qpi, 51)
    } else if qpi < 30 {
        qpi
    } else if qpi >= 43 {
        qpi - 6
    } else {
        CHROMA_QP_TABLE[qpi - 30] as int
    }
}

pub fn chroma_qp_from_luma(qpi: i32, cat: u8) -> (qp: i32)
    ensures
        qp == spec_chroma_qp(qpi as int, cat),
{
    if cat != 1 {
        if qpi < 51 {
            qpi
        } else {
            51
        }
    } else if qpi < 30 {
        qpi
    } else if qpi >= 43 {
        qpi - 6
    } else {
        CHROMA_QP_TABLE[(qpi - 30) as usize]
    }
}

/// The chroma QP follows the luma QP upwards and never exceeds it.
pub proof fn law_chroma_qp_monotone(a: int, b: int, cat: u8)
    requires
        a <= b,
    ensures
        spec_chroma_qp(a, cat) <= spec_chroma_qp(b, cat),
        spec_chroma_qp(a, cat) <= a,
{
}

/// The intra mode that a chroma mode index selects: planar, vertical, horizontal, DC or
/// the luma mode. An explicit mode equal to the luma mode stands for mode 34.
pub open spec fn spec_chroma_mode(luma_mode: u8, mode_idx: u8) -> u8 {
    if mode_idx == CHROMA_DM_IDX {
        luma_mode
    } else {
        let candidate: u8 = if mode_idx == 0 {
            0
        } else if mode_idx == 1 {
            26
        } else if mode_idx == 2 {
            10
        } else {
            1
        };
        if candidate == luma_mode {
            34
        } else {
            candidate
        }
    }
}

pub fn chroma_mode_from_idx(luma_mode: u8, mode_idx: u8) -> (mode: u8)
    requires
        mode_idx <= CHROMA_DM_IDX,
    ensures
        mode == spec_chroma_mode(luma_mode, mode_idx),
{
    if mode_idx == CHROMA_DM_IDX {
        return luma_mode;
    }
    let candidate: u8 = match mode_idx {
        0 => 0,
        1 => 26,
        2 => 10,
        _ => 1,
    };
    if candidate == luma_mode {
        34
    } else {
        candidate
    }
}

/// The five chroma mode indices select five different modes, as long as the luma mode
/// is not 34.
pub proof fn law_chroma_modes_differ(luma_mode: u8, i: u8, j: u8)
    requires
        luma_mode < 34,
        i < j <= CHROMA_DM_IDX,
    ensures
        spec_chroma_mode(luma_mode, i) != spec_chroma_mode(luma_mode, j),
{
}

/// Whether a transform block may be split: within the size and depth limits, and not
/// where subsampled chroma would have to be coded with the parent.
pub open spec fn spec_can_split_tt(cat: u8, log2_size: u8, trafo_depth: u8) -> bool {
    &&& MIN_TB_LOG2 < log2_size <= MAX_TB_LOG2
    &&& trafo_depth < MAX_INTRA_TT_DEPTH
    &&& !((cat == 1 || cat == 2) && log2_size == 3)
}

pub fn can_split_tt(cat: u8, log2_size: u8, trafo_depth: u8) -> (r: bool)
    ensures
        r == spec_can_split_tt(cat, log2_size, trafo_depth),
{
    if !(log2_size <= MAX_TB_LOG2 && log2_size > MIN_TB_LOG2 && trafo_depth < MAX_INTRA_TT_DEPTH) {
        return false;
    }
    !((cat == 1 || cat == 2) && log2_size == 3)
}

/// The side of a block.
pub open spec fn side(log2_size: u8) -> int {
    pow2(log2_size as nat) as int
}

/// The side of a block of up to 2^31 samples.
pub fn block_side(log2_size: u8) -> (s: u32)
    requires
        log2_size < 32,
    ensures
        s == side(log2_size),
        s > 0,
{
    proof {
        vstd::bits::lemma_u32_pow2_no_overflow(log2_size as nat);
        vstd::bits::lemma_u32_shl_is_mul(1, log2_size as u32);
        vstd::arithmetic::power2::lemma_pow2_pos(log2_size as nat);
    }
    1u32 << log2_size
}

/// The top left corners of the quadrants of a block that lie in the picture, in coding
/// order. The first quadrant is always there.
pub open spec fn kid_positions(x0: int, y0: int, half: int, width: int, height: int) -> Seq<
    (int, int),
> {
    let x1 = x0 + half;
    let y1 = y0 + half;
    seq![(x0, y0)] + (if x1 < width {
        seq![(x1, y0)]
    } else {
        seq![]
    }) + (if y1 < height {
        seq![(x0, y1)]
    } else {
        seq![]
    }) + (if x1 < width && y1 < height {
        seq![(x1, y1)]
    } else {
        seq![]
    })
}

pub open spec fn positions_view(v: Seq<(u32, u32)>) -> Seq<(int, int)> {
    v.map_values(|p: (u32, u32)| (p.0 as int, p.1 as int))
}

pub fn cu_kid_positions(x0: u32, y0: u32, half: u32, width: u32, height: u32) -> (kids: Vec<
    (u32, u32),
>)
    requires
        x0 + half <= u32::MAX,
        y0 + half <= u32::MAX,
    ensures
        positions_view(kids@) == kid_positions(
            x0 as int,
            y0 as int,
            half as int,
            width as int,
            height as int,
        ),
{
    let x1: u32 = x0 + half;
    let y1: u32 = y0 + half;
    let mut kids: Vec<(u32, u32)> = Vec::new();
    kids.push((x0, y0));
    if x1 < width {
        kids.push((x1, y0));
    }
    if y1 < height {
        kids.push((x0, y1));
    }
    if x1 < width && y1 < height {
        kids.push((x1, y1));
    }
    assert(positions_view(kids@) =~= kid_positions(
        x0 as int,
        y0 as int,
        half as int,
        width as int,
        height as int,
    ));
    kids
}

/// A sample lies in the square at a position.
pub open spec fn in_square(p: (int, int), size: int, x: int, y: int) -> bool {
    p.0 <= x < p.0 + size && p.1 <= y < p.1 + size
}

/// Every picture sample of a block lies in exactly one of its children.
pub proof fn law_kids_cover(
    x0: int,
    y0: int,
    half: int,
    width: int,
    height: int,
    x: int,
    y: int,
) -> (i: int)
    requires
        half > 0,
        in_square((x0, y0), 2 * half, x, y),
        x < width,
        y < height,
    ensures
        ({
            let kids = kid_positions(x0, y0, half, width, height);
            &&& 0 <= i < kids.len()
            &&& in_square(kids[i], half, x, y)
            &&& forall|j: int|
                0 <= j < kids.len() && in_square(#[trigger] kids[j], half, x, y) ==> j == i
        }),
{
    let kids = kid_positions(x0, y0, half, width, height);
    let right = x >= x0 + half;
    let below = y >= y0 + half;
    if !below && !right {
        0
    } else if !below {
        1
    } else if !right {
        if x0 + half < width {
            2
        } else {
            1
        }
    } else {
        3
    }
}

} // verus!
