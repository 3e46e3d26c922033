//! The modes and depths that are noted of coding units, and the most probable modes that
//! follow from them.

use vstd::prelude::*;

use crate::aq::{group_qps, AqState, QgOffsets};
use crate::geometry::side;
use crate::maps::{fill_map, lemma_filled, map_get, valid_mode, BlockMaps, DC_MODE};
use crate::math::ceil_div;

verus! {

/// The three most probable luma modes next to two neighbours.
pub open spec fn mpm_of(left: u8, above: u8) -> Seq<u8> {
    if left == above {
        if left < 2 {
            seq![0u8, 1u8, 26u8]
        } else {
            seq![left, (2 + (left + 29) % 32) as u8, (2 + (left - 2 + 1) % 32) as u8]
        }
    } else {
        let third: u8 = if left != 0 && above != 0 {
            0
        } else if left != 1 && above != 1 {
            1
        } else {
            26
        };
        seq![left, above, third]
    }
}

/// The most probable modes next to neighbours of modes up to 34.
pub fn fill_mpm_candidates(left: u8, above: u8) -> (mpm: [u8; 3])
    requires
        left <= 34,
        above <= 34,
    ensures
        mpm@ == mpm_of(left, above),
{
    let mpm: [u8; 3] = if left == above {
        if left < 2 {
            [0, 1, 26]
        } else {
            [left, 2 + (left + 29) % 32, 2 + (left - 2 + 1) % 32]
        }
    } else {
        let third: u8 = if left != 0 && above != 0 {
            0
        } else if left != 1 && above != 1 {
            1
        } else {
            26
        };
        [left, above, third]
    };
    assert(mpm@ =~= mpm_of(left, above));
    mpm
}

/// The most probable modes are three different modes, and the neighbours' modes are among
/// them.
pub proof fn law_mpm(left: u8, above: u8)
    requires
        left <= 34,
        above <= 34,
    ensures
        ({
            let m = mpm_of(left, above);
            &&& m.len() == 3
            &&& m[0] != m[1] && m[0] != m[2] && m[1] != m[2]
            &&& m[0] <= 34 && m[1] <= 34 && m[2] <= 34
            &&& m.contains(left) && m.contains(above)
        }),
{
    let m = mpm_of(left, above);
    if left == above && left < 2 {
        assert(m[left as int] == left);
    } else {
        assert(m[0] == left);
        if left != above {
            assert(m[1] == above);
        }
    }
}

/// The contents of the maps while a quadtree is coded.
pub struct MapState {
    pub modes: Seq<u8>,
    pub depths: Seq<u8>,
}

pub open spec fn state_of(maps: &BlockMaps) -> MapState {
    MapState { modes: maps.mode_map@, depths: maps.ct_depth_map@ }
}

/// The maps belong to the same picture.
pub open spec fn same_picture(a: &BlockMaps, b: &BlockMaps) -> bool {
    &&& a.width == b.width
    &&& a.height == b.height
    &&& a.tile_grid == b.tile_grid
    &&& a.mode_stride == b.mode_stride
    &&& a.ct_depth_stride == b.ct_depth_stride
}

pub open spec fn mode_in(pic: &BlockMaps, modes: Seq<u8>, x: int, y: int) -> u8 {
    map_get(modes, pic.mode_stride as int, x / 4, y / 4, DC_MODE)
}

/// The most probable modes of a block, from the modes noted so far.
pub open spec fn mpm_at(pic: &BlockMaps, modes: Seq<u8>, x0: u32, y0: u32) -> Seq<u8> {
    let left = if x0 == 0 || !pic.tile_grid.same_tile((x0 - 1) as u32, y0, x0, y0) {
        DC_MODE
    } else {
        valid_mode(mode_in(pic, modes, x0 - 1, y0 as int))
    };
    let above = if y0 == 0 || !pic.tile_grid.same_tile(x0, (y0 - 1) as u32, x0, y0) || y0 % 64
        == 0 {
        DC_MODE
    } else {
        valid_mode(mode_in(pic, modes, x0 as int, y0 - 1))
    };
    mpm_of(left, above)
}

pub open spec fn with_depth(
    pic: &BlockMaps,
    s: MapState,
    x0: int,
    y0: int,
    log2_size: u8,
    depth: u8,
) -> MapState {
    MapState {
        depths: fill_map(
            s.depths,
            pic.ct_depth_stride as int,
            x0 / 8,
            y0 / 8,
            ceil_div(side(log2_size), 8),
            depth,
        ),
        ..s
    }
}

pub open spec fn with_mode(
    pic: &BlockMaps,
    s: MapState,
    x0: int,
    y0: int,
    log2_size: u8,
    mode: u8,
) -> MapState {
    MapState {
        modes: fill_map(
            s.modes,
            pic.mode_stride as int,
            x0 / 4,
            y0 / 4,
            side(log2_size) / 4,
            mode,
        ),
        ..s
    }
}

/// The most probable modes of a block.
pub fn mpm_here(maps: &BlockMaps, x0: u32, y0: u32) -> (mpm: [u8; 3])
    ensures
        mpm@ == mpm_at(maps, maps.mode_map@, x0, y0),
{
    let left: u8 = maps.neighbor_left_mode(x0, y0);
    let above: u8 = maps.neighbor_above_mode(x0, y0);
    fill_mpm_candidates(left, above)
}

/// Notes the depth of a coding unit.
pub fn note_depth(maps: &mut BlockMaps, x0: u32, y0: u32, log2_size: u8, depth: u8)
    requires
        log2_size < 31,
    ensures
        same_picture(final(maps), old(maps)),
        state_of(final(maps)) == with_depth(
            old(maps),
            state_of(old(maps)),
            x0 as int,
            y0 as int,
            log2_size,
            depth,
        ),
{
    let ghost before = *maps;
    maps.set_ct_depth(x0, y0, log2_size, depth);
    proof {
        lemma_filled(
            before.ct_depth_map@,
            maps.ct_depth_map@,
            before.ct_depth_stride as int,
            x0 as int / 8,
            y0 as int / 8,
            ceil_div(side(log2_size), 8),
            depth,
        );
    }
}

/// Notes the luma mode of a block.
pub fn note_mode(maps: &mut BlockMaps, x0: u32, y0: u32, log2_size: u8, mode: u8)
    requires
        log2_size < 31,
    ensures
        same_picture(final(maps), old(maps)),
        state_of(final(maps)) == with_mode(
            old(maps),
            state_of(old(maps)),
            x0 as int,
            y0 as int,
            log2_size,
            mode,
        ),
{
    let ghost before = *maps;
    maps.store_mode(x0, y0, log2_size, mode);
    proof {
        lemma_filled(
            before.mode_map@,
            maps.mode_map@,
            before.mode_stride as int,
            x0 as int / 4,
            y0 as int / 4,
            side(log2_size) / 4,
            mode,
        );
    }
}

/// The QPs of a coding unit: the group's where quantisation is adaptive, else those of
/// the slice.
pub fn cu_qps(
    aq: &mut AqState,
    offsets: &QgOffsets,
    cat: u8,
    slice_qps: (i32, i32),
    x0: u32,
    y0: u32,
) -> (qps: (i32, i32))
    requires
        old(aq).active ==> old(aq).well_formed() && old(aq).memo_ok(offsets),
        x0 <= i32::MAX,
        y0 <= i32::MAX,
    ensures
        !old(aq).active ==> qps == slice_qps && *final(aq) == *old(aq),
        old(aq).active ==> ({
            &&& (qps.0 as int, qps.1 as int) == group_qps(
                old(aq).slice_qp_y as int,
                old(aq).qp_bd_offset as int,
                offsets,
                cat,
                x0 as int,
                y0 as int,
            )
            &&& final(aq).memo_ok(offsets)
            &&& final(aq).well_formed()
            &&& final(aq).active
        }),
{
    if !aq.active {
        return slice_qps;
    }
    aq.aq_set_cu_qp(offsets, cat, x0, y0)
}

} // verus!
