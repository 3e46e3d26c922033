//! Per-block maps of a picture.

use vstd::prelude::*;

use crate::geometry::{block_side, side};
use crate::math::{ceil_div, ceil_div_u32};

verus! {

/// Where a map keeps the cell at column `x` of row `y`.
pub open spec fn cell_index(stride: int, x: int, y: int) -> int {
    y * stride + x
}

/// Place `i` of a map belongs to one of the `n` by `n` cells at `(sx, sy)`.
pub open spec fn covers(stride: int, sx: int, sy: int, n: int, i: int) -> bool {
    exists|x: int, y: int|
        sx <= x < sx + n && sy <= y < sy + n && i == #[trigger] cell_index(stride, x, y)
}

/// `after` is `before` with `value` in the `n` by `n` cells at `(sx, sy)`, as far as the
/// map goes.
pub open spec fn filled(
    before: Seq<u8>,
    after: Seq<u8>,
    stride: int,
    sx: int,
    sy: int,
    n: int,
    value: u8,
) -> bool {
    &&& after.len() == before.len()
    &&& forall|i: int|
        0 <= i < before.len() ==> #[trigger] after[i] == if covers(stride, sx, sy, n, i) {
            value
        } else {
            before[i]
        }
}

/// A map with `value` in the `n` by `n` cells at `(sx, sy)`, as far as the map goes.
pub open spec fn fill_map(
    map: Seq<u8>,
    stride: int,
    sx: int,
    sy: int,
    n: int,
    value: u8,
) -> Seq<u8> {
    Seq::new(
        map.len(),
        |i: int|
            if covers(stride, sx, sy, n, i) {
                value
            } else {
                map[i]
            },
    )
}

/// A filled map is the map with the cells filled.
pub proof fn lemma_filled(
    before: Seq<u8>,
    after: Seq<u8>,
    stride: int,
    sx: int,
    sy: int,
    n: int,
    value: u8,
)
    requires
        filled(before, after, stride, sx, sy, n, value),
    ensures
        after == fill_map(before, stride, sx, sy, n, value),
{
    assert(after =~= fill_map(before, stride, sx, sy, n, value));
}

spec fn covers_first(
    stride: int,
    sx: int,
    sy: int,
    n: int,
    rows: int,
    cols: int,
    i: int,
) -> bool {
    exists|x: int, y: int|
        sx <= x < sx + n && sy <= y < sy + n && (y < sy + rows || (y == sy + rows && x < sx + cols))
            && i == #[trigger] cell_index(stride, x, y)
}

/// Writes `value` into the `n` by `n` cells at `(sx, sy)`. Cells beyond the map are left
/// out.
pub fn fill_region(map: &mut Vec<u8>, stride: usize, sx: u32, sy: u32, n: u32, value: u8)
    requires
        sx + n <= u32::MAX,
        sy + n <= u32::MAX,
    ensures
        filled(
            old(map)@,
            final(map)@,
            stride as int,
            sx as int,
            sy as int,
            n as int,
            value,
        ),
{
    let ghost before = map@;
    let ghost (st, x0, y0, k) = (stride as int, sx as int, sy as int, n as int);
    let mut dy: u32 = 0;
    while dy < n
        invariant
            sx + n <= u32::MAX,
            sy + n <= u32::MAX,
            dy <= n,
            (st, x0, y0, k) == (stride as int, sx as int, sy as int, n as int),
            map@.len() == before.len(),
            forall|i: int|
                0 <= i < before.len() ==> #[trigger] map@[i] == if covers_first(
                    st,
                    x0,
                    y0,
                    k,
                    dy as int,
                    0,
                    i,
                ) {
                    value
                } else {
                    before[i]
                },
        decreases n - dy,
    {
        let mut dx: u32 = 0;
        while dx < n
            invariant
                sx + n <= u32::MAX,
                sy + n <= u32::MAX,
                dy < n,
                dx <= n,
                (st, x0, y0, k) == (stride as int, sx as int, sy as int, n as int),
                map@.len() == before.len(),
                forall|i: int|
                    0 <= i < before.len() ==> #[trigger] map@[i] == if covers_first(
                        st,
                        x0,
                        y0,
                        k,
                        dy as int,
                        dx as int,
                        i,
                    ) {
                        value
                    } else {
                        before[i]
                    },
            decreases n - dx,
        {
            let ghost prev = map@;
            let ghost (cx, cy) = (sx + dx, sy + dy);
            let ghost place = cell_index(st, cx, cy);
            let row: Option<usize> = ((sy + dy) as usize).checked_mul(stride);
            let idx: Option<usize> = match row {
                Some(start) => start.checked_add((sx + dx) as usize),
                None => None,
            };
            proof {
                assert(cy * st >= 0) by (nonlinear_arith)
                    requires
                        cy >= 0,
                        st >= 0,
                ;
            }
            let len: usize = map.len();
            assert(match idx {
                Some(i) => i == place,
                None => place > len,
            });
            match idx {
                Some(i) => {
                    if i < len {
                        map.set(i, value);
                    }
                },
                None => {},
            }
            assert(forall|i: int|
                0 <= i < before.len() ==> #[trigger] map@[i] == if i == place {
                    value
                } else {
                    prev[i]
                });
            proof {
                assert forall|i: int| 0 <= i < before.len() implies #[trigger] map@[i]
                    == if covers_first(st, x0, y0, k, dy as int, dx + 1, i) {
                    value
                } else {
                    before[i]
                } by {
                    if i == place {
                        assert(covers_first(st, x0, y0, k, dy as int, dx + 1, i));
                    } else {
                        assert(map@[i] == prev[i]);
                        if covers_first(st, x0, y0, k, dy as int, dx as int, i) {
                            let (x, y) = choose|x: int, y: int|
                                x0 <= x < x0 + k && y0 <= y < y0 + k && (y < y0 + dy || (y == y0
                                    + dy && x < x0 + dx)) && i == #[trigger] cell_index(st, x, y);
                            assert(i == cell_index(st, x, y));
                            assert(covers_first(st, x0, y0, k, dy as int, dx + 1, i));
                        } else if covers_first(st, x0, y0, k, dy as int, dx + 1, i) {
                            let (x, y) = choose|x: int, y: int|
                                x0 <= x < x0 + k && y0 <= y < y0 + k && (y < y0 + dy || (y == y0
                                    + dy && x < x0 + dx + 1)) && i == #[trigger] cell_index(
                                    st,
                                    x,
                                    y,
                                );
                            assert(i == cell_index(st, x, y));
                            assert(false);
                        }
                    }
                }
            }
            dx = dx + 1;
        }
        proof {
            assert forall|i: int| 0 <= i < before.len() implies #[trigger] map@[i]
                == if covers_first(st, x0, y0, k, dy + 1, 0, i) {
                value
            } else {
                before[i]
            } by {
                lemma_row_done(st, x0, y0, k, dy as int, i);
            }
        }
        dy = dy + 1;
    }
    proof {
        assert forall|i: int| 0 <= i < before.len() implies #[trigger] map@[i] == if covers(
            st,
            x0,
            y0,
            k,
            i,
        ) {
            value
        } else {
            before[i]
        } by {
            if covers(st, x0, y0, k, i) {
                let (x, y) = choose|x: int, y: int|
                    x0 <= x < x0 + k && y0 <= y < y0 + k && i == #[trigger] cell_index(st, x, y);
                assert(i == cell_index(st, x, y));
                assert(covers_first(st, x0, y0, k, k, 0, i));
            }
        }
    }
}

/// A row finished is the next row begun.
proof fn lemma_row_done(stride: int, sx: int, sy: int, n: int, dy: int, i: int)
    ensures
        covers_first(stride, sx, sy, n, dy, n, i) == covers_first(stride, sx, sy, n, dy + 1, 0, i),
{
    if covers_first(stride, sx, sy, n, dy, n, i) {
        let (x, y) = choose|x: int, y: int|
            sx <= x < sx + n && sy <= y < sy + n && (y < sy + dy || (y == sy + dy && x < sx + n))
                && i == #[trigger] cell_index(stride, x, y);
        assert(i == cell_index(stride, x, y));
        assert(covers_first(stride, sx, sy, n, dy + 1, 0, i));
    }
    if covers_first(stride, sx, sy, n, dy + 1, 0, i) {
        let (x, y) = choose|x: int, y: int|
            sx <= x < sx + n && sy <= y < sy + n && (y < sy + dy + 1 || (y == sy + dy + 1 && x < sx
                + 0)) && i == #[trigger] cell_index(stride, x, y);
        assert(i == cell_index(stride, x, y));
        assert(covers_first(stride, sx, sy, n, dy, n, i));
    }
}

/// In a region that stays within a map's rows, a cell is covered exactly when it lies in
/// the square.
pub proof fn law_region_is_square(stride: int, sx: int, sy: int, n: int, x: int, y: int)
    requires
        0 <= sx,
        sx + n <= stride,
        0 <= x < stride,
    ensures
        covers(stride, sx, sy, n, cell_index(stride, x, y)) <==> sx <= x < sx + n && sy <= y < sy
            + n,
{
    let i = cell_index(stride, x, y);
    if covers(stride, sx, sy, n, i) {
        let (cx, cy) = choose|cx: int, cy: int|
            sx <= cx < sx + n && sy <= cy < sy + n && i == #[trigger] cell_index(stride, cx, cy);
        assert(i == cell_index(stride, cx, cy));
        assert(cy == y && cx == x) by (nonlinear_arith)
            requires
                y * stride + x == cy * stride + cx,
                0 <= x < stride,
                0 <= cx < stride,
        ;
    }
}

/// Tile boundaries, in coding tree blocks: where each column and each row begins.
pub struct TileGrid {
    pub col_starts: Vec<u32>,
    pub row_starts: Vec<u32>,
}

/// How many tiles begin at or before a position.
pub open spec fn tile_rank(starts: Seq<u32>, pos: int) -> nat
    decreases starts.len(),
{
    if starts.len() == 0 {
        0
    } else {
        tile_rank(starts.drop_last(), pos) + (if starts.last() <= pos {
            1nat
        } else {
            0nat
        })
    }
}

fn count_starts(starts: &Vec<u32>, pos: u32) -> (rank: usize)
    ensures
        rank == tile_rank(starts@, pos as int),
{
    let mut rank: usize = 0;
    let n: usize = starts.len();
    for i in 0..n
        invariant
            n == starts@.len(),
            rank <= i,
            rank == tile_rank(starts@.take(i as int), pos as int),
    {
        assert(starts@.take(i + 1).drop_last() =~= starts@.take(i as int));
        if starts[i] <= pos {
            rank = rank + 1;
        }
    }
    assert(starts@.take(n as int) =~= starts@);
    rank
}

impl TileGrid {
    /// A single tile.
    pub fn single() -> (g: Self)
        ensures
            forall|ax: u32, ay: u32, bx: u32, by: u32| g.same_tile(ax, ay, bx, by),
    {
        let g = TileGrid { col_starts: Vec::new(), row_starts: Vec::new() };
        g
    }

    /// Two samples lie in one tile.
    pub open spec fn same_tile(&self, ax: u32, ay: u32, bx: u32, by: u32) -> bool {
        &&& tile_rank(self.col_starts@, ax as int / 64) == tile_rank(
            self.col_starts@,
            bx as int / 64,
        )
        &&& tile_rank(self.row_starts@, ay as int / 64) == tile_rank(
            self.row_starts@,
            by as int / 64,
        )
    }

    pub fn same_tile_px(&self, ax: u32, ay: u32, bx: u32, by: u32) -> (r: bool)
        ensures
            r == self.same_tile(ax, ay, bx, by),
    {
        let ctb: u32 = 64;
        count_starts(&self.col_starts, ax / ctb) == count_starts(&self.col_starts, bx / ctb)
            && count_starts(&self.row_starts, ay / ctb) == count_starts(&self.row_starts, by / ctb)
    }
}

/// The luma mode that stands for an unavailable neighbour: DC.
pub const DC_MODE: u8 = 1;

/// The depth of a cell that no coding unit covers yet.
pub const NO_DEPTH: u8 = 0xFF;

/// What the coding of a picture knows about the blocks behind it.
pub struct BlockMaps {
    pub width: u32,
    pub height: u32,
    pub tile_grid: TileGrid,
    /// Luma mode per 4x4 cell.
    pub mode_map: Vec<u8>,
    pub mode_stride: usize,
    /// Coding unit depth per 8x8 cell.
    pub ct_depth_map: Vec<u8>,
    pub ct_depth_stride: usize,
}

/// What a map holds at a place, or `other` behind its end.
pub open spec fn map_get(map: Seq<u8>, stride: int, x: int, y: int, other: u8) -> u8 {
    let i = cell_index(stride, x, y);
    if i < map.len() {
        map[i]
    } else {
        other
    }
}

fn map_at(map: &Vec<u8>, stride: usize, x: u32, y: u32, other: u8) -> (v: u8)
    ensures
        v == map_get(map@, stride as int, x as int, y as int, other),
{
    let len: usize = map.len();
    let row: Option<usize> = (y as usize).checked_mul(stride);
    let idx: Option<usize> = match row {
        Some(start) => start.checked_add(x as usize),
        None => None,
    };
    proof {
        assert(y * stride >= 0) by (nonlinear_arith);
        assert(match idx {
            Some(i) => i == cell_index(stride as int, x as int, y as int),
            None => cell_index(stride as int, x as int, y as int) > len,
        });
    }
    match idx {
        Some(i) => if i < len {
            map[i]
        } else {
            other
        },
        None => other,
    }
}

impl BlockMaps {
    /// The depth of the coding unit at a sample.
    pub open spec fn depth_at(&self, x: int, y: int) -> u8 {
        map_get(self.ct_depth_map@, self.ct_depth_stride as int, x / 8, y / 8, NO_DEPTH)
    }

    pub fn ct_depth_at(&self, x: u32, y: u32) -> (d: u8)
        ensures
            d == self.depth_at(x as int, y as int),
    {
        map_at(&self.ct_depth_map, self.ct_depth_stride, x / 8, y / 8, NO_DEPTH)
    }

    /// A neighbouring sample, where it exists, lies in the same tile and in a coding unit
    /// deeper than `depth`.
    pub open spec fn deeper(&self, nx: int, ny: int, x0: u32, y0: u32, depth: u8) -> bool {
        &&& nx >= 0 && ny >= 0
        &&& self.tile_grid.same_tile(nx as u32, ny as u32, x0, y0)
        &&& self.depth_at(nx, ny) != NO_DEPTH
        &&& self.depth_at(nx, ny) > depth
    }

    /// How many of the left and upper neighbours are split deeper: the context of the
    /// split flag.
    pub open spec fn split_inc(&self, x0: u32, y0: u32, depth: u8) -> int {
        (if self.deeper(x0 - 1, y0 as int, x0, y0, depth) {
            1int
        } else {
            0
        }) + (if self.deeper(x0 as int, y0 - 1, x0, y0, depth) {
            1int
        } else {
            0
        })
    }

    pub fn split_ctx_inc(&self, x0: u32, y0: u32, ct_depth: u8) -> (inc: usize)
        ensures
            inc == self.split_inc(x0, y0, ct_depth),
            inc <= 2,
    {
        let mut inc: usize = 0;
        if x0 > 0 && self.tile_grid.same_tile_px(x0 - 1, y0, x0, y0) {
            let d: u8 = self.ct_depth_at(x0 - 1, y0);
            if d != NO_DEPTH && d > ct_depth {
                inc = inc + 1;
            }
        }
        if y0 > 0 && self.tile_grid.same_tile_px(x0, y0 - 1, x0, y0) {
            let d: u8 = self.ct_depth_at(x0, y0 - 1);
            if d != NO_DEPTH && d > ct_depth {
                inc = inc + 1;
            }
        }
        inc
    }

    /// Everything but the depth map is as in `other`.
    pub open spec fn same_but_depth(&self, other: &Self) -> bool {
        *self == (BlockMaps { ct_depth_map: self.ct_depth_map, ..*other })
    }

    /// Everything but the mode map is as in `other`.
    pub open spec fn same_but_modes(&self, other: &Self) -> bool {
        *self == (BlockMaps { mode_map: self.mode_map, ..*other })
    }

    /// Notes a coding unit's depth.
    pub fn set_ct_depth(&mut self, x0: u32, y0: u32, log2_size: u8, ct_depth: u8)
        requires
            log2_size < 32,
        ensures
            final(self).same_but_depth(old(self)),
            filled(
                old(self).ct_depth_map@,
                final(self).ct_depth_map@,
                old(self).ct_depth_stride as int,
                x0 as int / 8,
                y0 as int / 8,
                ceil_div(side(log2_size), 8),
                ct_depth,
            ),
    {
        let n: u32 = ceil_div_u32(block_side(log2_size), 8);
        fill_region(&mut self.ct_depth_map, self.ct_depth_stride, x0 / 8, y0 / 8, n, ct_depth);
    }

    /// Notes a coding unit's luma mode.
    pub fn store_mode(&mut self, x0: u32, y0: u32, log2_size: u8, mode: u8)
        requires
            log2_size < 32,
        ensures
            final(self).same_but_modes(old(self)),
            filled(
                old(self).mode_map@,
                final(self).mode_map@,
                old(self).mode_stride as int,
                x0 as int / 4,
                y0 as int / 4,
                side(log2_size) / 4,
                mode,
            ),
    {
        let n: u32 = block_side(log2_size) / 4;
        fill_region(&mut self.mode_map, self.mode_stride, x0 / 4, y0 / 4, n, mode);
    }

    /// The luma mode noted for a sample.
    pub open spec fn stored_mode(&self, x: int, y: int) -> u8 {
        map_get(self.mode_map@, self.mode_stride as int, x / 4, y / 4, DC_MODE)
    }

    pub fn mode_at(&self, x: u32, y: u32) -> (m: u8)
        ensures
            m == self.stored_mode(x as int, y as int),
    {
        map_at(&self.mode_map, self.mode_stride, x / 4, y / 4, DC_MODE)
    }

    /// The mode of the left neighbour, DC where there is none in the tile. A number
    /// above 34 is no mode and counts as DC.
    pub open spec fn left_mode(&self, x0: u32, y0: u32) -> u8 {
        if x0 == 0 || !self.tile_grid.same_tile((x0 - 1) as u32, y0, x0, y0) {
            DC_MODE
        } else {
            valid_mode(self.stored_mode(x0 - 1, y0 as int))
        }
    }

    pub fn neighbor_left_mode(&self, x0: u32, y0: u32) -> (m: u8)
        ensures
            m == self.left_mode(x0, y0),
    {
        if x0 == 0 || !self.tile_grid.same_tile_px(x0 - 1, y0, x0, y0) {
            return DC_MODE;
        }
        let m: u8 = self.mode_at(x0 - 1, y0);
        if m <= 34 {
            m
        } else {
            DC_MODE
        }
    }

    /// The mode of the upper neighbour, DC where there is none in the tile or where it
    /// lies in another row of coding tree blocks.
    pub open spec fn above_mode(&self, x0: u32, y0: u32) -> u8 {
        if y0 == 0 || !self.tile_grid.same_tile(x0, (y0 - 1) as u32, x0, y0) || y0 % 64 == 0 {
            DC_MODE
        } else {
            valid_mode(self.stored_mode(x0 as int, y0 - 1))
        }
    }

    pub fn neighbor_above_mode(&self, x0: u32, y0: u32) -> (m: u8)
        ensures
            m == self.above_mode(x0, y0),
    {
        if y0 == 0 || !self.tile_grid.same_tile_px(x0, y0 - 1, x0, y0) {
            return DC_MODE;
        }
        let ctb_y_start: u32 = (y0 / 64) * 64;
        if y0 - 1 < ctb_y_start {
            return DC_MODE;
        }
        let m: u8 = self.mode_at(x0, y0 - 1);
        if m <= 34 {
            m
        } else {
            DC_MODE
        }
    }
}

pub open spec fn valid_mode(m: u8) -> u8 {
    if m <= 34 {
        m
    } else {
        DC_MODE
    }
}

/// A mode stored for a block is the mode found at each of its samples, as far as the
/// map goes and while the block stays within its rows.
pub proof fn law_stored_mode_is_found(
    before: BlockMaps,
    after: BlockMaps,
    x0: u32,
    y0: u32,
    log2_size: u8,
    mode: u8,
    x: int,
    y: int,
)
    requires
        log2_size < 32,
        side(log2_size) >= 4,
        x0 % 4 == 0,
        y0 % 4 == 0,
        after.same_but_modes(&before),
        filled(
            before.mode_map@,
            after.mode_map@,
            before.mode_stride as int,
            x0 as int / 4,
            y0 as int / 4,
            side(log2_size) / 4,
            mode,
        ),
        x0 as int / 4 + side(log2_size) / 4 <= before.mode_stride,
        0 <= x / 4 < before.mode_stride,
        0 <= y,
        cell_index(before.mode_stride as int, x / 4, y / 4) < before.mode_map@.len(),
    ensures
        after.stored_mode(x, y) == if x0 as int / 4 <= x / 4 < x0 as int / 4 + side(log2_size) / 4
            && y0 as int / 4 <= y / 4 < y0 as int / 4 + side(log2_size) / 4 {
            mode
        } else {
            before.stored_mode(x, y)
        },
{
    let stride = before.mode_stride as int;
    let i = cell_index(stride, x / 4, y / 4);
    law_region_is_square(
        stride,
        x0 as int / 4,
        y0 as int / 4,
        side(log2_size) / 4,
        x / 4,
        y / 4,
    );
    assert(i >= 0) by (nonlinear_arith)
        requires
            i == (y / 4) * stride + x / 4,
            y / 4 >= 0,
            x / 4 >= 0,
            stride >= 0,
    ;
    assert(after.mode_map@[i] == if covers(
        stride,
        x0 as int / 4,
        y0 as int / 4,
        side(log2_size) / 4,
        i,
    ) {
        mode
    } else {
        before.mode_map@[i]
    });
}

} // verus!
