//! Undoing trials: copies of regions of the reconstruction and of the block maps.

use vstd::prelude::*;

use crate::frame::{Frame, Plane};
use crate::geometry::{block_side, chroma_tb_geom, side, spec_chroma_tb_geom};
use crate::math::{min_int, min_usize};
use crate::region::{
    copy_rect, copy_rect_into, law_paste_undoes, paste_rect, rect_copy, rect_pasted, Rect,
};
use crate::stats::EncodeStats;

verus! {

/// A rectangle moved and cut so that it lies in an area.
pub open spec fn clamped_rect(
    x: int,
    y: int,
    width: int,
    height: int,
    area_w: int,
    area_h: int,
) -> (int, int, int, int) {
    let cx = min_int(x, area_w);
    let cy = min_int(y, area_h);
    (cx, cy, min_int(width, area_w - cx), min_int(height, area_h - cy))
}

pub open spec fn is_clamped(
    r: Rect,
    x: int,
    y: int,
    width: int,
    height: int,
    area_w: int,
    area_h: int,
) -> bool {
    (r.x as int, r.y as int, r.width as int, r.height as int) == clamped_rect(
        x,
        y,
        width,
        height,
        area_w,
        area_h,
    )
}

fn clamp_rect(
    x: usize,
    y: usize,
    width: usize,
    height: usize,
    area_w: usize,
    area_h: usize,
) -> (r: Rect)
    ensures
        is_clamped(
            r,
            x as int,
            y as int,
            width as int,
            height as int,
            area_w as int,
            area_h as int,
        ),
{
    let cx: usize = min_usize(x, area_w);
    let cy: usize = min_usize(y, area_h);
    Rect {
        x: cx,
        y: cy,
        width: min_usize(width, area_w - cx),
        height: min_usize(height, area_h - cy),
    }
}

/// A copy of a region of a map.
pub struct MapSnapshot {
    pub rect: Rect,
    pub stride: usize,
    pub data: Vec<u8>,
}

impl MapSnapshot {
    /// The snapshot is of a map with that many cells.
    pub open spec fn of_map(&self, len: int) -> bool {
        &&& self.stride > 0
        &&& self.rect.fits(self.stride as int, len)
        &&& self.data@.len() == self.rect.width * self.rect.height
    }
}

pub proof fn lemma_rect_cells(r: Rect, stride: int, rows: int, len: int)
    requires
        r.x + r.width <= stride,
        r.y + r.height <= rows,
        rows * stride <= len,
        stride >= 0,
    ensures
        r.fits(stride, len),
        0 <= r.width * r.height <= len,
{
    let (w, h, yh) = (r.width as int, r.height as int, r.y + r.height);
    assert(yh * stride <= rows * stride) by (nonlinear_arith)
        requires
            yh <= rows,
            stride >= 0,
    ;
    assert(0 <= w * h <= rows * stride) by (nonlinear_arith)
        requires
            0 <= w <= stride,
            0 <= h <= rows,
    ;
}

/// Copies a region of a map of whole rows. A region that reaches over the map's edge is
/// cut.
pub fn snapshot_map(
    map: &Vec<u8>,
    stride: usize,
    x: usize,
    y: usize,
    width: usize,
    height: usize,
) -> (s: MapSnapshot)
    requires
        stride > 0,
        map@.len() % stride as nat == 0,
    ensures
        is_clamped(
            s.rect,
            x as int,
            y as int,
            width as int,
            height as int,
            stride as int,
            map@.len() as int / stride as int,
        ),
        s.stride == stride,
        s.of_map(map@.len() as int),
        s.data@ == rect_copy(map@, stride as int, s.rect),
{
    let len: usize = map.len();
    let rows: usize = len / stride;
    let rect = clamp_rect(x, y, width, height, stride, rows);
    proof {
        vstd::arithmetic::div_mod::lemma_fundamental_div_mod(len as int, stride as int);
        assert(rows * stride == len) by (nonlinear_arith)
            requires
                len == stride * rows,
        ;
        lemma_rect_cells(rect, stride as int, rows as int, len as int);
    }
    let data = copy_rect(map, stride, rect);
    MapSnapshot { rect, stride, data }
}

/// Puts a copied region back.
pub fn restore_map(map: &mut Vec<u8>, snapshot: &MapSnapshot)
    requires
        snapshot.of_map(old(map)@.len() as int),
    ensures
        final(map)@ == rect_pasted(
            old(map)@,
            snapshot.stride as int,
            snapshot.rect,
            snapshot.data@,
        ),
{
    paste_rect(map, snapshot.stride, snapshot.rect, &snapshot.data);
}

/// Restoring a map undoes every change within the region.
pub proof fn law_map_restored(before: Seq<u8>, changed: Seq<u8>, s: MapSnapshot)
    requires
        s.of_map(before.len() as int),
        s.data@ == rect_copy(before, s.stride as int, s.rect),
        changed.len() == before.len(),
        forall|i: int|
            0 <= i < before.len() && !s.rect.holds(s.stride as int, i) ==> #[trigger] changed[i]
                == before[i],
    ensures
        rect_pasted(changed, s.stride as int, s.rect, s.data@) == before,
{
    law_paste_undoes(before, changed, s.stride as int, s.rect);
}

/// A copy of a region of a plane.
pub struct PlaneSnapshot {
    pub c_idx: u8,
    pub rect: Rect,
    pub data: Vec<u16>,
}

/// Copies of a region in each plane that has it.
pub struct FrameSnapshot {
    pub planes: Vec<PlaneSnapshot>,
}

impl PlaneSnapshot {
    /// The snapshot has a place in the frame.
    pub open spec fn of_frame(&self, frame: &Frame) -> bool {
        &&& self.c_idx < 3
        &&& self.rect.x + self.rect.width <= frame.planes@[self.c_idx as int].width
        &&& self.rect.y + self.rect.height <= frame.planes@[self.c_idx as int].height
        &&& self.data@.len() == self.rect.width * self.rect.height
    }

    /// The snapshot is a copy of the plane's region `x`, `y`, `width`, `height`, cut at
    /// the plane's edges.
    pub open spec fn copies(
        &self,
        frame: &Frame,
        c_idx: u8,
        x: int,
        y: int,
        width: int,
        height: int,
    ) -> bool {
        let plane = frame.planes@[c_idx as int];
        &&& self.c_idx == c_idx
        &&& is_clamped(
            self.rect,
            x,
            y,
            width,
            height,
            plane.width as int,
            plane.height as int,
        )
        &&& self.data@ == rect_copy(plane.data@, plane.stride as int, self.rect)
    }
}

/// Copies a region of a plane into a buffer, without counting it.
pub fn copy_plane(
    frame: &Frame,
    c_idx: u8,
    x: u32,
    y: u32,
    width: usize,
    height: usize,
    buffer: Vec<u16>,
) -> (s: PlaneSnapshot)
    requires
        frame.well_formed(),
        c_idx < 3,
    ensures
        s.of_frame(frame),
        s.copies(frame, c_idx, x as int, y as int, width as int, height as int),
        s.data@.len() <= width * height,
{
    let plane = &frame.planes[c_idx as usize];
    let rect = clamp_rect(x as usize, y as usize, width, height, plane.width, plane.height);
    let mut data = buffer;
    proof {
        assert(plane.well_formed());
        plane.lemma_rows();
        let len = plane.data@.len() as int;
        lemma_rect_cells(rect, plane.stride as int, plane.height as int, len);
        let (rw, rh, w, h) = (
            rect.width as int,
            rect.height as int,
            width as int,
            height as int,
        );
        assert(rw * rh <= w * h) by (nonlinear_arith)
            requires
                0 <= rw <= w,
                0 <= rh <= h,
        ;
    }
    copy_rect_into(&plane.data, plane.stride, rect, &mut data);
    PlaneSnapshot { c_idx, rect, data }
}

/// Copies a region of a plane into a buffer of an earlier snapshot.
fn fill_plane(
    frame: &Frame,
    stats: &mut EncodeStats,
    c_idx: u8,
    x: u32,
    y: u32,
    width: usize,
    height: usize,
    buffer: Vec<u16>,
) -> (s: PlaneSnapshot)
    requires
        frame.well_formed(),
        c_idx < 3,
        old(stats).snapshot_room(1, 2 * (width * height)),
    ensures
        s.of_frame(frame),
        s.copies(frame, c_idx, x as int, y as int, width as int, height as int),
        *final(stats) == (EncodeStats {
            frame_snapshots: (old(stats).frame_snapshots + 1) as u64,
            bytes_snapshotted: (old(stats).bytes_snapshotted + 2 * s.data@.len()) as u64,
            ..*old(stats)
        }),
        s.data@.len() <= width * height,
{
    let s = copy_plane(frame, c_idx, x, y, width, height, buffer);
    let samples: usize = s.data.len();
    stats.note_frame_snapshot(2 * samples as u64);
    s
}

/// Copies a region of a plane.
pub fn snapshot_plane(
    frame: &Frame,
    stats: &mut EncodeStats,
    c_idx: u8,
    x: u32,
    y: u32,
    width: usize,
    height: usize,
) -> (s: PlaneSnapshot)
    requires
        frame.well_formed(),
        c_idx < 3,
        old(stats).snapshot_room(1, 2 * (width * height)),
    ensures
        s.of_frame(frame),
        s.copies(frame, c_idx, x as int, y as int, width as int, height as int),
        *final(stats) == (EncodeStats {
            frame_snapshots: (old(stats).frame_snapshots + 1) as u64,
            bytes_snapshotted: (old(stats).bytes_snapshotted + 2 * s.data@.len()) as u64,
            ..*old(stats)
        }),
        s.data@.len() <= width * height,
{
    fill_plane(frame, stats, c_idx, x, y, width, height, Vec::new())
}

/// A plane with a copied region put back.
pub open spec fn plane_restored(plane: Plane, s: PlaneSnapshot) -> Seq<u16> {
    rect_pasted(plane.data@, plane.stride as int, s.rect, s.data@)
}

/// Puts a copied region of a plane back, without counting it.
pub fn paste_plane(frame: &mut Frame, snapshot: &PlaneSnapshot)
    requires
        old(frame).well_formed(),
        snapshot.of_frame(old(frame)),
    ensures
        final(frame).well_formed(),
        final(frame).same_shape(old(frame)),
        final(frame).planes@[snapshot.c_idx as int].data@ == plane_restored(
            old(frame).planes@[snapshot.c_idx as int],
            *snapshot,
        ),
        forall|c: int|
            0 <= c < 3 && c != snapshot.c_idx ==> #[trigger] final(frame).planes@[c] == old(
                frame,
            ).planes@[c],
{
    let c: usize = snapshot.c_idx as usize;
    let ghost before = *frame;
    proof {
        let p = frame.planes@[c as int];
        assert(p.well_formed());
        p.lemma_rows();
        lemma_rect_cells(snapshot.rect, p.stride as int, p.height as int, p.data@.len() as int);
    }
    let stride: usize = frame.planes[c].stride;
    let plane = &mut frame.planes[c];
    paste_rect(&mut plane.data, stride, snapshot.rect, &snapshot.data);
    proof {
        assert forall|k: int| 0 <= k < 3 implies (#[trigger] frame.planes@[k]).well_formed() by {
            assert(before.planes@[k].well_formed());
        }
    }
}

/// Puts a copied region of a plane back.
pub fn restore_plane(frame: &mut Frame, stats: &mut EncodeStats, snapshot: &PlaneSnapshot)
    requires
        old(frame).well_formed(),
        snapshot.of_frame(old(frame)),
        old(stats).snapshot_room(1, 0),
    ensures
        final(frame).well_formed(),
        final(frame).same_shape(old(frame)),
        final(frame).planes@[snapshot.c_idx as int].data@ == plane_restored(
            old(frame).planes@[snapshot.c_idx as int],
            *snapshot,
        ),
        forall|c: int|
            0 <= c < 3 && c != snapshot.c_idx ==> #[trigger] final(frame).planes@[c] == old(
                frame,
            ).planes@[c],
        *final(stats) == (EncodeStats {
            frame_restores: (old(stats).frame_restores + 1) as u64,
            ..*old(stats)
        }),
{
    stats.note_frame_restore();
    paste_plane(frame, snapshot);
}

/// The region of component `c` that a block covers: `x`, `y`, `width`, `height`.
pub open spec fn block_region(cat: u8, x0: u32, y0: u32, log2_size: u8, c: int) -> (
    int,
    int,
    int,
    int,
) {
    if c == 0 {
        (x0 as int, y0 as int, side(log2_size), side(log2_size))
    } else {
        match spec_chroma_tb_geom(cat, x0, y0, log2_size) {
            Some((cx, cy, clog2, count)) => (
                cx as int,
                cy as int,
                side(clog2),
                side(clog2) * count,
            ),
            None => (0, 0, 0, 0),
        }
    }
}

/// How many components a block covers.
pub open spec fn block_planes(cat: u8, x0: u32, y0: u32, log2_size: u8) -> nat {
    if spec_chroma_tb_geom(cat, x0, y0, log2_size) is Some {
        3
    } else {
        1
    }
}

impl FrameSnapshot {
    /// The snapshot holds components in order and each has a place in the frame.
    pub open spec fn of_frame(&self, frame: &Frame) -> bool {
        &&& self.planes@.len() <= 3
        &&& forall|k: int|
            0 <= k < self.planes@.len() ==> (#[trigger] self.planes@[k]).of_frame(frame)
                && self.planes@[k].c_idx == k
    }

    /// The snapshot is a copy of what a block covers.
    pub open spec fn copies_block(&self, frame: &Frame, x0: u32, y0: u32, log2_size: u8) -> bool {
        &&& self.planes@.len() == block_planes(frame.cat, x0, y0, log2_size)
        &&& forall|k: int|
            0 <= k < self.planes@.len() ==> (#[trigger] self.planes@[k]).copies(
                frame,
                k as u8,
                block_region(frame.cat, x0, y0, log2_size, k).0,
                block_region(frame.cat, x0, y0, log2_size, k).1,
                block_region(frame.cat, x0, y0, log2_size, k).2,
                block_region(frame.cat, x0, y0, log2_size, k).3,
            )
    }

    /// The bytes in the snapshot.
    pub open spec fn bytes(&self) -> nat {
        snapshot_bytes(self.planes@)
    }
}

pub open spec fn snapshot_bytes(planes: Seq<PlaneSnapshot>) -> nat
    decreases planes.len(),
{
    if planes.len() == 0 {
        0
    } else {
        snapshot_bytes(planes.drop_last()) + 2 * planes.last().data@.len()
    }
}

/// The counters after a snapshot.
pub open spec fn counted(before: EncodeStats, s: FrameSnapshot) -> EncodeStats {
    EncodeStats {
        frame_snapshots: (before.frame_snapshots + s.planes@.len()) as u64,
        bytes_snapshotted: (before.bytes_snapshotted + s.bytes()) as u64,
        ..before
    }
}

/// Room for the counters of a snapshot of a block.
pub open spec fn block_room(stats: &EncodeStats, log2_size: u8) -> bool {
    stats.snapshot_room(3, 6 * (side(log2_size) * side(log2_size)))
}

fn take_buffer(spare: &mut Vec<PlaneSnapshot>) -> (buffer: Vec<u16>) {
    match spare.pop() {
        Some(p) => p.data,
        None => Vec::new(),
    }
}

/// Copies what a block covers, into the buffers of a snapshot that is no longer needed.
fn snapshot_block_into(
    frame: &Frame,
    stats: &mut EncodeStats,
    x0: u32,
    y0: u32,
    log2_size: u8,
    spare: FrameSnapshot,
) -> (s: FrameSnapshot)
    requires
        frame.well_formed(),
        log2_size <= 30,
        block_room(old(stats), log2_size),
    ensures
        s.of_frame(frame),
        s.copies_block(frame, x0, y0, log2_size),
        *final(stats) == counted(*old(stats), s),
{
    let mut buffers: Vec<PlaneSnapshot> = spare.planes;
    let mut planes: Vec<PlaneSnapshot> = Vec::new();
    let size: usize = block_side(log2_size) as usize;
    let luma_buffer = take_buffer(&mut buffers);
    let luma = fill_plane(frame, stats, 0, x0, y0, size, size, luma_buffer);
    planes.push(luma);
    let geom = chroma_tb_geom(frame.cat, x0, y0, log2_size);
    assert(snapshot_bytes(planes@) == 2 * planes@[0].data@.len()) by {
        reveal_with_fuel(snapshot_bytes, 2);
    }
    match geom {
        Some((cx, cy, clog2, count)) => {
            let csize: usize = block_side(clog2) as usize;
            proof {
                lemma_chroma_side(frame.cat, x0, y0, log2_size);
            }
            let cheight: usize = csize * count as usize;
            let cb_buffer = take_buffer(&mut buffers);
            let cb = fill_plane(frame, stats, 1, cx, cy, csize, cheight, cb_buffer);
            planes.push(cb);
            let cr_buffer = take_buffer(&mut buffers);
            let cr = fill_plane(frame, stats, 2, cx, cy, csize, cheight, cr_buffer);
            planes.push(cr);
            assert(snapshot_bytes(planes@) == 2 * planes@[0].data@.len() + 2
                * planes@[1].data@.len() + 2 * planes@[2].data@.len()) by {
                reveal_with_fuel(snapshot_bytes, 4);
                assert(planes@.drop_last().drop_last().drop_last() =~= Seq::empty());
            }
        },
        None => {},
    }
    FrameSnapshot { planes }
}

/// The chroma blocks of a block are no larger than the block.
pub proof fn lemma_chroma_side(cat: u8, x0: u32, y0: u32, log2_size: u8)
    requires
        log2_size <= 30,
        spec_chroma_tb_geom(cat, x0, y0, log2_size) is Some,
    ensures
        ({
            let (_, _, clog2, count) = spec_chroma_tb_geom(cat, x0, y0, log2_size).unwrap();
            let (s, c) = (side(log2_size), side(clog2));
            &&& 0 <= c * count <= s
            &&& s <= 0x4000_0000
            &&& 0 <= c * (c * count) <= s * s
        }),
{
    let (_, _, clog2, count) = spec_chroma_tb_geom(cat, x0, y0, log2_size).unwrap();
    let (s, c) = (side(log2_size), side(clog2));
    vstd::arithmetic::power2::lemma2_to64();
    if log2_size > 0 {
        vstd::arithmetic::power2::lemma_pow2_unfold(log2_size as nat);
    }
    vstd::arithmetic::power2::lemma_pow2_pos(clog2 as nat);
    if log2_size < 30 {
        vstd::arithmetic::power2::lemma_pow2_strictly_increases(log2_size as nat, 30);
    }
    if cat == 2 {
        assert(count == 2 && 2 * c == s);
    } else {
        assert(count == 1 && c <= s);
    }
    assert(0 <= c * count <= s) by (nonlinear_arith)
        requires
            0 <= c,
            (count == 2 && 2 * c == s) || (count == 1 && c <= s),
    ;
    assert(0 <= c * (c * count) <= s * s) by (nonlinear_arith)
        requires
            0 <= c <= s,
            0 <= c * count <= s,
    ;
}

/// Copies what a block covers.
pub fn snapshot_frame_region(
    frame: &Frame,
    stats: &mut EncodeStats,
    x0: u32,
    y0: u32,
    log2_size: u8,
) -> (s: FrameSnapshot)
    requires
        frame.well_formed(),
        log2_size <= 30,
        block_room(old(stats), log2_size),
    ensures
        s.of_frame(frame),
        s.copies_block(frame, x0, y0, log2_size),
        *final(stats) == counted(*old(stats), s),
{
    snapshot_block_into(frame, stats, x0, y0, log2_size, FrameSnapshot { planes: Vec::new() })
}

/// Copies what a block covers, reusing the buffers of a snapshot from the pool. The
/// content is the same as that of [`snapshot_frame_region`].
pub fn snapshot_frame_region_pooled(
    frame: &Frame,
    stats: &mut EncodeStats,
    pool: &mut Vec<FrameSnapshot>,
    x0: u32,
    y0: u32,
    log2_size: u8,
) -> (s: FrameSnapshot)
    requires
        frame.well_formed(),
        log2_size <= 30,
        block_room(old(stats), log2_size),
    ensures
        s.of_frame(frame),
        s.copies_block(frame, x0, y0, log2_size),
        *final(stats) == counted(*old(stats), s),
        final(pool)@ == if old(pool)@.len() == 0 {
            old(pool)@
        } else {
            old(pool)@.drop_last()
        },
{
    let spare = match pool.pop() {
        Some(s) => s,
        None => FrameSnapshot { planes: Vec::new() },
    };
    assert(pool@ =~= if old(pool)@.len() == 0 {
        old(pool)@
    } else {
        old(pool)@.drop_last()
    });
    snapshot_block_into(frame, stats, x0, y0, log2_size, spare)
}

/// How many snapshots a pool keeps.
pub const POOL_LIMIT: usize = 8;

/// Gives a snapshot to the pool, unless the pool is full.
pub fn recycle_frame_snapshot(pool: &mut Vec<FrameSnapshot>, snap: FrameSnapshot)
    ensures
        final(pool)@ == if old(pool)@.len() < POOL_LIMIT {
            old(pool)@.push(snap)
        } else {
            old(pool)@
        },
        old(pool)@.len() <= POOL_LIMIT ==> final(pool)@.len() <= POOL_LIMIT,
{
    if pool.len() < POOL_LIMIT {
        pool.push(snap);
    }
}

/// A frame with a copied region put back.
pub open spec fn frame_restored(before: &Frame, after: &Frame, s: &FrameSnapshot) -> bool {
    &&& after.well_formed()
    &&& after.same_shape(before)
    &&& forall|c: int|
        0 <= c < 3 ==> (#[trigger] after.planes@[c]).data@ == if c < s.planes@.len() {
            plane_restored(before.planes@[c], s.planes@[c])
        } else {
            before.planes@[c].data@
        }
}

/// Puts back what a snapshot holds, without counting it.
pub fn paste_frame(frame: &mut Frame, snapshot: &FrameSnapshot)
    requires
        old(frame).well_formed(),
        snapshot.of_frame(old(frame)),
    ensures
        frame_restored(old(frame), final(frame), snapshot),
{
    let ghost before = *frame;
    let n: usize = snapshot.planes.len();
    for i in 0..n
        invariant
            n == snapshot.planes@.len(),
            n <= 3,
            snapshot.of_frame(&before),
            before.well_formed(),
            frame.well_formed(),
            frame.same_shape(&before),
            forall|c: int|
                0 <= c < 3 ==> (#[trigger] frame.planes@[c]).data@ == if c < i {
                    plane_restored(before.planes@[c], snapshot.planes@[c])
                } else {
                    before.planes@[c].data@
                },
    {
        let ghost prev = *frame;
        proof {
            assert(snapshot.planes@[i as int].of_frame(&before));
            assert(prev.planes@[i as int].data@ == before.planes@[i as int].data@);
            assert(prev.planes@[i as int].stride == before.planes@[i as int].stride);
        }
        paste_plane(frame, &snapshot.planes[i]);
        proof {
            assert forall|c: int| 0 <= c < 3 implies (#[trigger] frame.planes@[c]).data@ == if c < i
                + 1 {
                plane_restored(before.planes@[c], snapshot.planes@[c])
            } else {
                before.planes@[c].data@
            } by {
                if c != i {
                    assert(frame.planes@[c] == prev.planes@[c]);
                }
            }
            assert(frame.same_shape(&before)) by {
                assert forall|c: int| 0 <= c < frame.planes@.len() implies ({
                    &&& (#[trigger] frame.planes@[c]).width == before.planes@[c].width
                    &&& frame.planes@[c].height == before.planes@[c].height
                    &&& frame.planes@[c].stride == before.planes@[c].stride
                    &&& frame.planes@[c].data@.len() == before.planes@[c].data@.len()
                }) by {
                    assert(prev.planes@[c].width == before.planes@[c].width);
                }
            }
        }
    }
}

/// Puts back what a snapshot holds.
pub fn restore_frame_region(frame: &mut Frame, stats: &mut EncodeStats, snapshot: &FrameSnapshot)
    requires
        old(frame).well_formed(),
        snapshot.of_frame(old(frame)),
        old(stats).snapshot_room(3, 0),
    ensures
        frame_restored(old(frame), final(frame), snapshot),
        *final(stats) == (EncodeStats {
            frame_restores: (old(stats).frame_restores + snapshot.planes@.len()) as u64,
            ..*old(stats)
        }),
{
    let n: usize = snapshot.planes.len();
    for i in 0..n
        invariant
            n == snapshot.planes@.len(),
            n <= 3,
            old(stats).snapshot_room(3, 0),
            *stats == (EncodeStats {
                frame_restores: (old(stats).frame_restores + i) as u64,
                ..*old(stats)
            }),
    {
        stats.note_frame_restore();
    }
    paste_frame(frame, snapshot);
}

/// Restoring undoes a trial: when a plane was changed within its copied region alone,
/// putting the copy back gives the plane as it was.
pub proof fn law_trial_undone(before: Plane, changed: Plane, s: PlaneSnapshot)
    requires
        before.well_formed(),
        before.stride > 0,
        s.rect.x + s.rect.width <= before.width,
        s.rect.y + s.rect.height <= before.height,
        s.data@ == rect_copy(before.data@, before.stride as int, s.rect),
        changed.stride == before.stride,
        changed.data@.len() == before.data@.len(),
        forall|i: int|
            0 <= i < before.data@.len() && !s.rect.holds(before.stride as int, i)
                ==> #[trigger] changed.data@[i] == before.data@[i],
    ensures
        plane_restored(changed, s) == before.data@,
{
    before.lemma_rows();
    lemma_rect_cells(
        s.rect,
        before.stride as int,
        before.height as int,
        before.data@.len() as int,
    );
    law_paste_undoes(before.data@, changed.data@, before.stride as int, s.rect);
}

} // verus!
