//! A private reconstruction of a region, for trials that stay out of the frame.

use vstd::prelude::*;

use crate::frame::Frame;
use crate::geometry::{block_side, chroma_tb_geom, side};
use crate::region::Rect;
use crate::snapshot::{
    copy_plane, frame_restored, lemma_chroma_side, paste_frame, FrameSnapshot, PlaneSnapshot,
};

verus! {

/// What trials reconstruct of a region. Blocks are predicted from it where it has
/// samples and from the frame elsewhere.
pub struct TrialReconRegion {
    pub area: FrameSnapshot,
}

/// A rectangle has a position.
pub open spec fn rect_has(r: Rect, x: int, y: int) -> bool {
    &&& r.x <= x < r.x + r.width
    &&& r.y <= y < r.y + r.height
}

/// The place of a position in a copy of a rectangle.
pub open spec fn rect_index(r: Rect, x: int, y: int) -> int {
    (y - r.y) * r.width + (x - r.x)
}

proof fn lemma_rect_index(r: Rect, x: int, y: int)
    requires
        rect_has(r, x, y),
    ensures
        0 <= rect_index(r, x, y) < r.width * r.height,
        0 <= (y - r.y) * r.width,
{
    let (w, h, dy, dx) = (r.width as int, r.height as int, y - r.y, x - r.x);
    assert(0 <= dy * w && dy * w + dx < w * h) by (nonlinear_arith)
        requires
            0 <= dy < h,
            0 <= dx < w,
    ;
}

/// Different positions have different places.
proof fn lemma_rect_index_inj(r: Rect, x: int, y: int, u: int, v: int)
    requires
        rect_has(r, x, y),
        rect_has(r, u, v),
        rect_index(r, x, y) == rect_index(r, u, v),
    ensures
        x == u && y == v,
{
    let (w, a, b) = (r.width as int, y - r.y, v - r.y);
    let (c, d) = (x - r.x, u - r.x);
    assert(a == b && c == d) by (nonlinear_arith)
        requires
            a * w + c == b * w + d,
            0 <= c < w,
            0 <= d < w,
    ;
}

impl TrialReconRegion {
    /// The region holds components in order, with all of their samples.
    pub open spec fn well_formed(&self) -> bool {
        &&& self.area.planes@.len() <= 3
        &&& forall|c: int|
            0 <= c < self.area.planes@.len() ==> (#[trigger] self.area.planes@[c]).c_idx == c
                && self.area.planes@[c].data@.len() == self.area.planes@[c].rect.width
                * self.area.planes@[c].rect.height
    }

    /// The region has a place in the frame.
    pub open spec fn of_frame(&self, frame: &Frame) -> bool {
        self.area.of_frame(frame)
    }

    /// The region's own sample at a position.
    pub open spec fn read(&self, c_idx: int, x: int, y: int) -> Option<u16> {
        let planes = self.area.planes@;
        if 0 <= c_idx < planes.len() && rect_has(planes[c_idx].rect, x, y) {
            Some(planes[c_idx].data@[rect_index(planes[c_idx].rect, x, y)])
        } else {
            None
        }
    }

    /// The regions cover the same positions.
    pub open spec fn same_area(&self, other: &Self) -> bool {
        &&& self.area.planes@.len() == other.area.planes@.len()
        &&& forall|c: int|
            #![trigger self.area.planes@[c]]
            #![trigger other.area.planes@[c]]
            0 <= c < self.area.planes@.len() ==> {
                &&& self.area.planes@[c].c_idx == other.area.planes@[c].c_idx
                &&& self.area.planes@[c].rect == other.area.planes@[c].rect
                &&& self.area.planes@[c].data@.len() == other.area.planes@[c].data@.len()
            }
    }

    /// The regions hold the same samples.
    pub open spec fn same(&self, other: &Self) -> bool {
        &&& self.same_area(other)
        &&& forall|c: int|
            #![trigger self.area.planes@[c]]
            #![trigger other.area.planes@[c]]
            0 <= c < self.area.planes@.len() ==> self.area.planes@[c].data@
                == other.area.planes@[c].data@
    }

    /// The region of a block and its chroma, with the frame's samples.
    pub fn new(frame: &Frame, x0: u32, y0: u32, log2_size: u8) -> (r: Self)
        requires
            frame.well_formed(),
            log2_size <= 30,
        ensures
            r.well_formed(),
            r.of_frame(frame),
            r.area.copies_block(frame, x0, y0, log2_size),
    {
        let mut planes: Vec<PlaneSnapshot> = Vec::new();
        let size: usize = block_side(log2_size) as usize;
        planes.push(copy_plane(frame, 0, x0, y0, size, size, Vec::new()));
        match chroma_tb_geom(frame.cat, x0, y0, log2_size) {
            Some((cx, cy, clog2, count)) => {
                let csize: usize = block_side(clog2) as usize;
                proof {
                    lemma_chroma_side(frame.cat, x0, y0, log2_size);
                }
                let cheight: usize = csize * count as usize;
                planes.push(copy_plane(frame, 1, cx, cy, csize, cheight, Vec::new()));
                planes.push(copy_plane(frame, 2, cx, cy, csize, cheight, Vec::new()));
            },
            None => {},
        }
        TrialReconRegion { area: FrameSnapshot { planes } }
    }

    /// The region's own sample at a position.
    pub fn sample(&self, c_idx: u8, x: u32, y: u32) -> (s: Option<u16>)
        requires
            self.well_formed(),
        ensures
            s == self.read(c_idx as int, x as int, y as int),
    {
        let c: usize = c_idx as usize;
        if c >= self.area.planes.len() {
            return None;
        }
        let p = &self.area.planes[c];
        let (px, py) = (x as usize, y as usize);
        if px < p.rect.x || py < p.rect.y || px - p.rect.x >= p.rect.width || py - p.rect.y
            >= p.rect.height {
            return None;
        }
        proof {
            lemma_rect_index(p.rect, x as int, y as int);
        }
        let len: usize = p.data.len();
        Some(p.data[(py - p.rect.y) * p.rect.width + (px - p.rect.x)])
    }

    /// A copy for another trial from the same state.
    pub fn fork(&self) -> (r: Self)
        requires
            self.well_formed(),
        ensures
            r.same(self),
            r.well_formed(),
    {
        let n: usize = self.area.planes.len();
        let mut planes: Vec<PlaneSnapshot> = Vec::new();
        for c in 0..n
            invariant
                n == self.area.planes@.len(),
                planes@.len() == c,
                forall|k: int|
                    #![trigger planes@[k]]
                    0 <= k < c ==> {
                        &&& planes@[k].c_idx == self.area.planes@[k].c_idx
                        &&& planes@[k].rect == self.area.planes@[k].rect
                        &&& planes@[k].data@ == self.area.planes@[k].data@
                    },
        {
            let p = &self.area.planes[c];
            let len: usize = p.data.len();
            let mut data: Vec<u16> = Vec::new();
            for i in 0..len
                invariant
                    len == p.data@.len(),
                    data@ == p.data@.take(i as int),
            {
                data.push(p.data[i]);
                assert(data@ =~= p.data@.take(i + 1));
            }
            assert(data@ =~= p.data@);
            planes.push(PlaneSnapshot { c_idx: p.c_idx, rect: p.rect, data });
        }
        TrialReconRegion { area: FrameSnapshot { planes } }
    }

    /// Writes a block's samples, as far as the region goes.
    pub fn write_block(
        &mut self,
        c_idx: u8,
        x: u32,
        y: u32,
        log2_size: u8,
        samples: &Vec<u16>,
    )
        requires
            old(self).well_formed(),
            log2_size <= 14,
            x + side(log2_size) <= u32::MAX,
            y + side(log2_size) <= u32::MAX,
            samples@.len() == side(log2_size) * side(log2_size),
        ensures
            final(self).same_area(old(self)),
            final(self).well_formed(),
            forall|c: int, px: int, py: int| #[trigger]
                final(self).read(c, px, py) == if c == c_idx && x <= px < x + side(log2_size) && y
                    <= py < y + side(log2_size) && old(self).read(c, px, py) is Some {
                    Some(samples@[(py - y) * side(log2_size) + (px - x)])
                } else {
                    old(self).read(c, px, py)
                },
    {
        let c: usize = c_idx as usize;
        let ghost s = side(log2_size);
        let ghost before = *self;
        if c >= self.area.planes.len() {
            return;
        }
        let size: u32 = block_side(log2_size);
        let rect = self.area.planes[c].rect;
        let mut j: u32 = 0;
        while j < size
            invariant
                size == s,
                s == side(log2_size),
                size > 0,
                x + size <= u32::MAX,
                y + size <= u32::MAX,
                samples@.len() == s * s,
                c == c_idx,
                c < before.area.planes@.len(),
                before.well_formed(),
                rect == before.area.planes@[c as int].rect,
                j <= size,
                self.same_area(&before),
                forall|k: int|
                    0 <= k < before.area.planes@.len() && k != c ==> #[trigger] self.area.planes@[k]
                        == before.area.planes@[k],
                forall|px: int, py: int|
                    #![trigger rect_index(rect, px, py)]
                    rect_has(rect, px, py) ==> self.area.planes@[c as int].data@[rect_index(
                        rect,
                        px,
                        py,
                    )] == if x <= px < x + s && y <= py < y + j {
                        samples@[(py - y) * s + (px - x)]
                    } else {
                        before.area.planes@[c as int].data@[rect_index(rect, px, py)]
                    },
            decreases size - j,
        {
            let py: usize = (y + j) as usize;
            if py >= rect.y && py - rect.y < rect.height {
                let mut i: u32 = 0;
                while i < size
                    invariant
                        size == s,
                        s == side(log2_size),
                        size > 0,
                        x + size <= u32::MAX,
                        y + size <= u32::MAX,
                        samples@.len() == s * s,
                        c == c_idx,
                        c < before.area.planes@.len(),
                        before.well_formed(),
                        rect == before.area.planes@[c as int].rect,
                        j < size,
                        i <= size,
                        py == y + j,
                        rect.y <= py < rect.y + rect.height,
                        self.same_area(&before),
                        forall|k: int|
                            0 <= k < before.area.planes@.len() && k != c
                                ==> #[trigger] self.area.planes@[k] == before.area.planes@[k],
                        forall|px: int, qy: int|
                            #![trigger rect_index(rect, px, qy)]
                            rect_has(rect, px, qy) ==> self.area.planes@[c as int].data@[rect_index(
                                rect,
                                px,
                                qy,
                            )] == if x <= px < x + s && (y <= qy < y + j || (qy == y + j && px < x
                                + i)) {
                                samples@[(qy - y) * s + (px - x)]
                            } else {
                                before.area.planes@[c as int].data@[rect_index(rect, px, qy)]
                            },
                    decreases size - i,
                {
                    let px: usize = (x + i) as usize;
                    if px >= rect.x && px - rect.x < rect.width {
                        proof {
                            lemma_rect_index(rect, px as int, py as int);
                            assert(j * size + i < size * size) by (nonlinear_arith)
                                requires
                                    j + 1 <= size,
                                    i < size,
                            ;
                        }
                        let n: usize = samples.len();
                        assert(j * size >= 0) by (nonlinear_arith)
                            requires
                                j >= 0,
                                size >= 0,
                        ;
                        let v: u16 = samples[j as usize * size as usize + i as usize];
                        let len: usize = self.area.planes[c].data.len();
                        let at: usize = (py - rect.y) * rect.width + (px - rect.x);
                        let ghost prev = *self;
                        let plane = &mut self.area.planes[c];
                        plane.data.set(at, v);
                        proof {
                            assert forall|qx: int, qy: int|
                                #![trigger rect_index(rect, qx, qy)]
                                rect_has(
                                    rect,
                                    qx,
                                    qy,
                                ) implies self.area.planes@[c as int].data@[rect_index(
                                rect,
                                qx,
                                qy,
                            )] == if x <= qx < x + s && (y <= qy < y + j || (qy == y + j && qx < x
                                + i + 1)) {
                                samples@[(qy - y) * s + (qx - x)]
                            } else {
                                before.area.planes@[c as int].data@[rect_index(rect, qx, qy)]
                            } by {
                                lemma_rect_index(rect, qx, qy);
                                if rect_index(rect, qx, qy) == at {
                                    lemma_rect_index_inj(rect, qx, qy, px as int, py as int);
                                }
                            }
                        }
                    }
                    i = i + 1;
                }
            }
            j = j + 1;
        }
        proof {
            assert forall|k: int, px: int, qy: int| #[trigger]
                self.read(k, px, qy) == if k == c_idx && x <= px < x + side(log2_size) && y <= qy
                    < y + side(log2_size) && before.read(k, px, qy) is Some {
                    Some(samples@[(qy - y) * side(log2_size) + (px - x)])
                } else {
                    before.read(k, px, qy)
                } by {
                if 0 <= k < before.area.planes@.len() && rect_has(
                    before.area.planes@[k].rect,
                    px,
                    qy,
                ) {
                    if k == c {
                        assert(self.area.planes@[c as int].rect == rect);
                        let at = rect_index(rect, px, qy);
                    }
                }
            }
        }
    }

    /// Writes the region into the frame.
    pub fn commit(&self, frame: &mut Frame)
        requires
            old(frame).well_formed(),
            self.of_frame(old(frame)),
        ensures
            frame_restored(old(frame), final(frame), &self.area),
    {
        paste_frame(frame, &self.area);
    }
}

/// A new region reads as the frame does.
pub proof fn law_new_region_reads_frame(
    r: &TrialReconRegion,
    frame: &Frame,
    x0: u32,
    y0: u32,
    log2_size: u8,
    c: int,
    x: int,
    y: int,
)
    requires
        frame.well_formed(),
        r.of_frame(frame),
        r.area.copies_block(frame, x0, y0, log2_size),
        r.read(c, x, y) is Some,
    ensures
        r.read(c, x, y) == Some(frame.planes@[c].sample(x, y)),
{
    let s = r.area.planes@[c];
    let p = frame.planes@[c];
    let rect = s.rect;
    assert(s.of_frame(frame));
    assert(p.well_formed());
    let (w, k) = (rect.width as int, rect_index(rect, x, y));
    lemma_rect_index(rect, x, y);
    vstd::arithmetic::div_mod::lemma_fundamental_div_mod_converse(k, w, y - rect.y, x - rect.x);
    assert(rect.place(p.stride as int, y - rect.y, x - rect.x) == y * p.stride + x);
}

/// Once a region is committed the frame reads as the region did: its own samples where it
/// has them, the frame's elsewhere.
pub proof fn law_commit_reads_region(
    r: &TrialReconRegion,
    before: &Frame,
    after: &Frame,
    c: int,
    x: int,
    y: int,
)
    requires
        before.well_formed(),
        r.of_frame(before),
        frame_restored(before, after, &r.area),
        0 <= c < 3,
        0 <= x < before.planes@[c].width,
        0 <= y < before.planes@[c].height,
    ensures
        after.planes@[c].sample(x, y) == match r.read(c, x, y) {
            Some(v) => v,
            None => before.planes@[c].sample(x, y),
        },
{
    let p = before.planes@[c];
    let st = p.stride as int;
    assert(p.well_formed());
    p.lemma_index(x, y);
    let i = y * st + x;
    vstd::arithmetic::div_mod::lemma_fundamental_div_mod_converse(i, st, y, x);
    assert(after.planes@[c].stride == p.stride);
    if c < r.area.planes@.len() {
        let s = r.area.planes@[c];
        assert(s.of_frame(before));
        assert(s.rect.holds(st, i) == rect_has(s.rect, x, y));
        assert(s.rect.copy_place(st, i) == rect_index(s.rect, x, y));
    }
}

} // verus!
