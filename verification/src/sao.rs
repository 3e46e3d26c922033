//! Sample adaptive offset: statistics of a reconstruction and the choice of parameters.

use vstd::prelude::*;

use crate::frame::Plane;
use crate::geometry::side;
use crate::source::SourcePicture;

verus! {

/// What edge offset statistics hold per category: how far the source lies above the
/// reconstruction in all, and how many samples there are. Category 2 is no edge.
#[derive(Clone, Copy)]
pub struct EoStats {
    pub sum: [i64; 5],
    pub count: [u64; 5],
}

/// The same per band.
#[derive(Clone, Copy)]
pub struct BoStats {
    pub sum: [i64; 32],
    pub count: [u64; 32],
}

/// Sums and counts.
pub struct Tally {
    pub sum: Seq<int>,
    pub count: Seq<int>,
}

pub open spec fn empty_tally(n: nat) -> Tally {
    Tally { sum: Seq::new(n, |i: int| 0int), count: Seq::new(n, |i: int| 0int) }
}

/// One more sample in a category.
pub open spec fn tallied(t: Tally, category: int, diff: int) -> Tally {
    Tally {
        sum: t.sum.update(category, t.sum[category] + diff),
        count: t.count.update(category, t.count[category] + 1),
    }
}

impl EoStats {
    pub open spec fn tally(&self) -> Tally {
        Tally {
            sum: Seq::new(5, |i: int| self.sum[i] as int),
            count: Seq::new(5, |i: int| self.count[i] as int),
        }
    }
}

impl BoStats {
    pub open spec fn tally(&self) -> Tally {
        Tally {
            sum: Seq::new(32, |i: int| self.sum[i] as int),
            count: Seq::new(32, |i: int| self.count[i] as int),
        }
    }
}

/// The two neighbours that an edge class looks at: horizontal, vertical and the two
/// diagonals.
pub open spec fn eo_offsets(class: int) -> ((int, int), (int, int)) {
    if class == 0 {
        ((-1, 0), (1, 0))
    } else if class == 1 {
        ((0, -1), (0, 1))
    } else if class == 2 {
        ((-1, -1), (1, 1))
    } else {
        ((1, -1), (-1, 1))
    }
}

pub open spec fn sign_of(v: int) -> int {
    if v > 0 {
        1
    } else if v < 0 {
        -1
    } else {
        0
    }
}

pub open spec fn in_plane(plane: &Plane, x: int, y: int) -> bool {
    0 <= x < plane.width && 0 <= y < plane.height
}

/// The edge category of a sample: 0 for a valley to 4 for a peak. Samples without both
/// neighbours count as no edge.
pub open spec fn edge_category(plane: &Plane, class: int, x: int, y: int) -> int {
    let ((ax, ay), (bx, by)) = eo_offsets(class);
    if in_plane(plane, x + ax, y + ay) && in_plane(plane, x + bx, y + by) {
        let v = plane.sample(x, y);
        2 + sign_of(v - plane.sample(x + ax, y + ay)) + sign_of(v - plane.sample(x + bx, y + by))
    } else {
        2
    }
}

/// A region of a plane.
#[derive(Clone, Copy, Debug, PartialEq, Eq, Structural)]
pub struct Region {
    pub x_start: u32,
    pub y_start: u32,
    pub x_end: u32,
    pub y_end: u32,
}

impl Region {
    pub open spec fn width(&self) -> int {
        if self.x_end > self.x_start {
            self.x_end - self.x_start
        } else {
            0
        }
    }

    pub open spec fn height(&self) -> int {
        if self.y_end > self.y_start {
            self.y_end - self.y_start
        } else {
            0
        }
    }

    /// The region lies in a plane, and sums over its samples fit.
    pub open spec fn fits(&self, plane: &Plane) -> bool {
        &&& self.x_end <= plane.width && self.y_end <= plane.height
        &&& self.width() * self.height() * 65535 <= i64::MAX
    }
}

/// Edge statistics of the first `rows` rows and `cols` samples of the next row.
pub open spec fn eo_tally(
    pic: &SourcePicture,
    plane: &Plane,
    c_idx: u8,
    class: int,
    r: Region,
    rows: nat,
    cols: nat,
) -> Tally
    decreases rows, cols,
{
    if cols > 0 {
        let (x, y) = (r.x_start + cols - 1, r.y_start + rows);
        let before = eo_tally(pic, plane, c_idx, class, r, rows, (cols - 1) as nat);
        let category = edge_category(plane, class, x, y);
        if category == 2 {
            before
        } else {
            tallied(before, category, pic.sample(c_idx, x, y) - plane.sample(x, y))
        }
    } else if rows > 0 {
        eo_tally(pic, plane, c_idx, class, r, (rows - 1) as nat, r.width() as nat)
    } else {
        empty_tally(5)
    }
}

/// The band of a sample value: its five high bits.
pub open spec fn band_of(v: int, bit_depth: u8) -> int {
    let shift: u8 = if bit_depth >= 5 {
        (bit_depth - 5) as u8
    } else {
        0
    };
    (v / side(shift)) % 32
}

/// Band statistics of the first `rows` rows and `cols` samples of the next row.
pub open spec fn bo_tally(
    pic: &SourcePicture,
    plane: &Plane,
    c_idx: u8,
    r: Region,
    rows: nat,
    cols: nat,
) -> Tally
    decreases rows, cols,
{
    if cols > 0 {
        let (x, y) = (r.x_start + cols - 1, r.y_start + rows);
        let before = bo_tally(pic, plane, c_idx, r, rows, (cols - 1) as nat);
        let v = plane.sample(x, y);
        tallied(before, band_of(v as int, pic.bit_depth), pic.sample(c_idx, x, y) - v)
    } else if rows > 0 {
        bo_tally(pic, plane, c_idx, r, (rows - 1) as nat, r.width() as nat)
    } else {
        empty_tally(32)
    }
}

/// Every sum and count is bounded by the samples seen.
pub open spec fn tally_bounded(t: Tally, n: nat, samples: int) -> bool {
    &&& t.sum.len() == n && t.count.len() == n
    &&& forall|i: int|
        0 <= i < n ==> -65535 * samples <= #[trigger] t.sum[i] <= 65535 * samples
    &&& forall|i: int| 0 <= i < n ==> 0 <= #[trigger] t.count[i] <= samples
}

proof fn lemma_tallied_bounded(t: Tally, n: nat, samples: int, category: int, diff: int)
    requires
        tally_bounded(t, n, samples),
        samples >= 0,
        0 <= category < n,
        -65535 <= diff <= 65535,
    ensures
        tally_bounded(tallied(t, category, diff), n, samples + 1),
        tally_bounded(t, n, samples + 1),
{
    let u = tallied(t, category, diff);
    assert forall|i: int| 0 <= i < n implies -65535 * (samples + 1) <= #[trigger] u.sum[i] <= 65535
        * (samples + 1) by {
        assert(-65535 * samples <= t.sum[i] <= 65535 * samples);
    }
    assert forall|i: int| 0 <= i < n implies 0 <= #[trigger] u.count[i] <= samples + 1 by {
        assert(0 <= t.count[i] <= samples);
    }
    assert forall|i: int| 0 <= i < n implies -65535 * (samples + 1) <= #[trigger] t.sum[i] <= 65535
        * (samples + 1) by {
        assert(-65535 * samples <= t.sum[i] <= 65535 * samples);
    }
}

fn sample_at(plane: &Plane, x: u32, y: u32) -> (v: i64)
    requires
        plane.well_formed(),
        in_plane(plane, x as int, y as int),
    ensures
        v == plane.sample(x as int, y as int),
        0 <= v <= 65535,
{
    proof {
        plane.lemma_index(x as int, y as int);
    }
    let len: usize = plane.data.len();
    plane.data[y as usize * plane.stride + x as usize] as i64
}

fn sign(v: i64) -> (s: i64)
    ensures
        s == sign_of(v as int),
        -1 <= s <= 1,
{
    if v > 0 {
        1
    } else if v < 0 {
        -1
    } else {
        0
    }
}

/// The edge category of a sample.
fn category_at(plane: &Plane, class: u8, x: u32, y: u32) -> (c: usize)
    requires
        plane.well_formed(),
        x < u32::MAX,
        y < u32::MAX,
        in_plane(plane, x as int, y as int),
        class < 4,
    ensures
        c == edge_category(plane, class as int, x as int, y as int),
        c <= 4,
{
    let (ax, ay, bx, by): (i64, i64, i64, i64) = match class {
        0 => (-1, 0, 1, 0),
        1 => (0, -1, 0, 1),
        2 => (-1, -1, 1, 1),
        _ => (1, -1, -1, 1),
    };
    let (w, h) = (plane.width, plane.height);
    let (px, py) = (x as i64 + ax, y as i64 + ay);
    let (qx, qy) = (x as i64 + bx, y as i64 + by);
    if px < 0 || py < 0 || qx < 0 || qy < 0 {
        return 2;
    }
    if px as usize >= w || py as usize >= h || qx as usize >= w || qy as usize >= h {
        return 2;
    }
    let v: i64 = sample_at(plane, x, y);
    let n0: i64 = sample_at(plane, px as u32, py as u32);
    let n1: i64 = sample_at(plane, qx as u32, qy as u32);
    (2 + sign(v - n0) + sign(v - n1)) as usize
}

/// Edge statistics of a region of the reconstruction.
pub fn sao_eo_stats(pic: &SourcePicture, plane: &Plane, c_idx: u8, eo_class: u8, r: Region) -> (s:
    EoStats)
    requires
        pic.bit_depth <= 16,
        plane.well_formed(),
        r.fits(plane),
        c_idx <= 2,
        eo_class < 4,
    ensures
        s.tally() == eo_tally(
            pic,
            plane,
            c_idx,
            eo_class as int,
            r,
            r.height() as nat,
            0,
        ),
        tally_bounded(s.tally(), 5, r.width() * r.height()),
{
    let mut s = EoStats { sum: [0; 5], count: [0; 5] };
    let ghost class = eo_class as int;
    let ghost width = r.width();
    assert(s.tally().sum =~= empty_tally(5).sum);
    assert(s.tally().count =~= empty_tally(5).count);
    let mut y: u32 = r.y_start;
    let ghost mut seen: int = 0;
    while y < r.y_end
        invariant
            pic.bit_depth <= 16,
            plane.well_formed(),
            r.fits(plane),
            c_idx <= 2,
            eo_class < 4,
            class == eo_class,
            width == r.width(),
            r.y_start <= y,
            r.y_start <= r.y_end ==> y <= r.y_end,
            r.y_start > r.y_end ==> y == r.y_start,
            seen == width * (y - r.y_start),
            s.tally() == eo_tally(
                pic,
                plane,
                c_idx,
                class,
                r,
                (y - r.y_start) as nat,
                0,
            ),
            tally_bounded(s.tally(), 5, seen),
        decreases r.y_end - y,
    {
        let ghost rows = (y - r.y_start) as nat;
        let ghost before = seen;
        assert(0 <= seen && seen + width <= width * r.height()) by (nonlinear_arith)
            requires
                seen == width * rows,
                0 <= width,
                rows + 1 <= r.height(),
        ;
        let mut x: u32 = r.x_start;
        while x < r.x_end
            invariant
                pic.bit_depth <= 16,
                plane.well_formed(),
                r.fits(plane),
                c_idx <= 2,
                eo_class < 4,
                class == eo_class,
                width == r.width(),
                r.y_start <= y < r.y_end,
                rows == y - r.y_start,
                r.x_start <= x,
                r.x_start <= r.x_end ==> x <= r.x_end,
                r.x_start > r.x_end ==> x == r.x_start,
                0 <= before,
                before + width <= width * r.height(),
                seen == before + (x - r.x_start),
                s.tally() == eo_tally(
                    pic,
                    plane,
                    c_idx,
                    class,
                    r,
                    rows,
                    (x - r.x_start) as nat,
                ),
                tally_bounded(s.tally(), 5, seen),
            decreases r.x_end - x,
        {
            let category: usize = category_at(plane, eo_class, x, y);
            let ghost t = s.tally();
            if category != 2 {
                let recon: i64 = sample_at(plane, x, y);
                let src: i64 = pic.src_sample(c_idx, x, y) as i64;
                proof {
                    assert(-65535 * seen <= t.sum[category as int] <= 65535 * seen);
                    assert(0 <= t.count[category as int] <= seen);
                    lemma_tallied_bounded(t, 5, seen, category as int, src - recon);
                }
                let sum: i64 = s.sum[category] + (src - recon);
                let count: u64 = s.count[category] + 1;
                s.sum[category] = sum;
                s.count[category] = count;
                proof {
                    let u = tallied(t, category as int, src - recon);
                    assert(s.tally().sum =~= u.sum);
                    assert(s.tally().count =~= u.count);
                }
            } else {
                proof {
                    lemma_tallied_bounded(t, 5, seen, 0, 0);
                }
            }
            proof {
                seen = seen + 1;
            }
            x = x + 1;
        }
        proof {
            assert(seen == width * (rows + 1)) by (nonlinear_arith)
                requires
                    seen == before + width,
                    before == width * rows,
            ;
        }
        y = y + 1;
    }
    s
}

/// Band statistics of a region of the reconstruction.
pub fn sao_bo_stats(pic: &SourcePicture, plane: &Plane, c_idx: u8, r: Region) -> (s: BoStats)
    requires
        pic.bit_depth <= 16,
        plane.well_formed(),
        r.fits(plane),
        c_idx <= 2,
    ensures
        s.tally() == bo_tally(pic, plane, c_idx, r, r.height() as nat, 0),
        tally_bounded(s.tally(), 32, r.width() * r.height()),
{
    let mut s = BoStats { sum: [0; 32], count: [0; 32] };
    let ghost width = r.width();
    let shift: u8 = if pic.bit_depth >= 5 {
        pic.bit_depth - 5
    } else {
        0
    };
    let step: i64 = crate::geometry::block_side(shift) as i64;
    assert(s.tally().sum =~= empty_tally(32).sum);
    assert(s.tally().count =~= empty_tally(32).count);
    let mut y: u32 = r.y_start;
    let ghost mut seen: int = 0;
    while y < r.y_end
        invariant
            pic.bit_depth <= 16,
            plane.well_formed(),
            r.fits(plane),
            c_idx <= 2,
            step == side(shift),
            step > 0,
            shift == if pic.bit_depth >= 5 {
                (pic.bit_depth - 5) as u8
            } else {
                0
            },
            width == r.width(),
            r.y_start <= y,
            r.y_start <= r.y_end ==> y <= r.y_end,
            r.y_start > r.y_end ==> y == r.y_start,
            seen == width * (y - r.y_start),
            s.tally() == bo_tally(pic, plane, c_idx, r, (y - r.y_start) as nat, 0),
            tally_bounded(s.tally(), 32, seen),
        decreases r.y_end - y,
    {
        let ghost rows = (y - r.y_start) as nat;
        let ghost before = seen;
        assert(0 <= seen && seen + width <= width * r.height()) by (nonlinear_arith)
            requires
                seen == width * rows,
                0 <= width,
                rows + 1 <= r.height(),
        ;
        let mut x: u32 = r.x_start;
        while x < r.x_end
            invariant
                pic.bit_depth <= 16,
                plane.well_formed(),
                r.fits(plane),
                c_idx <= 2,
                step == side(shift),
                step > 0,
                shift == if pic.bit_depth >= 5 {
                    (pic.bit_depth - 5) as u8
                } else {
                    0
                },
                width == r.width(),
                r.y_start <= y < r.y_end,
                rows == y - r.y_start,
                r.x_start <= x,
                r.x_start <= r.x_end ==> x <= r.x_end,
                r.x_start > r.x_end ==> x == r.x_start,
                0 <= before,
                before + width <= width * r.height(),
                seen == before + (x - r.x_start),
                s.tally() == bo_tally(pic, plane, c_idx, r, rows, (x - r.x_start) as nat),
                tally_bounded(s.tally(), 32, seen),
            decreases r.x_end - x,
        {
            let recon: i64 = sample_at(plane, x, y);
            let src: i64 = pic.src_sample(c_idx, x, y) as i64;
            let band: usize = ((recon / step) % 32) as usize;
            let ghost t = s.tally();
            proof {
                assert(-65535 * seen <= t.sum[band as int] <= 65535 * seen);
                assert(0 <= t.count[band as int] <= seen);
                lemma_tallied_bounded(t, 32, seen, band as int, src - recon);
            }
            let sum: i64 = s.sum[band] + (src - recon);
            let count: u64 = s.count[band] + 1;
            s.sum[band] = sum;
            s.count[band] = count;
            proof {
                let u = tallied(t, band as int, src - recon);
                assert(s.tally().sum =~= u.sum);
                assert(s.tally().count =~= u.count);
                seen = seen + 1;
            }
            x = x + 1;
        }
        proof {
            assert(seen == width * (rows + 1)) by (nonlinear_arith)
                requires
                    seen == before + width,
                    before == width * rows,
            ;
        }
        y = y + 1;
    }
    s
}

} // verus!
