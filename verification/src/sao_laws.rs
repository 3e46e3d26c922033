//! What the statistics of sample adaptive offsets count.

use vstd::arithmetic::power2::{lemma2_to64, lemma_pow2_pos, pow2};
use vstd::prelude::*;

use crate::frame::{Frame, Plane};
use crate::sao::{
    bo_tally, edge_category, eo_tally, tallied, BoStats, EoStats, Region, Tally,
};
use crate::sao_choice::{
    best_offer, block_offers, component_set, ctb_region, edge_offered, joint,
    law_offsets_reduce_most, offers_made, sao_decided, Offsets, SaoInfo, single as single_of,
};
use crate::source::SourcePicture;

verus! {

/// Sums and counts of two disjoint sets of samples, taken together.
pub open spec fn together(a: Tally, b: Tally, both: Tally, n: int) -> bool {
    &&& a.sum.len() == n && a.count.len() == n
    &&& b.sum.len() == n && b.count.len() == n
    &&& both.sum.len() == n && both.count.len() == n
    &&& forall|i: int|
        0 <= i < n ==> #[trigger] both.sum[i] == a.sum[i] + b.sum[i] && both.count[i] == a.count[i]
            + b.count[i]
}

/// One sample was counted, in one category.
pub open spec fn only(t: Tally, n: int, category: int, diff: int) -> bool {
    &&& t.sum.len() == n && t.count.len() == n
    &&& forall|i: int|
        0 <= i < n ==> (#[trigger] t.sum[i]) == (if i == category {
            diff
        } else {
            0
        }) && t.count[i] == (if i == category {
            1int
        } else {
            0
        })
}

/// No sample was counted.
pub open spec fn nothing(t: Tally, n: int) -> bool {
    &&& t.sum.len() == n && t.count.len() == n
    &&& forall|i: int| 0 <= i < n ==> (#[trigger] t.sum[i]) == 0 && t.count[i] == 0
}

/// The region of one sample.
pub open spec fn single(x: u32, y: u32) -> Region {
    Region { x_start: x, y_start: y, x_end: (x + 1) as u32, y_end: (y + 1) as u32 }
}

proof fn lemma_one_more(a: Tally, b: Tally, both: Tally, n: int, category: int, diff: int)
    requires
        together(a, b, both, n),
        0 <= category < n,
    ensures
        together(tallied(a, category, diff), b, tallied(both, category, diff), n),
        together(a, tallied(b, category, diff), tallied(both, category, diff), n),
{
    let more = tallied(both, category, diff);
    let (ma, mb) = (tallied(a, category, diff), tallied(b, category, diff));
    assert forall|i: int| 0 <= i < n implies #[trigger] more.sum[i] == ma.sum[i] + b.sum[i]
        && more.count[i] == ma.count[i] + b.count[i] by {
        assert(both.sum[i] == a.sum[i] + b.sum[i]);
    }
    assert forall|i: int| 0 <= i < n implies #[trigger] more.sum[i] == a.sum[i] + mb.sum[i]
        && more.count[i] == a.count[i] + mb.count[i] by {
        assert(both.sum[i] == a.sum[i] + b.sum[i]);
    }
}

proof fn lemma_eo_shape(
    pic: &SourcePicture,
    plane: &Plane,
    c: u8,
    class: int,
    r: Region,
    rows: nat,
    cols: nat,
)
    ensures
        eo_tally(pic, plane, c, class, r, rows, cols).sum.len() == 5,
        eo_tally(pic, plane, c, class, r, rows, cols).count.len() == 5,
    decreases rows, cols,
{
    if cols > 0 {
        lemma_eo_shape(pic, plane, c, class, r, rows, (cols - 1) as nat);
    } else if rows > 0 {
        lemma_eo_shape(pic, plane, c, class, r, (rows - 1) as nat, r.width() as nat);
    }
}

proof fn lemma_category_range(plane: &Plane, class: int, x: int, y: int)
    ensures
        0 <= edge_category(plane, class, x, y) <= 4,
{
}

proof fn lemma_eo_rows(
    pic: &SourcePicture,
    plane: &Plane,
    c: u8,
    class: int,
    r: Region,
    m: u32,
    rows: nat,
    cols: nat,
)
    requires
        r.y_start <= m <= r.y_end,
    ensures
        ({
            let top = Region { y_end: m, ..r };
            let low = Region { y_start: m, ..r };
            together(
                eo_tally(pic, plane, c, class, top, (m - r.y_start) as nat, 0),
                eo_tally(pic, plane, c, class, low, rows, cols),
                eo_tally(pic, plane, c, class, r, (m - r.y_start + rows) as nat, cols),
                5,
            )
        }),
    decreases rows, cols,
{
    let top = Region { y_end: m, ..r };
    let low = Region { y_start: m, ..r };
    let h = (m - r.y_start) as nat;
    lemma_eo_shape(pic, plane, c, class, top, h, 0);
    lemma_eo_shape(pic, plane, c, class, low, rows, cols);
    lemma_eo_shape(pic, plane, c, class, r, h + rows, cols);
    if cols > 0 {
        lemma_eo_rows(pic, plane, c, class, r, m, rows, (cols - 1) as nat);
        lemma_eo_shape(pic, plane, c, class, low, rows, (cols - 1) as nat);
        lemma_eo_shape(pic, plane, c, class, r, h + rows, (cols - 1) as nat);
        lemma_category_range(plane, class, r.x_start + cols - 1, m + rows);
    } else if rows > 0 {
        lemma_eo_rows(pic, plane, c, class, r, m, (rows - 1) as nat, r.width() as nat);
    } else {
        lemma_eo_same_rows(pic, plane, c, class, r, top, h, 0);
    }
}

/// Statistics do not depend on where a region ends behind the rows that were read.
proof fn lemma_eo_same_rows(
    pic: &SourcePicture,
    plane: &Plane,
    c: u8,
    class: int,
    a: Region,
    b: Region,
    rows: nat,
    cols: nat,
)
    requires
        b == (Region { y_end: b.y_end, ..a }),
    ensures
        eo_tally(pic, plane, c, class, a, rows, cols) == eo_tally(
            pic,
            plane,
            c,
            class,
            b,
            rows,
            cols,
        ),
    decreases rows, cols,
{
    if cols > 0 {
        lemma_eo_same_rows(pic, plane, c, class, a, b, rows, (cols - 1) as nat);
    } else if rows > 0 {
        lemma_eo_same_rows(pic, plane, c, class, a, b, (rows - 1) as nat, a.width() as nat);
    }
}

proof fn lemma_eo_cols(
    pic: &SourcePicture,
    plane: &Plane,
    c: u8,
    class: int,
    r: Region,
    m: u32,
    rows: nat,
    cols: nat,
)
    requires
        r.x_start <= m <= r.x_end,
        cols <= r.width(),
    ensures
        ({
            let left = Region { x_end: m, ..r };
            let right = Region { x_start: m, ..r };
            let w = m - r.x_start;
            together(
                eo_tally(
                    pic,
                    plane,
                    c,
                    class,
                    left,
                    rows,
                    (if cols < w {
                        cols as int
                    } else {
                        w
                    }) as nat,
                ),
                eo_tally(
                    pic,
                    plane,
                    c,
                    class,
                    right,
                    rows,
                    (if cols < w {
                        0
                    } else {
                        cols - w
                    }) as nat,
                ),
                eo_tally(pic, plane, c, class, r, rows, cols),
                5,
            )
        }),
    decreases rows, cols,
{
    let left = Region { x_end: m, ..r };
    let right = Region { x_start: m, ..r };
    let w = m - r.x_start;
    let (a, b) = if cols < w {
        (cols, 0nat)
    } else {
        (w as nat, (cols - w) as nat)
    };
    lemma_eo_shape(pic, plane, c, class, left, rows, a);
    lemma_eo_shape(pic, plane, c, class, right, rows, b);
    lemma_eo_shape(pic, plane, c, class, r, rows, cols);
    let all = eo_tally(pic, plane, c, class, r, rows, cols);
    let tl = eo_tally(pic, plane, c, class, left, rows, a);
    let tr = eo_tally(pic, plane, c, class, right, rows, b);
    if cols > 0 {
        lemma_eo_cols(pic, plane, c, class, r, m, rows, (cols - 1) as nat);
        lemma_eo_shape(pic, plane, c, class, r, rows, (cols - 1) as nat);
        lemma_category_range(plane, class, r.x_start + cols - 1, r.y_start + rows);
        let (x, y) = (r.x_start + cols - 1, r.y_start + rows);
        let diff = pic.sample(c, x, y) - plane.sample(x, y);
        let category = edge_category(plane, class, x, y);
        let before = eo_tally(pic, plane, c, class, r, rows, (cols - 1) as nat);
        if cols <= w {
            assert(a == cols && b == 0);
            lemma_eo_shape(pic, plane, c, class, left, rows, (a - 1) as nat);
            let bl = eo_tally(pic, plane, c, class, left, rows, (a - 1) as nat);
            assert(together(bl, tr, before, 5));
            lemma_one_more(bl, tr, before, 5, category, diff);
            assert(together(tl, tr, all, 5));
        } else {
            assert(a == w && b == cols - w);
            lemma_eo_shape(pic, plane, c, class, right, rows, (b - 1) as nat);
            let br = eo_tally(pic, plane, c, class, right, rows, (b - 1) as nat);
            assert(m + b - 1 == r.x_start + cols - 1);
            assert(together(tl, br, before, 5));
            lemma_one_more(tl, br, before, 5, category, diff);
            assert(together(tl, tr, all, 5));
        }
    } else if rows > 0 {
        lemma_eo_cols(pic, plane, c, class, r, m, (rows - 1) as nat, r.width() as nat);
        lemma_eo_row_start(pic, plane, c, class, left, rows);
        lemma_eo_row_start(pic, plane, c, class, right, rows);
        lemma_eo_row_start(pic, plane, c, class, r, rows);
        assert(a == 0 && b == 0);
        assert(left.width() == w && right.width() == r.width() - w);
        assert(together(tl, tr, all, 5));
    } else {
        assert(a == 0 && b == 0);
        assert(together(tl, tr, all, 5));
    }
}

proof fn lemma_eo_row_start(
    pic: &SourcePicture,
    plane: &Plane,
    c: u8,
    class: int,
    r: Region,
    rows: nat,
)
    requires
        rows > 0,
    ensures
        eo_tally(pic, plane, c, class, r, rows, 0) == eo_tally(
            pic,
            plane,
            c,
            class,
            r,
            (rows - 1) as nat,
            r.width() as nat,
        ),
{
}

/// Edge statistics add up: those of a region are those of its rows above a line and below
/// it, and those of its columns left of a line and right of it.
pub proof fn law_edges_add_up(
    pic: &SourcePicture,
    plane: &Plane,
    c: u8,
    class: int,
    r: Region,
    mx: u32,
    my: u32,
)
    requires
        r.x_start <= mx <= r.x_end,
        r.y_start <= my <= r.y_end,
    ensures
        ({
            let (w, h) = ((r.x_end - r.x_start) as nat, (r.y_end - r.y_start) as nat);
            let all = eo_tally(pic, plane, c, class, r, h, 0);
            let top = Region { y_end: my, ..r };
            let low = Region { y_start: my, ..r };
            let left = Region { x_end: mx, ..r };
            let right = Region { x_start: mx, ..r };
            &&& together(
                eo_tally(pic, plane, c, class, top, (my - r.y_start) as nat, 0),
                eo_tally(pic, plane, c, class, low, (r.y_end - my) as nat, 0),
                all,
                5,
            )
            &&& together(
                eo_tally(pic, plane, c, class, left, h, 0),
                eo_tally(pic, plane, c, class, right, h, 0),
                all,
                5,
            )
        }),
{
    lemma_eo_rows(pic, plane, c, class, r, my, (r.y_end - my) as nat, 0);
    let h = (r.y_end - r.y_start) as nat;
    let left = Region { x_end: mx, ..r };
    let right = Region { x_start: mx, ..r };
    if h > 0 {
        lemma_eo_cols(pic, plane, c, class, r, mx, (h - 1) as nat, r.width() as nat);
        lemma_eo_row_start(pic, plane, c, class, r, h);
        lemma_eo_row_start(pic, plane, c, class, left, h);
        lemma_eo_row_start(pic, plane, c, class, right, h);
    } else {
        lemma_eo_shape(pic, plane, c, class, r, 0, 0);
    }
}

/// The value at a column and row of a plane.
pub open spec fn value(plane: &Plane, x: int, y: int) -> int {
    plane.data@[y * plane.stride + x] as int
}

/// What a sample with two neighbours counts as: a valley below both, a corner below one and
/// level with the other, a corner above one and level with the other, a peak above both, and
/// else nothing.
pub open spec fn counted_as(t: Tally, v: int, a: int, b: int, diff: int) -> bool {
    &&& v < a && v < b ==> only(t, 5, 0, diff)
    &&& v < a && v == b ==> only(t, 5, 1, diff)
    &&& v == a && v < b ==> only(t, 5, 1, diff)
    &&& v > a && v == b ==> only(t, 5, 3, diff)
    &&& v == a && v > b ==> only(t, 5, 3, diff)
    &&& v > a && v > b ==> only(t, 5, 4, diff)
    &&& v == a && v == b ==> nothing(t, 5)
    &&& v < a && v > b ==> nothing(t, 5)
    &&& v > a && v < b ==> nothing(t, 5)
}

/// The edge statistics of one sample compare it with its two neighbours in the direction of
/// the class: left and right, above and below, above left and below right, above right and
/// below left. What is summed is how far the source lies above the reconstruction. A sample
/// that lacks a neighbour counts as nothing.
pub proof fn law_edge_of_a_sample(
    pic: &SourcePicture,
    plane: &Plane,
    c: u8,
    class: int,
    x: u32,
    y: u32,
)
    requires
        plane.well_formed(),
        0 <= class <= 3,
        x < plane.width,
        y < plane.height,
        x < u32::MAX,
        y < u32::MAX,
    ensures
        ({
            let t = eo_tally(pic, plane, c, class, single(x, y), 1, 0);
            let (xi, yi) = (x as int, y as int);
            let (w, h) = (plane.width as int, plane.height as int);
            let v = value(plane, xi, yi);
            let diff = pic.sample(c, xi, yi) - v;
            let across = 0 < xi < w - 1;
            let down = 0 < yi < h - 1;
            &&& class == 0 && across ==> counted_as(
                t,
                v,
                value(plane, xi - 1, yi),
                value(plane, xi + 1, yi),
                diff,
            )
            &&& class == 1 && down ==> counted_as(
                t,
                v,
                value(plane, xi, yi - 1),
                value(plane, xi, yi + 1),
                diff,
            )
            &&& class == 2 && across && down ==> counted_as(
                t,
                v,
                value(plane, xi - 1, yi - 1),
                value(plane, xi + 1, yi + 1),
                diff,
            )
            &&& class == 3 && across && down ==> counted_as(
                t,
                v,
                value(plane, xi + 1, yi - 1),
                value(plane, xi - 1, yi + 1),
                diff,
            )
            &&& class != 1 && !across ==> nothing(t, 5)
            &&& class != 0 && !down ==> nothing(t, 5)
        }),
{
    let r = single(x, y);
    lemma_eo_row_start(pic, plane, c, class, r, 1);
    reveal_with_fuel(eo_tally, 4);
    assert(r.width() == 1);
    assert(eo_tally(pic, plane, c, class, r, 0, 0) == crate::sao::empty_tally(5));
}

proof fn lemma_bo_shape(
    pic: &SourcePicture,
    plane: &Plane,
    c: u8,
    r: Region,
    rows: nat,
    cols: nat,
)
    ensures
        bo_tally(pic, plane, c, r, rows, cols).sum.len() == 32,
        bo_tally(pic, plane, c, r, rows, cols).count.len() == 32,
    decreases rows, cols,
{
    if cols > 0 {
        lemma_bo_shape(pic, plane, c, r, rows, (cols - 1) as nat);
    } else if rows > 0 {
        lemma_bo_shape(pic, plane, c, r, (rows - 1) as nat, r.width() as nat);
    }
}

proof fn lemma_bo_same_rows(
    pic: &SourcePicture,
    plane: &Plane,
    c: u8,
    a: Region,
    b: Region,
    rows: nat,
    cols: nat,
)
    requires
        b == (Region { y_end: b.y_end, ..a }),
    ensures
        bo_tally(pic, plane, c, a, rows, cols) == bo_tally(pic, plane, c, b, rows, cols),
    decreases rows, cols,
{
    if cols > 0 {
        lemma_bo_same_rows(pic, plane, c, a, b, rows, (cols - 1) as nat);
    } else if rows > 0 {
        lemma_bo_same_rows(pic, plane, c, a, b, (rows - 1) as nat, a.width() as nat);
    }
}

proof fn lemma_band_range(pic: &SourcePicture, v: int)
    requires
        v >= 0,
    ensures
        0 <= crate::sao::band_of(v, pic.bit_depth) < 32,
{
    vstd::arithmetic::div_mod::lemma_mod_bound(
        v / crate::geometry::side(
            if pic.bit_depth >= 5 {
                (pic.bit_depth - 5) as u8
            } else {
                0
            },
        ),
        32,
    );
}

proof fn lemma_bo_rows(
    pic: &SourcePicture,
    plane: &Plane,
    c: u8,
    r: Region,
    m: u32,
    rows: nat,
    cols: nat,
)
    requires
        r.y_start <= m <= r.y_end,
    ensures
        ({
            let top = Region { y_end: m, ..r };
            let low = Region { y_start: m, ..r };
            together(
                bo_tally(pic, plane, c, top, (m - r.y_start) as nat, 0),
                bo_tally(pic, plane, c, low, rows, cols),
                bo_tally(pic, plane, c, r, (m - r.y_start + rows) as nat, cols),
                32,
            )
        }),
    decreases rows, cols,
{
    let top = Region { y_end: m, ..r };
    let low = Region { y_start: m, ..r };
    let h = (m - r.y_start) as nat;
    lemma_bo_shape(pic, plane, c, top, h, 0);
    lemma_bo_shape(pic, plane, c, low, rows, cols);
    lemma_bo_shape(pic, plane, c, r, h + rows, cols);
    if cols > 0 {
        lemma_bo_rows(pic, plane, c, r, m, rows, (cols - 1) as nat);
        lemma_bo_shape(pic, plane, c, low, rows, (cols - 1) as nat);
        lemma_bo_shape(pic, plane, c, r, h + rows, (cols - 1) as nat);
        lemma_band_range(pic, plane.sample(r.x_start + cols - 1, m + rows) as int);
    } else if rows > 0 {
        lemma_bo_rows(pic, plane, c, r, m, (rows - 1) as nat, r.width() as nat);
    } else {
        lemma_bo_same_rows(pic, plane, c, r, top, h, 0);
    }
}

proof fn lemma_bo_row_start(pic: &SourcePicture, plane: &Plane, c: u8, r: Region, rows: nat)
    requires
        rows > 0,
    ensures
        bo_tally(pic, plane, c, r, rows, 0) == bo_tally(
            pic,
            plane,
            c,
            r,
            (rows - 1) as nat,
            r.width() as nat,
        ),
{
}

proof fn lemma_bo_cols(
    pic: &SourcePicture,
    plane: &Plane,
    c: u8,
    r: Region,
    m: u32,
    rows: nat,
    cols: nat,
)
    requires
        r.x_start <= m <= r.x_end,
        cols <= r.width(),
    ensures
        ({
            let left = Region { x_end: m, ..r };
            let right = Region { x_start: m, ..r };
            let w = m - r.x_start;
            together(
                bo_tally(
                    pic,
                    plane,
                    c,
                    left,
                    rows,
                    (if cols < w {
                        cols as int
                    } else {
                        w
                    }) as nat,
                ),
                bo_tally(
                    pic,
                    plane,
                    c,
                    right,
                    rows,
                    (if cols < w {
                        0
                    } else {
                        cols - w
                    }) as nat,
                ),
                bo_tally(pic, plane, c, r, rows, cols),
                32,
            )
        }),
    decreases rows, cols,
{
    let left = Region { x_end: m, ..r };
    let right = Region { x_start: m, ..r };
    let w = m - r.x_start;
    let (a, b) = if cols < w {
        (cols, 0nat)
    } else {
        (w as nat, (cols - w) as nat)
    };
    lemma_bo_shape(pic, plane, c, left, rows, a);
    lemma_bo_shape(pic, plane, c, right, rows, b);
    lemma_bo_shape(pic, plane, c, r, rows, cols);
    let all = bo_tally(pic, plane, c, r, rows, cols);
    let tl = bo_tally(pic, plane, c, left, rows, a);
    let tr = bo_tally(pic, plane, c, right, rows, b);
    if cols > 0 {
        lemma_bo_cols(pic, plane, c, r, m, rows, (cols - 1) as nat);
        lemma_bo_shape(pic, plane, c, r, rows, (cols - 1) as nat);
        lemma_band_range(pic, plane.sample(r.x_start + cols - 1, r.y_start + rows) as int);
        let (x, y) = (r.x_start + cols - 1, r.y_start + rows);
        let diff = pic.sample(c, x, y) - plane.sample(x, y);
        let category = crate::sao::band_of(plane.sample(x, y) as int, pic.bit_depth);
        let before = bo_tally(pic, plane, c, r, rows, (cols - 1) as nat);
        if cols <= w {
            assert(a == cols && b == 0);
            lemma_bo_shape(pic, plane, c, left, rows, (a - 1) as nat);
            let bl = bo_tally(pic, plane, c, left, rows, (a - 1) as nat);
            assert(together(bl, tr, before, 32));
            lemma_one_more(bl, tr, before, 32, category, diff);
            assert(together(tl, tr, all, 32));
        } else {
            assert(a == w && b == cols - w);
            lemma_bo_shape(pic, plane, c, right, rows, (b - 1) as nat);
            let br = bo_tally(pic, plane, c, right, rows, (b - 1) as nat);
            assert(m + b - 1 == r.x_start + cols - 1);
            assert(together(tl, br, before, 32));
            lemma_one_more(tl, br, before, 32, category, diff);
            assert(together(tl, tr, all, 32));
        }
    } else if rows > 0 {
        lemma_bo_cols(pic, plane, c, r, m, (rows - 1) as nat, r.width() as nat);
        lemma_bo_row_start(pic, plane, c, left, rows);
        lemma_bo_row_start(pic, plane, c, right, rows);
        lemma_bo_row_start(pic, plane, c, r, rows);
        assert(a == 0 && b == 0);
        assert(left.width() == w && right.width() == r.width() - w);
        assert(together(tl, tr, all, 32));
    } else {
        assert(a == 0 && b == 0);
        assert(together(tl, tr, all, 32));
    }
}

/// Band statistics add up over the parts of a region.
pub proof fn law_bands_add_up(
    pic: &SourcePicture,
    plane: &Plane,
    c: u8,
    r: Region,
    mx: u32,
    my: u32,
)
    requires
        r.x_start <= mx <= r.x_end,
        r.y_start <= my <= r.y_end,
    ensures
        ({
            let h = (r.y_end - r.y_start) as nat;
            let all = bo_tally(pic, plane, c, r, h, 0);
            let top = Region { y_end: my, ..r };
            let low = Region { y_start: my, ..r };
            let left = Region { x_end: mx, ..r };
            let right = Region { x_start: mx, ..r };
            &&& together(
                bo_tally(pic, plane, c, top, (my - r.y_start) as nat, 0),
                bo_tally(pic, plane, c, low, (r.y_end - my) as nat, 0),
                all,
                32,
            )
            &&& together(
                bo_tally(pic, plane, c, left, h, 0),
                bo_tally(pic, plane, c, right, h, 0),
                all,
                32,
            )
        }),
{
    lemma_bo_rows(pic, plane, c, r, my, (r.y_end - my) as nat, 0);
    let h = (r.y_end - r.y_start) as nat;
    let left = Region { x_end: mx, ..r };
    let right = Region { x_start: mx, ..r };
    if h > 0 {
        lemma_bo_cols(pic, plane, c, r, mx, (h - 1) as nat, r.width() as nat);
        lemma_bo_row_start(pic, plane, c, r, h);
        lemma_bo_row_start(pic, plane, c, left, h);
        lemma_bo_row_start(pic, plane, c, right, h);
    } else {
        lemma_bo_shape(pic, plane, c, r, 0, 0);
    }
}

/// The band statistics of one sample: the range of values has 32 bands of one width, and the
/// sample counts in the band that its reconstruction lies in.
pub proof fn law_band_of_a_sample(
    pic: &SourcePicture,
    plane: &Plane,
    c: u8,
    x: u32,
    y: u32,
    band: int,
)
    requires
        plane.well_formed(),
        5 <= pic.bit_depth <= 16,
        x < plane.width,
        y < plane.height,
        x < u32::MAX,
        y < u32::MAX,
        0 <= band < 32,
        band * pow2((pic.bit_depth - 5) as nat) <= value(plane, x as int, y as int) < (band + 1)
            * pow2((pic.bit_depth - 5) as nat),
    ensures
        only(
            bo_tally(pic, plane, c, single(x, y), 1, 0),
            32,
            band,
            pic.sample(c, x as int, y as int) - value(plane, x as int, y as int),
        ),
{
    let r = single(x, y);
    lemma_bo_row_start(pic, plane, c, r, 1);
    reveal_with_fuel(bo_tally, 4);
    assert(r.width() == 1);
    let v = value(plane, x as int, y as int);
    let step = pow2((pic.bit_depth - 5) as nat) as int;
    lemma_pow2_pos((pic.bit_depth - 5) as nat);
    assert(v / step == band) by (nonlinear_arith)
        requires
            band * step <= v < (band + 1) * step,
            step > 0,
    ;
    lemma2_to64();
}

/// What is offered for a region of a component: band offsets in the place of 0, and edge
/// offsets of the four classes behind them.
pub open spec fn offer(
    pic: &SourcePicture,
    plane: &Plane,
    c: u8,
    r: Region,
    bands: spec_fn(Tally) -> Offsets,
    edges: spec_fn(Tally) -> Offsets,
    kind: int,
) -> Offsets {
    let h = (if r.y_end > r.y_start {
        r.y_end - r.y_start
    } else {
        0
    }) as nat;
    if kind == 0 {
        bands(bo_tally(pic, plane, c, r, h, 0))
    } else {
        edges(eo_tally(pic, plane, c, kind - 1, r, h, 0))
    }
}

/// The part of a plane from a place on, as far as the plane goes.
pub open spec fn part_of(plane: &Plane, x: int, y: int, w: int, h: int) -> Region {
    Region {
        x_start: x as u32,
        y_start: y as u32,
        x_end: (if x + w < plane.width {
            x + w
        } else {
            plane.width as int
        }) as u32,
        y_end: (if y + h < plane.height {
            y + h
        } else {
            plane.height as int
        }) as u32,
    }
}

/// A component has the offsets of an offer.
pub open spec fn has_offsets(info: SaoInfo, c: int, o: Offsets) -> bool {
    info.offsets[c]@ == o.values@
}

/// The kind of offsets that a component has: -1 for none, 0 for band offsets, and one more
/// than the class for edge offsets.
pub open spec fn kind_of(info: SaoInfo, c: int) -> int {
    if info.type_idx[c] == 0 {
        -1
    } else if info.type_idx[c] == 1 {
        0
    } else {
        info.eo_class[c] + 1
    }
}

/// Where an offer depends on the statistics alone: the offsets of a coding tree block are
/// those offered for its own samples that reduce the error most, and none where no offer
/// reduces it. Luma chooses by itself, and the two chroma components choose one kind
/// together, each with its own offsets.
pub proof fn law_offsets_chosen<B, E>(
    pic: &SourcePicture,
    frame: &Frame,
    n: int,
    ctb_x: int,
    ctb_y: int,
    bo: B,
    eo: E,
    info: SaoInfo,
    bands: spec_fn(Tally) -> Offsets,
    edges: spec_fn(Tally) -> Offsets,
) where B: Fn(&BoStats) -> Offsets, E: Fn(&EoStats) -> Offsets
    requires
        sao_decided(pic, frame, n, ctb_x, ctb_y, bo, eo, info),
        forall|s: BoStats, o: Offsets| #[trigger]
            call_ensures(bo, (&s,), o) ==> o == bands(s.tally()),
        forall|s: EoStats, o: Offsets| #[trigger]
            call_ensures(eo, (&s,), o) ==> o == edges(s.tally()),
        n > 0,
        ctb_x >= 0,
        ctb_y >= 0,
        ctb_x * n + n <= u32::MAX,
        ctb_y * n + n <= u32::MAX,
        frame.planes@[0].width <= u32::MAX,
        frame.planes@[0].height <= u32::MAX,
    ensures
        ({
            let (x, y) = (ctb_x * n, ctb_y * n);
            let p = frame.planes@[0];
            let r = part_of(&p, x, y, n, n);
            let k = kind_of(info, 0);
            let own = offer(pic, &p, 0, r, bands, edges, k);
            &&& -1 <= k <= 4
            &&& k == -1 ==> forall|j: int|
                0 <= j <= 4 ==> (#[trigger] offer(pic, &p, 0, r, bands, edges, j)).reduction <= 0
            &&& k >= 0 ==> has_offsets(info, 0, own) && own.reduction > 0
            &&& k == 0 ==> info.band_position[0] == own.band
            &&& k >= 0 ==> forall|j: int|
                0 <= j <= 4 ==> (#[trigger] offer(pic, &p, 0, r, bands, edges, j)).reduction
                    <= own.reduction
        }),
        1 <= pic.cat <= 3 ==> ({
            let (sx, sy) = (
                if pic.cat == 3 {
                    1int
                } else {
                    2
                },
                if pic.cat == 1 {
                    2int
                } else {
                    1
                },
            );
            let (p, q) = (frame.planes@[1], frame.planes@[2]);
            let r = part_of(&p, ctb_x * n / sx, ctb_y * n / sy, n / sx, n / sy);
            let k = kind_of(info, 1);
            let (cb, cr) = (
                offer(pic, &p, 1, r, bands, edges, k),
                offer(pic, &q, 2, r, bands, edges, k),
            );
            &&& kind_of(info, 2) == k
            &&& -1 <= k <= 4
            &&& k >= 0 ==> has_offsets(info, 1, cb) && has_offsets(info, 2, cr)
            &&& k >= 0 ==> cb.reduction + cr.reduction > 0
            &&& k == 0 ==> info.band_position[1] == cb.band && info.band_position[2] == cr.band
            &&& forall|j: int|
                0 <= j <= 4 ==> (#[trigger] offer(pic, &p, 1, r, bands, edges, j)).reduction
                    + offer(pic, &q, 2, r, bands, edges, j).reduction <= if k == -1 {
                    0
                } else {
                    cb.reduction + cr.reduction
                }
        }),
        pic.cat == 0 ==> kind_of(info, 1) == -1 && kind_of(info, 2) == -1,
{
    let (x0, y0) = (ctb_x * n, ctb_y * n);
    let (sx, sy) = crate::sao_choice::subsampling(pic.cat);
    let luma = ctb_region(&frame.planes@[0], x0, y0, n, n);
    let chroma = ctb_region(&frame.planes@[1], x0 / sx, y0 / sy, n / sx, n / sy);
    let (y, cb, cr) = choose|y: Seq<Offsets>, cb: Seq<Offsets>, cr: Seq<Offsets>|
        {
            let luma_choice = best_offer(single_of(y), 5).0;
            let chroma_choice = if pic.cat == 0 {
                0
            } else {
                best_offer(joint(cb, cr), 5).0
            };
            &&& #[trigger] block_offers(y, cb, cr)
            &&& offers_made(pic, &frame.planes@[0], 0, luma, bo, eo, y)
            &&& pic.cat != 0 ==> offers_made(pic, &frame.planes@[1], 1, chroma, bo, eo, cb)
            &&& pic.cat != 0 ==> offers_made(pic, &frame.planes@[2], 2, chroma, bo, eo, cr)
            &&& component_set(&info, 0, luma_choice, y)
            &&& component_set(&info, 1, chroma_choice, cb)
            &&& component_set(&info, 2, chroma_choice, cr)
        };
    lemma_offers(pic, &frame.planes@[0], 0, luma, bo, eo, y, bands, edges);
    law_offsets_reduce_most(single_of(y), 5);
    if pic.cat != 0 {
        lemma_offers(pic, &frame.planes@[1], 1, chroma, bo, eo, cb, bands, edges);
        lemma_offers(pic, &frame.planes@[2], 2, chroma, bo, eo, cr, bands, edges);
        law_offsets_reduce_most(joint(cb, cr), 5);
    }
    let p = frame.planes@[0];
    let k = kind_of(info, 0);
    let choice = best_offer(single_of(y), 5);
    assert(k == choice.0 - 1);
    assert forall|j: int| 0 <= j <= 4 implies (#[trigger] offer(
        pic,
        &p,
        0,
        luma,
        bands,
        edges,
        j,
    )).reduction <= choice.1 by {
        assert(y[j] == offer(pic, &p, 0, luma, bands, edges, j));
        assert(single_of(y)[j] <= choice.1);
    }
    if k >= 0 {
        assert(y[k] == offer(pic, &p, 0, luma, bands, edges, k));
    }
    if pic.cat != 0 {
        let (p1, q1) = (frame.planes@[1], frame.planes@[2]);
        let kc = kind_of(info, 1);
        let both = best_offer(joint(cb, cr), 5);
        assert(kc == both.0 - 1);
        assert forall|j: int| 0 <= j <= 4 implies (#[trigger] offer(
            pic,
            &p1,
            1,
            chroma,
            bands,
            edges,
            j,
        )).reduction + offer(pic, &q1, 2, chroma, bands, edges, j).reduction <= both.1 by {
            assert(cb[j] == offer(pic, &p1, 1, chroma, bands, edges, j));
            assert(cr[j] == offer(pic, &q1, 2, chroma, bands, edges, j));
            assert(joint(cb, cr)[j] <= both.1);
        }
        if kc >= 0 {
            assert(cb[kc] == offer(pic, &p1, 1, chroma, bands, edges, kc));
            assert(cr[kc] == offer(pic, &q1, 2, chroma, bands, edges, kc));
        }
    }
}

proof fn lemma_offers<B, E>(
    pic: &SourcePicture,
    plane: &Plane,
    c: u8,
    r: Region,
    bo: B,
    eo: E,
    offers: Seq<Offsets>,
    bands: spec_fn(Tally) -> Offsets,
    edges: spec_fn(Tally) -> Offsets,
) where B: Fn(&BoStats) -> Offsets, E: Fn(&EoStats) -> Offsets
    requires
        offers_made(pic, plane, c, r, bo, eo, offers),
        forall|s: BoStats, o: Offsets| #[trigger]
            call_ensures(bo, (&s,), o) ==> o == bands(s.tally()),
        forall|s: EoStats, o: Offsets| #[trigger]
            call_ensures(eo, (&s,), o) ==> o == edges(s.tally()),
    ensures
        offers.len() == 5,
        forall|j: int|
            0 <= j <= 4 ==> #[trigger] offers[j] == offer(pic, plane, c, r, bands, edges, j),
{
    assert forall|j: int| 0 <= j <= 4 implies #[trigger] offers[j] == offer(
        pic,
        plane,
        c,
        r,
        bands,
        edges,
        j,
    ) by {
        if j > 0 {
            let class = j - 1;
            assert(edge_offered(pic, plane, c, class as u8, r, eo, offers[class + 1]));
        }
    }
}

} // verus!
