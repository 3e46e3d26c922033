//! What the error of a block is made of.

use vstd::arithmetic::div_mod::{lemma_fundamental_div_mod, lemma_fundamental_div_mod_converse};
use vstd::arithmetic::power2::{lemma2_to64, lemma_pow2_unfold, pow2};
use vstd::prelude::*;

use crate::frame::{Frame, Plane};
use crate::geometry::{side, spec_chroma_tb_geom};
use crate::source::{
    block_distortion, block_in_plane, block_sse, chroma_distortion, chroma_in_planes, tt_distortion,
    tt_in_frame, SourcePicture,
};

verus! {

/// A sample of a component belongs to the square of luma samples at a place, and to the
/// chroma that lies over it.
pub open spec fn belongs(cat: u8, c: int, sx: int, sy: int, x0: int, y0: int, n: int) -> bool {
    if c == 0 || cat == 3 {
        x0 <= sx < x0 + n && y0 <= sy < y0 + n
    } else if cat == 1 {
        x0 <= 2 * sx < x0 + n && y0 <= 2 * sy < y0 + n
    } else if cat == 2 {
        x0 <= 2 * sx < x0 + n && y0 <= sy < y0 + n
    } else {
        false
    }
}

/// How far the source is from a sample value, squared.
pub open spec fn off_by(pic: &SourcePicture, c: int, sx: int, sy: int, v: u16) -> int {
    let d = pic.sample(c as u8, sx, sy) - v;
    d * d
}

/// Two planes of one layout differ at one sample alone.
pub open spec fn differ_at(p: &Plane, q: &Plane, sx: int, sy: int, v: u16) -> bool {
    &&& q.stride == p.stride
    &&& q.width == p.width
    &&& q.height == p.height
    &&& 0 <= sx < p.width
    &&& 0 <= sy < p.height
    &&& q.data@ == p.data@.update(sy * p.stride + sx, v)
}

/// The place of a sample in a block, row by row.
proof fn lemma_place(x: int, y: int, size: int, i: int)
    requires
        size > 0,
        0 <= i < size * size,
    ensures
        0 <= i % size < size,
        0 <= i / size < size,
        i == (i / size) * size + i % size,
{
    lemma_fundamental_div_mod(i, size);
    assert(size * (i / size) == (i / size) * size) by (nonlinear_arith);
    vstd::arithmetic::div_mod::lemma_mod_bound(i, size);
    let q = i / size;
    assert(0 <= q < size) by (nonlinear_arith)
        requires
            i == size * q + i % size,
            0 <= i % size < size,
            0 <= i < size * size,
            size > 0,
    ;
}

proof fn lemma_same_index(st: int, x: int, y: int, u: int, v: int)
    requires
        0 <= x < st,
        0 <= u < st,
        y * st + x == v * st + u,
    ensures
        x == u,
        y == v,
{
    lemma_fundamental_div_mod_converse(y * st + x, st, y, x);
    lemma_fundamental_div_mod_converse(v * st + u, st, v, u);
}

proof fn lemma_sse_one_off(
    pic: &SourcePicture,
    p: &Plane,
    q: &Plane,
    c: u8,
    x: int,
    y: int,
    size: int,
    k: nat,
    sx: int,
    sy: int,
    v: u16,
)
    requires
        p.well_formed(),
        differ_at(p, q, sx, sy, v),
        size > 0,
        k <= size * size,
        0 <= x && x + size <= p.width,
        0 <= y && y + size <= p.height,
    ensures
        block_sse(pic, q, c, x, y, size, k) - block_sse(pic, p, c, x, y, size, k) == if x <= sx < x
            + size && y <= sy < y + size && (sy - y) * size + (sx - x) < k {
            off_by(pic, c as int, sx, sy, v) - off_by(pic, c as int, sx, sy, p.sample(sx, sy))
        } else {
            0
        },
    decreases k,
{
    if k > 0 {
        let i = k - 1;
        lemma_sse_one_off(pic, p, q, c, x, y, size, i as nat, sx, sy, v);
        lemma_place(x, y, size, i);
        let (cx, cy) = (x + i % size, y + i / size);
        let st = p.stride as int;
        p.lemma_index(cx, cy);
        p.lemma_index(sx, sy);
        let inside = x <= sx < x + size && y <= sy < y + size;
        let j = (sy - y) * size + (sx - x);
        if cx == sx && cy == sy {
            assert(j == i);
            assert(q.sample(cx, cy) == v);
        } else {
            assert(cy * st + cx != sy * st + sx) by {
                if cy * st + cx == sy * st + sx {
                    lemma_same_index(st, cx, cy, sx, sy);
                }
            }
            assert(q.sample(cx, cy) == p.sample(cx, cy));
            if inside {
                assert(j != i) by {
                    if j == i {
                        lemma_same_index(size, sx - x, sy - y, i % size, i / size);
                    }
                }
            }
        }
        let (a, b) = (
            pic.sample(c, cx, cy) - p.sample(cx, cy),
            pic.sample(c, cx, cy) - q.sample(cx, cy),
        );
        assert(a * a >= 0) by (nonlinear_arith);
        assert(b * b >= 0) by (nonlinear_arith);
    } else if x <= sx < x + size && y <= sy < y + size {
        let (a, b) = (sy - y, sx - x);
        assert(a * size + b >= 0) by (nonlinear_arith)
            requires
                a >= 0,
                b >= 0,
                size > 0,
        ;
    }
}

/// One plane of a frame was changed at one sample.
pub open spec fn frame_differs(f: &Frame, g: &Frame, c: int, sx: int, sy: int, v: u16) -> bool {
    &&& 0 <= c <= 2
    &&& f.well_formed()
    &&& g.planes@.len() == 3
    &&& differ_at(&f.planes@[c], &g.planes@[c], sx, sy, v)
    &&& forall|k: int| 0 <= k <= 2 && k != c ==> #[trigger] g.planes@[k] == f.planes@[k]
}

proof fn lemma_block_one_off(
    pic: &SourcePicture,
    f: &Frame,
    g: &Frame,
    c: int,
    sx: int,
    sy: int,
    v: u16,
    b: u8,
    x: int,
    y: int,
    log2_size: u8,
)
    requires
        frame_differs(f, g, c, sx, sy, v),
        b <= 2,
        block_in_plane(f, b, x, y, log2_size),
    ensures
        block_distortion(pic, g, b, x, y, log2_size) - block_distortion(pic, f, b, x, y, log2_size)
            == if b == c && x <= sx < x + side(log2_size) && y <= sy < y + side(log2_size) {
            off_by(pic, c, sx, sy, v) - off_by(pic, c, sx, sy, f.planes@[c].sample(sx, sy))
        } else {
            0
        },
{
    let n = side(log2_size);
    vstd::arithmetic::power2::lemma_pow2_pos(log2_size as nat);
    assert(n * n >= 0) by (nonlinear_arith);
    if b == c {
        assert(f.planes@[c].well_formed());
        lemma_sse_one_off(
            pic,
            &f.planes@[c],
            &g.planes@[c],
            b,
            x,
            y,
            n,
            (n * n) as nat,
            sx,
            sy,
            v,
        );
        if x <= sx < x + n && y <= sy < y + n {
            let (p, q) = (sy - y, sx - x);
            assert(p * n + q < n * n) by (nonlinear_arith)
                requires
                    0 <= p < n,
                    0 <= q < n,
            ;
        }
    } else {
        assert(g.planes@[b as int] == f.planes@[b as int]);
    }
}

/// Each sample of a block, of luma and of both chroma components alike, adds its own squared
/// error once to the block's error, and no other sample adds anything: changing one sample
/// of the reconstruction changes the error by that sample's error alone.
pub proof fn law_every_sample_counts_once(
    pic: &SourcePicture,
    f: &Frame,
    g: &Frame,
    c: int,
    sx: int,
    sy: int,
    v: u16,
    x0: u32,
    y0: u32,
    log2_size: u8,
)
    requires
        frame_differs(f, g, c, sx, sy, v),
        tt_in_frame(pic, f, x0, y0, log2_size),
        pic.cat <= 3,
        log2_size <= 6,
        pic.cat == 1 || pic.cat == 2 ==> log2_size >= 3,
        x0 as int % 2 == 0,
        y0 as int % 2 == 0,
    ensures
        tt_distortion(pic, g, x0, y0, log2_size) - tt_distortion(pic, f, x0, y0, log2_size)
            == if belongs(
            pic.cat,
            c,
            sx,
            sy,
            x0 as int,
            y0 as int,
            pow2(log2_size as nat) as int,
        ) {
            off_by(pic, c, sx, sy, v) - off_by(
                pic,
                c,
                sx,
                sy,
                f.planes@[c].data@[sy * f.planes@[c].stride + sx],
            )
        } else {
            0
        },
{
    lemma2_to64();
    if log2_size > 0 {
        lemma_pow2_unfold(log2_size as nat);
    }
    lemma_block_one_off(pic, f, g, c, sx, sy, v, 0, x0 as int, y0 as int, log2_size);
    match spec_chroma_tb_geom(pic.cat, x0, y0, log2_size) {
        Some((cx, cy, clog2, count)) => {
            reveal_with_fuel(chroma_distortion, 3);
            let (xi, yi, n) = (cx as int, cy as int, side(clog2));
            assert(0 * n == 0 && 1 * n == n);
            assert(chroma_in_planes(f, xi, yi, clog2, 0));
            lemma_block_one_off(pic, f, g, c, sx, sy, v, 1, xi, yi, clog2);
            lemma_block_one_off(pic, f, g, c, sx, sy, v, 2, xi, yi, clog2);
            if count == 2 {
                assert(chroma_in_planes(f, xi, yi, clog2, 1));
                lemma_block_one_off(pic, f, g, c, sx, sy, v, 1, xi, yi + n, clog2);
                lemma_block_one_off(pic, f, g, c, sx, sy, v, 2, xi, yi + n, clog2);
            }
        },
        None => {},
    }
}

proof fn lemma_sse_zero(
    pic: &SourcePicture,
    p: &Plane,
    c: u8,
    x: int,
    y: int,
    size: int,
    k: nat,
)
    requires
        size > 0,
        k <= size * size,
    ensures
        block_sse(pic, p, c, x, y, size, k) == 0 <==> forall|i: int|
            0 <= i < k ==> #[trigger] exact_at(pic, p, c, x, y, size, i),
    decreases k,
{
    if k > 0 {
        lemma_sse_zero(pic, p, c, x, y, size, (k - 1) as nat);
        let i = k - 1;
        let d = pic.sample(c, x + i % size, y + i / size) - p.sample(x + i % size, y + i / size);
        assert(d * d >= 0 && (d * d == 0 <==> d == 0)) by (nonlinear_arith);
        assert(exact_at(pic, p, c, x, y, size, i) <==> d == 0);
    }
}

/// The `i`-th sample of a block is that of the source.
pub open spec fn exact_at(
    pic: &SourcePicture,
    p: &Plane,
    c: u8,
    x: int,
    y: int,
    size: int,
    i: int,
) -> bool {
    pic.sample(c, x + i % size, y + i / size) == p.sample(x + i % size, y + i / size)
}

proof fn lemma_block_zero(
    pic: &SourcePicture,
    f: &Frame,
    c: u8,
    x: int,
    y: int,
    log2_size: u8,
)
    requires
        c <= 2,
    ensures
        block_distortion(pic, f, c, x, y, log2_size) == 0 <==> forall|sx: int, sy: int|
            x <= sx < x + side(log2_size) && y <= sy < y + side(log2_size)
                ==> #[trigger] f.planes@[c as int].sample(sx, sy) == pic.sample(c, sx, sy),
{
    let n = side(log2_size);
    let p = &f.planes@[c as int];
    vstd::arithmetic::power2::lemma_pow2_pos(log2_size as nat);
    assert(n * n >= 0) by (nonlinear_arith);
    lemma_sse_zero(pic, p, c, x, y, n, (n * n) as nat);
    if block_distortion(pic, f, c, x, y, log2_size) == 0 {
        assert forall|sx: int, sy: int|
            x <= sx < x + n && y <= sy < y + n implies #[trigger] p.sample(sx, sy) == pic.sample(
            c,
            sx,
            sy,
        ) by {
            let i = (sy - y) * n + (sx - x);
            let (a, b) = (sy - y, sx - x);
            assert(0 <= a * n + b < n * n) by (nonlinear_arith)
                requires
                    0 <= a < n,
                    0 <= b < n,
            ;
            lemma_fundamental_div_mod_converse(i, n, a, b);
            assert(exact_at(pic, p, c, x, y, n, i));
        }
    }
    if forall|sx: int, sy: int|
        x <= sx < x + n && y <= sy < y + n ==> #[trigger] p.sample(sx, sy) == pic.sample(
            c,
            sx,
            sy,
        ) {
        assert forall|i: int| 0 <= i < n * n implies #[trigger] exact_at(pic, p, c, x, y, n, i) by {
            lemma_place(x, y, n, i);
            assert(p.sample(x + i % n, y + i / n) == pic.sample(c, x + i % n, y + i / n));
        }
    }
}

/// The error of a block is nothing exactly where the reconstruction is the source, in luma
/// and in both chroma components.
pub proof fn law_no_error_means_the_source(
    pic: &SourcePicture,
    f: &Frame,
    x0: u32,
    y0: u32,
    log2_size: u8,
)
    requires
        pic.cat <= 3,
        log2_size <= 6,
        pic.cat == 1 || pic.cat == 2 ==> log2_size >= 3,
        x0 as int % 2 == 0,
        y0 as int % 2 == 0,
    ensures
        tt_distortion(pic, f, x0, y0, log2_size) == 0 <==> forall|c: int, sx: int, sy: int|
            0 <= c <= 2 && belongs(
                pic.cat,
                c,
                sx,
                sy,
                x0 as int,
                y0 as int,
                pow2(log2_size as nat) as int,
            ) ==> #[trigger] f.planes@[c].sample(sx, sy) == pic.sample(c as u8, sx, sy),
{
    lemma2_to64();
    if log2_size > 0 {
        lemma_pow2_unfold(log2_size as nat);
    }
    let (xl, yl, nl) = (x0 as int, y0 as int, pow2(log2_size as nat) as int);
    lemma_block_zero(pic, f, 0, xl, yl, log2_size);
    match spec_chroma_tb_geom(pic.cat, x0, y0, log2_size) {
        Some((cx, cy, clog2, count)) => {
            reveal_with_fuel(chroma_distortion, 3);
            let (xi, yi, n) = (cx as int, cy as int, side(clog2));
            assert(0 * n == 0) by (nonlinear_arith);
            assert(1 * n == n) by (nonlinear_arith);
            lemma_block_zero(pic, f, 1, xi, yi, clog2);
            lemma_block_zero(pic, f, 2, xi, yi, clog2);
            if count == 2 {
                lemma_block_zero(pic, f, 1, xi, yi + n, clog2);
                lemma_block_zero(pic, f, 2, xi, yi + n, clog2);
            }
        },
        None => {},
    }
    if tt_distortion(pic, f, x0, y0, log2_size) == 0 {
        assert forall|c: int, sx: int, sy: int|
            0 <= c <= 2 && belongs(pic.cat, c, sx, sy, xl, yl, nl) implies #[trigger] f.planes@[c].sample(
            sx,
            sy,
        ) == pic.sample(c as u8, sx, sy) by {
            assert(c == 0 || c == 1 || c == 2);
        }
    }
    if forall|c: int, sx: int, sy: int|
        0 <= c <= 2 && belongs(pic.cat, c, sx, sy, xl, yl, nl) ==> #[trigger] f.planes@[c].sample(
            sx,
            sy,
        ) == pic.sample(c as u8, sx, sy) {
        assert forall|sx: int, sy: int|
            xl <= sx < xl + nl && yl <= sy < yl + nl implies #[trigger] f.planes@[0].sample(sx, sy)
            == pic.sample(0, sx, sy) by {
            assert(belongs(pic.cat, 0, sx, sy, xl, yl, nl));
        }
        match spec_chroma_tb_geom(pic.cat, x0, y0, log2_size) {
            Some((cx, cy, clog2, count)) => {
                let (xi, yi, n) = (cx as int, cy as int, side(clog2));
                assert forall|k: int, c: int, sx: int, sy: int|
                    0 <= k < count && 1 <= c <= 2 && xi <= sx < xi + n && yi + k * n <= sy < yi + k
                        * n + n implies #[trigger] f.planes@[c].sample(sx, sy) == #[trigger] at_row(
                    pic,
                    c,
                    sx,
                    sy,
                    k,
                ) by {
                    assert(k == 0 || k == 1);
                    assert(belongs(pic.cat, c, sx, sy, xl, yl, nl));
                }
                assert forall|c: int, sx: int, sy: int|
                    1 <= c <= 2 && xi <= sx < xi + n && yi <= sy < yi
                        + n implies #[trigger] f.planes@[c].sample(sx, sy) == pic.sample(
                    c as u8,
                    sx,
                    sy,
                ) by {
                    assert(f.planes@[c].sample(sx, sy) == at_row(pic, c, sx, sy, 0));
                }
                if count == 2 {
                    assert forall|c: int, sx: int, sy: int|
                        1 <= c <= 2 && xi <= sx < xi + n && yi + n <= sy < yi + n
                            + n implies #[trigger] f.planes@[c].sample(sx, sy) == pic.sample(
                        c as u8,
                        sx,
                        sy,
                    ) by {
                        assert(f.planes@[c].sample(sx, sy) == at_row(pic, c, sx, sy, 1));
                    }
                }
            },
            None => {},
        }
    }
}

/// A source sample, in the `k`-th of the blocks that lie one below the other.
spec fn at_row(pic: &SourcePicture, c: int, sx: int, sy: int, k: int) -> u16 {
    pic.sample(c as u8, sx, sy)
}

/// A position inside the picture has the sample of its row and column, in the plane of its
/// component; one outside has that of the nearest position inside.
pub proof fn law_source_samples(pic: &SourcePicture, c: u8, x: int, y: int)
    requires
        c <= 2,
        x >= 0,
        y >= 0,
        pic.cat <= 3,
    ensures
        ({
            let (w, h) = (pic.width as int, pic.height as int);
            // Halves are rounded up.
            let cw = if pic.cat == 3 {
                w
            } else if pic.cat == 0 {
                0
            } else {
                w - w / 2
            };
            let ch = if pic.cat == 1 {
                h - h / 2
            } else if pic.cat == 0 {
                0
            } else {
                h
            };
            &&& c == 0 && x < w && y < h && pic.src.y@.len() == w * h ==> pic.sample(c, x, y)
                == pic.src.y@[y * w + x]
            &&& c == 1 && x < cw && y < ch && pic.src.cb@.len() == cw * ch ==> pic.sample(c, x, y)
                == pic.src.cb@[y * cw + x]
            &&& c == 2 && x < cw && y < ch && pic.src.cr@.len() == cw * ch ==> pic.sample(c, x, y)
                == pic.src.cr@[y * cw + x]
            &&& c == 0 && x >= w > 0 ==> pic.sample(c, x, y) == pic.sample(c, w - 1, y)
            &&& c == 0 && y >= h > 0 ==> pic.sample(c, x, y) == pic.sample(c, x, h - 1)
            &&& c > 0 && x >= cw > 0 ==> pic.sample(c, x, y) == pic.sample(c, cw - 1, y)
            &&& c > 0 && y >= ch > 0 ==> pic.sample(c, x, y) == pic.sample(c, x, ch - 1)
        }),
{
    let (w, h) = pic.dims_of(c);
    if x < w && y < h {
        assert(y * w + x < w * h) by (nonlinear_arith)
            requires
                0 <= x < w,
                0 <= y < h,
        ;
    }
}

} // verus!
