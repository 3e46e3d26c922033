//! The picture to encode, and how far a reconstruction is from it.

use vstd::prelude::*;

use crate::frame::{Frame, Plane};
use crate::geometry::{
    block_side, chroma_tb_geom, cu_kid_positions, kid_positions, positions_view, side,
    spec_chroma_tb_geom,
};
use crate::math::{ceil_div, ceil_div_u32, min_int, min_u32};
use crate::syntax::CuNode;

verus! {

/// Source planes. The chroma planes have the resolution that the format gives them.
#[derive(Clone, Copy)]
pub struct Source<'a> {
    pub y: &'a [u16],
    pub cb: &'a [u16],
    pub cr: &'a [u16],
}

/// A source with its dimensions.
#[derive(Clone, Copy)]
pub struct SourcePicture<'a> {
    pub width: u32,
    pub height: u32,
    pub cat: u8,
    pub bit_depth: u8,
    pub src: Source<'a>,
}

/// The chroma dimensions that go with luma dimensions.
pub open spec fn chroma_dims(width: u32, height: u32, cat: u8) -> (int, int) {
    if cat == 1 {
        (ceil_div(width as int, 2), ceil_div(height as int, 2))
    } else if cat == 2 {
        (ceil_div(width as int, 2), height as int)
    } else if cat == 3 {
        (width as int, height as int)
    } else {
        (0, 0)
    }
}

/// The middle of the sample range.
pub open spec fn mid_sample(bit_depth: u8) -> u16 {
    if bit_depth == 0 {
        1
    } else {
        side((bit_depth - 1) as u8) as u16
    }
}

impl<'a> SourcePicture<'a> {
    pub open spec fn plane_of(&self, c_idx: u8) -> Seq<u16> {
        if c_idx == 0 {
            self.src.y@
        } else if c_idx == 1 {
            self.src.cb@
        } else {
            self.src.cr@
        }
    }

    /// The dimensions of a component.
    pub open spec fn dims_of(&self, c_idx: u8) -> (int, int) {
        if c_idx == 0 {
            (self.width as int, self.height as int)
        } else {
            chroma_dims(self.width, self.height, self.cat)
        }
    }

    /// The sample of a component at a position. Positions outside the picture take the
    /// nearest sample inside; samples that the source lacks are middle gray.
    pub open spec fn sample(&self, c_idx: u8, x: int, y: int) -> u16 {
        let plane = self.plane_of(c_idx);
        let (w, h) = self.dims_of(c_idx);
        let i = min_int(y, h - 1) * w + min_int(x, w - 1);
        if c_idx > 2 {
            0
        } else if plane.len() == 0 || w == 0 || h == 0 || i >= plane.len() {
            mid_sample(self.bit_depth)
        } else {
            plane[i]
        }
    }

    pub fn src_chroma_dims(&self) -> (d: (u32, u32))
        ensures
            (d.0 as int, d.1 as int) == chroma_dims(self.width, self.height, self.cat),
    {
        match self.cat {
            1 => (ceil_div_u32(self.width, 2), ceil_div_u32(self.height, 2)),
            2 => (ceil_div_u32(self.width, 2), self.height),
            3 => (self.width, self.height),
            _ => (0, 0),
        }
    }

    /// A component's samples, stride, width and height; nothing for a component that
    /// does not exist.
    pub fn src_plane(&self, c_idx: u8) -> (r: (&'a [u16], usize, u32, u32))
        ensures
            c_idx <= 2 ==> {
                &&& r.0@ == self.plane_of(c_idx)
                &&& r.1 == self.dims_of(c_idx).0
                &&& (r.2 as int, r.3 as int) == self.dims_of(c_idx)
            },
            c_idx > 2 ==> r.0@.len() == 0 && r.1 == 0 && r.2 == 0 && r.3 == 0,
    {
        match c_idx {
            0 => (self.src.y, self.width as usize, self.width, self.height),
            1 => {
                let (cw, ch) = self.src_chroma_dims();
                (self.src.cb, cw as usize, cw, ch)
            },
            2 => {
                let (cw, ch) = self.src_chroma_dims();
                (self.src.cr, cw as usize, cw, ch)
            },
            _ => (&[], 0, 0, 0),
        }
    }

    pub fn src_sample(&self, c_idx: u8, x: u32, y: u32) -> (s: u16)
        requires
            self.bit_depth <= 16,
        ensures
            s == self.sample(c_idx, x as int, y as int),
    {
        if c_idx > 2 {
            return 0;
        }
        let (plane, stride, w, h) = self.src_plane(c_idx);
        let len: usize = plane.len();
        if len == 0 || w == 0 || h == 0 {
            return self.mid();
        }
        let sx: u32 = min_u32(x, w - 1);
        let sy: u32 = min_u32(y, h - 1);
        proof {
            let (a, b) = (sy as int, w as int);
            assert(0 <= a * b <= 0xffff_fffe * 0xffff_ffff) by (nonlinear_arith)
                requires
                    0 <= a <= 0xffff_fffe,
                    0 <= b <= 0xffff_ffff,
            ;
        }
        let i: u64 = sy as u64 * w as u64 + sx as u64;
        if i < len as u64 {
            plane[i as usize]
        } else {
            self.mid()
        }
    }

    fn mid(&self) -> (m: u16)
        requires
            self.bit_depth <= 16,
        ensures
            m == mid_sample(self.bit_depth),
    {
        let shift: u8 = if self.bit_depth == 0 {
            0
        } else {
            self.bit_depth - 1
        };
        proof {
            vstd::arithmetic::power2::lemma2_to64();
            vstd::bits::lemma_u16_pow2_no_overflow(shift as nat);
            vstd::bits::lemma_u16_shl_is_mul(1, shift as u16);
        }
        1u16 << shift
    }

    /// A square of source samples, row by row.
    pub open spec fn square_of(&self, c_idx: u8, x0: int, y0: int, size: int) -> Seq<u16> {
        Seq::new(
            (size * size) as nat,
            |k: int| self.sample(c_idx, x0 + k % size, y0 + k / size),
        )
    }

    pub fn source_block(&self, c_idx: u8, x0: u32, y0: u32, size: u32) -> (block: Vec<u16>)
        requires
            self.bit_depth <= 16,
            x0 + size <= u32::MAX,
            y0 + size <= u32::MAX,
            size * size <= usize::MAX,
        ensures
            block@.len() == size * size,
            forall|k: int|
                0 <= k < size * size ==> #[trigger] block@[k] == self.sample(
                    c_idx,
                    x0 + k % size as int,
                    y0 + k / size as int,
                ),
            block@ == self.square_of(c_idx, x0 as int, y0 as int, size as int),
    {
        let mut block: Vec<u16> = Vec::new();
        let mut j: u32 = 0;
        assert(0 * size == 0);
        while j < size
            invariant
                self.bit_depth <= 16,
                x0 + size <= u32::MAX,
                y0 + size <= u32::MAX,
                j <= size,
                block@.len() == j * size,
                forall|k: int|
                    0 <= k < block@.len() ==> #[trigger] block@[k] == self.sample(
                        c_idx,
                        x0 + k % size as int,
                        y0 + k / size as int,
                    ),
            decreases size - j,
        {
            let ghost base = block@.len() as int;
            let mut i: u32 = 0;
            while i < size
                invariant
                    self.bit_depth <= 16,
                    x0 + size <= u32::MAX,
                    y0 + size <= u32::MAX,
                    i <= size,
                    j < size,
                    base == j * size,
                    block@.len() == base + i,
                    forall|k: int|
                        0 <= k < block@.len() ==> #[trigger] block@[k] == self.sample(
                            c_idx,
                            x0 + k % size as int,
                            y0 + k / size as int,
                        ),
                decreases size - i,
            {
                proof {
                    vstd::arithmetic::div_mod::lemma_fundamental_div_mod_converse(
                        base + i,
                        size as int,
                        j as int,
                        i as int,
                    );
                }
                block.push(self.src_sample(c_idx, x0 + i, y0 + j));
                i = i + 1;
            }
            j = j + 1;
            assert(j * size == base + size) by (nonlinear_arith)
                requires
                    base == (j - 1) * size,
            ;
        }
        assert(size * size >= 0) by (nonlinear_arith);
        assert(block@ =~= self.square_of(c_idx, x0 as int, y0 as int, size as int));
        block
    }
}

pub open spec fn square(d: int) -> nat {
    (d * d) as nat
}

/// The squared error of the first `k` samples of a block, row by row.
pub open spec fn block_sse(
    pic: &SourcePicture,
    plane: &Plane,
    c_idx: u8,
    x: int,
    y: int,
    size: int,
    k: nat,
) -> nat
    decreases k,
{
    if k == 0 {
        0
    } else {
        let i = k - 1;
        let (cx, cy) = (x + i % size, y + i / size);
        block_sse(pic, plane, c_idx, x, y, size, (k - 1) as nat) + square(
            pic.sample(c_idx, cx, cy) - plane.sample(cx, cy),
        )
    }
}

/// The squared error of a block.
pub open spec fn block_distortion(
    pic: &SourcePicture,
    frame: &Frame,
    c_idx: u8,
    x: int,
    y: int,
    log2_size: u8,
) -> nat {
    block_sse(
        pic,
        &frame.planes@[c_idx as int],
        c_idx,
        x,
        y,
        side(log2_size),
        (side(log2_size) * side(log2_size)) as nat,
    )
}

/// A block of a component lies in its plane.
pub open spec fn block_in_plane(frame: &Frame, c_idx: u8, x: int, y: int, log2_size: u8) -> bool {
    &&& c_idx <= 2
    &&& 0 <= x && x + side(log2_size) <= frame.planes@[c_idx as int].width
    &&& 0 <= y && y + side(log2_size) <= frame.planes@[c_idx as int].height
}

proof fn lemma_square_bound(d: int)
    requires
        -65535 <= d <= 65535,
    ensures
        0 <= d * d <= 0xffff_0000,
{
    assert(0 <= d * d <= 65535 * 65535) by (nonlinear_arith)
        requires
            -65535 <= d <= 65535,
    ;
}

/// The squared error between the source and the reconstruction of a block.
pub fn distortion_block(
    pic: &SourcePicture,
    frame: &Frame,
    c_idx: u8,
    x: u32,
    y: u32,
    log2_size: u8,
) -> (sse: u64)
    requires
        pic.bit_depth <= 16,
        frame.well_formed(),
        log2_size <= 15,
        block_in_plane(frame, c_idx, x as int, y as int, log2_size),
        x + side(log2_size) <= u32::MAX,
        y + side(log2_size) <= u32::MAX,
    ensures
        sse == block_distortion(pic, frame, c_idx, x as int, y as int, log2_size),
        sse <= side(log2_size) * side(log2_size) * 0x1_0000_0000,
{
    let size: u32 = block_side(log2_size);
    let plane = &frame.planes[c_idx as usize];
    proof {
        assert(plane.well_formed());
        vstd::arithmetic::power2::lemma2_to64();
        if log2_size < 15 {
            vstd::arithmetic::power2::lemma_pow2_strictly_increases(log2_size as nat, 15);
        }
    }
    let mut sse: u64 = 0;
    let mut j: u32 = 0;
    assert(0 * size == 0);
    while j < size
        invariant
            pic.bit_depth <= 16,
            plane.well_formed(),
            c_idx <= 2,
            0 < size <= 32768,
            x + size <= plane.width,
            y + size <= plane.height,
            x + size <= u32::MAX,
            y + size <= u32::MAX,
            j <= size,
            sse == block_sse(
                pic,
                plane,
                c_idx,
                x as int,
                y as int,
                size as int,
                (j * size) as nat,
            ),
            sse <= j * size * 0x1_0000_0000,
        decreases size - j,
    {
        let ghost base = j * size;
        assert(0 <= base && base + size <= size * size) by (nonlinear_arith)
            requires
                base == j * size,
                0 <= j,
                j + 1 <= size,
        ;
        assert(size * size <= 0x4000_0000) by (nonlinear_arith)
            requires
                0 < size <= 32768,
        ;
        let mut i: u32 = 0;
        while i < size
            invariant
                pic.bit_depth <= 16,
                plane.well_formed(),
                c_idx <= 2,
                0 < size <= 32768,
                x + size <= plane.width,
                y + size <= plane.height,
                x + size <= u32::MAX,
                y + size <= u32::MAX,
                j < size,
                i <= size,
                base == j * size,
                0 <= base,
                base + size <= 0x4000_0000,
                sse == block_sse(
                    pic,
                    plane,
                    c_idx,
                    x as int,
                    y as int,
                    size as int,
                    (base + i) as nat,
                ),
                sse <= (base + i) * 0x1_0000_0000,
            decreases size - i,
        {
            proof {
                vstd::arithmetic::div_mod::lemma_fundamental_div_mod_converse(
                    base + i,
                    size as int,
                    j as int,
                    i as int,
                );
                plane.lemma_index((x + i) as int, (y + j) as int);
            }
            let len: usize = plane.data.len();
            let recon: i64 = plane.data[(y + j) as usize * plane.stride + (x + i) as usize] as i64;
            let src: i64 = pic.src_sample(c_idx, x + i, y + j) as i64;
            let d: i64 = src - recon;
            proof {
                lemma_square_bound(d as int);
            }
            sse = sse + (d * d) as u64;
            i = i + 1;
        }
        j = j + 1;
        assert(j * size == base + size) by (nonlinear_arith)
            requires
                base == (j - 1) * size,
        ;
    }
    sse
}

/// The squared error of a block and its chroma.
pub open spec fn tt_distortion(
    pic: &SourcePicture,
    frame: &Frame,
    x0: u32,
    y0: u32,
    log2_size: u8,
) -> nat {
    block_distortion(pic, frame, 0, x0 as int, y0 as int, log2_size) + match spec_chroma_tb_geom(
        pic.cat,
        x0,
        y0,
        log2_size,
    ) {
        Some((cx, cy, clog2, count)) => chroma_distortion(
            pic,
            frame,
            cx as int,
            cy as int,
            clog2,
            count as nat,
        ),
        None => 0,
    }
}

/// The squared error of the first `n` chroma blocks, one below the other.
pub open spec fn chroma_distortion(
    pic: &SourcePicture,
    frame: &Frame,
    cx: int,
    cy: int,
    clog2: u8,
    n: nat,
) -> nat
    decreases n,
{
    if n == 0 {
        0
    } else {
        let ty = cy + (n - 1) * side(clog2);
        chroma_distortion(pic, frame, cx, cy, clog2, (n - 1) as nat) + block_distortion(
            pic,
            frame,
            1,
            cx,
            ty,
            clog2,
        ) + block_distortion(pic, frame, 2, cx, ty, clog2)
    }
}

/// A block and its chroma lie in the frame.
pub open spec fn tt_in_frame(
    pic: &SourcePicture,
    frame: &Frame,
    x0: u32,
    y0: u32,
    log2_size: u8,
) -> bool {
    &&& x0 + side(log2_size) <= u32::MAX
    &&& y0 + side(log2_size) <= u32::MAX
    &&& block_in_plane(frame, 0, x0 as int, y0 as int, log2_size)
    &&& match spec_chroma_tb_geom(pic.cat, x0, y0, log2_size) {
        Some((cx, cy, clog2, count)) => forall|n: int|
            0 <= n < count ==> #[trigger] chroma_in_planes(
                frame,
                cx as int,
                cy as int,
                clog2,
                n,
            ),
        None => true,
    }
}

/// The `n`-th chroma blocks lie in their planes.
pub open spec fn chroma_in_planes(frame: &Frame, cx: int, cy: int, clog2: u8, n: int) -> bool {
    &&& block_in_plane(frame, 1, cx, cy + n * side(clog2), clog2)
    &&& block_in_plane(frame, 2, cx, cy + n * side(clog2), clog2)
}

/// The squared error of a block and its chroma.
pub fn distortion_tt_region(
    pic: &SourcePicture,
    frame: &Frame,
    x0: u32,
    y0: u32,
    log2_size: u8,
) -> (sse: u64)
    requires
        pic.bit_depth <= 16,
        frame.well_formed(),
        log2_size <= 14,
        tt_in_frame(pic, frame, x0, y0, log2_size),
    ensures
        sse == tt_distortion(pic, frame, x0, y0, log2_size),
        sse <= 5 * (side(log2_size) * side(log2_size) * 0x1_0000_0000),
{
    let luma: u64 = distortion_block(pic, frame, 0, x0, y0, log2_size);
    let ghost area = side(log2_size) * side(log2_size) * 0x1_0000_0000;
    proof {
        lemma_area_bound(log2_size);
    }
    match chroma_tb_geom(pic.cat, x0, y0, log2_size) {
        Some((cx, cy, clog2, count)) => {
            let csize: u32 = block_side(clog2);
            let ghost carea = side(clog2) * side(clog2) * 0x1_0000_0000;
            proof {
                lemma_area_bound(clog2);
                lemma_side_le(clog2, log2_size);
                let (a, b) = (side(clog2), side(log2_size));
                assert(a * a <= b * b) by (nonlinear_arith)
                    requires
                        0 <= a <= b,
                ;
                lemma_chroma_fits(pic.cat, x0, y0, log2_size);
            }
            let mut chroma: u64 = 0;
            let mut n: u8 = 0;
            while n < count
                invariant
                    pic.bit_depth <= 16,
                    frame.well_formed(),
                    clog2 <= log2_size <= 14,
                    n <= count <= 2,
                    spec_chroma_tb_geom(pic.cat, x0, y0, log2_size) == Some(
                        (cx, cy, clog2, count),
                    ),
                    forall|k: int|
                        0 <= k < count ==> #[trigger] chroma_in_planes(
                            frame,
                            cx as int,
                            cy as int,
                            clog2,
                            k,
                        ),
                    csize == side(clog2),
                    cx + csize <= u32::MAX,
                    cy + count * csize <= u32::MAX,
                    carea == side(clog2) * side(clog2) * 0x1_0000_0000,
                    0 <= carea <= area,
                    area == side(log2_size) * side(log2_size) * 0x1_0000_0000,
                    area <= 0x1000_0000 * 0x1_0000_0000,
                    chroma == chroma_distortion(pic, frame, cx as int, cy as int, clog2, n as nat),
                    chroma <= 2 * n * carea,
                decreases count - n,
            {
                assert(n * csize + csize <= count * csize) by (nonlinear_arith)
                    requires
                        n + 1 <= count,
                        csize >= 0,
                ;
                let ghost k = n as int;
                assert(chroma_in_planes(frame, cx as int, cy as int, clog2, k));
                let ty: u32 = cy + n as u32 * csize;
                assert(2 * n * carea <= 4 * area) by (nonlinear_arith)
                    requires
                        0 <= n <= 1,
                        0 <= carea <= area,
                ;
                let cb: u64 = distortion_block(pic, frame, 1, cx, ty, clog2);
                let cr: u64 = distortion_block(pic, frame, 2, cx, ty, clog2);
                chroma = chroma + cb + cr;
                n = n + 1;
                assert(2 * n * carea == 2 * (n - 1) * carea + 2 * carea) by (nonlinear_arith);
            }
            assert(2 * n * carea <= 4 * area) by (nonlinear_arith)
                requires
                    0 <= n <= 2,
                    0 <= carea <= area,
            ;
            luma + chroma
        },
        None => luma,
    }
}

proof fn lemma_side_le(a: u8, b: u8)
    requires
        a <= b,
    ensures
        0 < side(a) <= side(b),
{
    vstd::arithmetic::power2::lemma_pow2_pos(a as nat);
    if a < b {
        vstd::arithmetic::power2::lemma_pow2_strictly_increases(a as nat, b as nat);
    }
}

proof fn lemma_area_bound(log2_size: u8)
    requires
        log2_size <= 14,
    ensures
        0 < side(log2_size) <= 16384,
        0 < side(log2_size) * side(log2_size) <= 0x1000_0000,
{
    vstd::arithmetic::power2::lemma2_to64();
    lemma_side_le(log2_size, 14);
    let s = side(log2_size);
    assert(0 < s * s <= 0x1000_0000) by (nonlinear_arith)
        requires
            0 < s <= 16384,
    ;
}

/// The chroma blocks of a block stay within the coordinate range.
proof fn lemma_chroma_fits(cat: u8, x0: u32, y0: u32, log2_size: u8)
    requires
        log2_size <= 14,
        x0 + side(log2_size) <= u32::MAX,
        y0 + side(log2_size) <= u32::MAX,
        spec_chroma_tb_geom(cat, x0, y0, log2_size) is Some,
    ensures
        ({
            let (cx, cy, clog2, count) = spec_chroma_tb_geom(cat, x0, y0, log2_size).unwrap();
            &&& cx + side(clog2) <= u32::MAX
            &&& cy + count * side(clog2) <= u32::MAX
        }),
{
    let (cx, cy, clog2, count) = spec_chroma_tb_geom(cat, x0, y0, log2_size).unwrap();
    lemma_side_le(clog2, log2_size);
    if cat == 2 {
        vstd::arithmetic::power2::lemma_pow2_unfold(log2_size as nat);
        assert(count * side(clog2) == side(log2_size));
    } else {
        assert(count * side(clog2) == side(clog2));
    }
}

/// A coding quadtree's blocks lie in the frame.
pub open spec fn cu_in_frame(
    pic: &SourcePicture,
    frame: &Frame,
    node: &CuNode,
    x0: int,
    y0: int,
    log2_size: u8,
) -> bool
    decreases node,
{
    &&& log2_size <= 14
    &&& 0 <= x0 && x0 + side(log2_size) <= u32::MAX
    &&& 0 <= y0 && y0 + side(log2_size) <= u32::MAX
    &&& match node {
        CuNode::Leaf(_) => tt_in_frame(pic, frame, x0 as u32, y0 as u32, log2_size),
        CuNode::Split { kids } => {
            let places = kid_positions(
                x0,
                y0,
                side(log2_size) / 2,
                pic.width as int,
                pic.height as int,
            );
            &&& log2_size > 0
            &&& kids@.len() >= places.len()
            &&& forall|i: int|
                0 <= i < kids@.len() && i < places.len() ==> cu_in_frame(
                    pic,
                    frame,
                    &#[trigger] kids@[i],
                    places[i].0,
                    places[i].1,
                    (log2_size - 1) as u8,
                )
        },
    }
}

/// The squared error of a coding quadtree: that of its coding units.
pub open spec fn cu_distortion(
    pic: &SourcePicture,
    frame: &Frame,
    node: &CuNode,
    x0: u32,
    y0: u32,
    log2_size: u8,
) -> nat
    decreases node, 0nat,
{
    match node {
        CuNode::Leaf(_) => tt_distortion(pic, frame, x0, y0, log2_size),
        CuNode::Split { kids } => {
            let places = kid_positions(
                x0 as int,
                y0 as int,
                side(log2_size) / 2,
                pic.width as int,
                pic.height as int,
            );
            cu_kids_distortion(pic, frame, kids@, places, places.len(), (log2_size - 1) as u8)
        },
    }
}

pub open spec fn cu_kids_distortion(
    pic: &SourcePicture,
    frame: &Frame,
    kids: Seq<CuNode>,
    places: Seq<(int, int)>,
    n: nat,
    log2_size: u8,
) -> nat
    decreases kids, n,
{
    if n == 0 || n > kids.len() {
        0
    } else {
        cu_kids_distortion(pic, frame, kids, places, (n - 1) as nat, log2_size) + cu_distortion(
            pic,
            frame,
            &kids[n - 1],
            places[n - 1].0 as u32,
            places[n - 1].1 as u32,
            log2_size,
        )
    }
}

proof fn lemma_kids_distortion_grows(
    pic: &SourcePicture,
    frame: &Frame,
    kids: Seq<CuNode>,
    places: Seq<(int, int)>,
    n: nat,
    m: nat,
    log2_size: u8,
)
    requires
        n <= m <= kids.len(),
    ensures
        cu_kids_distortion(pic, frame, kids, places, n, log2_size) <= cu_kids_distortion(
            pic,
            frame,
            kids,
            places,
            m,
            log2_size,
        ),
    decreases m,
{
    if n < m {
        lemma_kids_distortion_grows(pic, frame, kids, places, n, (m - 1) as nat, log2_size);
    }
}

/// The squared error of a coding quadtree.
pub fn distortion_cu_node(
    pic: &SourcePicture,
    frame: &Frame,
    node: &CuNode,
    x0: u32,
    y0: u32,
    log2_size: u8,
) -> (sse: u64)
    requires
        pic.bit_depth <= 16,
        frame.well_formed(),
        cu_in_frame(pic, frame, node, x0 as int, y0 as int, log2_size),
        cu_distortion(pic, frame, node, x0, y0, log2_size) <= u64::MAX,
    ensures
        sse == cu_distortion(pic, frame, node, x0, y0, log2_size),
    decreases node,
{
    match node {
        CuNode::Leaf(_) => distortion_tt_region(pic, frame, x0, y0, log2_size),
        CuNode::Split { kids } => {
            let half: u32 = block_side(log2_size) / 2;
            let places = cu_kid_positions(x0, y0, half, pic.width, pic.height);
            let ghost pv = kid_positions(
                x0 as int,
                y0 as int,
                side(log2_size) / 2,
                pic.width as int,
                pic.height as int,
            );
            let kl: u8 = log2_size - 1;
            let n: usize = places.len();
            assert(positions_view(places@) == pv);
            assert(pv.len() == n);
            let mut sse: u64 = 0;
            for i in 0..n
                invariant
                    n == places@.len(),
                    n == pv.len(),
                    pic.bit_depth <= 16,
                    frame.well_formed(),
                    kl == log2_size - 1,
                    pv == positions_view(places@),
                    pv == kid_positions(
                        x0 as int,
                        y0 as int,
                        side(log2_size) / 2,
                        pic.width as int,
                        pic.height as int,
                    ),
                    node matches CuNode::Split { kids: k } && k == kids,
                    cu_in_frame(pic, frame, node, x0 as int, y0 as int, log2_size),
                    kids@.len() >= n,
                    cu_kids_distortion(pic, frame, kids@, pv, n as nat, kl) <= u64::MAX,
                    sse == cu_kids_distortion(pic, frame, kids@, pv, i as nat, kl),
            {
                let (kx, ky) = places[i];
                proof {
                    assert(pv[i as int] == (kx as int, ky as int));
                    assert(cu_in_frame(pic, frame, &kids@[i as int], kx as int, ky as int, kl));
                    lemma_kids_distortion_grows(
                        pic,
                        frame,
                        kids@,
                        pv,
                        (i + 1) as nat,
                        n as nat,
                        kl,
                    );
                    assert(cu_kids_distortion(pic, frame, kids@, pv, (i + 1) as nat, kl) == sse
                        + cu_distortion(pic, frame, &kids@[i as int], kx, ky, kl));
                }
                sse = sse + distortion_cu_node(pic, frame, &kids[i], kx, ky, kl);
            }
            sse
        },
    }
}

} // verus!
