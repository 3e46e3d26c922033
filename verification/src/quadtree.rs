//! Coding quadtrees in a picture: where their blocks lie, and how large their errors and
//! costs can be.

use vstd::prelude::*;

use crate::contexts::states_ok;
use crate::cost::{cu_node_cost, items_cost};
use crate::cost_bound::{
    cu_small, leaf_ok, lemma_cu_cost_bound, lemma_leaf_cost_bound, node_cap, BLOCK_BITS_MAX,
};
use crate::cu_leaf::{lemma_unit_in_frame, unit_fits};
use crate::cu_tree::square_in_planes;
use crate::final_code::square_ok;
use crate::frame::{Frame, Plane};
use crate::geometry::{kid_positions, side, spec_chroma_tb_geom, CHROMA_DM_IDX};
use crate::items::cu_leaf_items;
use crate::maps::BlockMaps;
use crate::math::ceil_div;
use crate::rough::Place;
use crate::search_state::SearchState;
use crate::source::{
    block_distortion, block_sse, chroma_distortion, chroma_in_planes, cu_distortion, cu_in_frame,
    cu_kids_distortion, tt_distortion, SourcePicture,
};
use crate::syntax::{chroma_modes_ok, CuLeaf, CuNode};
use crate::write::{cu_ok, fully_inside, kids_at, lemma_half_side};

verus! {

/// The planes hold the picture, its sides rounded up to whole blocks of the smallest size.
pub open spec fn frame_covers(pic: &SourcePicture, frame: &Frame) -> bool {
    let w = 8 * ceil_div(pic.width as int, 8);
    let h = 8 * ceil_div(pic.height as int, 8);
    let (luma, cb, cr) = (frame.planes@[0], frame.planes@[1], frame.planes@[2]);
    &&& w <= luma.width && h <= luma.height
    &&& pic.cat == 1 || pic.cat == 2 ==> w <= 2 * cb.width && w <= 2 * cr.width
    &&& pic.cat == 1 ==> h <= 2 * cb.height && h <= 2 * cr.height
    &&& pic.cat == 2 ==> h <= cb.height && h <= cr.height
    &&& pic.cat == 3 ==> w <= cb.width && w <= cr.width && h <= cb.height && h <= cr.height
}

/// A node of a coding quadtree: it begins inside the picture, on the grid of its size.
pub open spec fn spot(pic: &SourcePicture, st: &SearchState, at: Place, ct_depth: u8) -> bool {
    &&& 8 <= pic.bit_depth <= 16
    &&& pic.width <= u32::MAX - 64
    &&& pic.height <= u32::MAX - 64
    &&& frame_covers(pic, &st.frame)
    &&& st.maps.width == pic.width
    &&& st.maps.height == pic.height
    &&& 3 <= at.log2_size <= 6
    &&& at.x < pic.width && at.x as int % side(at.log2_size) == 0
    &&& at.y < pic.height && at.y as int % side(at.log2_size) == 0
    &&& ct_depth + at.log2_size <= u8::MAX
}

/// A child of a node.
pub open spec fn kid_place(p: (int, int), log2_size: u8) -> Place {
    Place { x: p.0 as u32, y: p.1 as u32, log2_size }
}

/// The children of a node.
pub open spec fn kid_places(st: &SearchState, at: Place) -> Seq<(int, int)> {
    kids_at(&st.maps, at.x, at.y, at.log2_size)
}

pub proof fn lemma_sides()
    ensures
        side(2) == 4,
        side(3) == 8,
        side(4) == 16,
        side(5) == 32,
        side(6) == 64,
{
    vstd::arithmetic::power2::lemma2_to64();
}

/// A node that is not split across the picture's edge lies in the planes.
pub proof fn lemma_spot_fits(pic: &SourcePicture, st: &SearchState, at: Place, ct_depth: u8)
    requires
        spot(pic, st, at, ct_depth),
        at.log2_size == 3 || fully_inside(&st.maps, at.x, at.y, at.log2_size),
    ensures
        unit_fits(pic, &st.frame, at.x, at.y, at.log2_size),
{
    lemma_sides();
    let l = at.log2_size;
    assert(l == 3 || l == 4 || l == 5 || l == 6);
    let (w, h) = (pic.width as int, pic.height as int);
    let (w8, h8) = (8 * ceil_div(w, 8), 8 * ceil_div(h, 8));
    assert(w <= w8 && h <= h8);
    let (x1, y1) = (at.x + side(l), at.y + side(l));
    assert(x1 <= w8 && y1 <= h8) by {
        if l == 3 {
            assert(at.x as int % 8 == 0 && at.y as int % 8 == 0);
        }
    }
    assert(square_ok(at.x as int, at.y as int, l));
    assert(square_in_planes(&st.frame, pic.cat, at.x as int, at.y as int, l));
}

pub proof fn lemma_kid_spot(
    pic: &SourcePicture,
    st: &SearchState,
    at: Place,
    ct_depth: u8,
    i: int,
)
    requires
        spot(pic, st, at, ct_depth),
        at.log2_size > 3,
        0 <= i < kid_places(st, at).len(),
    ensures
        spot(
            pic,
            st,
            kid_place(kid_places(st, at)[i], (at.log2_size - 1) as u8),
            (ct_depth + 1) as u8,
        ),
        0 <= kid_places(st, at)[i].0 <= u32::MAX,
        0 <= kid_places(st, at)[i].1 <= u32::MAX,
        fully_inside(&st.maps, at.x, at.y, at.log2_size) ==> fully_inside(
            &st.maps,
            kid_places(st, at)[i].0 as u32,
            kid_places(st, at)[i].1 as u32,
            (at.log2_size - 1) as u8,
        ),
{
    lemma_sides();
    let l = at.log2_size;
    assert(l == 4 || l == 5 || l == 6);
    assert(side((l - 1) as u8) == side(l) / 2);
}

pub proof fn lemma_spot_same(
    pic: &SourcePicture,
    a: &SearchState,
    b: &SearchState,
    at: Place,
    ct_depth: u8,
)
    requires
        spot(pic, a, at, ct_depth),
        a.frame.well_formed(),
        b.same_picture(a),
    ensures
        spot(pic, b, at, ct_depth),
{
    assert(b.frame.planes@[0].width == a.frame.planes@[0].width);
    assert(b.frame.planes@[1].width == a.frame.planes@[1].width);
    assert(b.frame.planes@[2].width == a.frame.planes@[2].width);
}

/// A coding unit that can be coded and priced.
pub open spec fn whole_leaf(leaf: &CuLeaf, log2_size: u8) -> bool {
    leaf_ok(leaf, log2_size) && leaf.chroma_mode_idx <= CHROMA_DM_IDX
}

/// A coding quadtree that can be coded and priced at a place.
pub open spec fn node_fits(
    pic: &SourcePicture,
    st: &SearchState,
    node: &CuNode,
    at: Place,
    ct_depth: u8,
) -> bool {
    &&& cu_ok(&st.maps, node, at.x as int, at.y as int, at.log2_size, ct_depth as int)
    &&& cu_small(node, at.log2_size)
    &&& cu_in_frame(pic, &st.frame, node, at.x as int, at.y as int, at.log2_size)
    &&& chroma_modes_ok(node)
}

pub proof fn lemma_leaf_fits(
    pic: &SourcePicture,
    st: &SearchState,
    node: &CuNode,
    at: Place,
    ct_depth: u8,
)
    requires
        node matches CuNode::Leaf(leaf) && whole_leaf(&leaf, at.log2_size),
        unit_fits(pic, &st.frame, at.x, at.y, at.log2_size),
    ensures
        node_fits(pic, st, node, at, ct_depth),
{
    lemma_unit_in_frame(pic, &st.frame, at.x, at.y, at.log2_size);
}

pub proof fn lemma_split_fits(
    pic: &SourcePicture,
    st: &SearchState,
    node: &CuNode,
    at: Place,
    ct_depth: u8,
)
    requires
        spot(pic, st, at, ct_depth),
        at.log2_size > 3,
        node is Split,
        node->kids@.len() == kid_places(st, at).len(),
        forall|i: int|
            0 <= i < node->kids@.len() ==> node_fits(
                pic,
                st,
                &#[trigger] node->kids@[i],
                kid_place(kid_places(st, at)[i], (at.log2_size - 1) as u8),
                (ct_depth + 1) as u8,
            ),
    ensures
        node_fits(pic, st, node, at, ct_depth),
{
    let kids = node->kids@;
    let places = kid_places(st, at);
    lemma_sides();
    assert forall|i: int| 0 <= i < kids.len() implies ({
        &&& cu_ok(
            &st.maps,
            &#[trigger] kids[i],
            places[i].0,
            places[i].1,
            (at.log2_size - 1) as u8,
            ct_depth + 1,
        )
        &&& cu_small(&kids[i], (at.log2_size - 1) as u8)
        &&& cu_in_frame(
            pic,
            &st.frame,
            &kids[i],
            places[i].0,
            places[i].1,
            (at.log2_size - 1) as u8,
        )
        &&& chroma_modes_ok(&kids[i])
    }) by {
        lemma_kid_spot(pic, st, at, ct_depth, i);
        assert(node_fits(
            pic,
            st,
            &kids[i],
            kid_place(places[i], (at.log2_size - 1) as u8),
            (ct_depth + 1) as u8,
        ));
    }
    let l = at.log2_size;
    assert(l == 4 || l == 5 || l == 6);
}

proof fn lemma_cu_ok_same(
    a: &BlockMaps,
    b: &BlockMaps,
    node: &CuNode,
    x0: int,
    y0: int,
    log2_size: u8,
    ct_depth: int,
)
    requires
        cu_ok(a, node, x0, y0, log2_size, ct_depth),
        a.width == b.width,
        a.height == b.height,
    ensures
        cu_ok(b, node, x0, y0, log2_size, ct_depth),
    decreases node,
{
    match node {
        CuNode::Leaf(_) => {},
        CuNode::Split { kids } => {
            let places = kids_at(a, x0 as u32, y0 as u32, log2_size);
            assert(places == kids_at(b, x0 as u32, y0 as u32, log2_size));
            assert forall|i: int| 0 <= i < kids@.len() && i < places.len() implies cu_ok(
                b,
                &#[trigger] kids@[i],
                places[i].0,
                places[i].1,
                (log2_size - 1) as u8,
                ct_depth + 1,
            ) by {
                lemma_cu_ok_same(
                    a,
                    b,
                    &kids@[i],
                    places[i].0,
                    places[i].1,
                    (log2_size - 1) as u8,
                    ct_depth + 1,
                );
            }
        },
    }
}

proof fn lemma_in_frame_same(
    pic: &SourcePicture,
    a: &Frame,
    b: &Frame,
    node: &CuNode,
    x0: int,
    y0: int,
    log2_size: u8,
)
    requires
        cu_in_frame(pic, a, node, x0, y0, log2_size),
        a.well_formed(),
        b.same_shape(a),
    ensures
        cu_in_frame(pic, b, node, x0, y0, log2_size),
    decreases node,
{
    match node {
        CuNode::Leaf(_) => {
            assert(b.planes@[0].width == a.planes@[0].width);
            assert(b.planes@[1].width == a.planes@[1].width);
            assert(b.planes@[2].width == a.planes@[2].width);
            match spec_chroma_tb_geom(pic.cat, x0 as u32, y0 as u32, log2_size) {
                Some((cx, cy, clog2, count)) => {
                    assert forall|n: int| 0 <= n < count implies #[trigger] chroma_in_planes(
                        b,
                        cx as int,
                        cy as int,
                        clog2,
                        n,
                    ) by {
                        assert(chroma_in_planes(a, cx as int, cy as int, clog2, n));
                    }
                },
                None => {},
            }
        },
        CuNode::Split { kids } => {
            let places = kid_positions(
                x0,
                y0,
                side(log2_size) / 2,
                pic.width as int,
                pic.height as int,
            );
            assert forall|i: int| 0 <= i < kids@.len() && i < places.len() implies cu_in_frame(
                pic,
                b,
                &#[trigger] kids@[i],
                places[i].0,
                places[i].1,
                (log2_size - 1) as u8,
            ) by {
                lemma_in_frame_same(
                    pic,
                    a,
                    b,
                    &kids@[i],
                    places[i].0,
                    places[i].1,
                    (log2_size - 1) as u8,
                );
            }
        },
    }
}

/// A quadtree that fits one state of a picture fits all of them.
pub proof fn lemma_fits_later(
    pic: &SourcePicture,
    a: &SearchState,
    b: &SearchState,
    node: &CuNode,
    at: Place,
    ct_depth: u8,
)
    requires
        node_fits(pic, a, node, at, ct_depth),
        a.frame.well_formed(),
        b.same_picture(a),
    ensures
        node_fits(pic, b, node, at, ct_depth),
{
    lemma_cu_ok_same(
        &a.maps,
        &b.maps,
        node,
        at.x as int,
        at.y as int,
        at.log2_size,
        ct_depth as int,
    );
    lemma_in_frame_same(
        pic,
        &a.frame,
        &b.frame,
        node,
        at.x as int,
        at.y as int,
        at.log2_size,
    );
}

/// The most that a block of a size and its chroma can differ from the source.
pub open spec fn sse_cap(log2_size: u8) -> int {
    5 * (side(log2_size) * side(log2_size) * 0x1_0000_0000)
}

proof fn lemma_sse_bound(
    pic: &SourcePicture,
    plane: &Plane,
    c_idx: u8,
    x: int,
    y: int,
    size: int,
    k: nat,
)
    ensures
        block_sse(pic, plane, c_idx, x, y, size, k) <= k * 0x1_0000_0000,
    decreases k,
{
    if k > 0 {
        lemma_sse_bound(pic, plane, c_idx, x, y, size, (k - 1) as nat);
        let i = k - 1;
        let (cx, cy) = (x + i % size, y + i / size);
        let d = pic.sample(c_idx, cx, cy) - plane.sample(cx, cy);
        assert(0 <= d * d <= 65535 * 65535) by (nonlinear_arith)
            requires
                -65535 <= d <= 65535,
        ;
    }
}

proof fn lemma_tt_sse_bound(
    pic: &SourcePicture,
    frame: &Frame,
    x0: u32,
    y0: u32,
    log2_size: u8,
)
    ensures
        tt_distortion(pic, frame, x0, y0, log2_size) <= sse_cap(log2_size),
{
    let s = side(log2_size);
    vstd::arithmetic::power2::lemma_pow2_pos(log2_size as nat);
    assert(s * s >= 0) by (nonlinear_arith);
    let plane = &frame.planes@[0];
    lemma_sse_bound(pic, plane, 0, x0 as int, y0 as int, s, (s * s) as nat);
    match spec_chroma_tb_geom(pic.cat, x0, y0, log2_size) {
        Some((cx, cy, clog2, count)) => {
            let c = side(clog2);
            vstd::arithmetic::power2::lemma_pow2_pos(clog2 as nat);
            if clog2 < log2_size {
                vstd::arithmetic::power2::lemma_pow2_strictly_increases(
                    clog2 as nat,
                    log2_size as nat,
                );
            }
            assert(0 <= c * c <= s * s) by (nonlinear_arith)
                requires
                    0 <= c <= s,
            ;
            reveal_with_fuel(chroma_distortion, 3);
            assert forall|k: u8, ty: int| 1 <= k <= 2 implies #[trigger] block_distortion(
                pic,
                frame,
                k,
                cx as int,
                ty,
                clog2,
            ) <= c * c * 0x1_0000_0000 by {
                lemma_sse_bound(
                    pic,
                    &frame.planes@[k as int],
                    k,
                    cx as int,
                    ty,
                    c,
                    (c * c) as nat,
                );
            }
            assert(count == 1 || count == 2);
        },
        None => {},
    }
}

pub proof fn lemma_sse_caps()
    ensures
        forall|l: u8| 3 <= l <= 6 ==> 0 < #[trigger] sse_cap(l) <= 0x1_0000_0000_0000,
        forall|l: u8| 4 <= l <= 6 ==> #[trigger] sse_cap(l) == 4 * sse_cap((l - 1) as u8),
{
    lemma_sides();
    assert forall|l: u8| 3 <= l <= 6 implies 0 < #[trigger] sse_cap(l) <= 0x1_0000_0000_0000 by {
        assert(l == 3 || l == 4 || l == 5 || l == 6);
    }
    assert forall|l: u8| 4 <= l <= 6 implies #[trigger] sse_cap(l) == 4 * sse_cap(
        (l - 1) as u8,
    ) by {
        assert(l == 4 || l == 5 || l == 6);
    }
}

/// The squared error of a quadtree is bounded by its size.
pub proof fn lemma_cu_sse_bound(
    pic: &SourcePicture,
    frame: &Frame,
    node: &CuNode,
    x0: u32,
    y0: u32,
    log2_size: u8,
)
    requires
        cu_in_frame(pic, frame, node, x0 as int, y0 as int, log2_size),
    ensures
        cu_distortion(pic, frame, node, x0, y0, log2_size) <= sse_cap(log2_size),
    decreases node, 0nat,
{
    match node {
        CuNode::Leaf(_) => {
            lemma_tt_sse_bound(pic, frame, x0, y0, log2_size);
            assert(cu_distortion(pic, frame, node, x0, y0, log2_size) <= sse_cap(log2_size));
        },
        CuNode::Split { kids } => {
            let places = kid_positions(
                x0 as int,
                y0 as int,
                side(log2_size) / 2,
                pic.width as int,
                pic.height as int,
            );
            lemma_kids_sse_bound(
                pic,
                frame,
                kids@,
                places,
                places.len(),
                (log2_size - 1) as u8,
            );
            lemma_half_side(log2_size);
            let h = side((log2_size - 1) as u8);
            let s = side(log2_size);
            assert(s * s == 4 * (h * h)) by (nonlinear_arith)
                requires
                    s == 2 * h,
            ;
            let cap = sse_cap((log2_size - 1) as u8);
            assert(cap == 5 * (h * h * 0x1_0000_0000));
            assert(sse_cap(log2_size) == 4 * cap);
            assert(cu_kids_distortion(
                pic,
                frame,
                kids@,
                places,
                places.len(),
                (log2_size - 1) as u8,
            ) <= places.len() * cap);
            assert(h * h >= 0) by (nonlinear_arith);
            assert(places.len() <= 4);
            assert(places.len() * cap <= 4 * cap) by (nonlinear_arith)
                requires
                    places.len() <= 4,
                    cap >= 0,
            ;
            assert(cu_distortion(pic, frame, node, x0, y0, log2_size) == cu_kids_distortion(
                pic,
                frame,
                kids@,
                places,
                places.len(),
                (log2_size - 1) as u8,
            ));
        },
    }
}

proof fn lemma_kids_sse_bound(
    pic: &SourcePicture,
    frame: &Frame,
    kids: Seq<CuNode>,
    places: Seq<(int, int)>,
    n: nat,
    log2_size: u8,
)
    requires
        n <= places.len(),
        forall|i: int|
            0 <= i < kids.len() && i < places.len() ==> cu_in_frame(
                pic,
                frame,
                &#[trigger] kids[i],
                places[i].0,
                places[i].1,
                log2_size,
            ),
    ensures
        cu_kids_distortion(pic, frame, kids, places, n, log2_size) <= n * sse_cap(log2_size),
    decreases kids, n,
{
    let cap = sse_cap(log2_size);
    let s = side(log2_size);
    assert(s * s >= 0) by (nonlinear_arith);
    assert(0 <= n * cap) by (nonlinear_arith)
        requires
            n >= 0,
            cap >= 0,
    ;
    if n > 0 && n <= kids.len() {
        lemma_kids_sse_bound(pic, frame, kids, places, (n - 1) as nat, log2_size);
        assert(cu_in_frame(
            pic,
            frame,
            &kids[n - 1],
            places[n - 1].0,
            places[n - 1].1,
            log2_size,
        ));
        lemma_cu_sse_bound(
            pic,
            frame,
            &kids[n - 1],
            places[n - 1].0 as u32,
            places[n - 1].1 as u32,
            log2_size,
        );
        assert((n - 1) * cap + cap == n * cap) by (nonlinear_arith);
    }
}

/// No quadtree of a coding tree unit costs more than this, in fractional bits.
pub const UNIT_BITS_MAX: u64 = 0x400_0000_0000_0000;

/// The error and the cost of a quadtree are bounded.
pub proof fn lemma_node_bounds(
    pic: &SourcePicture,
    st: &SearchState,
    states: Seq<int>,
    node: &CuNode,
    at: Place,
    ct_depth: u8,
)
    requires
        states_ok(states),
        3 <= at.log2_size <= 6,
        node_fits(pic, st, node, at, ct_depth),
    ensures
        cu_node_cost(states, &st.maps, pic.cat, node, at.x, at.y, at.log2_size, ct_depth)
            <= UNIT_BITS_MAX,
        cu_distortion(pic, &st.frame, node, at.x, at.y, at.log2_size) <= 0x1_0000_0000_0000,
{
    lemma_cu_cost_bound(states, &st.maps, pic.cat, node, at.x, at.y, at.log2_size, ct_depth);
    lemma_cu_sse_bound(pic, &st.frame, node, at.x, at.y, at.log2_size);
    lemma_sse_caps();
    lemma_caps(at.log2_size);
}

/// What a coding unit costs is bounded.
pub proof fn lemma_unit_bits(states: Seq<int>, leaf: &CuLeaf, log2_size: u8, cat: u8)
    requires
        states_ok(states),
        log2_size <= 6,
        whole_leaf(leaf, log2_size),
    ensures
        items_cost(states, cu_leaf_items(leaf, log2_size, cat)) <= UNIT_BITS_MAX,
{
    lemma_leaf_cost_bound(states, leaf, log2_size, cat, log2_size);
    lemma_caps(log2_size);
    let cap = node_cap(log2_size as nat) as int;
    assert(39 * cap * BLOCK_BITS_MAX <= 40 * cap * BLOCK_BITS_MAX) by (nonlinear_arith)
        requires
            cap >= 0,
    ;
}

proof fn lemma_caps(log2_size: u8)
    requires
        log2_size <= 6,
    ensures
        40 * node_cap(log2_size as nat) * BLOCK_BITS_MAX <= UNIT_BITS_MAX,
{
    reveal_with_fuel(node_cap, 8);
    let cap = node_cap(log2_size as nat) as int;
    assert(cap <= 5461) by {
        let l = log2_size;
        assert(l == 0 || l == 1 || l == 2 || l == 3 || l == 4 || l == 5 || l == 6);
    }
    assert(40 * cap * 0x100_0000_0000 <= 0x400_0000_0000_0000) by (nonlinear_arith)
        requires
            cap <= 5461,
    ;
}

} // verus!
