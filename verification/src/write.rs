//! The syntax of coding quadtrees, and coding trees into a slice.

use vstd::prelude::*;

use crate::contexts::SPLIT_CU_FLAG;
use crate::geometry::{block_side, cu_kid_positions, kid_positions, positions_view, side};
use crate::items::{
    bin_if, cu_leaf_items, leaf_modes_ok, lemma_concat_assoc, tt_depths_ok, write_cu_leaf,
    SyntaxItem,
};
use crate::maps::BlockMaps;
use crate::syntax::CuNode;

verus! {

/// The quadrants of a block that begin inside the picture.
pub open spec fn kids_at(maps: &BlockMaps, x0: u32, y0: u32, log2_cb_size: u8) -> Seq<(int, int)> {
    kid_positions(
        x0 as int,
        y0 as int,
        side(log2_cb_size) / 2,
        maps.width as int,
        maps.height as int,
    )
}

/// Whether a block lies in the picture as a whole.
pub open spec fn fully_inside(maps: &BlockMaps, x0: u32, y0: u32, log2_cb_size: u8) -> bool {
    x0 + side(log2_cb_size) <= maps.width && y0 + side(log2_cb_size) <= maps.height
}

/// Whether a node's split flag is coded: blocks across the picture's edge are split
/// without one, and blocks of the smallest size never are.
pub open spec fn cu_split_coded(maps: &BlockMaps, x0: u32, y0: u32, log2_cb_size: u8) -> bool {
    fully_inside(maps, x0, y0, log2_cb_size) && log2_cb_size > 3
}

/// A coding quadtree has a child for each quadrant in the picture, and coding units
/// whose syntax is defined.
pub open spec fn cu_ok(
    maps: &BlockMaps,
    node: &CuNode,
    x0: int,
    y0: int,
    log2_cb_size: u8,
    ct_depth: int,
) -> bool
    decreases node,
{
    &&& log2_cb_size < 32
    &&& 0 <= x0 && x0 + side(log2_cb_size) <= u32::MAX
    &&& 0 <= y0 && y0 + side(log2_cb_size) <= u32::MAX
    &&& ct_depth <= u8::MAX
    &&& match node {
        CuNode::Leaf(leaf) => leaf_modes_ok(leaf) && tt_depths_ok(&leaf.tt),
        CuNode::Split { kids } => {
            let places = kids_at(maps, x0 as u32, y0 as u32, log2_cb_size);
            &&& log2_cb_size > 0
            &&& kids@.len() >= places.len()
            &&& forall|i: int|
                0 <= i < kids@.len() && i < places.len() ==> cu_ok(
                    maps,
                    &#[trigger] kids@[i],
                    places[i].0,
                    places[i].1,
                    (log2_cb_size - 1) as u8,
                    ct_depth + 1,
                )
        },
    }
}

/// The syntax of a coding quadtree.
pub open spec fn cu_items<'a>(
    maps: &BlockMaps,
    cat: u8,
    node: &'a CuNode,
    x0: u32,
    y0: u32,
    log2_cb_size: u8,
    ct_depth: u8,
) -> Seq<SyntaxItem<'a>>
    decreases node, 0nat,
{
    bin_if(
        cu_split_coded(maps, x0, y0, log2_cb_size),
        SPLIT_CU_FLAG + maps.split_inc(x0, y0, ct_depth),
        node is Split,
    ) + (match node {
        CuNode::Leaf(leaf) => cu_leaf_items(leaf, log2_cb_size, cat),
        CuNode::Split { kids } => cu_kids_items(
            maps,
            cat,
            kids@,
            kids_at(maps, x0, y0, log2_cb_size),
            kids_at(maps, x0, y0, log2_cb_size).len(),
            (log2_cb_size - 1) as u8,
            (ct_depth + 1) as u8,
        ),
    })
}

/// The syntax of the first `n` children of a quadtree node.
pub open spec fn cu_kids_items<'a>(
    maps: &BlockMaps,
    cat: u8,
    kids: Seq<CuNode>,
    places: Seq<(int, int)>,
    n: nat,
    log2_cb_size: u8,
    ct_depth: u8,
) -> Seq<SyntaxItem<'a>>
    decreases kids, n,
{
    if n == 0 || n > kids.len() {
        Seq::empty()
    } else {
        cu_kids_items(maps, cat, kids, places, (n - 1) as nat, log2_cb_size, ct_depth) + cu_items(
            maps,
            cat,
            &kids[n - 1],
            places[n - 1].0 as u32,
            places[n - 1].1 as u32,
            log2_cb_size,
            ct_depth,
        )
    }
}

/// Halving the side of a block.
pub proof fn lemma_half_side(log2_size: u8)
    requires
        0 < log2_size < 32,
    ensures
        side(log2_size) == 2 * side((log2_size - 1) as u8),
        side((log2_size - 1) as u8) == side(log2_size) / 2,
{
    vstd::arithmetic::power2::lemma_pow2_unfold(log2_size as nat);
}

/// Appends the syntax of a coding quadtree.
pub fn write_cu<'a>(
    out: &mut Vec<SyntaxItem<'a>>,
    maps: &BlockMaps,
    cat: u8,
    node: &'a CuNode,
    x0: u32,
    y0: u32,
    log2_cb_size: u8,
    ct_depth: u8,
)
    requires
        cu_ok(maps, node, x0 as int, y0 as int, log2_cb_size, ct_depth as int),
    ensures
        final(out)@ == old(out)@ + cu_items(maps, cat, node, x0, y0, log2_cb_size, ct_depth),
    decreases node, 0nat,
{
    let ghost start = out@;
    let cb_size: u32 = block_side(log2_cb_size);
    let is_split: bool = match node {
        CuNode::Split { .. } => true,
        CuNode::Leaf(_) => false,
    };
    let split_coded: bool = x0 + cb_size <= maps.width && y0 + cb_size <= maps.height
        && log2_cb_size > 3;
    let ghost flag = bin_if::<'a>(
        cu_split_coded(maps, x0, y0, log2_cb_size),
        SPLIT_CU_FLAG + maps.split_inc(x0, y0, ct_depth),
        node is Split,
    );
    if split_coded {
        let ci: usize = SPLIT_CU_FLAG + maps.split_ctx_inc(x0, y0, ct_depth);
        out.push(SyntaxItem::Bin(ci, is_split));
    }
    proof {
        reveal(bin_if);
        assert(out@ =~= start + flag);
    }
    match node {
        CuNode::Split { kids } => {
            let half: u32 = cb_size / 2;
            let places = cu_kid_positions(x0, y0, half, maps.width, maps.height);
            let ghost pv = kids_at(maps, x0, y0, log2_cb_size);
            proof {
                lemma_half_side(log2_cb_size);
                assert(positions_view(places@) == pv);
                assert forall|i: int|
                    0 <= i < kids@.len() && i < places@.len() implies cu_ok(
                    maps,
                    &#[trigger] kids@[i],
                    places@[i].0 as int,
                    places@[i].1 as int,
                    (log2_cb_size - 1) as u8,
                    ct_depth + 1,
                ) by {
                    assert(pv[i] == (places@[i].0 as int, places@[i].1 as int));
                }
            }
            assert(cu_ok(
                maps,
                &kids@[0],
                places@[0].0 as int,
                places@[0].1 as int,
                (log2_cb_size - 1) as u8,
                ct_depth + 1,
            ));
            write_cu_kids(out, maps, cat, kids, &places, log2_cb_size - 1, ct_depth + 1);
            proof {
                lemma_concat_assoc(
                    start,
                    flag,
                    cu_kids_items(
                        maps,
                        cat,
                        kids@,
                        pv,
                        pv.len(),
                        (log2_cb_size - 1) as u8,
                        (ct_depth + 1) as u8,
                    ),
                );
            }
        },
        CuNode::Leaf(leaf) => {
            write_cu_leaf(out, leaf, log2_cb_size, cat);
            proof {
                lemma_concat_assoc(start, flag, cu_leaf_items(leaf, log2_cb_size, cat));
            }
        },
    }
}

/// Appends the syntax of the children of a quadtree node.
fn write_cu_kids<'a>(
    out: &mut Vec<SyntaxItem<'a>>,
    maps: &BlockMaps,
    cat: u8,
    kids: &'a Vec<CuNode>,
    places: &Vec<(u32, u32)>,
    log2_cb_size: u8,
    ct_depth: u8,
)
    requires
        kids@.len() >= places@.len(),
        forall|i: int|
            0 <= i < kids@.len() && i < places@.len() ==> cu_ok(
                maps,
                &#[trigger] kids@[i],
                places@[i].0 as int,
                places@[i].1 as int,
                log2_cb_size,
                ct_depth as int,
            ),
    ensures
        final(out)@ == old(out)@ + cu_kids_items(
            maps,
            cat,
            kids@,
            positions_view(places@),
            places@.len(),
            log2_cb_size,
            ct_depth,
        ),
    decreases kids, 1nat,
{
    let ghost start = out@;
    let ghost pv = positions_view(places@);
    let n: usize = places.len();
    assert(start + cu_kids_items(maps, cat, kids@, pv, 0, log2_cb_size, ct_depth) =~= start);
    for i in 0..n
        invariant
            n == places@.len(),
            pv == positions_view(places@),
            kids@.len() >= places@.len(),
            forall|k: int|
                0 <= k < kids@.len() && k < places@.len() ==> cu_ok(
                    maps,
                    &#[trigger] kids@[k],
                    places@[k].0 as int,
                    places@[k].1 as int,
                    log2_cb_size,
                    ct_depth as int,
                ),
            out@ == start + cu_kids_items(maps, cat, kids@, pv, i as nat, log2_cb_size, ct_depth),
    {
        let (kx, ky) = places[i];
        assert(pv[i as int] == (kx as int, ky as int));
        write_cu(out, maps, cat, &kids[i], kx, ky, log2_cb_size, ct_depth);
        proof {
            lemma_concat_assoc(
                start,
                cu_kids_items(maps, cat, kids@, pv, i as nat, log2_cb_size, ct_depth),
                cu_items(maps, cat, &kids@[i as int], kx, ky, log2_cb_size, ct_depth),
            );
        }
    }
}

} // verus!
