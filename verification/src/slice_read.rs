//! Reading the syntax of coding quadtrees and slices back.

use vstd::arithmetic::power2::{lemma2_to64, pow2};
use vstd::prelude::*;

use crate::contexts::SPLIT_CU_FLAG;
use crate::geometry::side;
use crate::items::{bin_if, cu_leaf_items, lemma_concat_assoc, SyntaxItem};
use crate::maps::BlockMaps;
use crate::slice::{ctu_position, slice_items};
use crate::syntax::CuNode;
use crate::syntax_read::{at, failed, lemma_read_bin, read_bin, Cursor};
use crate::unit_read::{
    law_coding_unit_reads_back, read_unit, unit_mpms, unit_regular, unit_seen, SeenUnit,
};
use crate::write::{cu_items, cu_kids_items, cu_split_coded, kids_at};

verus! {

/// What a decoder gets of a coding quadtree: a unit, or its quadrants in the picture.
pub enum SeenCu {
    Unit(SeenUnit),
    Split(Seq<SeenCu>),
}

/// What a decoder knows when it reads a quadtree: the size of the picture, the format, the
/// context of a split flag at a place and depth, and the most probable modes at a place.
pub struct Known {
    pub width: int,
    pub height: int,
    pub cat: u8,
    pub split_context: spec_fn(int, int, int) -> int,
    pub mpms: spec_fn(int, int) -> Seq<[u8; 3]>,
}

/// The side of a square of a size.
pub open spec fn edge(log2_size: nat) -> int {
    pow2(log2_size) as int
}

/// A block in the picture says whether it is split, unless it is of the smallest size; one
/// across the picture's edge is split.
pub open spec fn says_cu_split(k: Known, x: int, y: int, log2_size: nat) -> bool {
    log2_size > 3 && x + edge(log2_size) <= k.width && y + edge(log2_size) <= k.height
}

/// The place of a quadrant: first along the row, then the row below.
pub open spec fn quarter(x: int, y: int, half: int, i: int) -> (int, int) {
    (
        if i == 1 || i == 3 {
            x + half
        } else {
            x
        },
        if i == 2 || i == 3 {
            y + half
        } else {
            y
        },
    )
}

/// Reads a coding quadtree.
pub open spec fn read_cu<'a>(
    c: Cursor<'a>,
    k: Known,
    x: int,
    y: int,
    log2_size: nat,
    depth: int,
) -> (SeenCu, Cursor<'a>)
    decreases log2_size, 0nat,
{
    let says = says_cu_split(k, x, y, log2_size);
    let (flag, c0) = read_bin(c, says, SPLIT_CU_FLAG + (k.split_context)(x, y, depth));
    let split = if says {
        flag
    } else {
        log2_size > 3
    };
    if split && log2_size > 0 {
        let (kids, c1) = read_quarters(c0, k, x, y, (log2_size - 1) as nat, depth + 1, 4);
        (SeenCu::Split(kids), c1)
    } else {
        let (unit, c1) = read_unit(c0, log2_size, k.cat, (k.mpms)(x, y));
        (SeenCu::Unit(unit), c1)
    }
}

/// Reads those of the first `n` quadrants, of a size, that begin in the picture.
pub open spec fn read_quarters<'a>(
    c: Cursor<'a>,
    k: Known,
    x: int,
    y: int,
    log2_size: nat,
    depth: int,
    n: nat,
) -> (Seq<SeenCu>, Cursor<'a>)
    decreases log2_size, n + 1,
{
    if n == 0 {
        (Seq::empty(), c)
    } else {
        let (done, c0) = read_quarters(c, k, x, y, log2_size, depth, (n - 1) as nat);
        let (qx, qy) = quarter(x, y, edge(log2_size), n - 1);
        if qx < k.width && qy < k.height {
            let (kid, c1) = read_cu(c0, k, qx, qy, log2_size, depth);
            (done.push(kid), c1)
        } else {
            (done, c0)
        }
    }
}

/// A coding quadtree as a decoder is to see it.
pub open spec fn cu_seen(node: &CuNode) -> SeenCu
    decreases node,
{
    match node {
        CuNode::Leaf(leaf) => SeenCu::Unit(unit_seen(leaf)),
        CuNode::Split { kids } => SeenCu::Split(
            Seq::new(
                kids@.len(),
                |i: int|
                    if 0 <= i < kids@.len() {
                        cu_seen(&kids@[i])
                    } else {
                        SeenCu::Split(Seq::empty())
                    },
            ),
        ),
    }
}

/// How many of the first `n` quadrants begin in the picture.
pub open spec fn quarters_inside(k: Known, x: int, y: int, half: int, n: nat) -> nat
    decreases n,
{
    if n == 0 {
        0
    } else {
        let (qx, qy) = quarter(x, y, half, n - 1);
        quarters_inside(k, x, y, half, (n - 1) as nat) + if qx < k.width && qy < k.height {
            1nat
        } else {
            0nat
        }
    }
}

/// A coding quadtree that the grammar has: blocks across the edge are split, the smallest
/// are not, there is a child for each quadrant in the picture, and units have their most
/// probable modes.
pub open spec fn cu_regular(
    node: &CuNode,
    k: Known,
    x: int,
    y: int,
    log2_size: nat,
    depth: int,
) -> bool
    decreases node,
{
    &&& 3 <= log2_size <= 6
    &&& 0 <= depth <= 250
    &&& 0 <= x < k.width
    &&& 0 <= y < k.height
    &&& x + edge(log2_size) <= u32::MAX
    &&& y + edge(log2_size) <= u32::MAX
    &&& match node {
        CuNode::Leaf(leaf) => {
            &&& log2_size == 3 || says_cu_split(k, x, y, log2_size)
            &&& unit_regular(leaf, log2_size, k.cat)
            &&& (k.mpms)(x, y) == unit_mpms(leaf)
        },
        CuNode::Split { kids } => {
            let half = edge((log2_size - 1) as nat);
            &&& log2_size > 3
            &&& kids@.len() == quarters_inside(k, x, y, half, 4)
            &&& forall|q: int, i: int|
                #![trigger kids@[i], quarter(x, y, half, q)]
                0 <= q < 4 && 0 <= i < kids@.len() && i == quarters_inside(
                    k,
                    x,
                    y,
                    half,
                    q as nat,
                ) && quarter(x, y, half, q).0 < k.width && quarter(x, y, half, q).1 < k.height
                    ==> cu_regular(
                    &kids@[i],
                    k,
                    quarter(x, y, half, q).0,
                    quarter(x, y, half, q).1,
                    (log2_size - 1) as nat,
                    depth + 1,
                )
        },
    }
}

/// A decoder knows the picture that maps belong to, and finds the context of a split flag as
/// they give it.
pub open spec fn knows(k: Known, maps: &BlockMaps, cat: u8) -> bool {
    &&& k.width == maps.width
    &&& k.height == maps.height
    &&& k.cat == cat
    &&& forall|x: u32, y: u32, d: u8|
        0 <= #[trigger] (k.split_context)(x as int, y as int, d as int) <= 2
            && (k.split_context)(x as int, y as int, d as int) == maps.split_inc(x, y, d)
}

proof fn lemma_places(maps: &BlockMaps, k: Known, x: u32, y: u32, log2_size: u8)
    requires
        k.width == maps.width,
        k.height == maps.height,
        4 <= log2_size <= 6,
        x < k.width,
        y < k.height,
    ensures
        ({
            let half = edge((log2_size - 1) as nat);
            let places = kids_at(maps, x, y, log2_size);
            let (xi, yi) = (x as int, y as int);
            &&& places.len() == quarters_inside(k, xi, yi, half, 4)
            &&& forall|q: int|
                #![trigger quarter(xi, yi, half, q)]
                0 <= q < 4 && quarter(xi, yi, half, q).0 < k.width && quarter(xi, yi, half, q).1
                    < k.height ==> {
                    &&& quarters_inside(k, xi, yi, half, q as nat) < places.len()
                    &&& places[quarters_inside(k, xi, yi, half, q as nat) as int] == quarter(
                        xi,
                        yi,
                        half,
                        q,
                    )
                }
        }),
{
    lemma2_to64();
    reveal_with_fuel(quarters_inside, 5);
    let half = edge((log2_size - 1) as nat);
    let (xi, yi) = (x as int, y as int);
    assert(side(log2_size) / 2 == half) by {
        assert(log2_size == 4 || log2_size == 5 || log2_size == 6);
    }
    let places = kids_at(maps, x, y, log2_size);
    assert forall|q: int|
        #![trigger quarter(xi, yi, half, q)]
        0 <= q < 4 && quarter(xi, yi, half, q).0 < k.width && quarter(xi, yi, half, q).1
            < k.height implies {
        &&& quarters_inside(k, xi, yi, half, q as nat) < places.len()
        &&& places[quarters_inside(k, xi, yi, half, q as nat) as int] == quarter(xi, yi, half, q)
    } by {
        assert(q == 0 || q == 1 || q == 2 || q == 3);
    }
}

/// The syntax of a coding quadtree reads back as the quadtree, whatever follows: its splits,
/// and its units, each where it lies.
pub proof fn law_quadtree_reads_back<'a>(
    maps: &BlockMaps,
    k: Known,
    cat: u8,
    node: &'a CuNode,
    x: u32,
    y: u32,
    log2_size: u8,
    depth: u8,
    rest: Seq<SyntaxItem<'a>>,
)
    requires
        knows(k, maps, cat),
        cu_regular(node, k, x as int, y as int, log2_size as nat, depth as int),
    ensures
        read_cu(
            at(cu_items(maps, cat, node, x, y, log2_size, depth) + rest),
            k,
            x as int,
            y as int,
            log2_size as nat,
            depth as int,
        ) == (cu_seen(node), at(rest)),
    decreases node, 0nat,
{
    lemma2_to64();
    let (xi, yi) = (x as int, y as int);
    let says = says_cu_split(k, xi, yi, log2_size as nat);
    assert(cu_split_coded(maps, x, y, log2_size) == says);
    let ci = SPLIT_CU_FLAG + maps.split_inc(x, y, depth);
    assert((k.split_context)(xi, yi, depth as int) == maps.split_inc(x, y, depth));
    let flag = bin_if::<'a>(says, ci, node is Split);
    match node {
        CuNode::Leaf(leaf) => {
            let body = cu_leaf_items(leaf, log2_size, cat);
            lemma_concat_assoc(flag, body, rest);
            lemma_read_bin(says, ci, false, body + rest);
            law_coding_unit_reads_back(leaf, log2_size, cat, rest);
        },
        CuNode::Split { kids } => {
            let places = kids_at(maps, x, y, log2_size);
            let (kl, kd) = ((log2_size - 1) as u8, (depth + 1) as u8);
            let body = cu_kids_items(maps, cat, kids@, places, places.len(), kl, kd);
            lemma_concat_assoc(flag, body, rest);
            lemma_read_bin(says, ci, true, body + rest);
            lemma_places(maps, k, x, y, log2_size);
            lemma_quarters_read(maps, k, cat, kids@, places, x, y, kl, kd, 4, rest);
            let half = edge((log2_size - 1) as nat);
            assert(quarters_inside(k, xi, yi, half, 4) == places.len());
            let (done, c1) = read_quarters(
                at(body + rest),
                k,
                xi,
                yi,
                kl as nat,
                kd as int,
                4,
            );
            assert(done =~= cu_seen(node)->Split_0);
        },
    }
}

proof fn lemma_quarters_read<'a>(
    maps: &BlockMaps,
    k: Known,
    cat: u8,
    kids: Seq<CuNode>,
    places: Seq<(int, int)>,
    x: u32,
    y: u32,
    log2_size: u8,
    depth: u8,
    n: nat,
    rest: Seq<SyntaxItem<'a>>,
)
    requires
        knows(k, maps, cat),
        n <= 4,
        x < k.width,
        y < k.height,
        kids.len() == places.len(),
        places.len() == quarters_inside(k, x as int, y as int, edge(log2_size as nat), 4),
        forall|q: int|
            #![trigger quarter(x as int, y as int, edge(log2_size as nat), q)]
            0 <= q < 4 && quarter(x as int, y as int, edge(log2_size as nat), q).0 < k.width
                && quarter(x as int, y as int, edge(log2_size as nat), q).1 < k.height ==> {
                let i = quarters_inside(
                    k,
                    x as int,
                    y as int,
                    edge(log2_size as nat),
                    q as nat,
                ) as int;
                let p = quarter(x as int, y as int, edge(log2_size as nat), q);
                &&& i < places.len()
                &&& places[i] == p
                &&& cu_regular(&kids[i], k, p.0, p.1, log2_size as nat, depth as int)
            },
    ensures
        ({
            let m = quarters_inside(k, x as int, y as int, edge(log2_size as nat), n);
            let (done, c) = read_quarters(
                at(cu_kids_items(maps, cat, kids, places, m, log2_size, depth) + rest),
                k,
                x as int,
                y as int,
                log2_size as nat,
                depth as int,
                n,
            );
            &&& c == at(rest)
            &&& done.len() == m
            &&& m <= kids.len()
            &&& forall|i: int| 0 <= i < m ==> #[trigger] done[i] == cu_seen(&kids[i])
        }),
    decreases kids, n,
{
    let (xi, yi, half) = (x as int, y as int, edge(log2_size as nat));
    if n == 0 {
        assert(cu_kids_items(maps, cat, kids, places, 0, log2_size, depth) + rest =~= rest);
    } else {
        let q = n - 1;
        let m = quarters_inside(k, xi, yi, half, q as nat);
        let p = quarter(xi, yi, half, q);
        if p.0 < k.width && p.1 < k.height {
            let before = cu_kids_items(maps, cat, kids, places, m, log2_size, depth);
            assert(m < places.len() && places[m as int] == p);
            assert(cu_regular(&kids[m as int], k, p.0, p.1, log2_size as nat, depth as int));
            let last = cu_items(
                maps,
                cat,
                &kids[m as int],
                p.0 as u32,
                p.1 as u32,
                log2_size,
                depth,
            );
            lemma_concat_assoc(before, last, rest);
            lemma_quarters_read(
                maps,
                k,
                cat,
                kids,
                places,
                x,
                y,
                log2_size,
                depth,
                q as nat,
                last + rest,
            );
            law_quadtree_reads_back(
                maps,
                k,
                cat,
                &kids[m as int],
                p.0 as u32,
                p.1 as u32,
                log2_size,
                depth,
                rest,
            );
        } else {
            lemma_quarters_read(
                maps,
                k,
                cat,
                kids,
                places,
                x,
                y,
                log2_size,
                depth,
                q as nat,
                rest,
            );
        }
    }
}

/// Reads a terminating bin.
pub open spec fn read_end<'a>(c: Cursor<'a>) -> (bool, Cursor<'a>) {
    if c.ok && c.rest.len() > 0 {
        match c.rest[0] {
            SyntaxItem::Terminate(v) => (v, at(c.rest.skip(1))),
            _ => (false, failed()),
        }
    } else {
        (false, failed())
    }
}

/// The place of the `i`-th coding tree block: row by row.
pub open spec fn tree_place(width: int, i: int) -> (int, int) {
    let across = (width + 63) / 64;
    (64 * (i % across), 64 * (i / across))
}

/// Reads `n` coding trees, each with the flag that ends the slice.
pub open spec fn read_trees<'a>(c: Cursor<'a>, k: Known, n: nat) -> (
    Seq<(SeenCu, bool)>,
    Cursor<'a>,
)
    decreases n,
{
    if n == 0 {
        (Seq::empty(), c)
    } else {
        let (done, c0) = read_trees(c, k, (n - 1) as nat);
        let (x, y) = tree_place(k.width, n - 1);
        let (tree, c1) = read_cu(c0, k, x, y, 6, 0);
        let (end, c2) = read_end(c1);
        (done.push((tree, end)), c2)
    }
}

/// The syntax of a slice reads back as its coding trees, each at its place, and ends with the
/// last of them and no other.
pub proof fn law_slice_reads_back<'a>(
    maps: &BlockMaps,
    k: Known,
    cat: u8,
    trees: Seq<CuNode>,
    n: nat,
    rest: Seq<SyntaxItem<'a>>,
)
    requires
        knows(k, maps, cat),
        n <= trees.len(),
        maps.width > 0,
        forall|i: int|
            0 <= i < trees.len() ==> cu_regular(
                &#[trigger] trees[i],
                k,
                tree_place(k.width, i).0,
                tree_place(k.width, i).1,
                6,
                0,
            ),
    ensures
        ({
            let (read, c) = read_trees(at(slice_items(maps, cat, trees, n) + rest), k, n);
            &&& c == at(rest)
            &&& read.len() == n
            &&& forall|i: int|
                0 <= i < n ==> #[trigger] read[i] == (cu_seen(&trees[i]), i == trees.len() - 1)
        }),
    decreases n,
{
    if n == 0 {
        assert(slice_items(maps, cat, trees, 0) + rest =~= rest);
    } else {
        let i = n - 1;
        let (x, y) = tree_place(k.width, i);
        lemma_tree_place(maps.width, i);
        let before = slice_items(maps, cat, trees, i as nat);
        let tree = cu_items(maps, cat, &trees[i], x as u32, y as u32, 6, 0);
        let end = seq![SyntaxItem::<'a>::Terminate(n == trees.len())];
        assert(slice_items(maps, cat, trees, n) == before + tree + end);
        lemma_concat_assoc(before + tree, end, rest);
        lemma_concat_assoc(before, tree, end + rest);
        law_slice_reads_back(maps, k, cat, trees, i as nat, tree + (end + rest));
        assert(cu_regular(&trees[i], k, x, y, 6, 0));
        law_quadtree_reads_back(maps, k, cat, &trees[i], x as u32, y as u32, 6, 0, end + rest);
        lemma_end_read(n == trees.len(), rest);
        let (done, c0) = read_trees(
            at(before + (tree + (end + rest))),
            k,
            i as nat,
        );
        let seen = (cu_seen(&trees[i]), n == trees.len());
        let (read, c) = read_trees(at(slice_items(maps, cat, trees, n) + rest), k, n);
        assert(read == done.push(seen));
        assert forall|j: int| 0 <= j < n implies #[trigger] read[j] == (
            cu_seen(&trees[j]),
            j == trees.len() - 1,
        ) by {
            if j < i {
                assert(read[j] == done[j]);
            }
        }
    }
}

proof fn lemma_end_read<'a>(v: bool, rest: Seq<SyntaxItem<'a>>)
    ensures
        read_end(at(seq![SyntaxItem::<'a>::Terminate(v)] + rest)) == (v, at(rest)),
{
    assert((seq![SyntaxItem::<'a>::Terminate(v)] + rest).skip(1) =~= rest);
}

proof fn lemma_tree_place(width: u32, i: int)
    ensures
        tree_place(width as int, i) == ctu_position(width, i),
{
    let across = (width + 63) / 64;
    assert(64 * (i % across) == (i % across) * 64);
}

} // verus!
