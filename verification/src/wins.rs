//! Counting the nodes of decided quadtrees by the class of their region.

use vstd::prelude::*;

use crate::budget::RegionClass;
use crate::geometry::{block_side, cu_kid_positions, kid_positions, positions_view, side};
use crate::rough::Place;
use crate::syntax::CuNode;
use crate::write::lemma_half_side;

verus! {

/// A node of a quadtree.
#[derive(Clone, Copy, Debug, PartialEq, Eq, Structural)]
pub struct NodeAt {
    pub at: Place,
    pub split: bool,
}

/// The nodes of a quadtree, each before its children.
pub open spec fn nodes_of(
    node: &CuNode,
    width: int,
    height: int,
    x: int,
    y: int,
    log2_size: u8,
) -> Seq<NodeAt>
    decreases node, 0nat,
{
    let own = NodeAt {
        at: Place { x: x as u32, y: y as u32, log2_size },
        split: node is Split,
    };
    match node {
        CuNode::Leaf(_) => seq![own],
        CuNode::Split { kids } => {
            let places = kid_positions(x, y, side(log2_size) / 2, width, height);
            seq![own] + kids_nodes_of(
                kids@,
                width,
                height,
                places,
                places.len(),
                (log2_size - 1) as u8,
            )
        },
    }
}

pub open spec fn kids_nodes_of(
    kids: Seq<CuNode>,
    width: int,
    height: int,
    places: Seq<(int, int)>,
    n: nat,
    log2_size: u8,
) -> Seq<NodeAt>
    decreases kids, n,
{
    if n == 0 || n > kids.len() {
        Seq::empty()
    } else {
        kids_nodes_of(kids, width, height, places, (n - 1) as nat, log2_size) + nodes_of(
            &kids[n - 1],
            width,
            height,
            places[n - 1].0,
            places[n - 1].1,
            log2_size,
        )
    }
}

/// The nodes of a quadtree can be listed.
pub open spec fn nodes_ok(
    node: &CuNode,
    width: int,
    height: int,
    x: int,
    y: int,
    log2_size: u8,
) -> bool
    decreases node,
{
    &&& log2_size < 31
    &&& 0 <= x && x + side(log2_size) <= u32::MAX
    &&& 0 <= y && y + side(log2_size) <= u32::MAX
    &&& match node {
        CuNode::Leaf(_) => true,
        CuNode::Split { kids } => {
            let places = kid_positions(x, y, side(log2_size) / 2, width, height);
            &&& log2_size > 0
            &&& kids@.len() >= places.len()
            &&& forall|i: int|
                0 <= i < kids@.len() && i < places.len() ==> nodes_ok(
                    &#[trigger] kids@[i],
                    width,
                    height,
                    places[i].0,
                    places[i].1,
                    (log2_size - 1) as u8,
                )
        },
    }
}

/// Appends the nodes of a quadtree.
pub fn list_nodes(
    out: &mut Vec<NodeAt>,
    node: &CuNode,
    width: u32,
    height: u32,
    x: u32,
    y: u32,
    log2_size: u8,
)
    requires
        nodes_ok(node, width as int, height as int, x as int, y as int, log2_size),
    ensures
        final(out)@ == old(out)@ + nodes_of(
            node,
            width as int,
            height as int,
            x as int,
            y as int,
            log2_size,
        ),
    decreases node,
{
    let ghost start = out@;
    let ghost (w, h, xi, yi) = (width as int, height as int, x as int, y as int);
    let at = Place { x, y, log2_size };
    match node {
        CuNode::Leaf(_) => {
            out.push(NodeAt { at, split: false });
            assert(out@ =~= start + nodes_of(node, w, h, xi, yi, log2_size));
        },
        CuNode::Split { kids } => {
            out.push(NodeAt { at, split: true });
            proof {
                lemma_half_side(log2_size);
            }
            let half: u32 = block_side(log2_size) / 2;
            let places = cu_kid_positions(x, y, half, width, height);
            let ghost pv = kid_positions(xi, yi, side(log2_size) / 2, w, h);
            assert(positions_view(places@) == pv);
            let kl: u8 = log2_size - 1;
            let n: usize = places.len();
            assert(pv.len() == n);
            let ghost own = seq![NodeAt { at, split: true }];
            assert(out@ =~= start + (own + kids_nodes_of(kids@, w, h, pv, 0, kl)));
            for i in 0..n
                invariant
                    n == places@.len(),
                    n == pv.len(),
                    n <= kids@.len(),
                    node matches CuNode::Split { kids: k } && k == kids,
                    pv == positions_view(places@),
                    pv == kid_positions(xi, yi, side(log2_size) / 2, w, h),
                    w == width,
                    h == height,
                    kl == log2_size - 1,
                    nodes_ok(node, w, h, xi, yi, log2_size),
                    out@ == start + (own + kids_nodes_of(kids@, w, h, pv, i as nat, kl)),
            {
                let (kx, ky) = places[i];
                let ghost before = kids_nodes_of(kids@, w, h, pv, i as nat, kl);
                proof {
                    assert(pv[i as int] == (kx as int, ky as int));
                    assert(nodes_ok(&kids@[i as int], w, h, kx as int, ky as int, kl));
                }
                list_nodes(out, &kids[i], width, height, kx, ky, kl);
                proof {
                    let one = nodes_of(&kids@[i as int], w, h, kx as int, ky as int, kl);
                    assert((start + (own + before)) + one =~= start + (own + (before + one)));
                }
            }
        },
    }
}

/// How many units and splits won, by the class of their region.
#[derive(Clone, Copy)]
pub struct RegionWins {
    pub leaf: [u64; 7],
    pub split: [u64; 7],
}

/// The place of a class.
pub open spec fn class_place(class: RegionClass) -> int {
    match class {
        RegionClass::Flat => 0,
        RegionClass::Gradient => 1,
        RegionClass::DirectionalEdge => 2,
        RegionClass::TextLike => 3,
        RegionClass::Texture => 4,
        RegionClass::Noisy => 5,
        RegionClass::ChromaCritical => 6,
    }
}

pub fn class_index(class: RegionClass) -> (i: usize)
    ensures
        i == class_place(class),
        i < 7,
{
    match class {
        RegionClass::Flat => 0,
        RegionClass::Gradient => 1,
        RegionClass::DirectionalEdge => 2,
        RegionClass::TextLike => 3,
        RegionClass::Texture => 4,
        RegionClass::Noisy => 5,
        RegionClass::ChromaCritical => 6,
    }
}

/// How many of the first `n` nodes are of a class and split, or not.
pub open spec fn wins(
    nodes: Seq<NodeAt>,
    classes: Seq<RegionClass>,
    class: int,
    split: bool,
    n: nat,
) -> int
    decreases n,
{
    if n == 0 {
        0
    } else {
        wins(nodes, classes, class, split, (n - 1) as nat) + if class_place(classes[n - 1])
            == class && nodes[n - 1].split == split {
            1int
        } else {
            0
        }
    }
}

/// Names the classes of some nodes.
pub open spec fn node_classes(classes: Seq<RegionClass>) -> bool {
    true
}

/// The wins of some nodes, with the classes that the caller gives their regions.
pub open spec fn wins_counted<R>(nodes: Seq<NodeAt>, region: R, w: &RegionWins) -> bool where
    R: Fn(Place) -> RegionClass,
 {
    exists|classes: Seq<RegionClass>|
        {
            &&& #[trigger] node_classes(classes)
            &&& classes.len() == nodes.len()
            &&& forall|i: int|
                0 <= i < nodes.len() ==> call_ensures(
                    region,
                    (nodes[i].at,),
                    #[trigger] classes[i],
                )
            &&& forall|c: int|
                0 <= c < 7 ==> #[trigger] w.leaf[c] == wins(
                    nodes,
                    classes,
                    c,
                    false,
                    nodes.len(),
                )
            &&& forall|c: int|
                0 <= c < 7 ==> #[trigger] w.split[c] == wins(
                    nodes,
                    classes,
                    c,
                    true,
                    nodes.len(),
                )
        }
}

/// Counts the nodes of quadtrees by the class of their region.
pub fn record_cu_wins<R>(nodes: &Vec<NodeAt>, region: &R) -> (w: RegionWins) where
    R: Fn(Place) -> RegionClass,

    requires
        forall|at: Place| #[trigger] call_requires(*region, (at,)),
    ensures
        wins_counted(nodes@, *region, &w),
{
    let mut w = RegionWins { leaf: [0; 7], split: [0; 7] };
    let ghost mut classes: Seq<RegionClass> = Seq::empty();
    let n: usize = nodes.len();
    for i in 0..n
        invariant
            n == nodes@.len(),
            forall|at: Place| #[trigger] call_requires(*region, (at,)),
            classes.len() == i,
            forall|k: int|
                0 <= k < i ==> call_ensures(*region, (nodes@[k].at,), #[trigger] classes[k]),
            forall|c: int|
                0 <= c < 7 ==> #[trigger] w.leaf[c] == wins(
                    nodes@,
                    classes,
                    c,
                    false,
                    i as nat,
                ) && w.leaf[c] <= i,
            forall|c: int|
                0 <= c < 7 ==> #[trigger] w.split[c] == wins(
                    nodes@,
                    classes,
                    c,
                    true,
                    i as nat,
                ) && w.split[c] <= i,
    {
        let class = (*region)(nodes[i].at);
        let k: usize = class_index(class);
        let ghost before = classes;
        proof {
            classes = classes.push(class);
            assert forall|c: int, s: bool| true implies #[trigger] wins(
                nodes@,
                before,
                c,
                s,
                i as nat,
            ) == wins(nodes@, classes, c, s, i as nat) by {
                lemma_wins_prefix(nodes@, before, classes, c, s, i as nat);
            }
        }
        if nodes[i].split {
            w.split[k] = w.split[k] + 1;
        } else {
            w.leaf[k] = w.leaf[k] + 1;
        }
    }
    assert(node_classes(classes));
    w
}

proof fn lemma_wins_prefix(
    nodes: Seq<NodeAt>,
    a: Seq<RegionClass>,
    b: Seq<RegionClass>,
    class: int,
    split: bool,
    n: nat,
)
    requires
        n <= a.len() <= b.len(),
        forall|i: int| 0 <= i < a.len() ==> a[i] == b[i],
    ensures
        wins(nodes, a, class, split, n) == wins(nodes, b, class, split, n),
    decreases n,
{
    if n > 0 {
        lemma_wins_prefix(nodes, a, b, class, split, (n - 1) as nat);
    }
}

} // verus!
