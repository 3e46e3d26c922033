//! Bounds on what syntax costs.

use vstd::prelude::*;

use crate::arith_decode::bin_of;
use crate::contexts::{states_ok, PART_MODE, PREV_INTRA_LUMA_PRED_FLAG};
use crate::cost::{
    cu_kids_cost, cu_node_cost, items_cost, items_ok, items_run, lemma_bin_cost_bound,
    lemma_leaf_items_ok, lemma_run_ok, lemma_tt_uses, Run,
};
use crate::items::{
    bin_if, bypass_items, chroma_mode_items, cu_leaf_items, leaf_items, leaf_mode_items,
    leaf_modes_ok, luma_tail_bits, mpm_place, nxn_flag_items, nxn_tail_items,
    parent_chroma_items, residual_if, tt_depths_ok, tt_flag_items, tt_items, tt_kids_items,
    SyntaxItem,
};
use crate::maps::BlockMaps;
use crate::syntax::{CodedBlock, CuLeaf, CuNode, LeafTu, ParentChromaTu, Tt};
use crate::tu_search::tt_shaped;
use crate::write::kids_at;

verus! {

/// No coded block costs more than this, in fractional bits.
pub const BLOCK_BITS_MAX: u64 = 0x100_0000_0000;

/// The residual blocks among some items cost no more than blocks do.
pub open spec fn items_small(items: Seq<SyntaxItem>) -> bool {
    forall|i: int|
        0 <= i < items.len() ==> (#[trigger] items[i] matches SyntaxItem::Residual { block, .. }
            ==> block.frac_bits <= BLOCK_BITS_MAX)
}

/// A list of items costs at most so much per item.
pub proof fn lemma_items_bound(r: Run, items: Seq<SyntaxItem>)
    requires
        states_ok(r.states),
        items_ok(items),
        items_small(items),
    ensures
        items_run(r, items).cost <= r.cost + items.len() * BLOCK_BITS_MAX,
    decreases items.len(),
{
    if items.len() > 0 {
        let init = items.drop_last();
        assert(items_ok(init)) by {
            assert forall|i: int| 0 <= i < init.len() implies (#[trigger] init[i] matches SyntaxItem::Bin(
                ci,
                _,
            ) ==> ci < crate::contexts::NUM_CONTEXTS) by {
                assert(init[i] == items[i]);
            }
        }
        assert(items_small(init)) by {
            assert forall|i: int|
                0 <= i < init.len() implies (#[trigger] init[i] matches SyntaxItem::Residual {
                block,
                ..
            } ==> block.frac_bits <= BLOCK_BITS_MAX) by {
                assert(init[i] == items[i]);
            }
        }
        lemma_items_bound(r, init);
        lemma_run_ok(r, init);
        let prev = items_run(r, init);
        assert(items[items.len() - 1] == items.last());
        match items.last() {
            SyntaxItem::Bin(ci, bin) => {
                assert(0 <= prev.states[ci as int] < 126);
                lemma_bin_cost_bound(prev.states[ci as int], bin_of(bin));
            },
            _ => {},
        }
        assert(items.len() * BLOCK_BITS_MAX == init.len() * BLOCK_BITS_MAX + BLOCK_BITS_MAX)
            by (nonlinear_arith)
            requires
                items.len() == init.len() + 1,
        ;
    }
}

pub open spec fn block_small(b: &CodedBlock) -> bool {
    b.frac_bits <= BLOCK_BITS_MAX
}

pub open spec fn leaf_small(l: &LeafTu) -> bool {
    block_small(&l.luma) && block_small(&l.cb) && block_small(&l.cr) && block_small(&l.cb1)
        && block_small(&l.cr1)
}

pub open spec fn parent_small(pc: &Option<ParentChromaTu>) -> bool {
    pc matches Some(c) ==> block_small(&c.cb) && block_small(&c.cr)
}

/// The blocks of a tree cost no more than blocks do.
pub open spec fn tt_small(tt: &Tt) -> bool
    decreases tt,
{
    match tt {
        Tt::Leaf(l) => leaf_small(l),
        Tt::Split { kids, parent_chroma, .. } => {
            &&& parent_small(parent_chroma)
            &&& forall|i: int| 0 <= i < kids@.len() ==> tt_small(&#[trigger] kids@[i])
        },
    }
}

/// How many nodes a tree has.
pub open spec fn tt_nodes(tt: &Tt) -> nat
    decreases tt, 0nat,
{
    match tt {
        Tt::Leaf(_) => 1,
        Tt::Split { kids, .. } => 1 + kids_nodes(kids@, kids@.len()),
    }
}

pub open spec fn kids_nodes(kids: Seq<Tt>, n: nat) -> nat
    decreases kids, n,
{
    if n == 0 || n > kids.len() {
        0
    } else {
        kids_nodes(kids, (n - 1) as nat) + tt_nodes(&kids[n - 1])
    }
}

/// The most nodes that a tree of a size can have.
pub open spec fn node_cap(log2_size: nat) -> nat
    decreases log2_size,
{
    if log2_size == 0 {
        1
    } else {
        1 + 4 * node_cap((log2_size - 1) as nat)
    }
}

proof fn lemma_small_append(a: Seq<SyntaxItem>, b: Seq<SyntaxItem>)
    requires
        items_small(a),
        items_small(b),
    ensures
        items_small(a + b),
{
    assert forall|i: int| 0 <= i < (a + b).len() implies (#[trigger] (a
        + b)[i] matches SyntaxItem::Residual { block, .. } ==> block.frac_bits
        <= BLOCK_BITS_MAX) by {
        if i < a.len() {
            assert((a + b)[i] == a[i]);
        } else {
            assert((a + b)[i] == b[i - a.len()]);
        }
    }
}

proof fn lemma_flags_small(node: &Tt, cat: u8, isf: bool, pcb: bool, pcr: bool)
    ensures
        items_small(tt_flag_items(node, cat, isf, pcb, pcr)),
        tt_flag_items(node, cat, isf, pcb, pcr).len() <= 5,
{
    reveal(bin_if);
    let items = tt_flag_items(node, cat, isf, pcb, pcr);
    assert forall|i: int| 0 <= i < items.len() implies (#[trigger] items[i] matches SyntaxItem::Residual {
        block,
        ..
    } ==> block.frac_bits <= BLOCK_BITS_MAX) by {}
}

proof fn lemma_leaf_items_small(l: &LeafTu, cat: u8, pcb: bool, pcr: bool)
    requires
        leaf_small(l),
    ensures
        items_small(leaf_items(l, cat, pcb, pcr)),
        leaf_items(l, cat, pcb, pcr).len() <= 6,
{
    reveal(bin_if);
    reveal(residual_if);
    let items = leaf_items(l, cat, pcb, pcr);
    assert forall|i: int| 0 <= i < items.len() implies (#[trigger] items[i] matches SyntaxItem::Residual {
        block,
        ..
    } ==> block.frac_bits <= BLOCK_BITS_MAX) by {}
}

proof fn lemma_parent_small(pc: &Option<ParentChromaTu>)
    requires
        parent_small(pc),
    ensures
        items_small(parent_chroma_items(pc)),
        parent_chroma_items(pc).len() <= 2,
{
    reveal(residual_if);
}

/// The items of a tree: at most eleven to a node.
pub proof fn lemma_tt_items_small(node: &Tt, cat: u8, isf: bool, pcb: bool, pcr: bool)
    requires
        tt_small(node),
    ensures
        items_small(tt_items(node, cat, isf, pcb, pcr)),
        tt_items(node, cat, isf, pcb, pcr).len() <= 11 * tt_nodes(node),
    decreases node, 0nat,
{
    lemma_flags_small(node, cat, isf, pcb, pcr);
    let flags = tt_flag_items(node, cat, isf, pcb, pcr);
    match node {
        Tt::Leaf(l) => {
            lemma_leaf_items_small(l, cat, pcb, pcr);
            lemma_small_append(flags, leaf_items(l, cat, pcb, pcr));
        },
        Tt::Split { kids, parent_chroma, .. } => {
            let (cb, cr) = (node.spec_cbf_cb(), node.spec_cbf_cr());
            lemma_kids_items_small(kids@, kids@.len(), cat, isf, cb, cr);
            lemma_parent_small(parent_chroma);
            let body = tt_kids_items(kids@, kids@.len(), cat, isf, cb, cr);
            lemma_small_append(body, parent_chroma_items(parent_chroma));
            lemma_small_append(flags, body + parent_chroma_items(parent_chroma));
        },
    }
}

proof fn lemma_kids_items_small(kids: Seq<Tt>, n: nat, cat: u8, isf: bool, cb: bool, cr: bool)
    requires
        n <= kids.len(),
        forall|i: int| 0 <= i < kids.len() ==> tt_small(&#[trigger] kids[i]),
    ensures
        items_small(tt_kids_items(kids, n, cat, isf, cb, cr)),
        tt_kids_items(kids, n, cat, isf, cb, cr).len() <= 11 * kids_nodes(kids, n),
    decreases kids, n,
{
    if n > 0 {
        lemma_kids_items_small(kids, (n - 1) as nat, cat, isf, cb, cr);
        assert(tt_small(&kids[n - 1]));
        lemma_tt_items_small(&kids[n - 1], cat, isf, cb, cr);
        lemma_small_append(
            tt_kids_items(kids, (n - 1) as nat, cat, isf, cb, cr),
            tt_items(&kids[n - 1], cat, isf, cb, cr),
        );
    }
}

/// A tree costs at most so much per node.
pub proof fn lemma_tt_cost_bound(
    states: Seq<int>,
    node: &Tt,
    cat: u8,
    isf: bool,
    pcb: bool,
    pcr: bool,
)
    requires
        states_ok(states),
        tt_depths_ok(node),
        tt_small(node),
    ensures
        items_cost(states, tt_items(node, cat, isf, pcb, pcr)) <= 11 * tt_nodes(node)
            * BLOCK_BITS_MAX,
{
    let items = tt_items(node, cat, isf, pcb, pcr);
    lemma_tt_items_small(node, cat, isf, pcb, pcr);
    lemma_tt_uses(node, cat, isf, pcb, pcr);
    lemma_items_bound(Run { cost: 0, states }, items);
    let (a, b, c) = (items.len() as int, 11 * tt_nodes(node) as int, BLOCK_BITS_MAX as int);
    assert(a * c <= b * c) by (nonlinear_arith)
        requires
            a <= b,
            c >= 0,
    ;
}

/// A transform tree of a size that can be coded and priced.
pub open spec fn tt_whole(tt: &Tt, log2_size: u8) -> bool {
    &&& tt_shaped(tt, log2_size)
    &&& tt_depths_ok(tt)
    &&& tt_small(tt)
    &&& tt_nodes(tt) <= node_cap(log2_size as nat)
}

/// A coding unit that can be priced.
pub open spec fn leaf_ok(leaf: &CuLeaf, log2_size: u8) -> bool {
    &&& leaf_modes_ok(leaf)
    &&& tt_whole(&leaf.tt, log2_size)
    &&& leaf.nxn is Some ==> log2_size == 3
}

proof fn lemma_tail_len(mpm: [u8; 3], mode: u8)
    ensures
        luma_tail_bits(mpm, mode).len() <= 5,
        items_small(bypass_items(luma_tail_bits(mpm, mode))),
{
    crate::bitstream::lemma_be_bits_len(5, crate::items::luma_rem(mpm, mode));
}

proof fn lemma_modes_small(leaf: &CuLeaf, log2_cb_size: u8)
    ensures
        items_small(leaf_mode_items(leaf, log2_cb_size)),
        leaf_mode_items(leaf, log2_cb_size).len() <= 25,
{
    match leaf.nxn {
        Some(nxn) => {
            reveal_with_fuel(nxn_tail_items, 5);
            lemma_tail_len(nxn.mpms[0], nxn.luma_modes[0]);
            lemma_tail_len(nxn.mpms[1], nxn.luma_modes[1]);
            lemma_tail_len(nxn.mpms[2], nxn.luma_modes[2]);
            lemma_tail_len(nxn.mpms[3], nxn.luma_modes[3]);
            let head = seq![SyntaxItem::Bin(PART_MODE, false)];
            let tails = nxn_tail_items(&nxn, 4);
            assert(items_small(tails)) by {
                let e = Seq::<SyntaxItem>::empty();
                lemma_small_append(e, bypass_items(luma_tail_bits(nxn.mpms[0], nxn.luma_modes[0])));
                lemma_small_append(
                    nxn_tail_items(&nxn, 1),
                    bypass_items(luma_tail_bits(nxn.mpms[1], nxn.luma_modes[1])),
                );
                lemma_small_append(
                    nxn_tail_items(&nxn, 2),
                    bypass_items(luma_tail_bits(nxn.mpms[2], nxn.luma_modes[2])),
                );
                lemma_small_append(
                    nxn_tail_items(&nxn, 3),
                    bypass_items(luma_tail_bits(nxn.mpms[3], nxn.luma_modes[3])),
                );
            }
            assert(items_small(head));
            assert(items_small(nxn_flag_items(&nxn, 4)));
            lemma_small_append(head, nxn_flag_items(&nxn, 4));
            lemma_small_append(head + nxn_flag_items(&nxn, 4), tails);
        },
        None => {
            reveal(bin_if);
            let part = bin_if(log2_cb_size == 3, PART_MODE as int, true);
            lemma_tail_len(leaf.mpm, leaf.luma_mode);
            let flag = seq![
                SyntaxItem::Bin(
                    PREV_INTRA_LUMA_PRED_FLAG,
                    mpm_place(leaf.mpm, leaf.luma_mode) < 3,
                ),
            ];
            assert(items_small(flag));
            assert(items_small(part));
            let tail = bypass_items(luma_tail_bits(leaf.mpm, leaf.luma_mode));
            lemma_small_append(flag, tail);
            lemma_small_append(part, flag + tail);
        },
    }
}

/// A coding unit costs at most so much.
pub proof fn lemma_leaf_cost_bound(
    states: Seq<int>,
    leaf: &CuLeaf,
    log2_cb_size: u8,
    cat: u8,
    log2_size: u8,
)
    requires
        states_ok(states),
        leaf_ok(leaf, log2_size),
    ensures
        items_cost(states, cu_leaf_items(leaf, log2_cb_size, cat)) <= 39 * node_cap(
            log2_size as nat,
        ) * BLOCK_BITS_MAX,
{
    let items = cu_leaf_items(leaf, log2_cb_size, cat);
    let modes = leaf_mode_items(leaf, log2_cb_size);
    let chroma = if cat != 0 {
        chroma_mode_items(leaf.chroma_mode_idx)
    } else {
        Seq::empty()
    };
    let tt = tt_items(&leaf.tt, cat, leaf.nxn is Some, true, true);
    lemma_modes_small(leaf, log2_cb_size);
    assert(items_small(chroma));
    lemma_tt_items_small(&leaf.tt, cat, leaf.nxn is Some, true, true);
    lemma_small_append(modes, chroma);
    lemma_small_append(modes + chroma, tt);
    lemma_leaf_items_ok(leaf, log2_cb_size, cat);
    lemma_items_bound(Run { cost: 0, states }, items);
    lemma_nodes_pos(&leaf.tt);
    let (a, b, c) = (
        items.len() as int,
        39 * node_cap(log2_size as nat) as int,
        BLOCK_BITS_MAX as int,
    );
    assert(a <= b);
    assert(a * c <= b * c) by (nonlinear_arith)
        requires
            a <= b,
            c >= 0,
    ;
}

proof fn lemma_nodes_pos(tt: &Tt)
    ensures
        tt_nodes(tt) >= 1,
{
}

/// A quadtree that can be priced.
pub open spec fn cu_small(node: &CuNode, log2_size: u8) -> bool
    decreases node,
{
    match node {
        CuNode::Leaf(leaf) => leaf_ok(leaf, log2_size),
        CuNode::Split { kids } => log2_size > 3 && forall|i: int|
            0 <= i < kids@.len() ==> cu_small(&#[trigger] kids@[i], (log2_size - 1) as u8),
    }
}

/// A quadtree costs at most so much.
pub proof fn lemma_cu_cost_bound(
    states: Seq<int>,
    maps: &BlockMaps,
    cat: u8,
    node: &CuNode,
    x0: u32,
    y0: u32,
    log2_size: u8,
    ct_depth: u8,
)
    requires
        states_ok(states),
        cu_small(node, log2_size),
    ensures
        cu_node_cost(states, maps, cat, node, x0, y0, log2_size, ct_depth) <= 40 * node_cap(
            log2_size as nat,
        ) * BLOCK_BITS_MAX,
    decreases node, 0nat,
{
    let inc = maps.split_inc(x0, y0, ct_depth);
    lemma_bin_cost_bound(
        states[crate::contexts::SPLIT_CU_FLAG + inc],
        bin_of(node is Split),
    );
    let cap = node_cap(log2_size as nat) as int;
    let most = BLOCK_BITS_MAX as int;
    assert(cap >= 1) by {
        lemma_cap_pos(log2_size as nat);
    }
    assert(39 * cap * most + most <= 40 * cap * most) by (nonlinear_arith)
        requires
            cap >= 1,
            most >= 0,
    ;
    match node {
        CuNode::Leaf(leaf) => {
            lemma_leaf_cost_bound(states, leaf, log2_size, cat, log2_size);
        },
        CuNode::Split { kids } => {
            let places = kids_at(maps, x0, y0, log2_size);
            let below = node_cap((log2_size - 1) as nat) as int;
            lemma_cu_kids_bound(
                states,
                maps,
                cat,
                kids@,
                places,
                places.len(),
                (log2_size - 1) as u8,
                (ct_depth + 1) as u8,
            );
            let n = places.len() as int;
            assert(n * (40 * below * most) + most <= 40 * (1 + 4 * below) * most)
                by (nonlinear_arith)
                requires
                    0 <= n <= 4,
                    below >= 0,
                    most >= 0,
            ;
        },
    }
}

proof fn lemma_cap_pos(n: nat)
    ensures
        node_cap(n) >= 1,
{
}

proof fn lemma_cu_kids_bound(
    states: Seq<int>,
    maps: &BlockMaps,
    cat: u8,
    kids: Seq<CuNode>,
    places: Seq<(int, int)>,
    n: nat,
    log2_size: u8,
    ct_depth: u8,
)
    requires
        states_ok(states),
        forall|i: int| 0 <= i < kids.len() ==> cu_small(&#[trigger] kids[i], log2_size),
    ensures
        cu_kids_cost(states, maps, cat, kids, places, n, log2_size, ct_depth) <= n * (40 * node_cap(
            log2_size as nat,
        ) * BLOCK_BITS_MAX),
    decreases kids, n,
{
    let unit = 40 * node_cap(log2_size as nat) * BLOCK_BITS_MAX;
    assert(0 <= n * unit) by (nonlinear_arith)
        requires
            n >= 0,
            unit >= 0,
    ;
    if n > 0 && n <= kids.len() {
        lemma_cu_kids_bound(
            states,
            maps,
            cat,
            kids,
            places,
            (n - 1) as nat,
            log2_size,
            ct_depth,
        );
        assert(cu_small(&kids[n - 1], log2_size));
        lemma_cu_cost_bound(
            states,
            maps,
            cat,
            &kids[n - 1],
            places[n - 1].0 as u32,
            places[n - 1].1 as u32,
            log2_size,
            ct_depth,
        );
        assert((n - 1) * unit + unit == n * unit) by (nonlinear_arith);
    }
}

} // verus!
