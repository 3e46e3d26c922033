//! The payload of a slice.

use vstd::prelude::*;

use crate::arith_decode::code_start;
use crate::bins::{coded_bins, ops_run_on, payload_spells, reads_back, slice_payload, BinOp};
use crate::bitstream::bytes_bits;
use crate::contexts::{Contexts, NUM_CONTEXTS, SPLIT_CU_FLAG};
use crate::cost::{items_ok, items_run_on, lemma_leaf_items_ok};
use crate::geometry::CTB_LOG2;
use crate::items::{bin_if, cu_leaf_items, lemma_concat_assoc, SyntaxItem};
use crate::maps::BlockMaps;
use crate::math::{ceil_div, ceil_div_u32};
use crate::syntax::CuNode;
use crate::write::{cu_items, cu_kids_items, cu_ok, cu_split_coded, kids_at, write_cu};

verus! {

/// Where the `i`-th coding tree block of a picture lies.
pub open spec fn ctu_position(width: u32, i: int) -> (int, int) {
    let ctbs_x = ceil_div(width as int, 64);
    ((i % ctbs_x) * 64, (i / ctbs_x) * 64)
}

/// The syntax of the first `n` coding trees of a slice, each with the flag that says
/// whether it is the last one.
pub open spec fn slice_items<'a>(maps: &BlockMaps, cat: u8, trees: Seq<CuNode>, n: nat) -> Seq<
    SyntaxItem<'a>,
>
    decreases n,
{
    if n == 0 || n > trees.len() {
        Seq::empty()
    } else {
        let (x, y) = ctu_position(maps.width, n - 1);
        slice_items(maps, cat, trees, (n - 1) as nat) + cu_items(
            maps,
            cat,
            &trees[n - 1],
            x as u32,
            y as u32,
            CTB_LOG2,
            0,
        ) + seq![SyntaxItem::Terminate(n == trees.len())]
    }
}

/// The coding trees are those of a picture.
pub open spec fn trees_ok(maps: &BlockMaps, trees: Seq<CuNode>) -> bool {
    &&& maps.width > 0
    &&& forall|i: int|
        0 <= i < trees.len() ==> cu_ok(
            maps,
            &#[trigger] trees[i],
            ctu_position(maps.width, i).0,
            ctu_position(maps.width, i).1,
            CTB_LOG2,
            0,
        )
}

/// How many residual blocks a list holds.
pub open spec fn residual_count(items: Seq<SyntaxItem>) -> nat
    decreases items.len(),
{
    if items.len() == 0 {
        0
    } else {
        residual_count(items.drop_last()) + (if items.last() is Residual {
            1nat
        } else {
            0nat
        })
    }
}

/// The bins of a list of items, with `residuals` in the places of its residual blocks.
pub open spec fn item_ops(items: Seq<SyntaxItem>, residuals: Seq<Vec<BinOp>>) -> Seq<BinOp>
    decreases items.len(),
{
    if items.len() == 0 {
        Seq::empty()
    } else {
        let init = items.drop_last();
        item_ops(init, residuals) + (match items.last() {
            SyntaxItem::Bin(ci, bin) => seq![BinOp::Context(ci, bin)],
            SyntaxItem::Bypass(bin) => seq![BinOp::Bypass(bin)],
            SyntaxItem::Terminate(bin) => seq![BinOp::Terminate(bin)],
            SyntaxItem::Residual { .. } => residuals[residual_count(init) as int]@,
        })
    }
}

/// The residual bins name contexts that exist, and none ends the code.
pub open spec fn residuals_ok(residuals: Seq<Vec<BinOp>>) -> bool {
    forall|k: int, i: int|
        0 <= k < residuals.len() && 0 <= i < residuals[k]@.len() ==> {
            &&& (#[trigger] residuals[k]@[i]).valid()
            &&& residuals[k]@[i] != BinOp::Terminate(true)
        }
}

pub open spec fn ops_valid(ops: Seq<BinOp>) -> bool {
    forall|i: int| 0 <= i < ops.len() ==> (#[trigger] ops[i]).valid()
}

/// Lists the bins of items, taking those of residual blocks from `residuals` in order.
pub fn splice_bins(items: &[SyntaxItem], residuals: &[Vec<BinOp>]) -> (ops: Vec<BinOp>)
    requires
        items_ok(items@),
        residual_count(items@) <= residuals@.len(),
        residuals_ok(residuals@),
    ensures
        ops@ == item_ops(items@, residuals@),
        ops_valid(ops@),
{
    let mut ops: Vec<BinOp> = Vec::new();
    let mut next: usize = 0;
    let n: usize = items.len();
    for i in 0..n
        invariant
            n == items@.len(),
            items_ok(items@),
            residual_count(items@) <= residuals@.len(),
            residuals_ok(residuals@),
            next == residual_count(items@.take(i as int)),
            ops@ == item_ops(items@.take(i as int), residuals@),
            ops_valid(ops@),
    {
        let ghost done = items@.take(i as int);
        proof {
            assert(items@.take(i + 1).drop_last() =~= done);
            assert(items@.take(i + 1).last() == items@[i as int]);
            lemma_residual_count_grows(items@, i + 1);
        }
        let ghost before = ops@;
        match &items[i] {
            SyntaxItem::Bin(ci, bin) => {
                ops.push(BinOp::Context(*ci, *bin));
                assert(ops@ =~= before + seq![BinOp::Context(*ci, *bin)]);
            },
            SyntaxItem::Bypass(bin) => {
                ops.push(BinOp::Bypass(*bin));
                assert(ops@ =~= before + seq![BinOp::Bypass(*bin)]);
            },
            SyntaxItem::Terminate(bin) => {
                ops.push(BinOp::Terminate(*bin));
                assert(ops@ =~= before + seq![BinOp::Terminate(*bin)]);
            },
            SyntaxItem::Residual { .. } => {
                append_ops(&mut ops, &residuals[next]);
                proof {
                    let more = residuals@[next as int]@;
                    assert forall|k: int| 0 <= k < ops@.len() implies (
                    #[trigger] ops@[k]).valid() by {
                        if k < before.len() {
                            assert(ops@[k] == before[k]);
                        } else {
                            assert(ops@[k] == residuals@[next as int]@[k - before.len()]);
                        }
                    }
                }
                next = next + 1;
            },
        }
    }
    assert(items@.take(n as int) =~= items@);
    ops
}

proof fn lemma_residual_count_grows(items: Seq<SyntaxItem>, k: int)
    requires
        0 <= k <= items.len(),
    ensures
        residual_count(items.take(k)) <= residual_count(items),
    decreases items.len(),
{
    if k < items.len() {
        lemma_residual_count_grows(items.drop_last(), k);
        assert(items.drop_last().take(k) =~= items.take(k));
    } else {
        assert(items.take(k) =~= items);
    }
}

fn append_ops(ops: &mut Vec<BinOp>, more: &Vec<BinOp>)
    ensures
        final(ops)@ == old(ops)@ + more@,
{
    let n: usize = more.len();
    assert(ops@ =~= old(ops)@ + more@.take(0));
    for i in 0..n
        invariant
            n == more@.len(),
            ops@ == old(ops)@ + more@.take(i as int),
    {
        ops.push(more[i]);
        assert(ops@ =~= old(ops)@ + more@.take(i + 1));
    }
    assert(more@.take(n as int) =~= more@);
}

/// Appends the syntax of a slice of coding trees.
pub fn write_slice<'a>(
    out: &mut Vec<SyntaxItem<'a>>,
    maps: &BlockMaps,
    cat: u8,
    trees: &'a Vec<CuNode>,
)
    requires
        trees_ok(maps, trees@),
        trees@.len() <= u32::MAX,
    ensures
        final(out)@ == old(out)@ + slice_items(maps, cat, trees@, trees@.len()),
{
    let ghost start = out@;
    let n: usize = trees.len();
    let ctbs_x: u32 = ceil_div_u32(maps.width, 64);
    assert(ctbs_x >= 1);
    assert(start + slice_items(maps, cat, trees@, 0) =~= start);
    for i in 0..n
        invariant
            n == trees@.len(),
            n <= u32::MAX,
            trees_ok(maps, trees@),
            ctbs_x == ceil_div(maps.width as int, 64),
            ctbs_x >= 1,
            out@ == start + slice_items(maps, cat, trees@, i as nat),
    {
        let ghost before = out@;
        let (cx, cy) = (i as u32 % ctbs_x, i as u32 / ctbs_x);
        assert(cu_ok(
            maps,
            &trees@[i as int],
            ctu_position(maps.width, i as int).0,
            ctu_position(maps.width, i as int).1,
            CTB_LOG2,
            0,
        ));
        let (x0, y0) = (cx * 64, cy * 64);
        write_cu(out, maps, cat, &trees[i], x0, y0, CTB_LOG2, 0);
        out.push(SyntaxItem::Terminate(i + 1 == n));
        proof {
            let tree = cu_items(maps, cat, &trees@[i as int], x0, y0, CTB_LOG2, 0);
            let flag = seq![SyntaxItem::<'a>::Terminate(i + 1 == n)];
            let done = slice_items(maps, cat, trees@, i as nat);
            assert(out@ =~= start + done + tree + flag);
            lemma_concat_assoc(start, done, tree);
            lemma_concat_assoc(start, done + tree, flag);
        }
    }
}

proof fn lemma_items_ok_concat(a: Seq<SyntaxItem>, b: Seq<SyntaxItem>)
    requires
        items_ok(a),
        items_ok(b),
    ensures
        items_ok(a + b),
        items_run_on(a) && items_run_on(b) ==> items_run_on(a + b),
{
    let c = a + b;
    assert forall|i: int| 0 <= i < c.len() implies (
    #[trigger] c[i] matches SyntaxItem::Bin(ci, _) ==> ci < NUM_CONTEXTS) by {
        if i < a.len() {
            assert(c[i] == a[i]);
        } else {
            assert(c[i] == b[i - a.len()]);
        }
    }
}

/// The syntax of a coding quadtree names contexts that exist.
pub proof fn lemma_cu_items_ok(
    maps: &BlockMaps,
    cat: u8,
    node: &CuNode,
    x0: u32,
    y0: u32,
    log2_cb_size: u8,
    ct_depth: u8,
)
    requires
        cu_ok(maps, node, x0 as int, y0 as int, log2_cb_size, ct_depth as int),
    ensures
        items_ok(cu_items(maps, cat, node, x0, y0, log2_cb_size, ct_depth)),
        items_run_on(cu_items(maps, cat, node, x0, y0, log2_cb_size, ct_depth)),
    decreases node, 0nat,
{
    let flag = bin_if(
        cu_split_coded(maps, x0, y0, log2_cb_size),
        SPLIT_CU_FLAG + maps.split_inc(x0, y0, ct_depth),
        node is Split,
    );
    assert(items_ok(flag) && items_run_on(flag)) by {
        reveal(bin_if);
    }
    match node {
        CuNode::Leaf(leaf) => {
            lemma_leaf_items_ok(leaf, log2_cb_size, cat);
            lemma_items_ok_concat(flag, cu_leaf_items(leaf, log2_cb_size, cat));
        },
        CuNode::Split { kids } => {
            let places = kids_at(maps, x0, y0, log2_cb_size);
            let (kl, kd) = ((log2_cb_size - 1) as u8, (ct_depth + 1) as u8);
            assert(cu_ok(maps, &kids@[0], places[0].0, places[0].1, kl, ct_depth + 1));
            lemma_cu_kids_items_ok(maps, cat, kids@, places, places.len(), kl, kd);
            lemma_items_ok_concat(
                flag,
                cu_kids_items(maps, cat, kids@, places, places.len(), kl, kd),
            );
        },
    }
}

proof fn lemma_cu_kids_items_ok(
    maps: &BlockMaps,
    cat: u8,
    kids: Seq<CuNode>,
    places: Seq<(int, int)>,
    n: nat,
    log2_cb_size: u8,
    ct_depth: u8,
)
    requires
        n <= places.len() <= kids.len(),
        forall|i: int|
            0 <= i < kids.len() && i < places.len() ==> cu_ok(
                maps,
                &#[trigger] kids[i],
                places[i].0,
                places[i].1,
                log2_cb_size,
                ct_depth as int,
            ),
    ensures
        items_ok(cu_kids_items(maps, cat, kids, places, n, log2_cb_size, ct_depth)),
        items_run_on(cu_kids_items(maps, cat, kids, places, n, log2_cb_size, ct_depth)),
    decreases kids, n,
{
    if n > 0 {
        let i = n - 1;
        lemma_cu_kids_items_ok(maps, cat, kids, places, (n - 1) as nat, log2_cb_size, ct_depth);
        assert(cu_ok(
            maps,
            &kids[i],
            places[i].0,
            places[i].1,
            log2_cb_size,
            ct_depth as int,
        ));
        lemma_cu_items_ok(
            maps,
            cat,
            &kids[i],
            places[i].0 as u32,
            places[i].1 as u32,
            log2_cb_size,
            ct_depth,
        );
        lemma_items_ok_concat(
            cu_kids_items(maps, cat, kids, places, (n - 1) as nat, log2_cb_size, ct_depth),
            cu_items(
                maps,
                cat,
                &kids[i],
                places[i].0 as u32,
                places[i].1 as u32,
                log2_cb_size,
                ct_depth,
            ),
        );
    }
}

proof fn lemma_slice_items_ok(maps: &BlockMaps, cat: u8, trees: Seq<CuNode>, n: nat)
    requires
        trees_ok(maps, trees),
        n <= trees.len(),
    ensures
        items_ok(slice_items(maps, cat, trees, n)),
        n < trees.len() ==> items_run_on(slice_items(maps, cat, trees, n)),
        n > 0 ==> items_run_on(slice_items(maps, cat, trees, n).drop_last()),
    decreases n,
{
    if n > 0 {
        let (x, y) = ctu_position(maps.width, n - 1);
        let flag = seq![SyntaxItem::Terminate(n == trees.len())];
        lemma_slice_items_ok(maps, cat, trees, (n - 1) as nat);
        assert(cu_ok(maps, &trees[n - 1], x, y, CTB_LOG2, 0));
        lemma_cu_items_ok(maps, cat, &trees[n - 1], x as u32, y as u32, CTB_LOG2, 0);
        let tree = cu_items(maps, cat, &trees[n - 1], x as u32, y as u32, CTB_LOG2, 0);
        let done = slice_items(maps, cat, trees, (n - 1) as nat);
        lemma_items_ok_concat(done, tree);
        lemma_items_ok_concat(done + tree, flag);
        assert((done + tree + flag).drop_last() =~= done + tree);
    }
}

/// Items that do not end the code have bins that do not.
proof fn lemma_ops_run_on(items: Seq<SyntaxItem>, residuals: Seq<Vec<BinOp>>)
    requires
        items_run_on(items),
        residuals_ok(residuals),
        residual_count(items) <= residuals.len(),
    ensures
        ops_run_on(item_ops(items, residuals)),
    decreases items.len(),
{
    if items.len() > 0 {
        let init = items.drop_last();
        assert forall|i: int| 0 <= i < init.len() implies #[trigger] init[i]
            != SyntaxItem::Terminate(true) by {
            assert(init[i] == items[i]);
        }
        lemma_ops_run_on(init, residuals);
        assert(items[items.len() - 1] != SyntaxItem::Terminate(true));
        let all = item_ops(items, residuals);
        let before = item_ops(init, residuals);
        assert forall|i: int| 0 <= i < all.len() implies #[trigger] all[i]
            != BinOp::Terminate(true) by {
            if i < before.len() {
                assert(all[i] == before[i]);
            }
        }
    }
}

/// The bins of a slice of coding trees.
pub open spec fn slice_ops(
    maps: &BlockMaps,
    cat: u8,
    trees: Seq<CuNode>,
    residuals: Seq<Vec<BinOp>>,
) -> Seq<BinOp> {
    item_ops(slice_items(maps, cat, trees, trees.len()), residuals)
}

/// Codes a slice of coding trees to bytes.
///
/// `residuals` holds the bins of the slice's residual blocks in order. From the same
/// contexts, the bytes decode to the slice's bins and to the contexts that coding leaves,
/// whether or not anything follows them.
pub fn encode_slice(
    ctxs: &mut Contexts,
    maps: &BlockMaps,
    cat: u8,
    trees: &Vec<CuNode>,
    residuals: &[Vec<BinOp>],
) -> (bytes: Vec<u8>)
    requires
        old(ctxs).well_formed(),
        0 < trees@.len() <= u32::MAX,
        trees_ok(maps, trees@),
        residual_count(slice_items(maps, cat, trees@, trees@.len())) <= residuals@.len(),
        residuals_ok(residuals@),
        slice_ops(maps, cat, trees@, residuals@).len() <= u32::MAX,
    ensures
        final(ctxs).well_formed(),
        ({
            let bins = coded_bins(slice_ops(maps, cat, trees@, residuals@));
            let start = code_start(Seq::empty(), old(ctxs)@);
            &&& payload_spells(start, bins, bytes@)
            &&& forall|more: Seq<bool>|
                reads_back(
                    old(ctxs)@,
                    bins,
                    #[trigger] (bytes_bits(bytes@) + more),
                    final(ctxs)@,
                )
        }),
{
    let mut items: Vec<SyntaxItem> = Vec::new();
    write_slice(&mut items, maps, cat, trees);
    proof {
        let all = slice_items(maps, cat, trees@, trees@.len());
        assert(items@ =~= all);
        lemma_slice_items_ok(maps, cat, trees@, trees@.len());
        assert(all.last() == SyntaxItem::Terminate(true));
    }
    let ops = splice_bins(&items, residuals);
    assert(ops@.last() == BinOp::Terminate(true));
    proof {
        let init = items@.drop_last();
        lemma_ops_run_on(init, residuals@);
        assert(ops@.drop_last() =~= item_ops(init, residuals@));
    }
    slice_payload(ctxs, &ops)
}

} // verus!
