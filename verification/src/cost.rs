//! What syntax costs, in fractional bits.
//!
//! Estimates price the items that the writer would emit. Within one tree the contexts
//! adapt from item to item; the parts of a coding unit and the children of a quadtree
//! node are each priced from the contexts handed in.

use vstd::prelude::*;

use crate::arith_decode::bin_of;
use crate::cabac::{
    bin_cost, lemma_next_state_range, next_state_mps, CabacEstimator, ENTROPY_BITS,
};
use crate::contexts::{
    states_ok, Contexts, CBF_CBCR, CBF_LUMA, INTRA_CHROMA_PRED_MODE, NUM_CONTEXTS, PART_MODE,
    PREV_INTRA_LUMA_PRED_FLAG, SPLIT_CU_FLAG, SPLIT_TRANSFORM_FLAG,
};
use crate::geometry::{block_side, cu_kid_positions, positions_view};
use crate::items::{
    bin_if, bypass_items, chroma_mode_items, cu_leaf_items, leaf_mode_items, leaf_modes_ok,
    luma_mode_items, luma_tail_bits, mpm_distinct, nxn_flag_items, nxn_tail_items, residual_if,
    tt_depths_ok, tt_items, tt_kids_items, write_cu_leaf, write_intra_chroma_mode,
    write_intra_luma_mode, write_tt, SyntaxItem,
};
use crate::maps::BlockMaps;
use crate::syntax::{CuLeaf, CuNode, Tt};
use crate::write::{cu_ok, cu_split_coded, kids_at, lemma_half_side};

verus! {

/// An estimate under way: the cost so far and the contexts' packed states.
pub struct Run {
    pub cost: nat,
    pub states: Seq<int>,
}

/// One more item. A residual block has its price on it and leaves the contexts alone.
pub open spec fn item_step(r: Run, item: SyntaxItem) -> Run {
    match item {
        SyntaxItem::Bin(ci, bin) => Run {
            cost: (r.cost + bin_cost(r.states[ci as int], bin_of(bin))) as nat,
            states: r.states.update(
                ci as int,
                next_state_mps(r.states[ci as int], bin_of(bin)),
            ),
        },
        SyntaxItem::Bypass(_) => Run { cost: r.cost + CabacEstimator::SCALE as nat, ..r },
        SyntaxItem::Terminate(bin) => Run {
            cost: r.cost + ENTROPY_BITS[126 + bin_of(bin)] as nat,
            ..r
        },
        SyntaxItem::Residual { block, .. } => Run { cost: r.cost + block.frac_bits as nat, ..r },
    }
}

/// Items one after another.
pub open spec fn items_run(r: Run, items: Seq<SyntaxItem>) -> Run
    decreases items.len(),
{
    if items.len() == 0 {
        r
    } else {
        item_step(items_run(r, items.drop_last()), items.last())
    }
}

/// The price of a list of items.
pub open spec fn items_cost(states: Seq<int>, items: Seq<SyntaxItem>) -> nat {
    items_run(Run { cost: 0, states }, items).cost
}

/// The items name contexts that exist.
pub open spec fn items_ok(items: Seq<SyntaxItem>) -> bool {
    forall|i: int|
        0 <= i < items.len() ==> (#[trigger] items[i] matches SyntaxItem::Bin(ci, _) ==> ci
            < NUM_CONTEXTS)
}

/// No item ends the code.
pub open spec fn items_run_on(items: Seq<SyntaxItem>) -> bool {
    forall|i: int| 0 <= i < items.len() ==> #[trigger] items[i] != SyntaxItem::Terminate(true)
}

/// Pricing keeps the contexts adaptive, and the price of a longer list is no smaller.
pub proof fn lemma_run_ok(r: Run, items: Seq<SyntaxItem>)
    requires
        states_ok(r.states),
        items_ok(items),
    ensures
        states_ok(items_run(r, items).states),
        r.cost <= items_run(r, items).cost,
    decreases items.len(),
{
    if items.len() > 0 {
        let init = items.drop_last();
        assert(items_ok(init));
        lemma_run_ok(r, init);
        let prev = items_run(r, init);
        match items.last() {
            SyntaxItem::Bin(ci, bin) => {
                assert(items[items.len() - 1] == items.last());
                let packed = prev.states[ci as int];
                assert(0 <= packed < 126);
                lemma_next_state_range(packed, bin_of(bin));
                lemma_bin_cost_bound(packed, bin_of(bin));
                let next = items_run(r, items);
                assert forall|i: int| 0 <= i < next.states.len() implies 0
                    <= #[trigger] next.states[i] < 126 by {
                    assert(0 <= prev.states[i] < 126);
                }
            },
            _ => {},
        }
    }
}

pub proof fn lemma_bin_cost_bound(packed: int, bin: int)
    requires
        0 <= packed < 126,
    ensures
        0 <= bin_cost(packed, bin) <= 0x3bfbb,
{
}

/// Items in two parts.
pub proof fn lemma_run_append(r: Run, a: Seq<SyntaxItem>, b: Seq<SyntaxItem>)
    ensures
        items_run(r, a + b) == items_run(items_run(r, a), b),
    decreases b.len(),
{
    if b.len() == 0 {
        assert(a + b =~= a);
    } else {
        lemma_run_append(r, a, b.drop_last());
        assert((a + b).drop_last() =~= a + b.drop_last());
    }
}

/// Prices a list of items and moves the contexts on.
pub fn price_items(est: &mut CabacEstimator, ctxs: &mut Contexts, items: &[SyntaxItem])
    requires
        old(ctxs).well_formed(),
        items_ok(items@),
        items_run(Run { cost: old(est).total(), states: old(ctxs)@ }, items@).cost <= u64::MAX,
    ensures
        final(ctxs).well_formed(),
        (Run { cost: final(est).total(), states: final(ctxs)@ }) == items_run(
            Run { cost: old(est).total(), states: old(ctxs)@ },
            items@,
        ),
{
    let ghost start = Run { cost: est.total(), states: ctxs@ };
    let n: usize = items.len();
    for i in 0..n
        invariant
            n == items@.len(),
            items_ok(items@),
            states_ok(start.states),
            ctxs.well_formed(),
            items_run(start, items@).cost <= u64::MAX,
            (Run { cost: est.total(), states: ctxs@ }) == items_run(start, items@.take(i as int)),
    {
        proof {
            let done = items@.take(i as int);
            let longer = items@.take(i + 1);
            let rest = items@.skip(i + 1);
            assert(longer.drop_last() =~= done);
            assert(longer + rest =~= items@);
            lemma_run_append(start, longer, rest);
            assert(items_ok(longer));
            assert(items_ok(rest)) by {
                assert forall|k: int| 0 <= k < rest.len() implies (
                #[trigger] rest[k] matches SyntaxItem::Bin(ci, _) ==> ci < NUM_CONTEXTS) by {
                    assert(rest[k] == items@[k + i + 1]);
                }
            }
            lemma_run_ok(start, longer);
            lemma_run_ok(items_run(start, longer), rest);
        }
        match &items[i] {
            SyntaxItem::Bin(ci, bin) => {
                ctxs.estimate_bin(est, *ci, *bin);
            },
            SyntaxItem::Bypass(bin) => {
                est.encode_bin_ep(*bin as u8);
            },
            SyntaxItem::Terminate(bin) => {
                proof {
                    crate::cabac::lemma_packed_xor(126, bin_of(*bin) as u8);
                }
                est.encode_bin_trm(*bin as u8);
            },
            SyntaxItem::Residual { block, .. } => {
                est.add_frac_bits(block.frac_bits);
            },
        }
    }
    assert(items@.take(n as int) =~= items@);
}

/// Prices a list of items from the contexts as they are.
fn price_of(ctxs: &Contexts, items: &[SyntaxItem]) -> (bits: u64)
    requires
        ctxs.well_formed(),
        items_ok(items@),
        items_cost(ctxs@, items@) <= u64::MAX,
    ensures
        bits == items_cost(ctxs@, items@),
{
    let mut own = ctxs.clone();
    let mut est = CabacEstimator::new();
    price_items(&mut est, &mut own, items);
    est.frac_bits()
}

/// The items use contexts from `lo` up to, not including, `hi` alone, and no terminating
/// bins.
pub open spec fn uses_only(items: Seq<SyntaxItem>, lo: int, hi: int) -> bool {
    forall|i: int|
        0 <= i < items.len() ==> {
            &&& #[trigger] items[i] matches SyntaxItem::Bin(ci, _) ==> lo <= ci < hi
            &&& !(items[i] is Terminate)
        }
}

proof fn lemma_uses_concat(a: Seq<SyntaxItem>, b: Seq<SyntaxItem>, lo: int, hi: int)
    requires
        uses_only(a, lo, hi),
        uses_only(b, lo, hi),
    ensures
        uses_only(a + b, lo, hi),
{
    let c = a + b;
    assert forall|i: int| 0 <= i < c.len() implies ({
        &&& #[trigger] c[i] matches SyntaxItem::Bin(ci, _) ==> lo <= ci < hi
        &&& !(c[i] is Terminate)
    }) by {
        if i < a.len() {
            assert(c[i] == a[i]);
        } else {
            assert(c[i] == b[i - a.len()]);
        }
    }
}

proof fn lemma_uses_bin(coded: bool, ci: int, value: bool, lo: int, hi: int)
    requires
        coded ==> 0 <= lo <= ci < hi <= NUM_CONTEXTS,
    ensures
        uses_only(bin_if(coded, ci, value), lo, hi),
{
    reveal(bin_if);
}

proof fn lemma_uses_residual(
    coded: bool,
    block: &crate::syntax::CodedBlock,
    log2_size: u8,
    c_idx: u8,
    mode: u8,
    lo: int,
    hi: int,
)
    ensures
        uses_only(residual_if(coded, block, log2_size, c_idx, mode), lo, hi),
{
    reveal(residual_if);
}

proof fn lemma_flags_use(node: &Tt, cat: u8, isf: bool, pcb: bool, pcr: bool, lo: int, hi: int)
    requires
        node.depth() < 5,
        lo == SPLIT_TRANSFORM_FLAG,
        hi == 20,
    ensures
        uses_only(crate::items::tt_flag_items(node, cat, isf, pcb, pcr), lo, hi),
{
    let (size, depth) = (node.size(), node.depth());
    let split = crate::items::split_flag_coded(size, depth, isf);
    let chroma = crate::items::chroma_cbf_coded(cat, size);
    let second = crate::geometry::spec_second_cbf(cat, size, node is Split);
    let cb = chroma && (depth == 0 || pcb);
    let cr = chroma && (depth == 0 || pcr);
    let ci = CBF_CBCR + depth;
    let si = SPLIT_TRANSFORM_FLAG + crate::math::min_int(5 - size, 2);
    let i0 = bin_if(split, si, node is Split);
    let i1 = bin_if(cb, ci, node.spec_cbf_cb());
    let i2 = bin_if(cb && second, ci, node.spec_cbf_cb1());
    let i3 = bin_if(cr, ci, node.spec_cbf_cr());
    let i4 = bin_if(cr && second, ci, node.spec_cbf_cr1());
    lemma_uses_bin(split, si, node is Split, lo, hi);
    lemma_uses_bin(cb, ci, node.spec_cbf_cb(), lo, hi);
    lemma_uses_bin(cb && second, ci, node.spec_cbf_cb1(), lo, hi);
    lemma_uses_bin(cr, ci, node.spec_cbf_cr(), lo, hi);
    lemma_uses_bin(cr && second, ci, node.spec_cbf_cr1(), lo, hi);
    lemma_uses_concat(i0, i1, lo, hi);
    lemma_uses_concat(i0 + i1, i2, lo, hi);
    lemma_uses_concat(i0 + i1 + i2, i3, lo, hi);
    lemma_uses_concat(i0 + i1 + i2 + i3, i4, lo, hi);
}

proof fn lemma_leaf_uses(
    l: &crate::syntax::LeafTu,
    cat: u8,
    pcb: bool,
    pcr: bool,
    lo: int,
    hi: int,
)
    requires
        lo == SPLIT_TRANSFORM_FLAG,
        hi == 20,
    ensures
        uses_only(crate::items::leaf_items(l, cat, pcb, pcr), lo, hi),
{
    let chroma = crate::items::chroma_cbf_coded(cat, l.log2_size);
    let second = crate::geometry::spec_second_cbf(cat, l.log2_size, false);
    let own_cb = l.trafo_depth == 0 || pcb;
    let own_cr = l.trafo_depth == 0 || pcr;
    let cb = if chroma && own_cb {
        l.cb.cbf
    } else {
        pcb
    };
    let cr = if chroma && own_cr {
        l.cr.cbf
    } else {
        pcr
    };
    let has = crate::geometry::spec_has_chroma_tb(cat, l.log2_size);
    let (cl, cm) = (l.chroma_log2, l.chroma_mode);
    let li = CBF_LUMA + (if l.trafo_depth == 0 {
        1int
    } else {
        0int
    });
    let second_cb = has && second && own_cb && l.cb1.cbf;
    let second_cr = has && second && own_cr && l.cr1.cbf;
    let i0 = bin_if(true, li, l.luma.cbf);
    let i1 = residual_if(l.luma.cbf, &l.luma, l.log2_size, 0, l.luma_mode);
    let i2 = residual_if(has && cb, &l.cb, cl, 1, cm);
    let i3 = residual_if(second_cb, &l.cb1, cl, 1, cm);
    let i4 = residual_if(has && cr, &l.cr, cl, 2, cm);
    let i5 = residual_if(second_cr, &l.cr1, cl, 2, cm);
    lemma_uses_bin(true, li, l.luma.cbf, lo, hi);
    lemma_uses_residual(l.luma.cbf, &l.luma, l.log2_size, 0, l.luma_mode, lo, hi);
    lemma_uses_residual(has && cb, &l.cb, cl, 1, cm, lo, hi);
    lemma_uses_residual(second_cb, &l.cb1, cl, 1, cm, lo, hi);
    lemma_uses_residual(has && cr, &l.cr, cl, 2, cm, lo, hi);
    lemma_uses_residual(second_cr, &l.cr1, cl, 2, cm, lo, hi);
    lemma_uses_concat(i0, i1, lo, hi);
    lemma_uses_concat(i0 + i1, i2, lo, hi);
    lemma_uses_concat(i0 + i1 + i2, i3, lo, hi);
    lemma_uses_concat(i0 + i1 + i2 + i3, i4, lo, hi);
    lemma_uses_concat(i0 + i1 + i2 + i3 + i4, i5, lo, hi);
}

/// A transform tree uses the contexts of transform trees alone.
pub proof fn lemma_tt_uses(node: &Tt, cat: u8, isf: bool, pcb: bool, pcr: bool)
    requires
        tt_depths_ok(node),
    ensures
        uses_only(tt_items(node, cat, isf, pcb, pcr), SPLIT_TRANSFORM_FLAG as int, 20),
    decreases node, 0nat,
{
    let (lo, hi) = (SPLIT_TRANSFORM_FLAG as int, 20int);
    let flags = crate::items::tt_flag_items(node, cat, isf, pcb, pcr);
    lemma_flags_use(node, cat, isf, pcb, pcr, lo, hi);
    match node {
        Tt::Split { kids, parent_chroma, .. } => {
            let (cb, cr) = (node.spec_cbf_cb(), node.spec_cbf_cr());
            let k = tt_kids_items(kids@, kids@.len(), cat, isf, cb, cr);
            let p = crate::items::parent_chroma_items(parent_chroma);
            lemma_tt_kids_use(kids@, kids@.len(), cat, isf, cb, cr);
            match parent_chroma {
                Some(c) => {
                    lemma_uses_residual(
                        c.cb.cbf,
                        &c.cb,
                        c.log2_size,
                        1,
                        c.chroma_mode,
                        lo,
                        hi,
                    );
                    lemma_uses_residual(
                        c.cr.cbf,
                        &c.cr,
                        c.log2_size,
                        2,
                        c.chroma_mode,
                        lo,
                        hi,
                    );
                    lemma_uses_concat(
                        residual_if(c.cb.cbf, &c.cb, c.log2_size, 1, c.chroma_mode),
                        residual_if(c.cr.cbf, &c.cr, c.log2_size, 2, c.chroma_mode),
                        lo,
                        hi,
                    );
                },
                None => {},
            }
            lemma_uses_concat(k, p, lo, hi);
            lemma_uses_concat(flags, k + p, lo, hi);
        },
        Tt::Leaf(l) => {
            let body = crate::items::leaf_items(l, cat, pcb, pcr);
            lemma_leaf_uses(l, cat, pcb, pcr, lo, hi);
            lemma_uses_concat(flags, body, lo, hi);
        },
    }
}

proof fn lemma_tt_kids_use(kids: Seq<Tt>, n: nat, cat: u8, isf: bool, cb: bool, cr: bool)
    requires
        n <= kids.len(),
        forall|i: int| 0 <= i < kids.len() ==> tt_depths_ok(&#[trigger] kids[i]),
    ensures
        uses_only(tt_kids_items(kids, n, cat, isf, cb, cr), SPLIT_TRANSFORM_FLAG as int, 20),
    decreases kids, n,
{
    if n > 0 {
        lemma_tt_kids_use(kids, (n - 1) as nat, cat, isf, cb, cr);
        lemma_tt_uses(&kids[n - 1], cat, isf, cb, cr);
        lemma_uses_concat(
            tt_kids_items(kids, (n - 1) as nat, cat, isf, cb, cr),
            tt_items(&kids[n - 1], cat, isf, cb, cr),
            SPLIT_TRANSFORM_FLAG as int,
            20,
        );
    }
}

proof fn lemma_nxn_tail_uses(nxn: &crate::syntax::NxnInfo, n: nat, lo: int, hi: int)
    ensures
        uses_only(nxn_tail_items(nxn, n), lo, hi),
    decreases n,
{
    if n > 0 {
        lemma_nxn_tail_uses(nxn, (n - 1) as nat, lo, hi);
        lemma_uses_concat(
            nxn_tail_items(nxn, (n - 1) as nat),
            bypass_items(luma_tail_bits(nxn.mpms[n - 1], nxn.luma_modes[n - 1])),
            lo,
            hi,
        );
    }
}

/// A coding unit's modes use the partition and luma mode contexts alone.
pub proof fn lemma_modes_use(leaf: &CuLeaf, log2_cb_size: u8)
    ensures
        uses_only(
            leaf_mode_items(leaf, log2_cb_size),
            PART_MODE as int,
            INTRA_CHROMA_PRED_MODE as int,
        ),
{
    reveal(bin_if);
    let (lo, hi) = (PART_MODE as int, INTRA_CHROMA_PRED_MODE as int);
    match leaf.nxn {
        Some(nxn) => {
            lemma_nxn_tail_uses(&nxn, 4, lo, hi);
            let head = seq![SyntaxItem::Bin(PART_MODE, false)] + nxn_flag_items(&nxn, 4);
            assert(uses_only(head, lo, hi));
            lemma_uses_concat(head, nxn_tail_items(&nxn, 4), lo, hi);
        },
        None => {
            lemma_uses_concat(
                bin_if(log2_cb_size == 3, PART_MODE as int, true),
                luma_mode_items(leaf.mpm, leaf.luma_mode),
                lo,
                hi,
            );
        },
    }
}

pub proof fn lemma_leaf_items_ok(leaf: &CuLeaf, log2_cb_size: u8, cat: u8)
    requires
        tt_depths_ok(&leaf.tt),
    ensures
        items_ok(cu_leaf_items(leaf, log2_cb_size, cat)),
        items_run_on(cu_leaf_items(leaf, log2_cb_size, cat)),
{
    let modes = leaf_mode_items(leaf, log2_cb_size);
    let chroma = if cat != 0 {
        chroma_mode_items(leaf.chroma_mode_idx)
    } else {
        Seq::empty()
    };
    let tt = tt_items(&leaf.tt, cat, leaf.nxn is Some, true, true);
    lemma_modes_use(leaf, log2_cb_size);
    lemma_tt_uses(&leaf.tt, cat, leaf.nxn is Some, true, true);
    let n = NUM_CONTEXTS as int;
    assert(uses_only(modes, 0, n));
    assert(uses_only(chroma, 0, n));
    assert(uses_only(tt, 0, n));
    lemma_uses_concat(modes, chroma, 0, n);
    lemma_uses_concat(modes + chroma, tt, 0, n);
    assert(uses_only(cu_leaf_items(leaf, log2_cb_size, cat), 0, n));
}

/// Two contexts' states agree from `lo` up to `hi`.
pub open spec fn agree(s: Seq<int>, t: Seq<int>, lo: int, hi: int) -> bool {
    s.len() == t.len() && forall|i: int|
        #![trigger s[i]]
        #![trigger t[i]]
        lo <= i < hi && 0 <= i < s.len() ==> s[i] == t[i]
}

/// Items see and change their own contexts alone.
pub proof fn lemma_run_local(r: Run, q: Run, items: Seq<SyntaxItem>, lo: int, hi: int)
    requires
        uses_only(items, lo, hi),
        0 <= lo,
        hi <= r.states.len(),
        agree(r.states, q.states, lo, hi),
    ensures
        items_run(r, items).cost - r.cost == items_run(q, items).cost - q.cost,
        items_run(r, items).states.len() == r.states.len(),
        items_run(q, items).states.len() == r.states.len(),
        agree(items_run(r, items).states, items_run(q, items).states, lo, hi),
        forall|i: int|
            0 <= i < r.states.len() && !(lo <= i < hi) ==> #[trigger] items_run(
                r,
                items,
            ).states[i] == r.states[i],
    decreases items.len(),
{
    if items.len() > 0 {
        let init = items.drop_last();
        assert forall|i: int| 0 <= i < init.len() implies ({
            &&& #[trigger] init[i] matches SyntaxItem::Bin(ci, _) ==> lo <= ci < hi
            &&& !(init[i] is Terminate)
        }) by {
            assert(init[i] == items[i]);
        }
        lemma_run_local(r, q, init, lo, hi);
        assert(items[items.len() - 1] == items.last());
        let (a, b) = (items_run(r, init), items_run(q, init));
        match items.last() {
            SyntaxItem::Bin(ci, bin) => {
                assert(a.states[ci as int] == b.states[ci as int]);
                assert(bin_cost(a.states[ci as int], bin_of(bin)) >= 0);
            },
            _ => {},
        }
    }
}

/// The price of a coding unit is the sum of the prices of its modes, its chroma mode and
/// its transform tree, each from the same contexts: the parts share none.
pub proof fn law_leaf_cost_is_sum(states: Seq<int>, leaf: &CuLeaf, log2_cb_size: u8, cat: u8)
    requires
        states_ok(states),
        tt_depths_ok(&leaf.tt),
    ensures
        items_cost(states, cu_leaf_items(leaf, log2_cb_size, cat)) == items_cost(
            states,
            leaf_mode_items(leaf, log2_cb_size),
        ) + (if cat != 0 {
            items_cost(states, chroma_mode_items(leaf.chroma_mode_idx))
        } else {
            0
        }) + items_cost(states, tt_items(&leaf.tt, cat, leaf.nxn is Some, true, true)),
{
    let modes = leaf_mode_items(leaf, log2_cb_size);
    let chroma = if cat != 0 {
        chroma_mode_items(leaf.chroma_mode_idx)
    } else {
        Seq::empty()
    };
    let tt = tt_items(&leaf.tt, cat, leaf.nxn is Some, true, true);
    let start = Run { cost: 0, states };
    lemma_modes_use(leaf, log2_cb_size);
    lemma_tt_uses(&leaf.tt, cat, leaf.nxn is Some, true, true);
    let c0 = INTRA_CHROMA_PRED_MODE as int;
    assert(uses_only(chroma, c0, c0 + 1));
    let after_modes = items_run(start, modes);
    let after_chroma = items_run(after_modes, chroma);
    lemma_run_append(start, modes, chroma);
    lemma_run_append(start, modes + chroma, tt);
    lemma_run_local(start, start, modes, PART_MODE as int, c0);
    assert(agree(after_modes.states, states, c0, 134)) by {
        assert forall|i: int| c0 <= i < 134 implies after_modes.states[i] == states[i] by {}
    }
    lemma_run_local(after_modes, start, chroma, c0, c0 + 1);
    let t0 = SPLIT_TRANSFORM_FLAG as int;
    assert(agree(after_chroma.states, states, t0, 20)) by {
        assert forall|i: int| t0 <= i < 20 implies after_chroma.states[i] == states[i] by {
            assert(after_modes.states[i] == states[i]);
        }
    }
    lemma_run_local(after_chroma, start, tt, t0, 20);
}

/// What a transform tree costs.
pub fn estimate_tt_bits(
    ctxs: &Contexts,
    node: &Tt,
    cat: u8,
    intra_split: bool,
    parent_cb: bool,
    parent_cr: bool,
) -> (bits: u64)
    requires
        ctxs.well_formed(),
        tt_depths_ok(node),
        items_cost(ctxs@, tt_items(node, cat, intra_split, parent_cb, parent_cr)) <= u64::MAX,
    ensures
        bits == items_cost(ctxs@, tt_items(node, cat, intra_split, parent_cb, parent_cr)),
{
    let mut items: Vec<SyntaxItem> = Vec::new();
    write_tt(&mut items, node, cat, intra_split, parent_cb, parent_cr);
    proof {
        let all = tt_items(node, cat, intra_split, parent_cb, parent_cr);
        assert(items@ =~= all);
        lemma_tt_uses(node, cat, intra_split, parent_cb, parent_cr);
        assert(items_ok(all));
    }
    price_of(ctxs, &items)
}

/// What a luma mode costs.
pub fn estimate_intra_luma_mode_bits(ctxs: &Contexts, mpm: [u8; 3], mode: u8) -> (bits: u64)
    requires
        ctxs.well_formed(),
        mpm_distinct(mpm),
    ensures
        bits == items_cost(ctxs@, luma_mode_items(mpm, mode)),
        bits <= 0x3bfbb + 5 * CabacEstimator::SCALE,
{
    let mut items: Vec<SyntaxItem> = Vec::new();
    write_intra_luma_mode(&mut items, mpm, mode);
    proof {
        assert(items@ =~= luma_mode_items(mpm, mode));
        lemma_luma_mode_cost(ctxs@, mpm, mode);
    }
    price_of(ctxs, &items)
}

/// What a chroma mode index costs.
pub fn estimate_intra_chroma_mode_bits(ctxs: &Contexts, mode_idx: u8) -> (bits: u64)
    requires
        ctxs.well_formed(),
    ensures
        bits == items_cost(ctxs@, chroma_mode_items(mode_idx)),
        bits <= 0x3bfbb + 2 * CabacEstimator::SCALE,
{
    let mut items: Vec<SyntaxItem> = Vec::new();
    write_intra_chroma_mode(&mut items, mode_idx);
    proof {
        assert(items@ =~= chroma_mode_items(mode_idx));
        reveal_with_fuel(items_run, 4);
        lemma_bin_cost_bound(ctxs@[INTRA_CHROMA_PRED_MODE as int], 0);
        lemma_bin_cost_bound(ctxs@[INTRA_CHROMA_PRED_MODE as int], 1);
        let all = chroma_mode_items(mode_idx);
        if mode_idx == crate::geometry::CHROMA_DM_IDX {
            assert(all.drop_last() =~= Seq::empty());
        } else {
            assert(all.drop_last().drop_last().drop_last() =~= Seq::empty());
        }
    }
    price_of(ctxs, &items)
}

/// Bypass bins cost a bit each.
pub proof fn lemma_bypass_cost(r: Run, bits: Seq<bool>)
    ensures
        items_run(r, bypass_items(bits)) == (Run {
            cost: r.cost + bits.len() * CabacEstimator::SCALE as nat,
            ..r
        }),
    decreases bits.len(),
{
    let items = bypass_items(bits);
    if bits.len() > 0 {
        assert(items.drop_last() =~= bypass_items(bits.drop_last()));
        lemma_bypass_cost(r, bits.drop_last());
    }
}

/// A luma mode costs its flag and a bit for each bypass bin behind it.
pub proof fn lemma_luma_mode_cost(states: Seq<int>, mpm: [u8; 3], mode: u8)
    requires
        states_ok(states),
    ensures
        items_ok(luma_mode_items(mpm, mode)),
        items_cost(states, luma_mode_items(mpm, mode)) == bin_cost(
            states[PREV_INTRA_LUMA_PRED_FLAG as int],
            bin_of(crate::items::mpm_place(mpm, mode) < 3),
        ) + luma_tail_bits(mpm, mode).len() * CabacEstimator::SCALE,
        luma_tail_bits(mpm, mode).len() <= 5,
        items_cost(states, luma_mode_items(mpm, mode)) <= 0x3bfbb + 5 * CabacEstimator::SCALE,
{
    let bin = crate::items::mpm_place(mpm, mode) < 3;
    let flag = seq![SyntaxItem::Bin(PREV_INTRA_LUMA_PRED_FLAG, bin)];
    let tail = luma_tail_bits(mpm, mode);
    let start = Run { cost: 0, states };
    crate::bitstream::lemma_be_bits_len(5, crate::items::luma_rem(mpm, mode));
    lemma_run_append(start, flag, bypass_items(tail));
    reveal_with_fuel(items_run, 2);
    assert(flag.drop_last() =~= Seq::empty());
    lemma_bypass_cost(items_run(start, flag), tail);
    lemma_bin_cost_bound(states[PREV_INTRA_LUMA_PRED_FLAG as int], bin_of(bin));
}

/// What a quadtree split flag costs.
pub fn estimate_split_cu_flag_bits(ctxs: &Contexts, ctx_inc: usize, value: bool) -> (bits: u64)
    requires
        ctxs.well_formed(),
        ctx_inc <= 2,
    ensures
        bits == bin_cost(ctxs@[SPLIT_CU_FLAG + ctx_inc], bin_of(value)),
        bits <= 0x3bfbb,
{
    let m: crate::cabac::ContextModel = ctxs.models[SPLIT_CU_FLAG + ctx_inc];
    assert(ctxs@[SPLIT_CU_FLAG + ctx_inc] == m.packed());
    m.entropy_bits(value as u8) as u64
}

/// What a coding unit costs: the price of what is written for it.
pub fn estimate_cu_leaf_bits(ctxs: &Contexts, leaf: &CuLeaf, log2_cb_size: u8, cat: u8) -> (bits:
    u64)
    requires
        ctxs.well_formed(),
        leaf_modes_ok(leaf),
        tt_depths_ok(&leaf.tt),
        items_cost(ctxs@, cu_leaf_items(leaf, log2_cb_size, cat)) <= u64::MAX,
    ensures
        bits == items_cost(ctxs@, cu_leaf_items(leaf, log2_cb_size, cat)),
{
    let mut items: Vec<SyntaxItem> = Vec::new();
    write_cu_leaf(&mut items, leaf, log2_cb_size, cat);
    proof {
        assert(items@ =~= cu_leaf_items(leaf, log2_cb_size, cat));
        lemma_leaf_items_ok(leaf, log2_cb_size, cat);
    }
    price_of(ctxs, &items)
}

/// What a coding unit costs whose luma is tried alone: partition, luma mode and luma
/// transform tree.
pub open spec fn luma_trial_cost(
    states: Seq<int>,
    mpm: [u8; 3],
    luma_mode: u8,
    tt: &Tt,
    log2_cb_size: u8,
) -> nat {
    (if log2_cb_size == 3 {
        bin_cost(states[PART_MODE as int], 1) as nat
    } else {
        0
    }) + items_cost(states, luma_mode_items(mpm, luma_mode)) + items_cost(
        states,
        tt_items(tt, 0, false, true, true),
    )
}

pub fn estimate_luma_cu_trial_bits(
    ctxs: &Contexts,
    mpm: [u8; 3],
    luma_mode: u8,
    tt: &Tt,
    log2_cb_size: u8,
) -> (bits: u64)
    requires
        ctxs.well_formed(),
        mpm_distinct(mpm),
        tt_depths_ok(tt),
        luma_trial_cost(ctxs@, mpm, luma_mode, tt, log2_cb_size) <= u64::MAX,
    ensures
        bits == luma_trial_cost(ctxs@, mpm, luma_mode, tt, log2_cb_size),
{
    let mut bits: u64 = 0;
    if log2_cb_size == 3 {
        let m: crate::cabac::ContextModel = ctxs.models[PART_MODE];
        assert(ctxs@[PART_MODE as int] == m.packed());
        bits = m.entropy_bits(1) as u64;
    }
    bits = bits + estimate_intra_luma_mode_bits(ctxs, mpm, luma_mode);
    bits + estimate_tt_bits(ctxs, tt, 0, false, true, true)
}

/// What a coding quadtree costs: its split flags and its coding units, each from the
/// contexts at hand.
pub open spec fn cu_node_cost(
    states: Seq<int>,
    maps: &BlockMaps,
    cat: u8,
    node: &CuNode,
    x0: u32,
    y0: u32,
    log2_cb_size: u8,
    ct_depth: u8,
) -> nat
    decreases node, 0nat,
{
    (if cu_split_coded(maps, x0, y0, log2_cb_size) {
        bin_cost(
            states[SPLIT_CU_FLAG + maps.split_inc(x0, y0, ct_depth)],
            bin_of(node is Split),
        ) as nat
    } else {
        0
    }) + (match node {
        CuNode::Leaf(leaf) => items_cost(states, cu_leaf_items(leaf, log2_cb_size, cat)),
        CuNode::Split { kids } => cu_kids_cost(
            states,
            maps,
            cat,
            kids@,
            kids_at(maps, x0, y0, log2_cb_size),
            kids_at(maps, x0, y0, log2_cb_size).len(),
            (log2_cb_size - 1) as u8,
            (ct_depth + 1) as u8,
        ),
    })
}

/// What the first `n` children of a quadtree node cost.
pub open spec fn cu_kids_cost(
    states: Seq<int>,
    maps: &BlockMaps,
    cat: u8,
    kids: Seq<CuNode>,
    places: Seq<(int, int)>,
    n: nat,
    log2_cb_size: u8,
    ct_depth: u8,
) -> nat
    decreases kids, n,
{
    if n == 0 || n > kids.len() {
        0
    } else {
        cu_kids_cost(states, maps, cat, kids, places, (n - 1) as nat, log2_cb_size, ct_depth)
            + cu_node_cost(
            states,
            maps,
            cat,
            &kids[n - 1],
            places[n - 1].0 as u32,
            places[n - 1].1 as u32,
            log2_cb_size,
            ct_depth,
        )
    }
}

proof fn lemma_kids_cost_grows(
    states: Seq<int>,
    maps: &BlockMaps,
    cat: u8,
    kids: Seq<CuNode>,
    places: Seq<(int, int)>,
    n: nat,
    m: nat,
    log2_cb_size: u8,
    ct_depth: u8,
)
    requires
        n <= m <= kids.len(),
    ensures
        cu_kids_cost(states, maps, cat, kids, places, n, log2_cb_size, ct_depth) <= cu_kids_cost(
            states,
            maps,
            cat,
            kids,
            places,
            m,
            log2_cb_size,
            ct_depth,
        ),
    decreases m,
{
    if n < m {
        lemma_kids_cost_grows(
            states,
            maps,
            cat,
            kids,
            places,
            n,
            (m - 1) as nat,
            log2_cb_size,
            ct_depth,
        );
    }
}

/// What a coding quadtree costs.
pub fn estimate_cu_node_bits(
    ctxs: &Contexts,
    maps: &BlockMaps,
    cat: u8,
    node: &CuNode,
    x0: u32,
    y0: u32,
    log2_cb_size: u8,
    ct_depth: u8,
) -> (bits: u64)
    requires
        ctxs.well_formed(),
        cu_ok(maps, node, x0 as int, y0 as int, log2_cb_size, ct_depth as int),
        cu_node_cost(ctxs@, maps, cat, node, x0, y0, log2_cb_size, ct_depth) <= u64::MAX,
    ensures
        bits == cu_node_cost(ctxs@, maps, cat, node, x0, y0, log2_cb_size, ct_depth),
    decreases node, 0nat,
{
    let cb_size: u32 = block_side(log2_cb_size);
    let is_split: bool = match node {
        CuNode::Split { .. } => true,
        CuNode::Leaf(_) => false,
    };
    let split_coded: bool = x0 + cb_size <= maps.width && y0 + cb_size <= maps.height
        && log2_cb_size > 3;
    let flag_bits: u64 = if split_coded {
        let ctx_inc: usize = maps.split_ctx_inc(x0, y0, ct_depth);
        estimate_split_cu_flag_bits(ctxs, ctx_inc, is_split)
    } else {
        0
    };
    match node {
        CuNode::Split { kids } => {
            let half: u32 = cb_size / 2;
            let places = cu_kid_positions(x0, y0, half, maps.width, maps.height);
            let ghost pv = kids_at(maps, x0, y0, log2_cb_size);
            proof {
                lemma_half_side(log2_cb_size);
                assert(positions_view(places@) == pv);
                assert forall|i: int|
                    0 <= i < kids@.len() && i < places@.len() implies cu_ok(
                    maps,
                    &#[trigger] kids@[i],
                    places@[i].0 as int,
                    places@[i].1 as int,
                    (log2_cb_size - 1) as u8,
                    ct_depth + 1,
                ) by {
                    assert(pv[i] == (places@[i].0 as int, places@[i].1 as int));
                }
                assert(cu_ok(
                    maps,
                    &kids@[0],
                    places@[0].0 as int,
                    places@[0].1 as int,
                    (log2_cb_size - 1) as u8,
                    ct_depth + 1,
                ));
            }
            flag_bits + estimate_cu_kids_bits(
                ctxs,
                maps,
                cat,
                kids,
                &places,
                log2_cb_size - 1,
                ct_depth + 1,
            )
        },
        CuNode::Leaf(leaf) => flag_bits + estimate_cu_leaf_bits(ctxs, leaf, log2_cb_size, cat),
    }
}

/// What the children of a quadtree node cost.
pub fn estimate_cu_kids_bits(
    ctxs: &Contexts,
    maps: &BlockMaps,
    cat: u8,
    kids: &Vec<CuNode>,
    places: &Vec<(u32, u32)>,
    log2_cb_size: u8,
    ct_depth: u8,
) -> (bits: u64)
    requires
        ctxs.well_formed(),
        kids@.len() >= places@.len(),
        forall|i: int|
            0 <= i < kids@.len() && i < places@.len() ==> cu_ok(
                maps,
                &#[trigger] kids@[i],
                places@[i].0 as int,
                places@[i].1 as int,
                log2_cb_size,
                ct_depth as int,
            ),
        cu_kids_cost(
            ctxs@,
            maps,
            cat,
            kids@,
            positions_view(places@),
            places@.len(),
            log2_cb_size,
            ct_depth,
        ) <= u64::MAX,
    ensures
        bits == cu_kids_cost(
            ctxs@,
            maps,
            cat,
            kids@,
            positions_view(places@),
            places@.len(),
            log2_cb_size,
            ct_depth,
        ),
    decreases kids, 1nat,
{
    let ghost pv = positions_view(places@);
    let n: usize = places.len();
    let mut bits: u64 = 0;
    for i in 0..n
        invariant
            n == places@.len(),
            pv == positions_view(places@),
            ctxs.well_formed(),
            kids@.len() >= places@.len(),
            forall|k: int|
                0 <= k < kids@.len() && k < places@.len() ==> cu_ok(
                    maps,
                    &#[trigger] kids@[k],
                    places@[k].0 as int,
                    places@[k].1 as int,
                    log2_cb_size,
                    ct_depth as int,
                ),
            cu_kids_cost(ctxs@, maps, cat, kids@, pv, n as nat, log2_cb_size, ct_depth)
                <= u64::MAX,
            bits == cu_kids_cost(
                ctxs@,
                maps,
                cat,
                kids@,
                pv,
                i as nat,
                log2_cb_size,
                ct_depth,
            ),
    {
        let (kx, ky) = places[i];
        proof {
            assert(pv[i as int] == (kx as int, ky as int));
            lemma_kids_cost_grows(
                ctxs@,
                maps,
                cat,
                kids@,
                pv,
                (i + 1) as nat,
                n as nat,
                log2_cb_size,
                ct_depth,
            );
            assert(cu_kids_cost(
                ctxs@,
                maps,
                cat,
                kids@,
                pv,
                (i + 1) as nat,
                log2_cb_size,
                ct_depth,
            ) == bits + cu_node_cost(
                ctxs@,
                maps,
                cat,
                &kids@[i as int],
                kx,
                ky,
                log2_cb_size,
                ct_depth,
            ));
        }
        bits = bits + estimate_cu_node_bits(
            ctxs,
            maps,
            cat,
            &kids[i],
            kx,
            ky,
            log2_cb_size,
            ct_depth,
        );
    }
    bits
}

} // verus!
