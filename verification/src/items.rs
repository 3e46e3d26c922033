//! The syntax of coded trees as a list of items, in bitstream order.
//!
//! Residual blocks stand in the list as single items: their bins come from the
//! residual coder.

use vstd::prelude::*;

use crate::bitstream::be_bits;
use crate::contexts::{
    CBF_CBCR, CBF_LUMA, INTRA_CHROMA_PRED_MODE, PART_MODE, PREV_INTRA_LUMA_PRED_FLAG,
    SPLIT_TRANSFORM_FLAG,
};
use crate::geometry::{
    decode_second_cbf, has_chroma_tb, spec_has_chroma_tb, spec_second_cbf, CHROMA_DM_IDX,
    MAX_INTRA_TT_DEPTH, MAX_TB_LOG2, MIN_TB_LOG2,
};
use crate::math::{min_int, min_usize};
use crate::syntax::{CodedBlock, CuLeaf, LeafTu, NxnInfo, ParentChromaTu, Tt};

verus! {

/// One element of a slice's syntax.
pub enum SyntaxItem<'a> {
    /// A bin in the context at a place.
    Bin(usize, bool),
    /// A bypass bin.
    Bypass(bool),
    /// A terminating bin.
    Terminate(bool),
    /// The coefficients of a block, scanned as its mode asks.
    Residual { block: &'a CodedBlock, log2_size: u8, c_idx: u8, mode: u8 },
}

#[verifier::opaque]
pub open spec fn bin_if<'a>(coded: bool, ci: int, value: bool) -> Seq<SyntaxItem<'a>> {
    if coded {
        seq![SyntaxItem::Bin(ci as usize, value)]
    } else {
        Seq::empty()
    }
}

#[verifier::opaque]
pub open spec fn residual_if<'a>(
    coded: bool,
    block: &'a CodedBlock,
    log2_size: u8,
    c_idx: u8,
    mode: u8,
) -> Seq<SyntaxItem<'a>> {
    if coded {
        seq![SyntaxItem::Residual { block, log2_size, c_idx, mode }]
    } else {
        Seq::empty()
    }
}

/// Whether a transform node's split flag is coded: elsewhere its size or depth decide.
pub open spec fn split_flag_coded(log2_size: u8, trafo_depth: u8, intra_split: bool) -> bool {
    &&& MIN_TB_LOG2 < log2_size <= MAX_TB_LOG2
    &&& trafo_depth < MAX_INTRA_TT_DEPTH + (if intra_split {
        1int
    } else {
        0int
    })
    &&& !(intra_split && trafo_depth == 0)
}

/// Whether a transform node codes chroma flags at all.
pub open spec fn chroma_cbf_coded(cat: u8, log2_size: u8) -> bool {
    cat != 0 && (log2_size > 2 || cat == 3)
}

/// The flags in front of a transform node: whether it is split, and which chroma
/// components have coefficients below it.
pub open spec fn tt_flag_items<'a>(
    node: &Tt,
    cat: u8,
    intra_split: bool,
    parent_cb: bool,
    parent_cr: bool,
) -> Seq<SyntaxItem<'a>> {
    let (size, depth) = (node.size(), node.depth());
    let chroma = chroma_cbf_coded(cat, size);
    let second = spec_second_cbf(cat, size, node is Split);
    let cb = chroma && (depth == 0 || parent_cb);
    let cr = chroma && (depth == 0 || parent_cr);
    let ci = CBF_CBCR + depth;
    bin_if(
        split_flag_coded(size, depth, intra_split),
        SPLIT_TRANSFORM_FLAG + min_int(5 - size, 2),
        node is Split,
    ) + bin_if(cb, ci, node.spec_cbf_cb()) + bin_if(cb && second, ci, node.spec_cbf_cb1())
        + bin_if(cr, ci, node.spec_cbf_cr()) + bin_if(cr && second, ci, node.spec_cbf_cr1())
}

/// The body of a leaf: its luma flag and the coefficients of its blocks. A chroma flag
/// that is not coded here is the parent's.
pub open spec fn leaf_items<'a>(
    l: &'a LeafTu,
    cat: u8,
    parent_cb: bool,
    parent_cr: bool,
) -> Seq<SyntaxItem<'a>> {
    let chroma = chroma_cbf_coded(cat, l.log2_size);
    let second = spec_second_cbf(cat, l.log2_size, false);
    let own_cb = l.trafo_depth == 0 || parent_cb;
    let own_cr = l.trafo_depth == 0 || parent_cr;
    let cb = if chroma && own_cb {
        l.cb.cbf
    } else {
        parent_cb
    };
    let cr = if chroma && own_cr {
        l.cr.cbf
    } else {
        parent_cr
    };
    let has = spec_has_chroma_tb(cat, l.log2_size);
    let (cl, cm) = (l.chroma_log2, l.chroma_mode);
    bin_if(
        true,
        CBF_LUMA + (if l.trafo_depth == 0 {
            1int
        } else {
            0int
        }),
        l.luma.cbf,
    ) + residual_if(l.luma.cbf, &l.luma, l.log2_size, 0, l.luma_mode) + residual_if(
        has && cb,
        &l.cb,
        cl,
        1,
        cm,
    ) + residual_if(has && second && own_cb && l.cb1.cbf, &l.cb1, cl, 1, cm) + residual_if(
        has && cr,
        &l.cr,
        cl,
        2,
        cm,
    ) + residual_if(has && second && own_cr && l.cr1.cbf, &l.cr1, cl, 2, cm)
}

/// The chroma that a split node codes itself, behind its children.
pub open spec fn parent_chroma_items<'a>(pc: &'a Option<ParentChromaTu>) -> Seq<SyntaxItem<'a>> {
    match pc {
        Some(c) => residual_if(c.cb.cbf, &c.cb, c.log2_size, 1, c.chroma_mode) + residual_if(
            c.cr.cbf,
            &c.cr,
            c.log2_size,
            2,
            c.chroma_mode,
        ),
        None => Seq::empty(),
    }
}

/// The syntax of a transform tree.
pub open spec fn tt_items<'a>(
    node: &'a Tt,
    cat: u8,
    intra_split: bool,
    parent_cb: bool,
    parent_cr: bool,
) -> Seq<SyntaxItem<'a>>
    decreases node, 0nat,
{
    tt_flag_items(node, cat, intra_split, parent_cb, parent_cr) + (match node {
        Tt::Split { kids, parent_chroma, .. } => tt_kids_items(
            kids@,
            kids@.len(),
            cat,
            intra_split,
            node.spec_cbf_cb(),
            node.spec_cbf_cr(),
        ) + parent_chroma_items(parent_chroma),
        Tt::Leaf(l) => leaf_items(l, cat, parent_cb, parent_cr),
    })
}

/// The syntax of the first `n` children of a transform node.
pub open spec fn tt_kids_items<'a>(
    kids: Seq<Tt>,
    n: nat,
    cat: u8,
    intra_split: bool,
    cb: bool,
    cr: bool,
) -> Seq<SyntaxItem<'a>>
    decreases kids, n,
{
    if n == 0 || n > kids.len() {
        Seq::empty()
    } else {
        tt_kids_items(kids, (n - 1) as nat, cat, intra_split, cb, cr) + tt_items(
            &kids[n - 1],
            cat,
            intra_split,
            cb,
            cr,
        )
    }
}

/// The depths in a transform tree have contexts of their own.
pub open spec fn tt_depths_ok(node: &Tt) -> bool
    decreases node,
{
    node.depth() < 5 && match node {
        Tt::Split { kids, .. } => forall|i: int|
            0 <= i < kids@.len() ==> tt_depths_ok(&#[trigger] kids@[i]),
        Tt::Leaf(_) => true,
    }
}

fn push_bin_if<'a>(out: &mut Vec<SyntaxItem<'a>>, coded: bool, ci: usize, value: bool)
    ensures
        final(out)@ == old(out)@ + bin_if(coded, ci as int, value),
{
    reveal(bin_if);
    if coded {
        out.push(SyntaxItem::Bin(ci, value));
    }
    assert(out@ =~= old(out)@ + bin_if(coded, ci as int, value));
}

fn push_residual_if<'a>(
    out: &mut Vec<SyntaxItem<'a>>,
    coded: bool,
    block: &'a CodedBlock,
    log2_size: u8,
    c_idx: u8,
    mode: u8,
)
    ensures
        final(out)@ == old(out)@ + residual_if(coded, block, log2_size, c_idx, mode),
{
    reveal(residual_if);
    if coded {
        out.push(SyntaxItem::Residual { block, log2_size, c_idx, mode });
    }
    assert(out@ =~= old(out)@ + residual_if(coded, block, log2_size, c_idx, mode));
}

/// Appends the flags in front of a transform node.
fn write_tt_flags<'a>(
    out: &mut Vec<SyntaxItem<'a>>,
    node: &Tt,
    cat: u8,
    intra_split: bool,
    parent_cb: bool,
    parent_cr: bool,
)
    requires
        node.depth() < 5,
    ensures
        final(out)@ == old(out)@ + tt_flag_items(node, cat, intra_split, parent_cb, parent_cr),
{
    let (log2_size, depth, is_split) = match node {
        Tt::Split { log2_size, trafo_depth, .. } => (*log2_size, *trafo_depth, true),
        Tt::Leaf(l) => (l.log2_size, l.trafo_depth, false),
    };
    let max_depth: u8 = if intra_split {
        MAX_INTRA_TT_DEPTH + 1
    } else {
        MAX_INTRA_TT_DEPTH
    };
    let split_coded: bool = log2_size <= MAX_TB_LOG2 && log2_size > MIN_TB_LOG2 && depth < max_depth
        && !(intra_split && depth == 0);
    let split_ci: usize = if split_coded {
        SPLIT_TRANSFORM_FLAG + min_usize((5 - log2_size) as usize, 2)
    } else {
        0
    };
    let chroma: bool = cat != 0 && (log2_size > 2 || cat == 3);
    let second: bool = decode_second_cbf(cat, log2_size, is_split);
    let own_cb: bool = chroma && (depth == 0 || parent_cb);
    let own_cr: bool = chroma && (depth == 0 || parent_cr);
    let ci: usize = CBF_CBCR + depth as usize;
    push_bin_if(out, split_coded, split_ci, is_split);
    push_bin_if(out, own_cb, ci, node.cbf_cb());
    push_bin_if(out, own_cb && second, ci, node.cbf_cb1());
    push_bin_if(out, own_cr, ci, node.cbf_cr());
    push_bin_if(out, own_cr && second, ci, node.cbf_cr1());
    proof {
        assert(bin_if::<'a>(split_coded, split_ci as int, is_split) == bin_if::<'a>(
            split_flag_coded(log2_size, depth, intra_split),
            SPLIT_TRANSFORM_FLAG + min_int(5 - log2_size, 2),
            node is Split,
        )) by {
            reveal(bin_if);
        }
        lemma_concat5(
            old(out)@,
            bin_if(split_coded, split_ci as int, is_split),
            bin_if(own_cb, ci as int, node.spec_cbf_cb()),
            bin_if(own_cb && second, ci as int, node.spec_cbf_cb1()),
            bin_if(own_cr, ci as int, node.spec_cbf_cr()),
            bin_if(own_cr && second, ci as int, node.spec_cbf_cr1()),
        );
    }
}

/// Appends the body of a leaf.
fn write_leaf<'a>(
    out: &mut Vec<SyntaxItem<'a>>,
    l: &'a LeafTu,
    cat: u8,
    parent_cb: bool,
    parent_cr: bool,
)
    ensures
        final(out)@ == old(out)@ + leaf_items(l, cat, parent_cb, parent_cr),
{
    let chroma: bool = cat != 0 && (l.log2_size > 2 || cat == 3);
    let second: bool = decode_second_cbf(cat, l.log2_size, false);
    let own_cb: bool = l.trafo_depth == 0 || parent_cb;
    let own_cr: bool = l.trafo_depth == 0 || parent_cr;
    let cb: bool = if chroma && own_cb {
        l.cb.cbf
    } else {
        parent_cb
    };
    let cr: bool = if chroma && own_cr {
        l.cr.cbf
    } else {
        parent_cr
    };
    let luma_ci: usize = if l.trafo_depth == 0 {
        CBF_LUMA + 1
    } else {
        CBF_LUMA
    };
    let has: bool = has_chroma_tb(cat, l.log2_size);
    let (cl, cm) = (l.chroma_log2, l.chroma_mode);
    push_bin_if(out, true, luma_ci, l.luma.cbf);
    push_residual_if(out, l.luma.cbf, &l.luma, l.log2_size, 0, l.luma_mode);
    push_residual_if(out, has && cb, &l.cb, cl, 1, cm);
    push_residual_if(out, has && second && own_cb && l.cb1.cbf, &l.cb1, cl, 1, cm);
    push_residual_if(out, has && cr, &l.cr, cl, 2, cm);
    push_residual_if(out, has && second && own_cr && l.cr1.cbf, &l.cr1, cl, 2, cm);
    proof {
        let flag = bin_if(true, luma_ci as int, l.luma.cbf);
        let luma = residual_if(l.luma.cbf, &l.luma, l.log2_size, 0, l.luma_mode);
        lemma_concat_assoc(old(out)@, flag, luma);
        lemma_concat5(
            old(out)@,
            flag + luma,
            residual_if(has && cb, &l.cb, cl, 1, cm),
            residual_if(has && second && own_cb && l.cb1.cbf, &l.cb1, cl, 1, cm),
            residual_if(has && cr, &l.cr, cl, 2, cm),
            residual_if(has && second && own_cr && l.cr1.cbf, &l.cr1, cl, 2, cm),
        );
    }
}

/// Appends the chroma that a split node codes itself.
fn write_parent_chroma<'a>(out: &mut Vec<SyntaxItem<'a>>, pc: &'a Option<ParentChromaTu>)
    ensures
        final(out)@ == old(out)@ + parent_chroma_items(pc),
{
    match pc {
        Some(c) => {
            push_residual_if(out, c.cb.cbf, &c.cb, c.log2_size, 1, c.chroma_mode);
            push_residual_if(out, c.cr.cbf, &c.cr, c.log2_size, 2, c.chroma_mode);
        },
        None => {},
    }
    assert(out@ =~= old(out)@ + parent_chroma_items(pc));
}

pub proof fn lemma_concat_assoc<A>(a: Seq<A>, b: Seq<A>, c: Seq<A>)
    ensures
        (a + b) + c == a + (b + c),
{
    assert((a + b) + c =~= a + (b + c));
}

proof fn lemma_concat5<A>(s: Seq<A>, a: Seq<A>, b: Seq<A>, c: Seq<A>, d: Seq<A>, e: Seq<A>)
    ensures
        s + a + b + c + d + e == s + (a + b + c + d + e),
{
    lemma_concat_assoc(s, a, b);
    lemma_concat_assoc(s, a + b, c);
    lemma_concat_assoc(s, a + b + c, d);
    lemma_concat_assoc(s, a + b + c + d, e);
}

/// Appends the syntax of a transform tree.
pub fn write_tt<'a>(
    out: &mut Vec<SyntaxItem<'a>>,
    node: &'a Tt,
    cat: u8,
    intra_split: bool,
    parent_cb: bool,
    parent_cr: bool,
)
    requires
        tt_depths_ok(node),
    ensures
        final(out)@ == old(out)@ + tt_items(node, cat, intra_split, parent_cb, parent_cr),
    decreases node, 0nat,
{
    let ghost start = out@;
    let ghost flags = tt_flag_items(node, cat, intra_split, parent_cb, parent_cr);
    write_tt_flags(out, node, cat, intra_split, parent_cb, parent_cr);
    match node {
        Tt::Split { kids, parent_chroma, .. } => {
            let ghost mid = out@;
            let (cb, cr) = (node.cbf_cb(), node.cbf_cr());
            write_tt_kids(out, kids, cat, intra_split, cb, cr);
            write_parent_chroma(out, parent_chroma);
            proof {
                let k = tt_kids_items(kids@, kids@.len(), cat, intra_split, cb, cr);
                let p = parent_chroma_items(parent_chroma);
                lemma_concat_assoc(mid, k, p);
                lemma_concat_assoc(start, flags, k + p);
            }
        },
        Tt::Leaf(l) => {
            write_leaf(out, l, cat, parent_cb, parent_cr);
            proof {
                lemma_concat_assoc(start, flags, leaf_items(l, cat, parent_cb, parent_cr));
            }
        },
    }
}

/// Appends the syntax of the children of a transform node.
fn write_tt_kids<'a>(
    out: &mut Vec<SyntaxItem<'a>>,
    kids: &'a Vec<Tt>,
    cat: u8,
    intra_split: bool,
    cb: bool,
    cr: bool,
)
    requires
        forall|i: int| 0 <= i < kids@.len() ==> tt_depths_ok(&#[trigger] kids@[i]),
    ensures
        final(out)@ == old(out)@ + tt_kids_items(kids@, kids@.len(), cat, intra_split, cb, cr),
    decreases kids, 1nat,
{
    let ghost start = out@;
    let n: usize = kids.len();
    assert(start + tt_kids_items(kids@, 0, cat, intra_split, cb, cr) =~= start);
    for i in 0..n
        invariant
            n == kids@.len(),
            forall|k: int| 0 <= k < kids@.len() ==> tt_depths_ok(&#[trigger] kids@[k]),
            out@ == start + tt_kids_items(kids@, i as nat, cat, intra_split, cb, cr),
    {
        write_tt(out, &kids[i], cat, intra_split, cb, cr);
        proof {
            lemma_concat_assoc(
                start,
                tt_kids_items(kids@, i as nat, cat, intra_split, cb, cr),
                tt_items(&kids@[i as int], cat, intra_split, cb, cr),
            );
        }
    }
}

/// The place of a mode among the most probable ones, 3 where it is none of them.
pub open spec fn mpm_place(mpm: [u8; 3], mode: u8) -> int {
    if mode == mpm[0] {
        0
    } else if mode == mpm[1] {
        1
    } else if mode == mpm[2] {
        2
    } else {
        3
    }
}

pub open spec fn mpm_distinct(mpm: [u8; 3]) -> bool {
    mpm[0] != mpm[1] && mpm[0] != mpm[2] && mpm[1] != mpm[2]
}

/// How many of the most probable modes lie below a mode.
pub open spec fn mpm_below(mpm: [u8; 3], mode: u8) -> int {
    (if mpm[0] < mode {
        1int
    } else {
        0
    }) + (if mpm[1] < mode {
        1int
    } else {
        0
    }) + (if mpm[2] < mode {
        1int
    } else {
        0
    })
}

/// The number that codes a mode outside the most probable ones: its rank among the
/// modes that remain.
pub open spec fn luma_rem(mpm: [u8; 3], mode: u8) -> nat {
    (mode - mpm_below(mpm, mode)) as nat
}

/// Three modes in ascending order.
pub open spec fn sorted3(mpm: [u8; 3]) -> (int, int, int) {
    let (a, b, c) = (mpm[0] as int, mpm[1] as int, mpm[2] as int);
    let (lo, hi) = (
        crate::math::min_int(a, crate::math::min_int(b, c)),
        crate::math::max_int(a, crate::math::max_int(b, c)),
    );
    (lo, a + b + c - lo - hi, hi)
}

/// The mode that a decoder makes of a remaining-mode number: past each of the most
/// probable modes in ascending order.
pub open spec fn decode_rem(mpm: [u8; 3], rem: int) -> int {
    let (lo, mid, hi) = sorted3(mpm);
    let m1 = if rem >= lo {
        rem + 1
    } else {
        rem
    };
    let m2 = if m1 >= mid {
        m1 + 1
    } else {
        m1
    };
    if m2 >= hi {
        m2 + 1
    } else {
        m2
    }
}

/// A mode outside the most probable ones fits in five bits and is decoded back.
pub proof fn law_luma_rem_decodes(mpm: [u8; 3], mode: u8)
    requires
        mpm_distinct(mpm),
        mode <= 34,
        mpm[0] <= 34,
        mpm[1] <= 34,
        mpm[2] <= 34,
        mpm_place(mpm, mode) == 3,
    ensures
        luma_rem(mpm, mode) < 32,
        decode_rem(mpm, luma_rem(mpm, mode) as int) == mode,
{
}

pub open spec fn bypass_items<'a>(bits: Seq<bool>) -> Seq<SyntaxItem<'a>> {
    bits.map_values(|b: bool| SyntaxItem::<'a>::Bypass(b))
}

/// The bypass bins of a luma mode: the place among the most probable modes as a
/// truncated unary number, or five bits for another mode.
pub open spec fn luma_tail_bits(mpm: [u8; 3], mode: u8) -> Seq<bool> {
    let place = mpm_place(mpm, mode);
    if place == 0 {
        seq![false]
    } else if place == 1 {
        seq![true, false]
    } else if place == 2 {
        seq![true, true]
    } else {
        be_bits(5, luma_rem(mpm, mode))
    }
}

/// The syntax of a coding unit's luma mode.
pub open spec fn luma_mode_items<'a>(mpm: [u8; 3], mode: u8) -> Seq<SyntaxItem<'a>> {
    seq![SyntaxItem::Bin(PREV_INTRA_LUMA_PRED_FLAG, mpm_place(mpm, mode) < 3)] + bypass_items(
        luma_tail_bits(mpm, mode),
    )
}

/// The syntax of a chroma mode index: one bin for the luma mode, two more bins for the
/// others.
pub open spec fn chroma_mode_items<'a>(mode_idx: u8) -> Seq<SyntaxItem<'a>> {
    if mode_idx == CHROMA_DM_IDX {
        seq![SyntaxItem::Bin(INTRA_CHROMA_PRED_MODE, false)]
    } else {
        seq![
            SyntaxItem::Bin(INTRA_CHROMA_PRED_MODE, true),
            SyntaxItem::Bypass((mode_idx / 2) % 2 == 1),
            SyntaxItem::Bypass(mode_idx % 2 == 1),
        ]
    }
}

/// The four mode flags of a coding unit in four parts.
pub open spec fn nxn_flag_items<'a>(nxn: &NxnInfo, n: nat) -> Seq<SyntaxItem<'a>> {
    Seq::new(
        n,
        |pu: int|
            SyntaxItem::<'a>::Bin(
                PREV_INTRA_LUMA_PRED_FLAG,
                mpm_place(nxn.mpms[pu], nxn.luma_modes[pu]) < 3,
            ),
    )
}

/// The bypass bins of the first `n` parts' modes.
pub open spec fn nxn_tail_items<'a>(nxn: &NxnInfo, n: nat) -> Seq<SyntaxItem<'a>>
    decreases n,
{
    if n == 0 {
        Seq::empty()
    } else {
        nxn_tail_items(nxn, (n - 1) as nat) + bypass_items(
            luma_tail_bits(nxn.mpms[n - 1], nxn.luma_modes[n - 1]),
        )
    }
}

/// The partition and luma modes of a coding unit. The partition is coded at the
/// smallest size alone.
pub open spec fn leaf_mode_items<'a>(leaf: &CuLeaf, log2_cb_size: u8) -> Seq<SyntaxItem<'a>> {
    match leaf.nxn {
        Some(nxn) => seq![SyntaxItem::Bin(PART_MODE, false)] + nxn_flag_items(&nxn, 4)
            + nxn_tail_items(&nxn, 4),
        None => bin_if(log2_cb_size == 3, PART_MODE as int, true) + luma_mode_items(
            leaf.mpm,
            leaf.luma_mode,
        ),
    }
}

/// The syntax of a coding unit.
pub open spec fn cu_leaf_items<'a>(leaf: &'a CuLeaf, log2_cb_size: u8, cat: u8) -> Seq<
    SyntaxItem<'a>,
> {
    leaf_mode_items(leaf, log2_cb_size) + (if cat != 0 {
        chroma_mode_items(leaf.chroma_mode_idx)
    } else {
        Seq::empty()
    }) + tt_items(&leaf.tt, cat, leaf.nxn is Some, true, true)
}

/// The most probable modes of a coding unit are three different ones in each part.
pub open spec fn leaf_modes_ok(leaf: &CuLeaf) -> bool {
    &&& mpm_distinct(leaf.mpm)
    &&& leaf.nxn matches Some(nxn) ==> forall|pu: int|
        0 <= pu < 4 ==> mpm_distinct(#[trigger] nxn.mpms[pu])
}

fn push_bypass_bits<'a>(out: &mut Vec<SyntaxItem<'a>>, n: u32, value: u32)
    requires
        n <= 32,
    ensures
        final(out)@ == old(out)@ + bypass_items(be_bits(n as nat, value as nat)),
    decreases n,
{
    if n > 0 {
        push_bypass_bits(out, n - 1, value / 2);
        out.push(SyntaxItem::Bypass(value % 2 == 1));
    }
    assert(out@ =~= old(out)@ + bypass_items(be_bits(n as nat, value as nat)));
}

/// Appends the bypass bins of a luma mode.
fn write_luma_tail<'a>(out: &mut Vec<SyntaxItem<'a>>, mpm: [u8; 3], mode: u8)
    requires
        mpm_distinct(mpm),
    ensures
        final(out)@ == old(out)@ + bypass_items(luma_tail_bits(mpm, mode)),
{
    if mode == mpm[0] {
        out.push(SyntaxItem::Bypass(false));
    } else if mode == mpm[1] {
        out.push(SyntaxItem::Bypass(true));
        out.push(SyntaxItem::Bypass(false));
    } else if mode == mpm[2] {
        out.push(SyntaxItem::Bypass(true));
        out.push(SyntaxItem::Bypass(true));
    } else {
        let mut rem: u8 = mode;
        if mpm[0] < mode {
            rem = rem - 1;
        }
        if mpm[1] < mode {
            rem = rem - 1;
        }
        if mpm[2] < mode {
            rem = rem - 1;
        }
        push_bypass_bits(out, 5, rem as u32);
        return ;
    }
    assert(out@ =~= old(out)@ + bypass_items(luma_tail_bits(mpm, mode)));
}

fn in_mpm(mpm: [u8; 3], mode: u8) -> (r: bool)
    ensures
        r == (mpm_place(mpm, mode) < 3),
{
    mode == mpm[0] || mode == mpm[1] || mode == mpm[2]
}

/// Appends the syntax of a luma mode.
pub fn write_intra_luma_mode<'a>(out: &mut Vec<SyntaxItem<'a>>, mpm: [u8; 3], mode: u8)
    requires
        mpm_distinct(mpm),
    ensures
        final(out)@ == old(out)@ + luma_mode_items(mpm, mode),
{
    out.push(SyntaxItem::Bin(PREV_INTRA_LUMA_PRED_FLAG, in_mpm(mpm, mode)));
    write_luma_tail(out, mpm, mode);
    assert(out@ =~= old(out)@ + luma_mode_items(mpm, mode));
}

/// Appends the syntax of a chroma mode index.
pub fn write_intra_chroma_mode<'a>(out: &mut Vec<SyntaxItem<'a>>, mode_idx: u8)
    ensures
        final(out)@ == old(out)@ + chroma_mode_items(mode_idx),
{
    if mode_idx == CHROMA_DM_IDX {
        out.push(SyntaxItem::Bin(INTRA_CHROMA_PRED_MODE, false));
    } else {
        out.push(SyntaxItem::Bin(INTRA_CHROMA_PRED_MODE, true));
        out.push(SyntaxItem::Bypass((mode_idx / 2) % 2 == 1));
        out.push(SyntaxItem::Bypass(mode_idx % 2 == 1));
    }
    assert(out@ =~= old(out)@ + chroma_mode_items(mode_idx));
}

/// Appends the modes of a coding unit in four parts.
fn write_nxn_modes<'a>(out: &mut Vec<SyntaxItem<'a>>, nxn: &NxnInfo)
    requires
        forall|pu: int| 0 <= pu < 4 ==> mpm_distinct(#[trigger] nxn.mpms[pu]),
    ensures
        final(out)@ == old(out)@ + (seq![SyntaxItem::Bin(PART_MODE, false)] + nxn_flag_items(nxn, 4)
            + nxn_tail_items(nxn, 4)),
{
    let ghost start = out@;
    let ghost part = seq![SyntaxItem::<'a>::Bin(PART_MODE, false)];
    out.push(SyntaxItem::Bin(PART_MODE, false));
    assert(out@ =~= start + part + nxn_flag_items(nxn, 0));
    for pu in 0..4usize
        invariant
            out@ == start + part + nxn_flag_items(nxn, pu as nat),
    {
        out.push(
            SyntaxItem::Bin(PREV_INTRA_LUMA_PRED_FLAG, in_mpm(nxn.mpms[pu], nxn.luma_modes[pu])),
        );
        assert(out@ =~= start + part + nxn_flag_items(nxn, (pu + 1) as nat));
    }
    let ghost head = out@;
    assert(out@ =~= head + nxn_tail_items(nxn, 0));
    for pu in 0..4usize
        invariant
            forall|k: int| 0 <= k < 4 ==> mpm_distinct(#[trigger] nxn.mpms[k]),
            out@ == head + nxn_tail_items(nxn, pu as nat),
    {
        write_luma_tail(out, nxn.mpms[pu], nxn.luma_modes[pu]);
        proof {
            lemma_concat_assoc(
                head,
                nxn_tail_items(nxn, pu as nat),
                bypass_items(luma_tail_bits(nxn.mpms[pu as int], nxn.luma_modes[pu as int])),
            );
        }
    }
    proof {
        lemma_concat_assoc(start, part, nxn_flag_items(nxn, 4));
        lemma_concat_assoc(start, part + nxn_flag_items(nxn, 4), nxn_tail_items(nxn, 4));
    }
}

/// Appends the syntax of a coding unit.
pub fn write_cu_leaf<'a>(
    out: &mut Vec<SyntaxItem<'a>>,
    leaf: &'a CuLeaf,
    log2_cb_size: u8,
    cat: u8,
)
    requires
        leaf_modes_ok(leaf),
        tt_depths_ok(&leaf.tt),
    ensures
        final(out)@ == old(out)@ + cu_leaf_items(leaf, log2_cb_size, cat),
{
    let ghost start = out@;
    let intra_split: bool = match &leaf.nxn {
        Some(nxn) => {
            write_nxn_modes(out, nxn);
            true
        },
        None => {
            push_bin_if(out, log2_cb_size == 3, PART_MODE, true);
            write_intra_luma_mode(out, leaf.mpm, leaf.luma_mode);
            proof {
                lemma_concat_assoc(
                    start,
                    bin_if(log2_cb_size == 3, PART_MODE as int, true),
                    luma_mode_items(leaf.mpm, leaf.luma_mode),
                );
            }
            false
        },
    };
    let ghost modes: Seq<SyntaxItem<'a>> = leaf_mode_items(leaf, log2_cb_size);
    let ghost chroma = if cat != 0 {
        chroma_mode_items::<'a>(leaf.chroma_mode_idx)
    } else {
        Seq::empty()
    };
    if cat != 0 {
        write_intra_chroma_mode(out, leaf.chroma_mode_idx);
    }
    proof {
        assert(out@ =~= start + modes + chroma);
        lemma_concat_assoc(start, modes, chroma);
        lemma_concat_assoc(
            start,
            modes + chroma,
            tt_items(&leaf.tt, cat, intra_split, true, true),
        );
    }
    write_tt(out, &leaf.tt, cat, intra_split, true, true);
}

} // verus!
