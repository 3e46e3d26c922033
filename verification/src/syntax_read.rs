//! Reading the syntax of transform trees back.
//!
//! The reader follows the grammar that a decoder follows: it knows the format of the picture
//! and the sizes of the blocks, takes the flags in the contexts where it expects them, and
//! takes the coefficients of a component where that component's are due.

use vstd::prelude::*;

use crate::contexts::{CBF_CBCR, CBF_LUMA, SPLIT_TRANSFORM_FLAG};
use crate::geometry::spec_second_cbf;
use crate::items::{
    bin_if, chroma_cbf_coded, leaf_items, lemma_concat_assoc, parent_chroma_items, residual_if,
    split_flag_coded, tt_flag_items, tt_items, tt_kids_items, SyntaxItem,
};
use crate::math::min_int;
use crate::syntax::{CodedBlock, LeafTu, Tt};

verus! {

/// What is left to read, and whether everything so far was as expected.
pub struct Cursor<'a> {
    pub rest: Seq<SyntaxItem<'a>>,
    pub ok: bool,
}

/// A cursor in front of a list.
pub open spec fn at<'a>(rest: Seq<SyntaxItem<'a>>) -> Cursor<'a> {
    Cursor { rest, ok: true }
}

pub open spec fn failed<'a>() -> Cursor<'a> {
    Cursor { rest: Seq::empty(), ok: false }
}

/// Reads a bin in a context, where one is due; else it counts as false.
pub open spec fn read_bin<'a>(c: Cursor<'a>, due: bool, ci: int) -> (bool, Cursor<'a>) {
    if !due {
        (false, c)
    } else if c.ok && c.rest.len() > 0 {
        match c.rest[0] {
            SyntaxItem::Bin(i, v) => if i == ci {
                (v, at(c.rest.skip(1)))
            } else {
                (false, failed())
            },
            _ => (false, failed()),
        }
    } else {
        (false, failed())
    }
}

/// Reads a bypass bin, where one is due.
pub open spec fn read_bypass<'a>(c: Cursor<'a>, due: bool) -> (bool, Cursor<'a>) {
    if !due {
        (false, c)
    } else if c.ok && c.rest.len() > 0 {
        match c.rest[0] {
            SyntaxItem::Bypass(v) => (v, at(c.rest.skip(1))),
            _ => (false, failed()),
        }
    } else {
        (false, failed())
    }
}

/// What a decoder gets of a block: its levels, and the mode that they are scanned by.
pub struct SeenBlock {
    pub levels: Seq<i16>,
    pub mode: u8,
}

/// Reads the levels of a block of a size and component, where they are due.
pub open spec fn read_block<'a>(c: Cursor<'a>, due: bool, log2_size: int, component: int) -> (
    Option<SeenBlock>,
    Cursor<'a>,
) {
    if !due {
        (None, c)
    } else if c.ok && c.rest.len() > 0 {
        match c.rest[0] {
            SyntaxItem::Residual { block, log2_size: l, c_idx, mode } => if l == log2_size && c_idx
                == component {
                (Some(SeenBlock { levels: block.levels@, mode }), at(c.rest.skip(1)))
            } else {
                (None, failed())
            },
            _ => (None, failed()),
        }
    } else {
        (None, failed())
    }
}

/// What a decoder gets of a transform tree: the blocks of each leaf, two of a chroma
/// component one below the other in 4:2:2, and the chroma that belongs to four smallest luma
/// blocks together.
pub enum SeenTt {
    Leaf {
        luma: Option<SeenBlock>,
        cb: Option<SeenBlock>,
        cb_below: Option<SeenBlock>,
        cr: Option<SeenBlock>,
        cr_below: Option<SeenBlock>,
    },
    Split { kids: Seq<SeenTt>, cb: Option<SeenBlock>, cr: Option<SeenBlock> },
}

/// The flags in front of a node.
pub struct NodeFlags {
    pub split: bool,
    pub cb: bool,
    pub cb_below: bool,
    pub cr: bool,
    pub cr_below: bool,
}

/// The node has chroma flags at all: chroma of a 4x4 luma block goes with three others,
/// unless chroma is of full size.
pub open spec fn has_chroma(cat: u8, log2_size: int) -> bool {
    cat == 3 || (cat != 0 && log2_size > 2)
}

/// The size of the chroma blocks of a leaf.
pub open spec fn chroma_size(cat: u8, log2_size: int) -> int {
    if cat == 3 {
        log2_size
    } else {
        log2_size - 1
    }
}

/// Whether a node may say for itself that it is split.
pub open spec fn says_split(log2_size: int, depth: int, parted: bool) -> bool {
    &&& 3 <= log2_size <= 5
    &&& if parted {
        1 <= depth <= 2
    } else {
        depth <= 1
    }
}

/// Whether a node that does not say is split: blocks that are too large, and units of four
/// parts.
pub open spec fn must_split(log2_size: int, depth: int, parted: bool) -> bool {
    log2_size > 5 || (parted && depth == 0)
}

/// Reads the flags in front of a transform node.
pub open spec fn read_flags<'a>(
    c: Cursor<'a>,
    log2_size: int,
    depth: int,
    cat: u8,
    parted: bool,
    above_cb: bool,
    above_cr: bool,
) -> (NodeFlags, Cursor<'a>) {
    let says = says_split(log2_size, depth, parted);
    let (flag, c0) = read_bin(c, says, SPLIT_TRANSFORM_FLAG + 5 - log2_size);
    let split = if says {
        flag
    } else {
        must_split(log2_size, depth, parted)
    };
    let chroma = has_chroma(cat, log2_size);
    let two = cat == 2 && (!split || log2_size == 3);
    let ask_cb = chroma && (depth == 0 || above_cb);
    let ask_cr = chroma && (depth == 0 || above_cr);
    let (cb, c1) = read_bin(c0, ask_cb, CBF_CBCR + depth);
    let (cb_below, c2) = read_bin(c1, ask_cb && two, CBF_CBCR + depth);
    let (cr, c3) = read_bin(c2, ask_cr, CBF_CBCR + depth);
    let (cr_below, c4) = read_bin(c3, ask_cr && two, CBF_CBCR + depth);
    (NodeFlags { split, cb, cb_below, cr, cr_below }, c4)
}

/// Reads the body of a leaf: the luma flag, then luma, both blocks of Cb and both of Cr.
pub open spec fn read_leaf<'a>(
    c: Cursor<'a>,
    log2_size: int,
    depth: int,
    cat: u8,
    f: NodeFlags,
) -> (SeenTt, Cursor<'a>) {
    let chroma = has_chroma(cat, log2_size);
    let cl = chroma_size(cat, log2_size);
    let (coded, c0) = read_bin(
        c,
        true,
        CBF_LUMA + (if depth == 0 {
            1int
        } else {
            0
        }),
    );
    let (luma, c1) = read_block(c0, coded, log2_size, 0);
    let (cb, c2) = read_block(c1, chroma && f.cb, cl, 1);
    let (cb_below, c3) = read_block(c2, chroma && f.cb_below, cl, 1);
    let (cr, c4) = read_block(c3, chroma && f.cr, cl, 2);
    let (cr_below, c5) = read_block(c4, chroma && f.cr_below, cl, 2);
    (SeenTt::Leaf { luma, cb, cb_below, cr, cr_below }, c5)
}

/// Reads a transform tree.
pub open spec fn read_tt<'a>(
    c: Cursor<'a>,
    log2_size: nat,
    depth: int,
    cat: u8,
    parted: bool,
    above_cb: bool,
    above_cr: bool,
) -> (SeenTt, Cursor<'a>)
    decreases log2_size, 0nat,
{
    let (f, c0) = read_flags(c, log2_size as int, depth, cat, parted, above_cb, above_cr);
    if f.split && log2_size > 0 {
        let (kids, c1) = read_tt_kids(
            c0,
            (log2_size - 1) as nat,
            depth + 1,
            cat,
            parted,
            f.cb || f.cb_below,
            f.cr || f.cr_below,
            4,
        );
        // Four 4x4 luma blocks have their chroma behind the last of them.
        let shared = log2_size == 3 && !has_chroma(cat, 2);
        let (cb, c2) = read_block(c1, shared && f.cb, 2, 1);
        let (cr, c3) = read_block(c2, shared && f.cr, 2, 2);
        (SeenTt::Split { kids, cb, cr }, c3)
    } else {
        read_leaf(c0, log2_size as int, depth, cat, f)
    }
}

/// Reads the first `n` quadrants of a transform node.
pub open spec fn read_tt_kids<'a>(
    c: Cursor<'a>,
    log2_size: nat,
    depth: int,
    cat: u8,
    parted: bool,
    cb: bool,
    cr: bool,
    n: nat,
) -> (Seq<SeenTt>, Cursor<'a>)
    decreases log2_size, n + 1,
{
    if n == 0 {
        (Seq::empty(), c)
    } else {
        let (done, c0) = read_tt_kids(c, log2_size, depth, cat, parted, cb, cr, (n - 1) as nat);
        let (kid, c1) = read_tt(c0, log2_size, depth, cat, parted, cb, cr);
        (done.push(kid), c1)
    }
}

/// A block as a decoder is to see it: nothing where it has no levels to code.
pub open spec fn block_seen(b: CodedBlock, mode: u8) -> Option<SeenBlock> {
    if b.cbf {
        Some(SeenBlock { levels: b.levels@, mode })
    } else {
        None
    }
}

/// A transform tree as a decoder is to see it.
pub open spec fn tt_seen(node: &Tt) -> SeenTt
    decreases node,
{
    match node {
        Tt::Leaf(l) => SeenTt::Leaf {
            luma: block_seen(l.luma, l.luma_mode),
            cb: block_seen(l.cb, l.chroma_mode),
            cb_below: block_seen(l.cb1, l.chroma_mode),
            cr: block_seen(l.cr, l.chroma_mode),
            cr_below: block_seen(l.cr1, l.chroma_mode),
        },
        Tt::Split { kids, parent_chroma, .. } => SeenTt::Split {
            kids: Seq::new(
                kids@.len(),
                |i: int|
                    if 0 <= i < kids@.len() {
                        tt_seen(&kids@[i])
                    } else {
                        SeenTt::Split { kids: Seq::empty(), cb: None, cr: None }
                    },
            ),
            cb: match parent_chroma {
                Some(p) => block_seen(p.cb, p.chroma_mode),
                None => None,
            },
            cr: match parent_chroma {
                Some(p) => block_seen(p.cr, p.chroma_mode),
                None => None,
            },
        },
    }
}

/// A transform tree that the grammar has: sizes halve, blocks too large and units of four
/// parts are split and the smallest are not, chroma blocks have their size, a component has
/// levels below a node only where the node's flag says so, and the chroma of four smallest
/// blocks stands with their parent.
pub open spec fn tt_regular(
    node: &Tt,
    log2_size: nat,
    depth: int,
    cat: u8,
    parted: bool,
    above_cb: bool,
    above_cr: bool,
) -> bool
    decreases node,
{
    let ask_cb = has_chroma(cat, log2_size as int) && (depth == 0 || above_cb);
    let ask_cr = has_chroma(cat, log2_size as int) && (depth == 0 || above_cr);
    &&& 2 <= log2_size <= 6
    &&& 0 <= depth < 5
    &&& cat <= 3
    &&& match node {
        Tt::Leaf(l) => {
            &&& l.log2_size == log2_size
            &&& l.trafo_depth == depth
            &&& log2_size <= 5
            &&& says_split(log2_size as int, depth, parted) || !must_split(
                log2_size as int,
                depth,
                parted,
            )
            &&& has_chroma(cat, log2_size as int) ==> l.chroma_log2 == chroma_size(
                cat,
                log2_size as int,
            )
            &&& l.cb.cbf || l.cb1.cbf ==> ask_cb
            &&& l.cr.cbf || l.cr1.cbf ==> ask_cr
            &&& l.cb1.cbf || l.cr1.cbf ==> cat == 2
        },
        Tt::Split { log2_size: l, trafo_depth: d, cbf_cb, cbf_cr, parent_chroma, kids, .. } => {
            &&& l == log2_size
            &&& d == depth
            &&& says_split(log2_size as int, depth, parted) || must_split(
                log2_size as int,
                depth,
                parted,
            )
            &&& log2_size > 2
            &&& cat == 2 ==> log2_size > 3
            &&& *cbf_cb ==> ask_cb
            &&& *cbf_cr ==> ask_cr
            &&& kids@.len() == 4
            &&& forall|i: int|
                0 <= i < kids@.len() ==> tt_regular(
                    &#[trigger] kids@[i],
                    (log2_size - 1) as nat,
                    depth + 1,
                    cat,
                    parted,
                    *cbf_cb,
                    *cbf_cr,
                )
            &&& match parent_chroma {
                Some(p) => {
                    &&& cat == 1 && log2_size == 3
                    &&& p.log2_size == 2
                    &&& p.cb.cbf == cbf_cb
                    &&& p.cr.cbf == cbf_cr
                },
                None => cat == 1 && log2_size == 3 ==> !*cbf_cb && !*cbf_cr,
            }
        },
    }
}

pub proof fn lemma_read_bin<'a>(due: bool, ci: int, v: bool, rest: Seq<SyntaxItem<'a>>)
    requires
        0 <= ci <= usize::MAX,
    ensures
        read_bin(at(bin_if(due, ci, v) + rest), due, ci) == (due && v, at(rest)),
{
    reveal(bin_if);
    let all = bin_if(due, ci, v) + rest;
    if due {
        assert(all.skip(1) =~= rest);
    } else {
        assert(all =~= rest);
    }
}

proof fn lemma_read_block<'a>(
    due: bool,
    block: &'a CodedBlock,
    log2_size: u8,
    component: u8,
    mode: u8,
    rest: Seq<SyntaxItem<'a>>,
)
    ensures
        read_block(
            at(residual_if(due, block, log2_size, component, mode) + rest),
            due,
            log2_size as int,
            component as int,
        ) == (
            if due {
                Some(SeenBlock { levels: block.levels@, mode })
            } else {
                None
            },
            at(rest),
        ),
{
    reveal(residual_if);
    let all = residual_if(due, block, log2_size, component, mode) + rest;
    if due {
        assert(all.skip(1) =~= rest);
    } else {
        assert(all =~= rest);
    }
}

proof fn lemma_concat_rest<A>(a: Seq<A>, b: Seq<A>, c: Seq<A>, d: Seq<A>, e: Seq<A>, r: Seq<A>)
    ensures
        a + b + c + d + e + r == a + (b + (c + (d + (e + r)))),
{
    assert(a + b + c + d + e + r =~= a + (b + (c + (d + (e + r)))));
}

proof fn lemma_flags_read<'a>(
    node: &Tt,
    log2_size: nat,
    depth: int,
    cat: u8,
    parted: bool,
    above_cb: bool,
    above_cr: bool,
    rest: Seq<SyntaxItem<'a>>,
)
    requires
        tt_regular(node, log2_size, depth, cat, parted, above_cb, above_cr),
    ensures
        ({
            let (f, c) = read_flags(
                at(tt_flag_items(node, cat, parted, above_cb, above_cr) + rest),
                log2_size as int,
                depth,
                cat,
                parted,
                above_cb,
                above_cr,
            );
            &&& c == at(rest)
            &&& f.split == (node is Split)
            &&& match node {
                Tt::Leaf(l) => {
                    &&& f.cb == l.cb.cbf
                    &&& f.cr == l.cr.cbf
                    &&& f.cb_below == l.cb1.cbf
                    &&& f.cr_below == l.cr1.cbf
                },
                Tt::Split { cbf_cb, cbf_cr, .. } => {
                    &&& f.cb == cbf_cb
                    &&& f.cr == cbf_cr
                    &&& !f.cb_below
                    &&& !f.cr_below
                },
            }
        }),
{
    let says = says_split(log2_size as int, depth, parted);
    let split = node is Split;
    let two = cat == 2 && (!split || log2_size == 3);
    let chroma = has_chroma(cat, log2_size as int);
    let ask_cb = chroma && (depth == 0 || above_cb);
    let ask_cr = chroma && (depth == 0 || above_cr);
    let si = SPLIT_TRANSFORM_FLAG + 5 - log2_size;
    let ci = CBF_CBCR + depth;
    let i0 = bin_if::<'a>(says, si, split);
    let i1 = bin_if::<'a>(ask_cb, ci, node.spec_cbf_cb());
    let i2 = bin_if::<'a>(ask_cb && two, ci, node.spec_cbf_cb1());
    let i3 = bin_if::<'a>(ask_cr, ci, node.spec_cbf_cr());
    let i4 = bin_if::<'a>(ask_cr && two, ci, node.spec_cbf_cr1());
    let (size, d) = (node.size(), node.depth());
    assert(size == log2_size && d == depth);
    assert(split_flag_coded(size, d, parted) == says);
    assert(chroma_cbf_coded(cat, size) == chroma);
    assert(spec_second_cbf(cat, size, split) == two);
    assert(bin_if::<'a>(
        split_flag_coded(size, d, parted),
        SPLIT_TRANSFORM_FLAG + min_int(5 - size, 2),
        split,
    ) == i0) by {
        reveal(bin_if);
    }
    assert(tt_flag_items(node, cat, parted, above_cb, above_cr) == i0 + i1 + i2 + i3 + i4);
    lemma_five_bins(
        log2_size,
        depth,
        cat,
        parted,
        above_cb,
        above_cr,
        split,
        (node.spec_cbf_cb(), node.spec_cbf_cb1(), node.spec_cbf_cr(), node.spec_cbf_cr1()),
        rest,
    );
}

/// Five bins in the order of a node's flags are read as the flags.
proof fn lemma_five_bins<'a>(
    log2_size: nat,
    depth: int,
    cat: u8,
    parted: bool,
    above_cb: bool,
    above_cr: bool,
    split: bool,
    v: (bool, bool, bool, bool),
    rest: Seq<SyntaxItem<'a>>,
)
    requires
        2 <= log2_size <= 6,
        0 <= depth < 5,
        says_split(log2_size as int, depth, parted) || split == must_split(
            log2_size as int,
            depth,
            parted,
        ),
    ensures
        ({
            let says = says_split(log2_size as int, depth, parted);
            let two = cat == 2 && (!split || log2_size == 3);
            let chroma = has_chroma(cat, log2_size as int);
            let ask_cb = chroma && (depth == 0 || above_cb);
            let ask_cr = chroma && (depth == 0 || above_cr);
            let ci = CBF_CBCR + depth;
            read_flags(
                at(
                    bin_if(says, SPLIT_TRANSFORM_FLAG + 5 - log2_size, split) + bin_if(
                        ask_cb,
                        ci,
                        v.0,
                    ) + bin_if(ask_cb && two, ci, v.1) + bin_if(ask_cr, ci, v.2) + bin_if(
                        ask_cr && two,
                        ci,
                        v.3,
                    ) + rest,
                ),
                log2_size as int,
                depth,
                cat,
                parted,
                above_cb,
                above_cr,
            ) == (
                NodeFlags {
                    split,
                    cb: ask_cb && v.0,
                    cb_below: ask_cb && two && v.1,
                    cr: ask_cr && v.2,
                    cr_below: ask_cr && two && v.3,
                },
                at(rest),
            )
        }),
{
    let says = says_split(log2_size as int, depth, parted);
    let two = cat == 2 && (!split || log2_size == 3);
    let chroma = has_chroma(cat, log2_size as int);
    let ask_cb = chroma && (depth == 0 || above_cb);
    let ask_cr = chroma && (depth == 0 || above_cr);
    let si = SPLIT_TRANSFORM_FLAG + 5 - log2_size;
    let ci = CBF_CBCR + depth;
    let i0 = bin_if::<'a>(says, si, split);
    let i1 = bin_if::<'a>(ask_cb, ci, v.0);
    let i2 = bin_if::<'a>(ask_cb && two, ci, v.1);
    let i3 = bin_if::<'a>(ask_cr, ci, v.2);
    let i4 = bin_if::<'a>(ask_cr && two, ci, v.3);
    lemma_concat_rest(i0, i1, i2, i3, i4, rest);
    lemma_read_bin(says, si, split, i1 + (i2 + (i3 + (i4 + rest))));
    lemma_read_bin(ask_cb, ci, v.0, i2 + (i3 + (i4 + rest)));
    lemma_read_bin(ask_cb && two, ci, v.1, i3 + (i4 + rest));
    lemma_read_bin(ask_cr, ci, v.2, i4 + rest);
    lemma_read_bin(ask_cr && two, ci, v.3, rest);
}

proof fn lemma_leaf_read<'a>(
    l: &'a LeafTu,
    log2_size: nat,
    depth: int,
    cat: u8,
    parted: bool,
    above_cb: bool,
    above_cr: bool,
    f: NodeFlags,
    rest: Seq<SyntaxItem<'a>>,
)
    requires
        tt_regular(&Tt::Leaf(*l), log2_size, depth, cat, parted, above_cb, above_cr),
        f.cb == l.cb.cbf,
        f.cr == l.cr.cbf,
        f.cb_below == l.cb1.cbf,
        f.cr_below == l.cr1.cbf,
    ensures
        read_leaf(
            at(leaf_items(l, cat, above_cb, above_cr) + rest),
            log2_size as int,
            depth,
            cat,
            f,
        ) == (tt_seen(&Tt::Leaf(*l)), at(rest)),
{
    let chroma = has_chroma(cat, log2_size as int);
    let (cl, cm) = (l.chroma_log2, l.chroma_mode);
    let li = CBF_LUMA + (if depth == 0 {
        1int
    } else {
        0
    });
    let flag = bin_if::<'a>(true, li, l.luma.cbf);
    let i0 = residual_if(l.luma.cbf, &l.luma, l.log2_size, 0, l.luma_mode);
    let i1 = residual_if(chroma && l.cb.cbf, &l.cb, cl, 1, cm);
    let i2 = residual_if(chroma && l.cb1.cbf, &l.cb1, cl, 1, cm);
    let i3 = residual_if(chroma && l.cr.cbf, &l.cr, cl, 2, cm);
    let i4 = residual_if(chroma && l.cr1.cbf, &l.cr1, cl, 2, cm);
    assert(leaf_items(l, cat, above_cb, above_cr) == flag + i0 + i1 + i2 + i3 + i4) by {
        reveal(residual_if);
        reveal(bin_if);
    }
    let tail = i1 + (i2 + (i3 + (i4 + rest)));
    assert(flag + i0 + i1 + i2 + i3 + i4 + rest =~= flag + (i0 + tail));
    lemma_read_bin(true, li, l.luma.cbf, i0 + tail);
    lemma_read_block(l.luma.cbf, &l.luma, l.log2_size, 0, l.luma_mode, tail);
    lemma_read_block(chroma && l.cb.cbf, &l.cb, cl, 1, cm, i2 + (i3 + (i4 + rest)));
    lemma_read_block(chroma && l.cb1.cbf, &l.cb1, cl, 1, cm, i3 + (i4 + rest));
    lemma_read_block(chroma && l.cr.cbf, &l.cr, cl, 2, cm, i4 + rest);
    lemma_read_block(chroma && l.cr1.cbf, &l.cr1, cl, 2, cm, rest);
}

/// The syntax of a transform tree reads back as the tree, whatever follows: its splits, and
/// in each leaf the levels of luma, Cb and Cr.
pub proof fn law_transform_tree_reads_back<'a>(
    node: &'a Tt,
    log2_size: nat,
    depth: int,
    cat: u8,
    parted: bool,
    above_cb: bool,
    above_cr: bool,
    rest: Seq<SyntaxItem<'a>>,
)
    requires
        tt_regular(node, log2_size, depth, cat, parted, above_cb, above_cr),
    ensures
        read_tt(
            at(tt_items(node, cat, parted, above_cb, above_cr) + rest),
            log2_size,
            depth,
            cat,
            parted,
            above_cb,
            above_cr,
        ) == (tt_seen(node), at(rest)),
    decreases node, 0nat,
{
    match node {
        Tt::Leaf(l) => {
            lemma_leaf_node(node, l, log2_size, depth, cat, parted, above_cb, above_cr, rest);
        },
        Tt::Split { cbf_cb, cbf_cr, parent_chroma, kids, .. } => {
            let p = parent_chroma_items(parent_chroma);
            lemma_kids_read(
                kids@,
                4,
                (log2_size - 1) as nat,
                depth + 1,
                cat,
                parted,
                *cbf_cb,
                *cbf_cr,
                p + rest,
            );
            lemma_split_node(node, log2_size, depth, cat, parted, above_cb, above_cr, rest);
        },
    }
}

proof fn lemma_leaf_node<'a>(
    node: &'a Tt,
    l: &'a LeafTu,
    log2_size: nat,
    depth: int,
    cat: u8,
    parted: bool,
    above_cb: bool,
    above_cr: bool,
    rest: Seq<SyntaxItem<'a>>,
)
    requires
        tt_regular(node, log2_size, depth, cat, parted, above_cb, above_cr),
        *node == Tt::Leaf(*l),
    ensures
        read_tt(
            at(tt_items(node, cat, parted, above_cb, above_cr) + rest),
            log2_size,
            depth,
            cat,
            parted,
            above_cb,
            above_cr,
        ) == (tt_seen(node), at(rest)),
{
    let flags = tt_flag_items(node, cat, parted, above_cb, above_cr);
    let body = leaf_items(l, cat, above_cb, above_cr);
    lemma_concat_assoc(flags, body, rest);
    lemma_flags_read(
        node,
        log2_size,
        depth,
        cat,
        parted,
        above_cb,
        above_cr,
        body + rest,
    );
    let (f, c) = read_flags(
        at(flags + (body + rest)),
        log2_size as int,
        depth,
        cat,
        parted,
        above_cb,
        above_cr,
    );
    lemma_leaf_read(l, log2_size, depth, cat, parted, above_cb, above_cr, f, rest);
}

proof fn lemma_split_node<'a>(
    node: &'a Tt,
    log2_size: nat,
    depth: int,
    cat: u8,
    parted: bool,
    above_cb: bool,
    above_cr: bool,
    rest: Seq<SyntaxItem<'a>>,
)
    requires
        tt_regular(node, log2_size, depth, cat, parted, above_cb, above_cr),
        node matches Tt::Split { cbf_cb, cbf_cr, parent_chroma, kids, .. } && {
            let (done, c) = read_tt_kids(
                at(
                    tt_kids_items(kids@, 4, cat, parted, *cbf_cb, *cbf_cr) + (parent_chroma_items(
                        &node->parent_chroma,
                    ) + rest),
                ),
                (log2_size - 1) as nat,
                depth + 1,
                cat,
                parted,
                *cbf_cb,
                *cbf_cr,
                4,
            );
            &&& c == at(parent_chroma_items(&node->parent_chroma) + rest)
            &&& done.len() == 4
            &&& forall|i: int| 0 <= i < 4 ==> #[trigger] done[i] == tt_seen(&kids@[i])
        },
    ensures
        read_tt(
            at(tt_items(node, cat, parted, above_cb, above_cr) + rest),
            log2_size,
            depth,
            cat,
            parted,
            above_cb,
            above_cr,
        ) == (tt_seen(node), at(rest)),
{
    let flags = tt_flag_items(node, cat, parted, above_cb, above_cr);
    match node {
        Tt::Split { cbf_cb, cbf_cr, parent_chroma, kids, .. } => {
            let k = tt_kids_items::<'a>(kids@, 4, cat, parted, *cbf_cb, *cbf_cr);
            let p = parent_chroma_items(parent_chroma);
            lemma_concat_assoc(flags, k + p, rest);
            lemma_concat_assoc(k, p, rest);
            lemma_flags_read(
                node,
                log2_size,
                depth,
                cat,
                parted,
                above_cb,
                above_cr,
                k + (p + rest),
            );
            let (done, c1) = read_tt_kids(
                at(k + (p + rest)),
                (log2_size - 1) as nat,
                depth + 1,
                cat,
                parted,
                *cbf_cb,
                *cbf_cr,
                4,
            );
            let seen = tt_seen(node);
            assert(done =~= seen->kids);
            let shared = log2_size == 3 && !has_chroma(cat, 2);
            match parent_chroma {
                Some(pc) => {
                    let r0 = residual_if(pc.cb.cbf, &pc.cb, pc.log2_size, 1, pc.chroma_mode);
                    let r1 = residual_if(pc.cr.cbf, &pc.cr, pc.log2_size, 2, pc.chroma_mode);
                    lemma_concat_assoc(r0, r1, rest);
                    lemma_read_block(
                        pc.cb.cbf,
                        &pc.cb,
                        pc.log2_size,
                        1,
                        pc.chroma_mode,
                        r1 + rest,
                    );
                    lemma_read_block(pc.cr.cbf, &pc.cr, pc.log2_size, 2, pc.chroma_mode, rest);
                },
                None => {
                    assert(p + rest =~= rest);
                    assert(!(shared && *cbf_cb) && !(shared && *cbf_cr));
                },
            }
        },
        Tt::Leaf(_) => {},
    }
}

proof fn lemma_kids_read<'a>(
    kids: Seq<Tt>,
    n: nat,
    log2_size: nat,
    depth: int,
    cat: u8,
    parted: bool,
    cb: bool,
    cr: bool,
    rest: Seq<SyntaxItem<'a>>,
)
    requires
        n <= kids.len(),
        forall|i: int|
            0 <= i < kids.len() ==> tt_regular(
                &#[trigger] kids[i],
                log2_size,
                depth,
                cat,
                parted,
                cb,
                cr,
            ),
    ensures
        ({
            let (done, c) = read_tt_kids(
                at(tt_kids_items(kids, n, cat, parted, cb, cr) + rest),
                log2_size,
                depth,
                cat,
                parted,
                cb,
                cr,
                n,
            );
            &&& c == at(rest)
            &&& done.len() == n
            &&& forall|i: int| 0 <= i < n ==> #[trigger] done[i] == tt_seen(&kids[i])
        }),
    decreases kids, n,
{
    if n == 0 {
        assert(tt_kids_items::<'a>(kids, 0, cat, parted, cb, cr) + rest =~= rest);
    } else {
        let m = (n - 1) as nat;
        let before = tt_kids_items::<'a>(kids, m, cat, parted, cb, cr);
        let last = tt_items(&kids[n - 1], cat, parted, cb, cr);
        lemma_concat_assoc(before, last, rest);
        lemma_kids_read(kids, m, log2_size, depth, cat, parted, cb, cr, last + rest);
        law_transform_tree_reads_back(
            &kids[n - 1],
            log2_size,
            depth,
            cat,
            parted,
            cb,
            cr,
            rest,
        );
    }
}

} // verus!
