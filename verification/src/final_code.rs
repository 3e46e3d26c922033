//! Coding a transform tree of a given shape: which blocks are coded in which order, and
//! the tree that their results make.

use vstd::prelude::*;

use crate::geometry::{block_side, chroma_tb_geom, side, spec_chroma_tb_geom, MAX_TB_LOG2};
use crate::queue::Queue;
use crate::syntax::{split_flags_ok, split_node, CodedBlock, LeafTu, ParentChromaTu, Tt, TtPlan};
use crate::write::lemma_half_side;

verus! {

/// The modes and QPs of a coding unit.
#[derive(Clone, Copy, Debug, PartialEq, Eq, Structural)]
pub struct CodeSettings {
    pub cat: u8,
    pub luma_mode: u8,
    pub chroma_mode: u8,
    /// The mode that chroma is predicted with.
    pub chroma_pred: u8,
    pub qp_y: i32,
    pub qp_c: i32,
}

/// A transform block to code.
#[derive(Clone, Copy, Debug, PartialEq, Eq, Structural)]
pub struct BlockTask {
    pub x: u32,
    pub y: u32,
    pub log2_size: u8,
    pub c_idx: u8,
    pub mode: u8,
    pub qp: i32,
}

pub open spec fn luma_task(s: CodeSettings, x: int, y: int, log2_size: u8) -> BlockTask {
    BlockTask { x: x as u32, y: y as u32, log2_size, c_idx: 0, mode: s.luma_mode, qp: s.qp_y }
}

pub open spec fn chroma_task(
    s: CodeSettings,
    x: int,
    y: int,
    log2_size: u8,
    c_idx: u8,
) -> BlockTask {
    BlockTask { x: x as u32, y: y as u32, log2_size, c_idx, mode: s.chroma_pred, qp: s.qp_c }
}

/// The chroma blocks of a leaf: Cb and Cr, and in 4:2:2 a second of each below.
pub open spec fn chroma_tasks(s: CodeSettings, x0: int, y0: int, log2_size: u8) -> Seq<BlockTask> {
    match spec_chroma_tb_geom(s.cat, x0 as u32, y0 as u32, log2_size) {
        Some((cx, cy, clog2, count)) => {
            let first = seq![
                chroma_task(s, cx as int, cy as int, clog2, 1),
                chroma_task(s, cx as int, cy as int, clog2, 2),
            ];
            if count > 1 {
                first + seq![
                    chroma_task(s, cx as int, cy + side(clog2), clog2, 1),
                    chroma_task(s, cx as int, cy + side(clog2), clog2, 2),
                ]
            } else {
                first
            }
        },
        None => Seq::empty(),
    }
}

/// The blocks of a leaf in coding order.
pub open spec fn leaf_tasks(s: CodeSettings, x0: int, y0: int, log2_size: u8) -> Seq<BlockTask> {
    seq![luma_task(s, x0, y0, log2_size)] + chroma_tasks(s, x0, y0, log2_size)
}

/// A node codes chroma for its four 4x4 luma blocks.
pub open spec fn has_parent_chroma(cat: u8, log2_size: u8, planned: Option<u8>) -> bool {
    planned is Some && cat == 1 && log2_size == 3
}

/// The blocks that a split node itself codes.
pub open spec fn parent_tasks(
    s: CodeSettings,
    x0: int,
    y0: int,
    log2_size: u8,
    planned: Option<u8>,
) -> Seq<BlockTask> {
    if has_parent_chroma(s.cat, log2_size, planned) {
        chroma_tasks(s, x0, y0, log2_size)
    } else {
        Seq::empty()
    }
}

/// The corner of a quadrant.
pub open spec fn quadrant(x0: int, y0: int, half: int, i: int) -> (int, int) {
    (x0 + (i % 2) * half, y0 + (i / 2) * half)
}

/// The blocks of a tree in coding order.
pub open spec fn tt_tasks(plan: &TtPlan, s: CodeSettings, x0: int, y0: int) -> Seq<BlockTask>
    decreases plan, 0nat,
{
    match plan {
        TtPlan::Leaf { log2_size, .. } => leaf_tasks(s, x0, y0, *log2_size),
        TtPlan::Split { log2_size, parent_chroma, kids, .. } => kids_tasks(
            kids@,
            s,
            x0,
            y0,
            side(*log2_size) / 2,
            kids@.len(),
        ) + parent_tasks(s, x0, y0, *log2_size, *parent_chroma),
    }
}

/// The blocks of the first `n` children.
pub open spec fn kids_tasks(
    kids: Seq<TtPlan>,
    s: CodeSettings,
    x0: int,
    y0: int,
    half: int,
    n: nat,
) -> Seq<BlockTask>
    decreases kids, n,
{
    if n == 0 || n > kids.len() {
        Seq::empty()
    } else {
        let (kx, ky) = quadrant(x0, y0, half, n - 1);
        kids_tasks(kids, s, x0, y0, half, (n - 1) as nat) + tt_tasks(&kids[n - 1], s, kx, ky)
    }
}

pub open spec fn plan_size(plan: &TtPlan) -> u8 {
    match plan {
        TtPlan::Leaf { log2_size, .. } => *log2_size,
        TtPlan::Split { log2_size, .. } => *log2_size,
    }
}

/// The children of a plan are its four quadrants, or the first of them, and no leaf is
/// larger than 32x32.
pub open spec fn plan_ok(plan: &TtPlan) -> bool
    decreases plan,
{
    match plan {
        TtPlan::Leaf { log2_size, .. } => *log2_size <= MAX_TB_LOG2,
        TtPlan::Split { log2_size, kids, .. } => {
            &&& 0 < *log2_size < 31
            &&& kids@.len() <= 4
            &&& forall|i: int|
                0 <= i < kids@.len() ==> plan_ok(&#[trigger] kids@[i]) && plan_size(&kids@[i])
                    == *log2_size - 1
        },
    }
}

/// A square lies in the coordinate range.
pub open spec fn square_ok(x: int, y: int, log2_size: u8) -> bool {
    &&& 0 <= x && x + side(log2_size) <= u32::MAX
    &&& 0 <= y && y + side(log2_size) <= u32::MAX
}

/// The quadrants of a square lie in the coordinate range.
pub proof fn lemma_quadrant_ok(x0: int, y0: int, log2_size: u8, i: int)
    requires
        0 < log2_size < 31,
        square_ok(x0, y0, log2_size),
        0 <= i < 4,
    ensures
        ({
            let (kx, ky) = quadrant(x0, y0, side(log2_size) / 2, i);
            square_ok(kx, ky, (log2_size - 1) as u8)
        }),
        side(log2_size) / 2 == side((log2_size - 1) as u8),
{
    lemma_half_side(log2_size);
    assert(i % 2 == 0 || i % 2 == 1);
    assert(i / 2 == 0 || i / 2 == 1);
    let half = side(log2_size) / 2;
    assert(0 * half == 0 && 1 * half == half);
}

/// Lists the chroma blocks of a leaf.
pub fn push_chroma_tasks(out: &mut Vec<BlockTask>, s: CodeSettings, x0: u32, y0: u32, log2_size: u8)
    requires
        log2_size < 31,
        square_ok(x0 as int, y0 as int, log2_size),
    ensures
        final(out)@ == old(out)@ + chroma_tasks(s, x0 as int, y0 as int, log2_size),
{
    let ghost start = out@;
    match chroma_tb_geom(s.cat, x0, y0, log2_size) {
        Some((cx, cy, clog2, count)) => {
            proof {
                if s.cat == 2 {
                    lemma_half_side(log2_size);
                }
            }
            out.push(
                BlockTask { x: cx, y: cy, log2_size: clog2, c_idx: 1, mode: s.chroma_pred, qp: s.qp_c },
            );
            out.push(
                BlockTask { x: cx, y: cy, log2_size: clog2, c_idx: 2, mode: s.chroma_pred, qp: s.qp_c },
            );
            if count > 1 {
                let ty: u32 = cy + block_side(clog2);
                out.push(
                    BlockTask {
                        x: cx,
                        y: ty,
                        log2_size: clog2,
                        c_idx: 1,
                        mode: s.chroma_pred,
                        qp: s.qp_c,
                    },
                );
                out.push(
                    BlockTask {
                        x: cx,
                        y: ty,
                        log2_size: clog2,
                        c_idx: 2,
                        mode: s.chroma_pred,
                        qp: s.qp_c,
                    },
                );
            }
        },
        None => {},
    }
    assert(out@ =~= start + chroma_tasks(s, x0 as int, y0 as int, log2_size));
}

/// Lists the blocks of a leaf.
pub fn push_leaf_tasks(out: &mut Vec<BlockTask>, s: CodeSettings, x0: u32, y0: u32, log2_size: u8)
    requires
        log2_size < 31,
        square_ok(x0 as int, y0 as int, log2_size),
    ensures
        final(out)@ == old(out)@ + leaf_tasks(s, x0 as int, y0 as int, log2_size),
{
    let ghost start = out@;
    out.push(BlockTask { x: x0, y: y0, log2_size, c_idx: 0, mode: s.luma_mode, qp: s.qp_y });
    push_chroma_tasks(out, s, x0, y0, log2_size);
    assert(out@ =~= start + leaf_tasks(s, x0 as int, y0 as int, log2_size));
}

/// Lists the blocks of a tree in coding order.
pub fn push_tt_tasks(out: &mut Vec<BlockTask>, plan: &TtPlan, s: CodeSettings, x0: u32, y0: u32)
    requires
        plan_ok(plan),
        square_ok(x0 as int, y0 as int, plan_size(plan)),
    ensures
        final(out)@ == old(out)@ + tt_tasks(plan, s, x0 as int, y0 as int),
    decreases plan,
{
    let ghost start = out@;
    match plan {
        TtPlan::Leaf { log2_size, .. } => {
            push_leaf_tasks(out, s, x0, y0, *log2_size);
        },
        TtPlan::Split { log2_size, parent_chroma, kids, .. } => {
            let half: u32 = block_side(*log2_size) / 2;
            let n: usize = kids.len();
            let ghost h = side(*log2_size) / 2;
            assert(start + Seq::<BlockTask>::empty() =~= start);
            for i in 0..n
                invariant
                    n == kids@.len(),
                    n <= 4,
                    plan matches TtPlan::Split { kids: k, log2_size: l, .. } && k == kids && l
                        == log2_size,
                    plan_ok(plan),
                    square_ok(x0 as int, y0 as int, *log2_size),
                    half == h,
                    h == side(*log2_size) / 2,
                    out@ == start + kids_tasks(kids@, s, x0 as int, y0 as int, h, i as nat),
            {
                let ghost before = kids_tasks(kids@, s, x0 as int, y0 as int, h, i as nat);
                proof {
                    lemma_quadrant_ok(x0 as int, y0 as int, *log2_size, i as int);
                    assert(plan_ok(&kids@[i as int]));
                }
                let kx: u32 = if i % 2 == 1 {
                    x0 + half
                } else {
                    x0
                };
                let ky: u32 = if i / 2 == 1 {
                    y0 + half
                } else {
                    y0
                };
                assert((kx as int, ky as int) == quadrant(x0 as int, y0 as int, h, i as int)) by {
                    assert(0 * h == 0 && 1 * h == h);
                }
                push_tt_tasks(out, &kids[i], s, kx, ky);
                assert(out@ =~= start + (before + tt_tasks(&kids@[i as int], s, kx as int, ky as int)));
            }
            if parent_chroma.is_some() && s.cat == 1 && *log2_size == 3 {
                push_chroma_tasks(out, s, x0, y0, *log2_size);
            }
            assert(out@ =~= start + tt_tasks(plan, s, x0 as int, y0 as int));
        },
    }
}

/// A block without coefficients.
pub open spec fn is_empty_block(b: &CodedBlock) -> bool {
    b.levels@.len() == 0 && !b.cbf && b.frac_bits == 0
}

/// A leaf is made of its coded blocks.
pub open spec fn leaf_codes(
    l: &LeafTu,
    s: CodeSettings,
    x0: int,
    y0: int,
    log2_size: u8,
    trafo_depth: u8,
    blocks: Seq<CodedBlock>,
) -> bool {
    &&& l.log2_size == log2_size
    &&& l.trafo_depth == trafo_depth
    &&& l.luma_mode == s.luma_mode
    &&& l.chroma_mode == s.chroma_mode
    &&& l.luma == blocks[0]
    &&& match spec_chroma_tb_geom(s.cat, x0 as u32, y0 as u32, log2_size) {
        Some((_, _, clog2, count)) => {
            &&& l.chroma_log2 == clog2
            &&& l.cb == blocks[1]
            &&& l.cr == blocks[2]
            &&& if count > 1 {
                l.cb1 == blocks[3] && l.cr1 == blocks[4]
            } else {
                is_empty_block(&l.cb1) && is_empty_block(&l.cr1)
            }
        },
        None => {
            &&& l.chroma_log2 == 0
            &&& is_empty_block(&l.cb)
            &&& is_empty_block(&l.cr)
            &&& is_empty_block(&l.cb1)
            &&& is_empty_block(&l.cr1)
        },
    }
}

/// A split node's own chroma is made of its coded blocks.
pub open spec fn parent_codes(
    pc: &Option<ParentChromaTu>,
    s: CodeSettings,
    log2_size: u8,
    planned: Option<u8>,
    blocks: Seq<CodedBlock>,
) -> bool {
    if has_parent_chroma(s.cat, log2_size, planned) {
        &&& pc matches Some(c)
        &&& c.log2_size == log2_size - 1
        &&& c.chroma_mode == s.chroma_mode
        &&& c.cb == blocks[0]
        &&& c.cr == blocks[1]
    } else {
        pc is None
    }
}

/// A tree is made of its coded blocks, taken in coding order.
pub open spec fn tt_codes(
    tt: &Tt,
    plan: &TtPlan,
    s: CodeSettings,
    x0: int,
    y0: int,
    blocks: Seq<CodedBlock>,
) -> bool
    decreases plan, 0nat,
{
    match plan {
        TtPlan::Leaf { log2_size, trafo_depth } => {
            tt matches Tt::Leaf(l) && leaf_codes(l, s, x0, y0, *log2_size, *trafo_depth, blocks)
        },
        TtPlan::Split { log2_size, trafo_depth, parent_chroma, kids } => {
            let half = side(*log2_size) / 2;
            let end = kids_tasks(kids@, s, x0, y0, half, kids@.len()).len() as int;
            &&& tt matches Tt::Split { kids: coded, parent_chroma: pc, .. }
            &&& tt.size() == *log2_size
            &&& tt.depth() == *trafo_depth
            &&& split_flags_ok(tt)
            &&& coded@.len() == kids@.len()
            &&& kids_code(coded@, kids@, s, x0, y0, half, kids@.len(), blocks)
            &&& parent_codes(pc, s, *log2_size, *parent_chroma, blocks.skip(end))
        },
    }
}

/// The first `n` children are made of their coded blocks.
pub open spec fn kids_code(
    coded: Seq<Tt>,
    kids: Seq<TtPlan>,
    s: CodeSettings,
    x0: int,
    y0: int,
    half: int,
    n: nat,
    blocks: Seq<CodedBlock>,
) -> bool
    decreases kids, n,
{
    n == 0 || (n <= kids.len() && kids_code(
        coded,
        kids,
        s,
        x0,
        y0,
        half,
        (n - 1) as nat,
        blocks,
    ) && tt_codes(
        &coded[n - 1],
        &kids[n - 1],
        s,
        quadrant(x0, y0, half, n - 1).0,
        quadrant(x0, y0, half, n - 1).1,
        kid_blocks(kids, s, x0, y0, half, n - 1, blocks),
    ))
}

/// Children that follow change nothing for those before.
proof fn lemma_kids_code_push(
    coded: Seq<Tt>,
    kid: Tt,
    kids: Seq<TtPlan>,
    s: CodeSettings,
    x0: int,
    y0: int,
    half: int,
    n: nat,
    blocks: Seq<CodedBlock>,
)
    requires
        n <= coded.len(),
        kids_code(coded, kids, s, x0, y0, half, n, blocks),
    ensures
        kids_code(coded.push(kid), kids, s, x0, y0, half, n, blocks),
    decreases n,
{
    if n > 0 {
        lemma_kids_code_push(coded, kid, kids, s, x0, y0, half, (n - 1) as nat, blocks);
        assert(coded.push(kid)[n - 1] == coded[n - 1]);
    }
}

/// The blocks of one child.
pub open spec fn kid_blocks(
    kids: Seq<TtPlan>,
    s: CodeSettings,
    x0: int,
    y0: int,
    half: int,
    i: int,
    blocks: Seq<CodedBlock>,
) -> Seq<CodedBlock> {
    blocks.subrange(
        kids_tasks(kids, s, x0, y0, half, i as nat).len() as int,
        kids_tasks(kids, s, x0, y0, half, (i + 1) as nat).len() as int,
    )
}

/// Makes a leaf of its coded blocks.
pub fn take_leaf(
    s: CodeSettings,
    x0: u32,
    y0: u32,
    log2_size: u8,
    trafo_depth: u8,
    queue: &mut Queue<CodedBlock>,
) -> (l: LeafTu)
    requires
        old(queue)@.len() >= leaf_tasks(s, x0 as int, y0 as int, log2_size).len(),
    ensures
        leaf_codes(&l, s, x0 as int, y0 as int, log2_size, trafo_depth, old(queue)@),
        final(queue)@ == old(queue)@.skip(
            leaf_tasks(s, x0 as int, y0 as int, log2_size).len() as int,
        ),
{
    let ghost all = queue@;
    let luma = queue.take();
    match chroma_tb_geom(s.cat, x0, y0, log2_size) {
        Some((_, _, clog2, count)) => {
            let cb = queue.take();
            let cr = queue.take();
            let (cb1, cr1) = if count > 1 {
                let cb1 = queue.take();
                let cr1 = queue.take();
                (cb1, cr1)
            } else {
                (CodedBlock::empty(), CodedBlock::empty())
            };
            assert(queue@ =~= all.skip(
                leaf_tasks(s, x0 as int, y0 as int, log2_size).len() as int,
            ));
            LeafTu {
                log2_size,
                chroma_log2: clog2,
                trafo_depth,
                luma_mode: s.luma_mode,
                chroma_mode: s.chroma_mode,
                luma,
                cb,
                cr,
                cb1,
                cr1,
            }
        },
        None => {
            assert(queue@ =~= all.skip(
                leaf_tasks(s, x0 as int, y0 as int, log2_size).len() as int,
            ));
            LeafTu {
                log2_size,
                chroma_log2: 0,
                trafo_depth,
                luma_mode: s.luma_mode,
                chroma_mode: s.chroma_mode,
                luma,
                cb: CodedBlock::empty(),
                cr: CodedBlock::empty(),
                cb1: CodedBlock::empty(),
                cr1: CodedBlock::empty(),
            }
        },
    }
}

/// The children's blocks come one after the other.
proof fn lemma_kids_tasks_grow(
    kids: Seq<TtPlan>,
    s: CodeSettings,
    x0: int,
    y0: int,
    half: int,
    n: nat,
    m: nat,
)
    requires
        n <= m <= kids.len(),
    ensures
        kids_tasks(kids, s, x0, y0, half, n).len() <= kids_tasks(kids, s, x0, y0, half, m).len(),
    decreases m,
{
    if n < m {
        lemma_kids_tasks_grow(kids, s, x0, y0, half, n, (m - 1) as nat);
    }
}

/// Makes a tree of its coded blocks.
pub fn take_tt(plan: &TtPlan, s: CodeSettings, x0: u32, y0: u32, queue: &mut Queue<CodedBlock>) -> (tt: Tt)
    requires
        plan_ok(plan),
        square_ok(x0 as int, y0 as int, plan_size(plan)),
        old(queue)@.len() >= tt_tasks(plan, s, x0 as int, y0 as int).len(),
    ensures
        tt_codes(
            &tt,
            plan,
            s,
            x0 as int,
            y0 as int,
            old(queue)@.take(tt_tasks(plan, s, x0 as int, y0 as int).len() as int),
        ),
        final(queue)@ == old(queue)@.skip(tt_tasks(plan, s, x0 as int, y0 as int).len() as int),
    decreases plan,
{
    let ghost all = queue@;
    let ghost total = tt_tasks(plan, s, x0 as int, y0 as int).len() as int;
    match plan {
        TtPlan::Leaf { log2_size, trafo_depth } => {
            let l = take_leaf(s, x0, y0, *log2_size, *trafo_depth, queue);
            assert(leaf_codes(
                &l,
                s,
                x0 as int,
                y0 as int,
                *log2_size,
                *trafo_depth,
                all.take(total),
            ));
            Tt::Leaf(l)
        },
        TtPlan::Split { log2_size, trafo_depth, parent_chroma, kids } => {
            let half: u32 = block_side(*log2_size) / 2;
            let n: usize = kids.len();
            let ghost h = side(*log2_size) / 2;
            let ghost (xi, yi) = (x0 as int, y0 as int);
            let mut coded: Vec<Tt> = Vec::new();
            assert(all.skip(0) =~= all);
            for i in 0..n
                invariant
                    n == kids@.len(),
                    n <= 4,
                    plan matches TtPlan::Split { kids: k, log2_size: l, parent_chroma: pc, .. } && k
                        == kids && l == log2_size && pc == parent_chroma,
                    plan_ok(plan),
                    square_ok(xi, yi, *log2_size),
                    xi == x0,
                    yi == y0,
                    half == h,
                    h == side(*log2_size) / 2,
                    total == tt_tasks(plan, s, xi, yi).len(),
                    all.len() >= total,
                    queue@ == all.skip(kids_tasks(kids@, s, xi, yi, h, i as nat).len() as int),
                    coded@.len() == i,
                    kids_code(coded@, kids@, s, xi, yi, h, i as nat, all.take(total)),
            {
                let ghost off = kids_tasks(kids@, s, xi, yi, h, i as nat).len() as int;
                proof {
                    lemma_quadrant_ok(xi, yi, *log2_size, i as int);
                    assert(plan_ok(&kids@[i as int]));
                    lemma_kids_tasks_grow(kids@, s, xi, yi, h, (i + 1) as nat, n as nat);
                }
                let kx: u32 = if i % 2 == 1 {
                    x0 + half
                } else {
                    x0
                };
                let ky: u32 = if i / 2 == 1 {
                    y0 + half
                } else {
                    y0
                };
                assert((kx as int, ky as int) == quadrant(xi, yi, h, i as int)) by {
                    assert(0 * h == 0 && 1 * h == h);
                }
                let ghost len = tt_tasks(&kids@[i as int], s, kx as int, ky as int).len() as int;
                assert(kids_tasks(kids@, s, xi, yi, h, (i + 1) as nat).len() == off + len);
                let kid = take_tt(&kids[i], s, kx, ky, queue);
                proof {
                    assert(all.skip(off).take(len) =~= kid_blocks(
                        kids@,
                        s,
                        xi,
                        yi,
                        h,
                        i as int,
                        all.take(total),
                    ));
                    assert(queue@ =~= all.skip(off + len));
                    lemma_kids_code_push(
                        coded@,
                        kid,
                        kids@,
                        s,
                        xi,
                        yi,
                        h,
                        i as nat,
                        all.take(total),
                    );
                }
                coded.push(kid);
            }
            let ghost end = kids_tasks(kids@, s, xi, yi, h, n as nat).len() as int;
            let pc: Option<ParentChromaTu> = if parent_chroma.is_some() && s.cat == 1 && *log2_size
                == 3 {
                let cb = queue.take();
                let cr = queue.take();
                Some(
                    ParentChromaTu {
                        log2_size: *log2_size - 1,
                        chroma_mode: s.chroma_mode,
                        cb,
                        cr,
                    },
                )
            } else {
                None
            };
            assert(parent_codes(
                &pc,
                s,
                *log2_size,
                *parent_chroma,
                all.take(total).skip(end),
            ));
            assert(queue@ =~= all.skip(total));
            let ghost kept = coded@;
            let node = split_node(*log2_size, *trafo_depth, pc, coded);
            proof {
                assert(node->kids@ == kept);
            }
            node
        },
    }
}

/// How many luma blocks of a list cover a sample.
pub open spec fn luma_hits(tasks: Seq<BlockTask>, x: int, y: int) -> nat
    decreases tasks.len(),
{
    if tasks.len() == 0 {
        0
    } else {
        let t = tasks.last();
        luma_hits(tasks.drop_last(), x, y) + if t.c_idx == 0 && t.x <= x < t.x + side(t.log2_size)
            && t.y <= y < t.y + side(t.log2_size) {
            1nat
        } else {
            0
        }
    }
}

proof fn lemma_hits_append(a: Seq<BlockTask>, b: Seq<BlockTask>, x: int, y: int)
    ensures
        luma_hits(a + b, x, y) == luma_hits(a, x, y) + luma_hits(b, x, y),
    decreases b.len(),
{
    if b.len() == 0 {
        assert(a + b =~= a);
    } else {
        assert((a + b).drop_last() =~= a + b.drop_last());
        lemma_hits_append(a, b.drop_last(), x, y);
    }
}

proof fn lemma_chroma_hits(s: CodeSettings, x0: int, y0: int, log2_size: u8, x: int, y: int)
    ensures
        luma_hits(chroma_tasks(s, x0, y0, log2_size), x, y) == 0,
{
    reveal_with_fuel(luma_hits, 5);
}

/// Every child of a plan is there.
pub open spec fn plan_full(plan: &TtPlan) -> bool
    decreases plan,
{
    match plan {
        TtPlan::Leaf { .. } => true,
        TtPlan::Split { kids, .. } => kids@.len() == 4 && forall|i: int|
            0 <= i < kids@.len() ==> plan_full(&#[trigger] kids@[i]),
    }
}

pub open spec fn in_plan(plan: &TtPlan, x0: int, y0: int, x: int, y: int) -> bool {
    &&& x0 <= x < x0 + side(plan_size(plan))
    &&& y0 <= y < y0 + side(plan_size(plan))
}

/// The blocks of a tree tile its square: each luma sample is coded exactly once, and none
/// outside.
pub proof fn law_luma_coded_once(
    plan: &TtPlan,
    s: CodeSettings,
    x0: int,
    y0: int,
    x: int,
    y: int,
)
    requires
        plan_ok(plan),
        plan_full(plan),
        square_ok(x0, y0, plan_size(plan)),
    ensures
        luma_hits(tt_tasks(plan, s, x0, y0), x, y) == if in_plan(plan, x0, y0, x, y) {
            1nat
        } else {
            0
        },
    decreases plan,
{
    match plan {
        TtPlan::Leaf { log2_size, .. } => {
            let luma = seq![luma_task(s, x0, y0, *log2_size)];
            lemma_hits_append(luma, chroma_tasks(s, x0, y0, *log2_size), x, y);
            lemma_chroma_hits(s, x0, y0, *log2_size, x, y);
            reveal_with_fuel(luma_hits, 2);
        },
        TtPlan::Split { log2_size, parent_chroma, kids, .. } => {
            let half = side(*log2_size) / 2;
            lemma_half_side(*log2_size);
            let k = |n: nat| kids_tasks(kids@, s, x0, y0, half, n);
            assert forall|i: int| 0 <= i < 4 implies luma_hits(
                #[trigger] k((i + 1) as nat),
                x,
                y,
            ) == luma_hits(k(i as nat), x, y) + luma_hits(
                tt_tasks(
                    &kids@[i],
                    s,
                    quadrant(x0, y0, half, i).0,
                    quadrant(x0, y0, half, i).1,
                ),
                x,
                y,
            ) by {
                lemma_hits_append(
                    k(i as nat),
                    tt_tasks(
                        &kids@[i],
                        s,
                        quadrant(x0, y0, half, i).0,
                        quadrant(x0, y0, half, i).1,
                    ),
                    x,
                    y,
                );
            }
            assert forall|i: int| 0 <= i < 4 implies luma_hits(
                tt_tasks(
                    &#[trigger] kids@[i],
                    s,
                    quadrant(x0, y0, half, i).0,
                    quadrant(x0, y0, half, i).1,
                ),
                x,
                y,
            ) == if in_plan(
                &kids@[i],
                quadrant(x0, y0, half, i).0,
                quadrant(x0, y0, half, i).1,
                x,
                y,
            ) {
                1nat
            } else {
                0
            } by {
                lemma_quadrant_ok(x0, y0, *log2_size, i);
                law_luma_coded_once(
                    &kids@[i],
                    s,
                    quadrant(x0, y0, half, i).0,
                    quadrant(x0, y0, half, i).1,
                    x,
                    y,
                );
            }
            assert(k(0) == Seq::<BlockTask>::empty());
            assert(luma_hits(k(1), x, y) == luma_hits(k((0int + 1) as nat), x, y));
            assert(luma_hits(k(2), x, y) == luma_hits(k((1int + 1) as nat), x, y));
            assert(luma_hits(k(3), x, y) == luma_hits(k((2int + 1) as nat), x, y));
            assert(luma_hits(k(4), x, y) == luma_hits(k((3int + 1) as nat), x, y));
            assert(0 * half == 0 && 1 * half == half);
            assert(plan_size(&kids@[0]) == *log2_size - 1);
            assert(plan_size(&kids@[1]) == *log2_size - 1);
            assert(plan_size(&kids@[2]) == *log2_size - 1);
            assert(plan_size(&kids@[3]) == *log2_size - 1);
            let parent = parent_tasks(s, x0, y0, *log2_size, *parent_chroma);
            lemma_hits_append(k(4), parent, x, y);
            lemma_chroma_hits(s, x0, y0, *log2_size, x, y);
        },
    }
}

} // verus!
