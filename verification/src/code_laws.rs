//! What holds of the blocks that a transform tree is coded in: where they stand, in which
//! order they come, and where their results go.

use vstd::prelude::*;

use crate::final_code::{
    chroma_tasks, kids_tasks, leaf_codes, leaf_tasks, lemma_quadrant_ok, luma_task, parent_codes,
    parent_tasks, plan_full, plan_ok, plan_size, quadrant, square_ok, tt_tasks, BlockTask,
    CodeSettings,
};
use crate::geometry::side;
use crate::syntax::{CodedBlock, LeafTu, ParentChromaTu, TtPlan};
use crate::write::lemma_half_side;

verus! {

/// Luma is coded first, then Cb before Cr, and upper blocks before lower ones.
pub open spec fn comes_before(a: BlockTask, b: BlockTask) -> bool {
    if a.c_idx == 0 || b.c_idx == 0 {
        a.c_idx == 0 && b.c_idx > 0
    } else if a.y == b.y {
        a.c_idx < b.c_idx
    } else {
        a.y < b.y
    }
}

/// The blocks of a leaf are in order, luma with luma's mode and QP, chroma with chroma's,
/// and the result of each goes to the slot of its component: the second ones of chroma are
/// the lower ones.
pub proof fn law_blocks_reach_their_slots(
    l: LeafTu,
    s: CodeSettings,
    x0: u32,
    y0: u32,
    log2_size: u8,
    trafo_depth: u8,
    blocks: Seq<CodedBlock>,
    i: int,
    j: int,
)
    requires
        2 <= log2_size <= 5,
        s.cat <= 3,
        x0 <= 0x7fff_ffff,
        y0 <= 0x7fff_ffff,
        leaf_codes(&l, s, x0 as int, y0 as int, log2_size, trafo_depth, blocks),
        0 <= i < j < leaf_tasks(s, x0 as int, y0 as int, log2_size).len(),
    ensures
        ({
            let tasks = leaf_tasks(s, x0 as int, y0 as int, log2_size);
            let t = tasks[j];
            let top = if s.cat == 1 {
                y0 / 2
            } else {
                y0
            };
            &&& tasks[0] == (BlockTask {
                x: x0,
                y: y0,
                log2_size,
                c_idx: 0,
                mode: s.luma_mode,
                qp: s.qp_y,
            })
            &&& l.luma == blocks[0]
            &&& comes_before(tasks[i], tasks[j])
            &&& t.c_idx == 1 || t.c_idx == 2
            &&& t.mode == s.chroma_pred && t.qp == s.qp_c && t.log2_size == l.chroma_log2
            &&& t.c_idx == 1 && t.y == top ==> l.cb == blocks[j]
            &&& t.c_idx == 1 && t.y > top ==> l.cb1 == blocks[j]
            &&& t.c_idx == 2 && t.y == top ==> l.cr == blocks[j]
            &&& t.c_idx == 2 && t.y > top ==> l.cr1 == blocks[j]
        }),
{
    vstd::arithmetic::power2::lemma2_to64();
    assert(side(2) == 4 && side(3) == 8 && side(4) == 16 && side(5) == 32);
    let tasks = leaf_tasks(s, x0 as int, y0 as int, log2_size);
    assert(tasks.len() <= 5);
    assert(j == 1 || j == 2 || j == 3 || j == 4);
    assert(i == 0 || i == 1 || i == 2 || i == 3);
}

/// Chroma behind four luma blocks is Cb and then Cr, over the whole of the four.
pub proof fn law_chroma_behind_luma_reaches_its_slots(
    c: ParentChromaTu,
    s: CodeSettings,
    x0: u32,
    y0: u32,
    log2_size: u8,
    planned: Option<u8>,
    blocks: Seq<CodedBlock>,
)
    requires
        parent_codes(&Some(c), s, log2_size, planned, blocks),
    ensures
        ({
            let tasks = parent_tasks(s, x0 as int, y0 as int, log2_size, planned);
            &&& log2_size == 3 && s.cat == 1
            &&& tasks.len() == 2
            &&& tasks[0].c_idx == 1 && c.cb == blocks[0]
            &&& tasks[1].c_idx == 2 && c.cr == blocks[1]
            &&& forall|i: int|
                0 <= i < 2 ==> (#[trigger] tasks[i]).x == x0 / 2 && tasks[i].y == y0 / 2
                    && tasks[i].log2_size == 2 && tasks[i].mode == s.chroma_pred && tasks[i].qp
                    == s.qp_c
            &&& c.log2_size == 2 && c.chroma_mode == s.chroma_mode
        }),
{
}

/// How many blocks of a component cover a sample of its plane.
pub open spec fn hits(tasks: Seq<BlockTask>, c: u8, x: int, y: int) -> nat
    decreases tasks.len(),
{
    if tasks.len() == 0 {
        0
    } else {
        let t = tasks.last();
        hits(tasks.drop_last(), c, x, y) + if t.c_idx == c && t.x <= x < t.x + side(t.log2_size)
            && t.y <= y < t.y + side(t.log2_size) {
            1nat
        } else {
            0
        }
    }
}

proof fn lemma_hits_join(a: Seq<BlockTask>, b: Seq<BlockTask>, c: u8, x: int, y: int)
    ensures
        hits(a + b, c, x, y) == hits(a, c, x, y) + hits(b, c, x, y),
    decreases b.len(),
{
    if b.len() == 0 {
        assert(a + b =~= a);
    } else {
        assert((a + b).drop_last() =~= a + b.drop_last());
        lemma_hits_join(a, b.drop_last(), c, x, y);
    }
}

/// A sample of a chroma plane belongs to a square of luma: chroma is half as wide unless
/// it is full, and half as high in 4:2:0 alone.
pub open spec fn chroma_of(cat: u8, x0: int, y0: int, size: int, x: int, y: int) -> bool {
    &&& if cat == 3 {
        x0 <= x < x0 + size
    } else {
        x0 <= 2 * x < x0 + size
    }
    &&& if cat == 1 {
        y0 <= 2 * y < y0 + size
    } else {
        y0 <= y < y0 + size
    }
}

/// Transform blocks are 4x4 at least, and the chroma of 8x8 blocks that are split is
/// planned: subsampled chroma stays with the node in 4:2:0, and 4:2:2 does not split them.
pub open spec fn chroma_planned(plan: &TtPlan, cat: u8) -> bool
    decreases plan,
{
    match plan {
        TtPlan::Leaf { log2_size, .. } => *log2_size >= 2,
        TtPlan::Split { log2_size, parent_chroma, kids, .. } => {
            &&& *log2_size >= 3
            &&& *log2_size == 3 ==> cat == 3 || (cat == 1 && parent_chroma is Some)
            &&& forall|i: int|
                0 <= i < kids@.len() ==> chroma_planned(&#[trigger] kids@[i], cat)
        },
    }
}

proof fn lemma_leaf_chroma(
    s: CodeSettings,
    x0: int,
    y0: int,
    log2_size: u8,
    c: u8,
    x: int,
    y: int,
)
    requires
        2 <= log2_size <= 5,
        1 <= s.cat <= 3,
        square_ok(x0, y0, log2_size),
        x0 % 2 == 0,
        y0 % 2 == 0,
        c == 1 || c == 2,
    ensures
        hits(chroma_tasks(s, x0, y0, log2_size), c, x, y) == if chroma_of(
            s.cat,
            x0,
            y0,
            side(log2_size),
            x,
            y,
        ) && (s.cat == 3 || log2_size >= 3) {
            1nat
        } else {
            0
        },
{
    vstd::arithmetic::power2::lemma2_to64();
    assert(side(2) == 4 && side(3) == 8 && side(4) == 16 && side(5) == 32);
    let tasks = chroma_tasks(s, x0, y0, log2_size);
    reveal_with_fuel(hits, 5);
    if tasks.len() == 4 {
        let d = tasks.drop_last();
        assert(d.last() == tasks[2]);
        assert(d.drop_last().last() == tasks[1]);
        assert(d.drop_last().drop_last().last() == tasks[0]);
    } else if tasks.len() == 2 {
        assert(tasks.drop_last().last() == tasks[0]);
    }
}

/// The blocks of a tree tile its chroma too: each sample of Cb and of Cr that belongs to
/// its square is coded exactly once, and none outside.
pub proof fn law_chroma_coded_once(
    plan: &TtPlan,
    s: CodeSettings,
    x0: int,
    y0: int,
    c: u8,
    x: int,
    y: int,
)
    requires
        plan_ok(plan),
        plan_full(plan),
        chroma_planned(plan, s.cat),
        square_ok(x0, y0, plan_size(plan)),
        1 <= s.cat <= 3,
        x0 % 2 == 0,
        y0 % 2 == 0,
        c == 1 || c == 2,
    ensures
        hits(tt_tasks(plan, s, x0, y0), c, x, y) == if chroma_of(
            s.cat,
            x0,
            y0,
            side(plan_size(plan)),
            x,
            y,
        ) && (s.cat == 3 || plan_size(plan) >= 3) {
            1nat
        } else {
            0
        },
    decreases plan,
{
    match plan {
        TtPlan::Leaf { log2_size, .. } => {
            let luma = seq![luma_task(s, x0, y0, *log2_size)];
            lemma_hits_join(luma, chroma_tasks(s, x0, y0, *log2_size), c, x, y);
            lemma_leaf_chroma(s, x0, y0, *log2_size, c, x, y);
            reveal_with_fuel(hits, 2);
        },
        TtPlan::Split { log2_size, parent_chroma, kids, .. } => {
            let half = side(*log2_size) / 2;
            lemma_half_side(*log2_size);
            lemma_half_side((*log2_size - 1) as u8);
            assert(half % 2 == 0);
            let k = |n: nat| kids_tasks(kids@, s, x0, y0, half, n);
            assert(0 * half == 0 && 1 * half == half);
            assert forall|i: int| 0 <= i < 4 implies hits(
                #[trigger] k((i + 1) as nat),
                c,
                x,
                y,
            ) == hits(k(i as nat), c, x, y) + if chroma_of(
                s.cat,
                quadrant(x0, y0, half, i).0,
                quadrant(x0, y0, half, i).1,
                half,
                x,
                y,
            ) && (s.cat == 3 || *log2_size > 3) {
                1nat
            } else {
                0
            } by {
                let (kx, ky) = quadrant(x0, y0, half, i);
                lemma_quadrant_ok(x0, y0, *log2_size, i);
                assert(i % 2 == 0 || i % 2 == 1);
                assert(i / 2 == 0 || i / 2 == 1);
                assert(plan_size(&kids@[i]) == *log2_size - 1);
                assert(chroma_planned(&kids@[i], s.cat));
                law_chroma_coded_once(&kids@[i], s, kx, ky, c, x, y);
                lemma_hits_join(k(i as nat), tt_tasks(&kids@[i], s, kx, ky), c, x, y);
            }
            assert(k(0) == Seq::<BlockTask>::empty());
            assert(hits(k(1), c, x, y) == hits(k((0int + 1) as nat), c, x, y));
            assert(hits(k(2), c, x, y) == hits(k((1int + 1) as nat), c, x, y));
            assert(hits(k(3), c, x, y) == hits(k((2int + 1) as nat), c, x, y));
            assert(hits(k(4), c, x, y) == hits(k((3int + 1) as nat), c, x, y));
            let parent = parent_tasks(s, x0, y0, *log2_size, *parent_chroma);
            lemma_hits_join(k(4), parent, c, x, y);
            if *log2_size == 3 && s.cat == 1 {
                lemma_leaf_chroma(s, x0, y0, *log2_size, c, x, y);
            }
        },
    }
}

} // verus!
