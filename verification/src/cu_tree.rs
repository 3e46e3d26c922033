//! Coding the transform tree of a coding unit into the frame.

use vstd::prelude::*;

use crate::block_eval::{block_rect, commit_block, task_ok};
use crate::budget::BlockSearchBudget;
use crate::contexts::Contexts;
use crate::cost_bound::{
    block_small, kids_nodes, leaf_small, node_cap, parent_small, tt_nodes, tt_small, tt_whole,
};
use crate::final_code::{
    chroma_tasks, has_parent_chroma, kid_blocks, kids_code, kids_tasks, leaf_tasks,
    lemma_quadrant_ok, parent_codes, parent_tasks, plan_full, plan_ok, plan_size,
    push_chroma_tasks, push_tt_tasks, quadrant, square_ok, take_tt, tt_codes, tt_tasks, BlockTask, CodeSettings,
};
use crate::frame::Frame;
use crate::geometry::{block_side, side, MAX_TB_LOG2};
use crate::items::tt_depths_ok;
use crate::maps::{fill_map, fill_region, lemma_filled};
use crate::policy::EvalKind;
use crate::queue::Queue;
use crate::region::rect_pasted;
use crate::search_state::{worked, SearchState};
use crate::source::block_in_plane;
use crate::stats::EncodeStats;
use crate::syntax::{tt_plan_of, tt_to_plan, CodedBlock, ParentChromaTu, Tt, TtPlan};
use crate::trial_region::TrialReconRegion;
use crate::tu_search::{
    codes_of, env_ok, lemma_shaped_plan, outcome_ok, search_tt, tt_shaped, tt_tried, BlockOutcome,
    TtEnv, TtTrial,
};
use crate::write::lemma_half_side;

verus! {

/// A square of luma and its chroma lie in the planes.
pub open spec fn square_in_planes(frame: &Frame, cat: u8, x0: int, y0: int, log2_size: u8) -> bool {
    let (x1, y1) = (x0 + side(log2_size), y0 + side(log2_size));
    let (luma, cb, cr) = (frame.planes@[0], frame.planes@[1], frame.planes@[2]);
    &&& x1 <= luma.width && y1 <= luma.height
    &&& cat == 1 || cat == 2 ==> x1 <= 2 * cb.width && x1 <= 2 * cr.width
    &&& cat == 1 ==> y1 <= 2 * cb.height && y1 <= 2 * cr.height
    &&& cat == 2 ==> y1 <= cb.height && y1 <= cr.height
    &&& cat == 3 ==> x1 <= cb.width && x1 <= cr.width && y1 <= cb.height && y1 <= cr.height
}

/// Blocks lie in the planes.
pub open spec fn tasks_in_frame(frame: &Frame, tasks: Seq<BlockTask>) -> bool {
    forall|i: int|
        0 <= i < tasks.len() ==> {
            &&& task_ok(#[trigger] tasks[i])
            &&& block_in_plane(
                frame,
                tasks[i].c_idx,
                tasks[i].x as int,
                tasks[i].y as int,
                tasks[i].log2_size,
            )
        }
}

proof fn lemma_in_frame_append(frame: &Frame, a: Seq<BlockTask>, b: Seq<BlockTask>)
    requires
        tasks_in_frame(frame, a),
        tasks_in_frame(frame, b),
    ensures
        tasks_in_frame(frame, a + b),
{
    let all = a + b;
    assert forall|i: int| 0 <= i < all.len() implies ({
        &&& task_ok(#[trigger] all[i])
        &&& block_in_plane(
            frame,
            all[i].c_idx,
            all[i].x as int,
            all[i].y as int,
            all[i].log2_size,
        )
    }) by {
        if i < a.len() {
            assert(all[i] == a[i]);
        } else {
            assert(all[i] == b[i - a.len()]);
        }
    }
}

proof fn lemma_leaf_in_frame(frame: &Frame, s: CodeSettings, x0: int, y0: int, log2_size: u8)
    requires
        log2_size <= MAX_TB_LOG2,
        square_ok(x0, y0, log2_size),
        square_in_planes(frame, s.cat, x0, y0, log2_size),
    ensures
        tasks_in_frame(frame, leaf_tasks(s, x0, y0, log2_size)),
        tasks_in_frame(frame, chroma_tasks(s, x0, y0, log2_size)),
{
    if log2_size > 0 {
        lemma_half_side(log2_size);
    }
    vstd::arithmetic::power2::lemma_pow2_pos(log2_size as nat);
    let c = chroma_tasks(s, x0, y0, log2_size);
    assert(tasks_in_frame(frame, c)) by {
        assert forall|i: int| 0 <= i < c.len() implies ({
            &&& task_ok(#[trigger] c[i])
            &&& block_in_plane(frame, c[i].c_idx, c[i].x as int, c[i].y as int, c[i].log2_size)
        }) by {
            assert(i == 0 || i == 1 || i == 2 || i == 3);
        }
    }
    let l = seq![crate::final_code::luma_task(s, x0, y0, log2_size)];
    assert(tasks_in_frame(frame, l));
    lemma_in_frame_append(frame, l, c);
}

proof fn lemma_tree_in_frame(
    frame: &Frame,
    plan: &TtPlan,
    s: CodeSettings,
    x0: int,
    y0: int,
)
    requires
        plan_ok(plan),
        plan_size(plan) <= 14,
        square_ok(x0, y0, plan_size(plan)),
        square_in_planes(frame, s.cat, x0, y0, plan_size(plan)),
    ensures
        tasks_in_frame(frame, tt_tasks(plan, s, x0, y0)),
    decreases plan, 0nat,
{
    match plan {
        TtPlan::Leaf { log2_size, .. } => {
            lemma_leaf_in_frame(frame, s, x0, y0, *log2_size);
        },
        TtPlan::Split { log2_size, parent_chroma, kids, .. } => {
            let half = side(*log2_size) / 2;
            lemma_kids_in_frame(frame, kids@, s, x0, y0, *log2_size, kids@.len());
            if *log2_size == 3 {
                lemma_leaf_in_frame(frame, s, x0, y0, *log2_size);
            }
            let parent = parent_tasks(s, x0, y0, *log2_size, *parent_chroma);
            assert(tasks_in_frame(frame, parent));
            lemma_in_frame_append(
                frame,
                kids_tasks(kids@, s, x0, y0, half, kids@.len()),
                parent,
            );
        },
    }
}

proof fn lemma_kids_in_frame(
    frame: &Frame,
    kids: Seq<TtPlan>,
    s: CodeSettings,
    x0: int,
    y0: int,
    log2_size: u8,
    n: nat,
)
    requires
        0 < log2_size <= 14,
        n <= kids.len() <= 4,
        forall|i: int|
            0 <= i < kids.len() ==> plan_ok(&#[trigger] kids[i]) && plan_size(&kids[i])
                == log2_size - 1,
        square_ok(x0, y0, log2_size),
        square_in_planes(frame, s.cat, x0, y0, log2_size),
    ensures
        tasks_in_frame(frame, kids_tasks(kids, s, x0, y0, side(log2_size) / 2, n)),
    decreases kids, n,
{
    if n > 0 {
        let half = side(log2_size) / 2;
        lemma_kids_in_frame(frame, kids, s, x0, y0, log2_size, (n - 1) as nat);
        let (kx, ky) = quadrant(x0, y0, half, n - 1);
        assert(plan_ok(&kids[n - 1]) && plan_size(&kids[n - 1]) == log2_size - 1);
        lemma_quadrant_ok(x0, y0, log2_size, n - 1);
        lemma_half_side(log2_size);
        assert(0 * half == 0 && 1 * half == half);
        assert((n - 1) % 2 == 0 || (n - 1) % 2 == 1);
        assert((n - 1) / 2 == 0 || (n - 1) / 2 == 1);
        assert(square_in_planes(frame, s.cat, kx, ky, (log2_size - 1) as u8));
        lemma_tree_in_frame(frame, &kids[n - 1], s, kx, ky);
        lemma_in_frame_append(
            frame,
            kids_tasks(kids, s, x0, y0, half, (n - 1) as nat),
            tt_tasks(&kids[n - 1], s, kx, ky),
        );
    }
}

/// A state with a block's samples in the frame and its work counted.
pub open spec fn committed(
    before: SearchState,
    after: SearchState,
    t: BlockTask,
    samples: Seq<u16>,
    work: EncodeStats,
) -> bool {
    &&& after == (SearchState { frame: after.frame, ..worked(before, work) })
    &&& after.frame.well_formed()
    &&& after.frame.same_shape(&before.frame)
    &&& after.frame.planes@[t.c_idx as int].data@ == rect_pasted(
        before.frame.planes@[t.c_idx as int].data@,
        before.frame.planes@[t.c_idx as int].stride as int,
        block_rect(t.x, t.y, t.log2_size),
        samples,
    )
    &&& forall|c: int|
        0 <= c < 3 && c != t.c_idx ==> #[trigger] after.frame.planes@[c] == before.frame.planes@[c]
}

/// Names a state between two blocks.
pub open spec fn on_the_way(s: SearchState) -> bool {
    true
}

/// Blocks coded into the frame one after the other.
pub open spec fn frame_coded<F>(
    code: F,
    tasks: Seq<BlockTask>,
    before: SearchState,
    after: SearchState,
    outs: Seq<BlockOutcome>,
) -> bool where F: Fn(&SearchState, BlockTask) -> BlockOutcome
    decreases tasks.len(),
{
    &&& outs.len() == tasks.len()
    &&& if tasks.len() == 0 {
        after == before
    } else {
        exists|mid: SearchState|
            {
                &&& #[trigger] on_the_way(mid)
                &&& frame_coded(code, tasks.drop_last(), before, mid, outs.drop_last())
                &&& call_ensures(code, (&mid, tasks.last()), outs.last())
                &&& committed(mid, after, tasks.last(), outs.last().samples@, outs.last().work)
            }
    }
}

/// A block can be coded into a state's frame.
pub open spec fn codable(s: &SearchState, t: BlockTask) -> bool {
    &&& s.frame.well_formed()
    &&& task_ok(t)
    &&& block_in_plane(&s.frame, t.c_idx, t.x as int, t.y as int, t.log2_size)
}

/// The caller codes every block that lies in a frame, at the size asked for.
pub open spec fn code_ok<F>(code: F) -> bool where F: Fn(&SearchState, BlockTask) -> BlockOutcome {
    &&& forall|s: &SearchState, t: BlockTask|
        codable(s, t) ==> #[trigger] call_requires(code, (s, t))
    &&& forall|s: &SearchState, t: BlockTask, o: BlockOutcome| #[trigger]
        call_ensures(code, (s, t), o) && codable(s, t) ==> outcome_ok(t, o)
}

fn code_into_frame<F>(code: &F, tasks: &Vec<BlockTask>, state: SearchState) -> (r: (
    SearchState,
    Vec<CodedBlock>,
    Ghost<Seq<BlockOutcome>>,
)) where F: Fn(&SearchState, BlockTask) -> BlockOutcome
    requires
        code_ok(*code),
        state.frame.well_formed(),
        tasks_in_frame(&state.frame, tasks@),
    ensures
        frame_coded(*code, tasks@, state, r.0, r.2@),
        r.1@ == codes_of(r.2@),
        forall|i: int| 0 <= i < r.1@.len() ==> block_small(&#[trigger] r.1@[i]),
        r.0 == (SearchState { frame: r.0.frame, stats: r.0.stats, ..state }),
        r.0.frame.well_formed(),
        r.0.frame.same_shape(&state.frame),
{
    let ghost start = state;
    let mut state = state;
    let mut blocks: Vec<CodedBlock> = Vec::new();
    let ghost mut outs: Seq<BlockOutcome> = Seq::empty();
    let n: usize = tasks.len();
    assert(tasks@.take(0) =~= Seq::empty());
    for i in 0..n
        invariant
            n == tasks@.len(),
            code_ok(*code),
            state.frame.well_formed(),
            state.frame.same_shape(&start.frame),
            state == (SearchState { frame: state.frame, stats: state.stats, ..start }),
            tasks_in_frame(&start.frame, tasks@),
            frame_coded(*code, tasks@.take(i as int), start, state, outs),
            outs.len() == i,
            blocks@ == codes_of(outs),
            forall|k: int| 0 <= k < blocks@.len() ==> block_small(&#[trigger] blocks@[k]),
    {
        let t = tasks[i];
        let ghost mid = state;
        let ghost before = outs;
        proof {
            assert(tasks@[i as int] == t);
            assert(mid.frame.planes@[t.c_idx as int].width
                == start.frame.planes@[t.c_idx as int].width);
            assert(codable(&mid, t));
        }
        let o = (*code)(&state, t);
        assert(call_ensures(*code, (&mid, t), o));
        commit_block(&mut state.frame, t.c_idx, t.x, t.y, t.log2_size, &o.samples);
        state.stats = state.stats.joined(o.work);
        proof {
            let all = tasks@.take(i + 1);
            assert(all.drop_last() =~= tasks@.take(i as int));
            assert(all.last() == t);
            outs = before.push(o);
            assert(outs.drop_last() =~= before);
            assert(on_the_way(mid));
            assert(committed(mid, state, t, o.samples@, o.work));
            assert(frame_coded(*code, all, start, state, outs));
            assert(codes_of(outs) =~= blocks@.push(o.coded));
            assert(state.frame.same_shape(&start.frame)) by {
                assert forall|c: int| 0 <= c < state.frame.planes@.len() implies ({
                    &&& (#[trigger] state.frame.planes@[c]).width == start.frame.planes@[c].width
                    &&& state.frame.planes@[c].height == start.frame.planes@[c].height
                    &&& state.frame.planes@[c].stride == start.frame.planes@[c].stride
                    &&& state.frame.planes@[c].data@.len() == start.frame.planes@[c].data@.len()
                }) by {
                    assert(mid.frame.planes@[c].width == start.frame.planes@[c].width);
                }
            }
        }
        blocks.push(o.coded);
    }
    assert(tasks@.take(n as int) =~= tasks@);
    (state, blocks, Ghost(outs))
}

/// The depths of a plan have contexts of their own.
pub open spec fn plan_depths_ok(plan: &TtPlan) -> bool
    decreases plan,
{
    match plan {
        TtPlan::Leaf { trafo_depth, .. } => *trafo_depth < 5,
        TtPlan::Split { trafo_depth, kids, .. } => *trafo_depth < 5 && forall|i: int|
            0 <= i < kids@.len() ==> plan_depths_ok(&#[trigger] kids@[i]),
    }
}

/// A plan of a square of a size that can be coded.
pub open spec fn plan_whole(plan: &TtPlan, log2_size: u8) -> bool {
    &&& plan_ok(plan)
    &&& plan_full(plan)
    &&& plan_size(plan) == log2_size
    &&& plan_depths_ok(plan)
}

/// The plan of a whole tree is whole.
pub proof fn lemma_plan_whole(plan: &TtPlan, tt: &Tt, log2_size: u8)
    requires
        tt_plan_of(plan, tt),
        tt_shaped(tt, log2_size),
        tt_depths_ok(tt),
        log2_size < 31,
    ensures
        plan_whole(plan, log2_size),
    decreases tt,
{
    lemma_shaped_plan(plan, tt, log2_size);
    match tt {
        Tt::Leaf(_) => {},
        Tt::Split { kids, .. } => {
            match plan {
                TtPlan::Split { kids: pk, .. } => {
                    assert forall|i: int| 0 <= i < pk@.len() implies plan_depths_ok(
                        &#[trigger] pk@[i],
                    ) by {
                        assert(tt_plan_of(&pk@[i], &kids@[i]));
                        assert(tt_shaped(&kids@[i], (log2_size - 1) as u8));
                        assert(tt_depths_ok(&kids@[i]));
                        lemma_plan_whole(&pk@[i], &kids@[i], (log2_size - 1) as u8);
                    }
                },
                TtPlan::Leaf { .. } => {},
            }
        },
    }
}

/// A tree of four quadrants per split has no more nodes than its size allows.
pub proof fn lemma_shaped_nodes(tt: &Tt, log2_size: u8)
    requires
        tt_shaped(tt, log2_size),
    ensures
        tt_nodes(tt) <= node_cap(log2_size as nat),
    decreases tt,
{
    match tt {
        Tt::Leaf(_) => {},
        Tt::Split { kids, .. } => {
            reveal_with_fuel(kids_nodes, 5);
            assert forall|i: int| 0 <= i < 4 implies tt_nodes(&#[trigger] kids@[i]) <= node_cap(
                (log2_size - 1) as nat,
            ) by {
                assert(tt_shaped(&kids@[i], (log2_size - 1) as u8));
                lemma_shaped_nodes(&kids@[i], (log2_size - 1) as u8);
            }
            let k0 = tt_nodes(&kids@[0]);
            let k1 = tt_nodes(&kids@[1]);
            let k2 = tt_nodes(&kids@[2]);
            let k3 = tt_nodes(&kids@[3]);
            assert(kids_nodes(kids@, 4) == k0 + k1 + k2 + k3);
        },
    }
}

/// All blocks are small.
pub open spec fn all_small(blocks: Seq<CodedBlock>) -> bool {
    forall|i: int| 0 <= i < blocks.len() ==> block_small(&#[trigger] blocks[i])
}

/// A tree that was made of small blocks to a whole plan is whole.
proof fn lemma_codes_whole(
    tt: &Tt,
    plan: &TtPlan,
    s: CodeSettings,
    x0: int,
    y0: int,
    blocks: Seq<CodedBlock>,
    log2_size: u8,
)
    requires
        tt_codes(tt, plan, s, x0, y0, blocks),
        plan_whole(plan, log2_size),
        all_small(blocks),
        blocks.len() >= tt_tasks(plan, s, x0, y0).len(),
    ensures
        tt_shaped(tt, log2_size),
        tt_depths_ok(tt),
        tt_small(tt),
    decreases plan, 0nat,
{
    match plan {
        TtPlan::Leaf { .. } => {
            assert(leaf_tasks(s, x0, y0, log2_size).len() <= blocks.len());
            match tt {
                Tt::Leaf(l) => {
                    assert(leaf_small(l));
                },
                Tt::Split { .. } => {},
            }
        },
        TtPlan::Split { parent_chroma, kids, .. } => {
            let half = side(log2_size) / 2;
            let all = kids_tasks(kids@, s, x0, y0, half, kids@.len());
            let rest = blocks.skip(all.len() as int);
            match tt {
                Tt::Split { kids: coded, parent_chroma: pc, .. } => {
                    lemma_kids_whole(
                        coded@,
                        kids@,
                        s,
                        x0,
                        y0,
                        half,
                        kids@.len(),
                        blocks,
                        (log2_size - 1) as u8,
                    );
                    assert(parent_small(pc)) by {
                        if has_parent_chroma(s.cat, log2_size, *parent_chroma) {
                            assert(parent_tasks(s, x0, y0, log2_size, *parent_chroma).len() >= 2);
                            assert(rest[0] == blocks[all.len() as int]);
                            assert(rest[1] == blocks[all.len() as int + 1]);
                        }
                    }
                    assert forall|i: int| 0 <= i < coded@.len() implies tt_shaped(
                        &#[trigger] coded@[i],
                        (log2_size - 1) as u8,
                    ) && tt_depths_ok(&coded@[i]) && tt_small(&coded@[i]) by {
                        assert(kids_whole(coded@, kids@.len(), (log2_size - 1) as u8));
                    }
                },
                Tt::Leaf(_) => {},
            }
        },
    }
}

spec fn kids_whole(coded: Seq<Tt>, n: nat, log2_size: u8) -> bool {
    forall|i: int|
        0 <= i < n ==> tt_shaped(&#[trigger] coded[i], log2_size) && tt_depths_ok(&coded[i])
            && tt_small(&coded[i])
}

proof fn lemma_kids_whole(
    coded: Seq<Tt>,
    kids: Seq<TtPlan>,
    s: CodeSettings,
    x0: int,
    y0: int,
    half: int,
    n: nat,
    blocks: Seq<CodedBlock>,
    log2_size: u8,
)
    requires
        n <= kids.len(),
        n <= coded.len(),
        kids_code(coded, kids, s, x0, y0, half, n, blocks),
        forall|i: int| 0 <= i < kids.len() ==> plan_whole(&#[trigger] kids[i], log2_size),
        all_small(blocks),
        blocks.len() >= kids_tasks(kids, s, x0, y0, half, n).len(),
    ensures
        kids_whole(coded, n, log2_size),
    decreases kids, n,
{
    if n > 0 {
        let i = n - 1;
        let off = kids_tasks(kids, s, x0, y0, half, i as nat).len() as int;
        let (kx, ky) = quadrant(x0, y0, half, i);
        let part = kid_blocks(kids, s, x0, y0, half, i, blocks);
        let len = tt_tasks(&kids[i], s, kx, ky).len() as int;
        assert(kids_tasks(kids, s, x0, y0, half, n).len() == off + len);
        lemma_kids_whole(coded, kids, s, x0, y0, half, i as nat, blocks, log2_size);
        assert(part.len() == len);
        assert forall|k: int| 0 <= k < part.len() implies block_small(&#[trigger] part[k]) by {
            assert(part[k] == blocks[off + k]);
        }
        assert(plan_whole(&kids[i], log2_size));
        lemma_codes_whole(&coded[i], &kids[i], s, kx, ky, part, log2_size);
    }
}

/// Names the outcomes of a tree's blocks.
pub open spec fn tree_outcomes(outs: Seq<BlockOutcome>) -> bool {
    true
}

/// A tree of a given shape was coded into the frame.
pub open spec fn tree_coded<F>(
    code: F,
    plan: TtPlan,
    s: CodeSettings,
    x0: int,
    y0: int,
    before: SearchState,
    after: SearchState,
    tt: Tt,
) -> bool where F: Fn(&SearchState, BlockTask) -> BlockOutcome {
    exists|outs: Seq<BlockOutcome>|
        {
            &&& #[trigger] tree_outcomes(outs)
            &&& frame_coded(code, tt_tasks(&plan, s, x0, y0), before, after, outs)
            &&& tt_codes(&tt, &plan, s, x0, y0, codes_of(outs))
        }
}

/// Codes a tree of a given shape into the frame.
pub fn code_tree<F>(
    code: &F,
    plan: &TtPlan,
    s: CodeSettings,
    x0: u32,
    y0: u32,
    state: SearchState,
) -> (r: (SearchState, Tt)) where F: Fn(&SearchState, BlockTask) -> BlockOutcome
    requires
        code_ok(*code),
        plan_ok(plan),
        plan_size(plan) <= 14,
        square_ok(x0 as int, y0 as int, plan_size(plan)),
        square_in_planes(&state.frame, s.cat, x0 as int, y0 as int, plan_size(plan)),
        state.frame.well_formed(),
    ensures
        tree_coded(*code, *plan, s, x0 as int, y0 as int, state, r.0, r.1),
        plan_whole(plan, plan_size(plan)) ==> tt_whole(&r.1, plan_size(plan)),
        r.0 == (SearchState { frame: r.0.frame, stats: r.0.stats, ..state }),
        r.0.frame.well_formed(),
        r.0.frame.same_shape(&state.frame),
{
    let mut tasks: Vec<BlockTask> = Vec::new();
    push_tt_tasks(&mut tasks, plan, s, x0, y0);
    proof {
        lemma_tree_in_frame(&state.frame, plan, s, x0 as int, y0 as int);
        assert(tasks@ =~= tt_tasks(plan, s, x0 as int, y0 as int));
    }
    let (after, blocks, outs) = code_into_frame(code, &tasks, state);
    let mut queue = Queue::new(blocks);
    let ghost all = codes_of(outs@);
    let tt = take_tt(plan, s, x0, y0, &mut queue);
    proof {
        assert(all.take(tasks@.len() as int) =~= all);
        assert(tree_outcomes(outs@));
        if plan_whole(plan, plan_size(plan)) {
            lemma_codes_whole(
                &tt,
                plan,
                s,
                x0 as int,
                y0 as int,
                codes_of(outs@),
                plan_size(plan),
            );
            lemma_shaped_nodes(&tt, plan_size(plan));
        }
    }
    (after, tt)
}

/// The chroma that goes with four 4x4 luma blocks was coded into the frame, where the
/// chroma format has it.
pub open spec fn parent_coded<F>(
    code: F,
    s: CodeSettings,
    x0: int,
    y0: int,
    before: SearchState,
    after: SearchState,
    pc: Option<ParentChromaTu>,
) -> bool where F: Fn(&SearchState, BlockTask) -> BlockOutcome {
    exists|outs: Seq<BlockOutcome>|
        {
            &&& #[trigger] tree_outcomes(outs)
            &&& frame_coded(code, parent_tasks(s, x0, y0, 3, Some(2u8)), before, after, outs)
            &&& parent_codes(&pc, s, 3, Some(2u8), codes_of(outs))
        }
}

/// Codes the chroma that goes with four 4x4 luma blocks.
pub fn code_parent<F>(code: &F, s: CodeSettings, x0: u32, y0: u32, state: SearchState) -> (r: (
    SearchState,
    Option<ParentChromaTu>,
)) where F: Fn(&SearchState, BlockTask) -> BlockOutcome
    requires
        code_ok(*code),
        square_ok(x0 as int, y0 as int, 3),
        square_in_planes(&state.frame, s.cat, x0 as int, y0 as int, 3),
        state.frame.well_formed(),
    ensures
        parent_coded(*code, s, x0 as int, y0 as int, state, r.0, r.1),
        parent_small(&r.1),
        r.0 == (SearchState { frame: r.0.frame, stats: r.0.stats, ..state }),
        r.0.frame.well_formed(),
        r.0.frame.same_shape(&state.frame),
{
    let ghost planned = parent_tasks(s, x0 as int, y0 as int, 3, Some(2u8));
    let mut tasks: Vec<BlockTask> = Vec::new();
    if s.cat == 1 {
        push_chroma_tasks(&mut tasks, s, x0, y0, 3);
    }
    proof {
        assert(tasks@ =~= planned);
        lemma_leaf_in_frame(&state.frame, s, x0 as int, y0 as int, 3);
    }
    let (after, blocks, outs) = code_into_frame(code, &tasks, state);
    assert(tree_outcomes(outs@));
    if s.cat != 1 {
        return (after, None);
    }
    let ghost all = blocks@;
    let mut queue = Queue::new(blocks);
    let cb = queue.take();
    let cr = queue.take();
    assert(all[0] == cb && all[1] == cr);
    (after, Some(ParentChromaTu { log2_size: 2, chroma_mode: s.chroma_mode, cb, cr }))
}

/// A map of transform depths with those of a tree's leaves, each over the cells that it
/// covers.
pub open spec fn depths_noted(tt: &Tt, map: Seq<u8>, stride: int, x0: int, y0: int) -> Seq<u8>
    decreases tt, 0nat,
{
    match tt {
        Tt::Leaf(l) => fill_map(map, stride, x0 / 4, y0 / 4, side(tt.size()) / 4, l.trafo_depth),
        Tt::Split { kids, .. } => kids_depths_noted(
            kids@,
            map,
            stride,
            x0,
            y0,
            side(tt.size()) / 2,
            kids@.len(),
        ),
    }
}

/// A map of transform depths with those of the first `n` quadrants.
pub open spec fn kids_depths_noted(
    kids: Seq<Tt>,
    map: Seq<u8>,
    stride: int,
    x0: int,
    y0: int,
    half: int,
    n: nat,
) -> Seq<u8>
    decreases kids, n,
{
    if n == 0 || n > kids.len() {
        map
    } else {
        let (kx, ky) = quadrant(x0, y0, half, n - 1);
        depths_noted(
            &kids[n - 1],
            kids_depths_noted(kids, map, stride, x0, y0, half, (n - 1) as nat),
            stride,
            kx,
            ky,
        )
    }
}

/// Notes the transform depths of a tree.
pub fn note_tu_depths(map: &mut Vec<u8>, stride: usize, tt: &Tt, x0: u32, y0: u32, log2_size: u8)
    requires
        tt_shaped(tt, log2_size),
        log2_size <= 6,
        square_ok(x0 as int, y0 as int, log2_size),
    ensures
        final(map)@ == depths_noted(tt, old(map)@, stride as int, x0 as int, y0 as int),
        final(map)@.len() == old(map)@.len(),
    decreases tt,
{
    let ghost before = map@;
    let ghost (xi, yi, st) = (x0 as int, y0 as int, stride as int);
    match tt {
        Tt::Leaf(l) => {
            let cells: u32 = block_side(log2_size) / 4;
            fill_region(map, stride, x0 / 4, y0 / 4, cells, l.trafo_depth);
            proof {
                lemma_filled(before, map@, st, xi / 4, yi / 4, cells as int, l.trafo_depth);
            }
        },
        Tt::Split { kids, .. } => {
            let half: u32 = block_side(log2_size) / 2;
            let ghost h = side(log2_size) / 2;
            for i in 0..4usize
                invariant
                    kids@.len() == 4,
                    0 < log2_size <= 6,
                    tt is Split,
                    *kids == tt->kids,
                    forall|k: int|
                        0 <= k < kids@.len() ==> tt_shaped(
                            &#[trigger] kids@[k],
                            (log2_size - 1) as u8,
                        ),
                    square_ok(xi, yi, log2_size),
                    xi == x0,
                    yi == y0,
                    st == stride,
                    half == h,
                    h == side(log2_size) / 2,
                    map@.len() == before.len(),
                    map@ == kids_depths_noted(kids@, before, st, xi, yi, h, i as nat),
            {
                proof {
                    lemma_quadrant_ok(xi, yi, log2_size, i as int);
                    assert(0 * h == 0 && 1 * h == h);
                    assert(tt_shaped(&kids@[i as int], (log2_size - 1) as u8));
                    assert(decreases_to!(tt => kids@[i as int]));
                }
                let kx: u32 = if i % 2 == 1 {
                    x0 + half
                } else {
                    x0
                };
                let ky: u32 = if i / 2 == 1 {
                    y0 + half
                } else {
                    y0
                };
                note_tu_depths(map, stride, &kids[i], kx, ky, log2_size - 1);
            }
        },
    }
}

/// Names the trial that a tree's shape was taken from, and the state it was coded into.
pub open spec fn screening(
    trial: TtTrial,
    region: TrialReconRegion,
    plan: TtPlan,
    coded: SearchState,
) -> bool {
    true
}

/// A tree was searched on a private region, the winner's shape coded into the frame, and
/// its transform depths noted.
pub open spec fn tree_built<C, P, L, B, F>(
    code: C,
    price: P,
    limited: L,
    budget: B,
    final_code: F,
    ctxs: Seq<int>,
    s: CodeSettings,
    x0: u32,
    y0: u32,
    log2_size: u8,
    before: SearchState,
    after: SearchState,
    tt: Tt,
) -> bool where
    C: Fn(&SearchState, &TrialReconRegion, BlockTask, EvalKind) -> BlockOutcome,
    P: Fn(u64, u64) -> u64,
    L: Fn(&SearchState, u32, u32, u8, &Tt) -> bool,
    B: Fn(&SearchState, u32, u32, u8) -> BlockSearchBudget,
    F: Fn(&SearchState, BlockTask) -> BlockOutcome,
 {
    exists|trial: TtTrial, region: TrialReconRegion, plan: TtPlan, coded: SearchState|
        {
            let env = TtEnv { world: &before, code, price, limited, budget };
            &&& #[trigger] screening(trial, region, plan, coded)
            &&& region.area.copies_block(&before.frame, x0, y0, log2_size)
            &&& tt_tried(&env, ctxs, s, x0 as int, y0 as int, log2_size, 0, region, trial)
            &&& tt_plan_of(&plan, &trial.tt)
            &&& tree_coded(
                final_code,
                plan,
                s,
                x0 as int,
                y0 as int,
                worked(before, trial.work),
                coded,
                tt,
            )
            &&& after == (SearchState { tu_depth_map: after.tu_depth_map, ..coded })
            &&& after.tu_depth_map@ == depths_noted(
                &tt,
                before.tu_depth_map@,
                before.tu_depth_stride as int,
                x0 as int,
                y0 as int,
            )
        }
}

/// Searches the tree of a coding unit and codes the winner.
pub fn analyze_tt<C, P, L, B, F>(
    code: C,
    price: P,
    limited: L,
    budget: B,
    final_code: &F,
    ctxs: &Contexts,
    s: CodeSettings,
    x0: u32,
    y0: u32,
    log2_size: u8,
    state: SearchState,
) -> (r: (SearchState, Tt)) where
    C: Fn(&SearchState, &TrialReconRegion, BlockTask, EvalKind) -> BlockOutcome,
    P: Fn(u64, u64) -> u64,
    L: Fn(&SearchState, u32, u32, u8, &Tt) -> bool,
    B: Fn(&SearchState, u32, u32, u8) -> BlockSearchBudget,
    F: Fn(&SearchState, BlockTask) -> BlockOutcome,

    requires
        env_ok(&(TtEnv { world: &state, code, price, limited, budget })),
        code_ok(*final_code),
        ctxs.well_formed(),
        log2_size <= 6,
        square_ok(x0 as int, y0 as int, log2_size),
        square_in_planes(&state.frame, s.cat, x0 as int, y0 as int, log2_size),
        state.frame.well_formed(),
    ensures
        tree_built(
            code,
            price,
            limited,
            budget,
            *final_code,
            ctxs@,
            s,
            x0,
            y0,
            log2_size,
            state,
            r.0,
            r.1,
        ),
        tt_whole(&r.1, log2_size),
        r.0 == (SearchState {
            frame: r.0.frame,
            tu_depth_map: r.0.tu_depth_map,
            stats: r.0.stats,
            ..state
        }),
        r.0.frame.well_formed(),
        r.0.same_picture(&state),
        state.well_formed() ==> r.0.well_formed(),
{
    let region = TrialReconRegion::new(&state.frame, x0, y0, log2_size);
    let ghost gr = region;
    let ghost before = state;
    let env = TtEnv { world: &state, code, price, limited, budget };
    let trial = search_tt(&env, ctxs, s, x0, y0, log2_size, 0, region);
    let plan = tt_to_plan(&trial.tt);
    proof {
        lemma_plan_whole(&plan, &trial.tt, log2_size);
    }
    let mut state = state;
    state.count(trial.work);
    let (after, tt) = code_tree(final_code, &plan, s, x0, y0, state);
    assert(screening(trial, gr, plan, after));
    let mut after = after;
    let stride: usize = after.tu_depth_stride;
    note_tu_depths(&mut after.tu_depth_map, stride, &tt, x0, y0, log2_size);
    (after, tt)
}

} // verus!
