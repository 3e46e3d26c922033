//! What holds of coding what was decided: the decisions come out again, the frame shows
//! the coded blocks and nothing else changes, and flags tell what is coded below them.

use vstd::prelude::*;

use crate::block_eval::block_rect;
use crate::code_laws::hits;
use crate::cu_tree::{committed, frame_coded, on_the_way, tasks_in_frame};
use crate::final_code::{
    kid_blocks, kids_code, quadrant, tt_codes, BlockTask, CodeSettings,
};
use crate::geometry::side;
use crate::region::rect_pasted;
use crate::replay::{cu_coded, cu_kids_coded, passing, CodeEnv};
use crate::rough::Place;
use crate::search_state::SearchState;
use crate::syntax::{
    cu_plan_of, split_flags_ok, tt_plan_of, CodedBlock, CuNode, CuPlan, Tt, TtPlan,
};
use crate::tu_search::BlockOutcome;

verus! {

/// Two transform trees have the same shape.
pub open spec fn alike_trees(a: &Tt, b: &Tt) -> bool
    decreases a,
{
    &&& a.size() == b.size()
    &&& a.depth() == b.depth()
    &&& match a {
        Tt::Leaf(_) => b is Leaf,
        Tt::Split { kids, .. } => {
            &&& b is Split
            &&& b->kids@.len() == kids@.len()
            &&& forall|i: int|
                0 <= i < kids@.len() ==> alike_trees(&#[trigger] kids@[i], &b->kids@[i])
        },
    }
}

/// Coding the plan of a tree gives a tree of the same shape.
pub proof fn law_plan_repeats_the_tree(
    tt: &Tt,
    plan: &TtPlan,
    coded: &Tt,
    s: CodeSettings,
    x0: int,
    y0: int,
    blocks: Seq<CodedBlock>,
)
    requires
        tt_plan_of(plan, tt),
        tt_codes(coded, plan, s, x0, y0, blocks),
    ensures
        alike_trees(tt, coded),
    decreases tt,
{
    match tt {
        Tt::Leaf(_) => {},
        Tt::Split { kids, .. } => {
            let plans = plan->Split_kids@;
            let half = side(plan->Split_log2_size) / 2;
            let out = coded->kids@;
            assert forall|i: int| 0 <= i < kids@.len() implies alike_trees(
                &#[trigger] kids@[i],
                &out[i],
            ) by {
                lemma_kid_codes(out, plans, s, x0, y0, half, plans.len(), blocks, i);
                assert(tt_plan_of(&plans[i], &kids@[i]));
                law_plan_repeats_the_tree(
                    &kids@[i],
                    &plans[i],
                    &out[i],
                    s,
                    quadrant(x0, y0, half, i).0,
                    quadrant(x0, y0, half, i).1,
                    kid_blocks(plans, s, x0, y0, half, i, blocks),
                );
            }
        },
    }
}

proof fn lemma_kid_codes(
    coded: Seq<Tt>,
    kids: Seq<TtPlan>,
    s: CodeSettings,
    x0: int,
    y0: int,
    half: int,
    n: nat,
    blocks: Seq<CodedBlock>,
    i: int,
)
    requires
        kids_code(coded, kids, s, x0, y0, half, n, blocks),
        0 <= i < n <= kids.len(),
    ensures
        tt_codes(
            &coded[i],
            &kids[i],
            s,
            quadrant(x0, y0, half, i).0,
            quadrant(x0, y0, half, i).1,
            kid_blocks(kids, s, x0, y0, half, i, blocks),
        ),
    decreases n,
{
    if i < n - 1 {
        lemma_kid_codes(coded, kids, s, x0, y0, half, (n - 1) as nat, blocks, i);
    }
}

/// Two quadtrees are split alike, and their units have the same modes.
pub open spec fn alike_units(a: &CuNode, b: &CuNode) -> bool
    decreases b,
{
    match b {
        CuNode::Leaf(v) => {
            &&& a is Leaf
            &&& a->Leaf_0.luma_mode == v.luma_mode || a->Leaf_0.nxn is Some
            &&& a->Leaf_0.chroma_mode_idx == v.chroma_mode_idx
            &&& a->Leaf_0.nxn is Some <==> v.nxn is Some
            &&& a->Leaf_0.nxn is Some ==> a->Leaf_0.nxn.unwrap().luma_modes@
                == v.nxn.unwrap().luma_modes@
        },
        CuNode::Split { kids } => {
            &&& a is Split
            &&& a->kids@.len() >= kids@.len()
            &&& forall|i: int|
                0 <= i < kids@.len() ==> alike_units(&a->kids@[i], &#[trigger] kids@[i])
        },
    }
}

/// Coding the plan of a quadtree gives the quadtree that was decided on: split where it was
/// split, and with the same modes.
pub proof fn law_replay_codes_the_decisions<'a, F, Q, D>(
    env: &CodeEnv<'a, F, Q, D>,
    plan: &CuPlan,
    decided: &CuNode,
    at: Place,
    ct_depth: u8,
    before: SearchState,
    after: SearchState,
    node: CuNode,
) where
    F: Fn(&SearchState, BlockTask) -> BlockOutcome,
    Q: Fn(u32, u32) -> (i32, i32),
    D: Fn(u8) -> u8,

    requires
        cu_plan_of(plan, decided),
        cu_coded(env, plan, at, ct_depth, before, after, node),
        whole_plan(plan, &node),
    ensures
        alike_units(decided, &node),
    decreases plan,
{
    match plan {
        CuPlan::Leaf(p) => {},
        CuPlan::Split { kids } => {
            let places = crate::quadtree::kid_places(&before, at);
            let marked = choose|marked: SearchState|
                {
                    &&& #[trigger] passing(marked)
                    &&& node is Split
                    &&& node->kids@.len() == places.len()
                    &&& cu_kids_coded(
                        env,
                        kids@,
                        places,
                        (at.log2_size - 1) as u8,
                        (ct_depth + 1) as u8,
                        marked,
                        after,
                        node->kids@,
                        places.len(),
                    )
                };
            let out = node->kids@;
            let own = decided->kids@;
            assert forall|i: int| 0 <= i < out.len() implies alike_units(
                &own[i],
                &#[trigger] out[i],
            ) by {
                let (one, two) = lemma_kid_coded(
                    env,
                    kids@,
                    places,
                    (at.log2_size - 1) as u8,
                    (ct_depth + 1) as u8,
                    marked,
                    after,
                    out,
                    places.len(),
                    i,
                );
                assert(cu_plan_of(&kids@[i], &own[i]));
                assert(whole_plan(&kids@[i], &out[i]));
                law_replay_codes_the_decisions(
                    env,
                    &kids@[i],
                    &own[i],
                    crate::quadtree::kid_place(places[i], (at.log2_size - 1) as u8),
                    (ct_depth + 1) as u8,
                    one,
                    two,
                    out[i],
                );
            }
        },
    }
}

/// A plan has a child for every child that was coded.
pub open spec fn whole_plan(plan: &CuPlan, node: &CuNode) -> bool
    decreases plan,
{
    match plan {
        CuPlan::Leaf(_) => true,
        CuPlan::Split { kids } => node is Split ==> {
            &&& kids@.len() >= node->kids@.len()
            &&& forall|i: int|
                0 <= i < kids@.len() && i < node->kids@.len() ==> whole_plan(
                    &#[trigger] kids@[i],
                    &node->kids@[i],
                )
        },
    }
}

proof fn lemma_kid_coded<'a, F, Q, D>(
    env: &CodeEnv<'a, F, Q, D>,
    plans: Seq<CuPlan>,
    places: Seq<(int, int)>,
    log2_size: u8,
    ct_depth: u8,
    before: SearchState,
    after: SearchState,
    kids: Seq<CuNode>,
    n: nat,
    i: int,
) -> (r: (SearchState, SearchState)) where
    F: Fn(&SearchState, BlockTask) -> BlockOutcome,
    Q: Fn(u32, u32) -> (i32, i32),
    D: Fn(u8) -> u8,

    requires
        cu_kids_coded(env, plans, places, log2_size, ct_depth, before, after, kids, n),
        0 <= i < n <= plans.len(),
    ensures
        cu_coded(
            env,
            &plans[i],
            crate::quadtree::kid_place(places[i], log2_size),
            ct_depth,
            r.0,
            r.1,
            kids[i],
        ),
    decreases n,
{
    let mid = choose|mid: SearchState|
        {
            &&& #[trigger] passing(mid)
            &&& cu_kids_coded(
                env,
                plans,
                places,
                log2_size,
                ct_depth,
                before,
                mid,
                kids,
                (n - 1) as nat,
            )
            &&& cu_coded(
                env,
                &plans[n - 1],
                crate::quadtree::kid_place(places[n - 1], log2_size),
                ct_depth,
                mid,
                after,
                kids[n - 1],
            )
        };
    if i < n - 1 {
        lemma_kid_coded(
            env,
            plans,
            places,
            log2_size,
            ct_depth,
            before,
            mid,
            kids,
            (n - 1) as nat,
            i,
        )
    } else {
        (mid, after)
    }
}

/// Samples that no block covers stay as they were.
pub proof fn law_uncovered_samples_stay<F>(
    code: F,
    tasks: Seq<BlockTask>,
    before: SearchState,
    after: SearchState,
    outs: Seq<BlockOutcome>,
    c: u8,
    x: int,
    y: int,
) where F: Fn(&SearchState, BlockTask) -> BlockOutcome
    requires
        frame_coded(code, tasks, before, after, outs),
        before.frame.well_formed(),
        c < 3,
        0 <= x < before.frame.planes@[c as int].width,
        0 <= y < before.frame.planes@[c as int].height,
        hits(tasks, c, x, y) == 0,
    ensures
        after.frame.well_formed(),
        after.frame.same_shape(&before.frame),
        after.frame.planes@[c as int].data@[y * before.frame.planes@[c as int].stride + x]
            == before.frame.planes@[c as int].data@[y * before.frame.planes@[c as int].stride + x],
    decreases tasks.len(),
{
    if tasks.len() > 0 {
        let mid = choose|mid: SearchState|
            {
                &&& #[trigger] on_the_way(mid)
                &&& frame_coded(code, tasks.drop_last(), before, mid, outs.drop_last())
                &&& committed(mid, after, tasks.last(), outs.last().samples@, outs.last().work)
            };
        law_uncovered_samples_stay(code, tasks.drop_last(), before, mid, outs.drop_last(), c, x, y);
        let plane = mid.frame.planes@[c as int];
        lemma_pasted(plane, tasks.last(), outs.last().samples@, x, y);
    }
}

/// The last block shows its samples in the frame, row by row.
pub proof fn law_last_block_is_shown<F>(
    code: F,
    tasks: Seq<BlockTask>,
    before: SearchState,
    after: SearchState,
    outs: Seq<BlockOutcome>,
    dx: int,
    dy: int,
) where F: Fn(&SearchState, BlockTask) -> BlockOutcome
    requires
        frame_coded(code, tasks, before, after, outs),
        tasks.len() > 0,
        before.frame.well_formed(),
        tasks_in_frame(&before.frame, tasks),
        0 <= dx < side(tasks.last().log2_size),
        0 <= dy < side(tasks.last().log2_size),
    ensures
        ({
            let t = tasks.last();
            let plane = after.frame.planes@[t.c_idx as int];
            plane.data@[(t.y + dy) * plane.stride + (t.x + dx)] == outs.last().samples@[dy * side(
                t.log2_size,
            ) + dx]
        }),
{
    let t = tasks.last();
    assert(t == tasks[tasks.len() - 1]);
    let mid = choose|mid: SearchState|
        {
            &&& #[trigger] on_the_way(mid)
            &&& frame_coded(code, tasks.drop_last(), before, mid, outs.drop_last())
            &&& committed(mid, after, t, outs.last().samples@, outs.last().work)
        };
    lemma_shape(code, tasks.drop_last(), before, mid, outs.drop_last());
    let plane = mid.frame.planes@[t.c_idx as int];
    lemma_pasted(plane, t, outs.last().samples@, t.x + dx, t.y + dy);
}

proof fn lemma_shape<F>(
    code: F,
    tasks: Seq<BlockTask>,
    before: SearchState,
    after: SearchState,
    outs: Seq<BlockOutcome>,
) where F: Fn(&SearchState, BlockTask) -> BlockOutcome
    requires
        frame_coded(code, tasks, before, after, outs),
        before.frame.well_formed(),
    ensures
        after.frame.well_formed(),
        after.frame.same_shape(&before.frame),
    decreases tasks.len(),
{
    if tasks.len() > 0 {
        let mid = choose|mid: SearchState|
            {
                &&& #[trigger] on_the_way(mid)
                &&& frame_coded(code, tasks.drop_last(), before, mid, outs.drop_last())
                &&& committed(mid, after, tasks.last(), outs.last().samples@, outs.last().work)
            };
        lemma_shape(code, tasks.drop_last(), before, mid, outs.drop_last());
    }
}

/// A sample of a plane that a block was written into.
proof fn lemma_pasted(plane: crate::frame::Plane, t: BlockTask, samples: Seq<u16>, x: int, y: int)
    requires
        plane.well_formed(),
        0 <= x < plane.width,
        0 <= y < plane.height,
    ensures
        ({
            let i = y * plane.stride + x;
            let pasted = rect_pasted(
                plane.data@,
                plane.stride as int,
                block_rect(t.x, t.y, t.log2_size),
                samples,
            );
            pasted[i] == if t.x <= x < t.x + block_rect(t.x, t.y, t.log2_size).width && t.y <= y
                < t.y + block_rect(t.x, t.y, t.log2_size).height {
                samples[(y - t.y) * block_rect(t.x, t.y, t.log2_size).width + (x - t.x)]
            } else {
                plane.data@[i]
            }
        }),
{
    let st = plane.stride as int;
    let i = y * st + x;
    plane.lemma_rows();
    vstd::arithmetic::div_mod::lemma_fundamental_div_mod_converse(i, st, y, x);
    assert(0 <= i < plane.height * st) by (nonlinear_arith)
        requires
            0 <= x < st,
            0 <= y < plane.height,
            i == y * st + x,
    ;
    assert(plane.height * st == st * plane.height) by (nonlinear_arith);
}

/// Something is coded of Cb in a tree.
pub open spec fn codes_cb(tt: &Tt) -> bool
    decreases tt,
{
    match tt {
        Tt::Leaf(l) => l.cb.cbf || l.cb1.cbf,
        Tt::Split { parent_chroma, kids, .. } => {
            ||| parent_chroma matches Some(c) && c.cb.cbf
            ||| exists|i: int| 0 <= i < kids@.len() && codes_cb(&#[trigger] kids@[i])
        },
    }
}

/// Something is coded of Cr in a tree.
pub open spec fn codes_cr(tt: &Tt) -> bool
    decreases tt,
{
    match tt {
        Tt::Leaf(l) => l.cr.cbf || l.cr1.cbf,
        Tt::Split { parent_chroma, kids, .. } => {
            ||| parent_chroma matches Some(c) && c.cr.cbf
            ||| exists|i: int| 0 <= i < kids@.len() && codes_cr(&#[trigger] kids@[i])
        },
    }
}

/// A second block of Cb is coded in a tree.
pub open spec fn codes_cb1(tt: &Tt) -> bool
    decreases tt,
{
    match tt {
        Tt::Leaf(l) => l.cb1.cbf,
        Tt::Split { kids, .. } => exists|i: int|
            0 <= i < kids@.len() && codes_cb1(&#[trigger] kids@[i]),
    }
}

/// A second block of Cr is coded in a tree.
pub open spec fn codes_cr1(tt: &Tt) -> bool
    decreases tt,
{
    match tt {
        Tt::Leaf(l) => l.cr1.cbf,
        Tt::Split { kids, .. } => exists|i: int|
            0 <= i < kids@.len() && codes_cr1(&#[trigger] kids@[i]),
    }
}

/// The flags of every node are set as they should be, and chroma that stays with a node is
/// not coded below it.
pub open spec fn flags_everywhere(tt: &Tt) -> bool
    decreases tt,
{
    match tt {
        Tt::Leaf(_) => true,
        Tt::Split { parent_chroma, kids, .. } => {
            &&& split_flags_ok(tt)
            &&& forall|i: int| 0 <= i < kids@.len() ==> flags_everywhere(&#[trigger] kids@[i])
            &&& parent_chroma is Some ==> forall|i: int|
                0 <= i < kids@.len() ==> !codes_cb(&#[trigger] kids@[i]) && !codes_cr(&kids@[i])
        },
    }
}

/// A split node's chroma flag tells whether anything is coded of that component in it or
/// below, and its second flag whether a second block is.
pub proof fn law_flags_tell_what_is_coded(tt: &Tt)
    requires
        flags_everywhere(tt),
    ensures
        tt is Split ==> (tt.spec_cbf_cb() <==> codes_cb(tt)),
        tt is Split ==> (tt.spec_cbf_cr() <==> codes_cr(tt)),
        tt.spec_cbf_cb() || tt.spec_cbf_cb1() <==> codes_cb(tt),
        tt.spec_cbf_cr() || tt.spec_cbf_cr1() <==> codes_cr(tt),
        tt.spec_cbf_cb1() <==> codes_cb1(tt),
        tt.spec_cbf_cr1() <==> codes_cr1(tt),
    decreases tt,
{
    match tt {
        Tt::Leaf(_) => {},
        Tt::Split { parent_chroma, kids, .. } => {
            assert forall|i: int| 0 <= i < kids@.len() implies {
                let k = #[trigger] kids@[i];
                &&& k.spec_cbf_cb() || k.spec_cbf_cb1() <==> codes_cb(&k)
                &&& k.spec_cbf_cr() || k.spec_cbf_cr1() <==> codes_cr(&k)
                &&& k.spec_cbf_cb1() <==> codes_cb1(&k)
                &&& k.spec_cbf_cr1() <==> codes_cr1(&k)
            } by {
                law_flags_tell_what_is_coded(&kids@[i]);
            }
            if codes_cb(tt) && parent_chroma is None {
                let i = choose|i: int| 0 <= i < kids@.len() && codes_cb(&#[trigger] kids@[i]);
                assert(kids@[i].spec_cbf_cb() || kids@[i].spec_cbf_cb1());
            }
            if codes_cr(tt) && parent_chroma is None {
                let i = choose|i: int| 0 <= i < kids@.len() && codes_cr(&#[trigger] kids@[i]);
                assert(kids@[i].spec_cbf_cr() || kids@[i].spec_cbf_cr1());
            }
            if codes_cb1(tt) {
                let i = choose|i: int| 0 <= i < kids@.len() && codes_cb1(&#[trigger] kids@[i]);
                assert(kids@[i].spec_cbf_cb1());
            }
            if codes_cr1(tt) {
                let i = choose|i: int| 0 <= i < kids@.len() && codes_cr1(&#[trigger] kids@[i]);
                assert(kids@[i].spec_cbf_cr1());
            }
            if tt.spec_cbf_cb1() {
                let i = choose|i: int|
                    0 <= i < kids@.len() && (#[trigger] kids@[i]).spec_cbf_cb1();
                assert(codes_cb1(&kids@[i]));
                assert(codes_cb(&kids@[i]));
            }
            if tt.spec_cbf_cr1() {
                let i = choose|i: int|
                    0 <= i < kids@.len() && (#[trigger] kids@[i]).spec_cbf_cr1();
                assert(codes_cr1(&kids@[i]));
                assert(codes_cr(&kids@[i]));
            }
        },
    }
}

} // verus!
