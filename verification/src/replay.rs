//! Coding a decided quadtree into the reconstruction.

use vstd::prelude::*;

use crate::cost_bound::{parent_small, tt_small, tt_whole};
use crate::cu_leaf::{
    depth_noted, lemma_mpm_distinct, lemma_same_trans, lemma_unit_fits_same, mode_noted,
    plain_leaf, unit_fits,
};
use crate::cu_search::{kids_fit, left_whole, lemma_kids_later};
use crate::cu_tree::{
    code_ok, code_parent, code_tree, lemma_plan_whole, lemma_shaped_nodes, parent_coded,
    plan_whole, square_in_planes, tree_coded,
};
use crate::final_code::{quadrant, square_ok, BlockTask, CodeSettings};
use crate::unit_modes::{mpm_at, mpm_here, note_depth, note_mode};
use crate::frame::Frame;
use crate::geometry::{
    block_side, chroma_mode_from_idx, cu_kid_positions, kid_positions, positions_view, side,
    spec_chroma_mode, spec_chroma_tb_geom, CHROMA_DM_IDX,
};
use crate::items::{leaf_modes_ok, mpm_distinct, tt_depths_ok};
use crate::quadtree::{
    kid_place, kid_places, lemma_kid_spot, lemma_leaf_fits, lemma_sides, lemma_split_fits,
    lemma_spot_same, node_fits, spot, whole_leaf,
};
use crate::rough::Place;
use crate::search_state::SearchState;
use crate::source::{chroma_in_planes, tt_in_frame, SourcePicture};
use crate::syntax::{
    cu_plan_of, CuLeaf, CuLeafPlan, CuNode, CuPlan, DecisionConfidence, NxnInfo, ParentChromaTu,
    Tt, TtPlan,
};
use crate::tu_search::{tt_shaped, BlockOutcome};
use crate::write::{cu_ok, lemma_half_side};

verus! {

/// What coding works on and asks of its caller.
pub struct CodeEnv<'a, F, Q, D> {
    pub pic: &'a SourcePicture<'a>,
    /// Codes a block as it will be written.
    pub code: F,
    /// The luma and chroma quantisation parameters at a position.
    pub qps: Q,
    /// The mode that chroma of a mode is predicted with.
    pub pred: D,
}

pub open spec fn code_env_ok<'a, F, Q, D>(env: &CodeEnv<'a, F, Q, D>) -> bool where
    F: Fn(&SearchState, BlockTask) -> BlockOutcome,
    Q: Fn(u32, u32) -> (i32, i32),
    D: Fn(u8) -> u8,
 {
    &&& code_ok(env.code)
    &&& forall|x: u32, y: u32| #[trigger] call_requires(env.qps, (x, y))
    &&& forall|m: u8| #[trigger] call_requires(env.pred, (m,))
}

/// The settings that a unit is coded with.
pub open spec fn settings_of(
    cat: u8,
    luma_mode: u8,
    chroma_mode: u8,
    chroma_pred: u8,
    qp: (i32, i32),
) -> CodeSettings {
    CodeSettings { cat, luma_mode, chroma_mode, chroma_pred, qp_y: qp.0, qp_c: qp.1 }
}

/// A plan can be coded at a place: its units lie in the planes, and each split has a plan
/// for every quadrant in the picture.
pub open spec fn cu_plan_fits(
    pic: &SourcePicture,
    frame: &Frame,
    plan: &CuPlan,
    x0: int,
    y0: int,
    log2_size: u8,
) -> bool
    decreases plan,
{
    match plan {
        CuPlan::Leaf(p) => {
            &&& unit_fits(pic, frame, x0 as u32, y0 as u32, log2_size)
            &&& p.chroma_mode_idx <= CHROMA_DM_IDX
            &&& if p.nxn is Some {
                log2_size == 3
            } else {
                plan_whole(&p.tt, log2_size)
            }
        },
        CuPlan::Split { kids } => {
            let places = kid_positions(
                x0,
                y0,
                side(log2_size) / 2,
                pic.width as int,
                pic.height as int,
            );
            &&& log2_size > 3
            &&& kids@.len() >= places.len()
            &&& forall|i: int|
                0 <= i < kids@.len() && i < places.len() ==> cu_plan_fits(
                    pic,
                    frame,
                    &#[trigger] kids@[i],
                    places[i].0,
                    places[i].1,
                    (log2_size - 1) as u8,
                )
        },
    }
}

proof fn lemma_plan_fits_same(
    pic: &SourcePicture,
    a: &SearchState,
    b: &SearchState,
    plan: &CuPlan,
    x0: int,
    y0: int,
    log2_size: u8,
)
    requires
        cu_plan_fits(pic, &a.frame, plan, x0, y0, log2_size),
        a.frame.well_formed(),
        b.same_picture(a),
    ensures
        cu_plan_fits(pic, &b.frame, plan, x0, y0, log2_size),
    decreases plan,
{
    match plan {
        CuPlan::Leaf(_) => {
            lemma_unit_fits_same(pic, a, b, x0 as u32, y0 as u32, log2_size);
        },
        CuPlan::Split { kids } => {
            let places = kid_positions(
                x0,
                y0,
                side(log2_size) / 2,
                pic.width as int,
                pic.height as int,
            );
            assert forall|i: int| 0 <= i < kids@.len() && i < places.len() implies cu_plan_fits(
                pic,
                &b.frame,
                &#[trigger] kids@[i],
                places[i].0,
                places[i].1,
                (log2_size - 1) as u8,
            ) by {
                lemma_plan_fits_same(
                    pic,
                    a,
                    b,
                    &kids@[i],
                    places[i].0,
                    places[i].1,
                    (log2_size - 1) as u8,
                );
            }
        },
    }
}

/// Names the steps of coding a unit.
pub open spec fn unit_steps(noted: SearchState, pred: u8) -> bool {
    true
}

/// A 4x4 prediction unit was coded: its mode noted, its block coded.
pub open spec fn part_coded<'a, F, Q, D>(
    env: &CodeEnv<'a, F, Q, D>,
    p: (int, int),
    qp: (i32, i32),
    mode: u8,
    before: SearchState,
    after: SearchState,
    mpm: [u8; 3],
    kid: Tt,
) -> bool where
    F: Fn(&SearchState, BlockTask) -> BlockOutcome,
    Q: Fn(u32, u32) -> (i32, i32),
    D: Fn(u8) -> u8,
 {
    exists|noted: SearchState, pred: u8|
        {
            &&& #[trigger] unit_steps(noted, pred)
            &&& mpm@ == mpm_at(
                &before.maps,
                before.maps.mode_map@,
                p.0 as u32,
                p.1 as u32,
            )
            &&& mode_noted(before, noted, p.0, p.1, 2, mode)
            &&& call_ensures(env.pred, (mode,), pred)
            &&& tree_coded(
                env.code,
                TtPlan::Leaf { log2_size: 2, trafo_depth: 1 },
                settings_of(env.pic.cat, mode, mode, pred, qp),
                p.0,
                p.1,
                noted,
                after,
                kid,
            )
        }
}

/// A state between two blocks.
pub open spec fn passing(s: SearchState) -> bool {
    true
}

/// The first `n` of four prediction units were coded.
pub open spec fn parts_coded<'a, F, Q, D>(
    env: &CodeEnv<'a, F, Q, D>,
    at: Place,
    qp: (i32, i32),
    modes: Seq<u8>,
    before: SearchState,
    after: SearchState,
    mpms: Seq<[u8; 3]>,
    kids: Seq<Tt>,
    n: nat,
) -> bool where
    F: Fn(&SearchState, BlockTask) -> BlockOutcome,
    Q: Fn(u32, u32) -> (i32, i32),
    D: Fn(u8) -> u8,

    decreases n,
{
    if n == 0 {
        after == before
    } else {
        exists|mid: SearchState|
            {
                &&& #[trigger] passing(mid)
                &&& parts_coded(env, at, qp, modes, before, mid, mpms, kids, (n - 1) as nat)
                &&& part_coded(
                    env,
                    quadrant(at.x as int, at.y as int, 4, n - 1),
                    qp,
                    modes[n - 1],
                    mid,
                    after,
                    mpms[n - 1],
                    kids[n - 1],
                )
            }
    }
}

/// A coding unit of four prediction units and its tree.
pub open spec fn parted_leaf(
    leaf: &CuLeaf,
    modes: Seq<u8>,
    mpms: Seq<[u8; 3]>,
    mode_idx: u8,
    pc: Option<ParentChromaTu>,
    kids: Seq<Tt>,
) -> bool {
    &&& leaf.mpm == mpms[0]
    &&& leaf.luma_mode == modes[0]
    &&& leaf.chroma_mode_idx == mode_idx
    &&& leaf.confidence == DecisionConfidence::Clear
    &&& leaf.nxn matches Some(n) && n.luma_modes@ == modes && n.mpms@ == mpms
    &&& leaf.tt matches Tt::Split {
        log2_size,
        trafo_depth,
        cbf_cb,
        cbf_cr,
        cbf_cb1,
        cbf_cr1,
        parent_chroma,
        kids: k,
    }
    &&& log2_size == 3
    &&& trafo_depth == 0
    &&& cbf_cb == (pc is Some && pc.unwrap().cb.cbf)
    &&& cbf_cr == (pc is Some && pc.unwrap().cr.cbf)
    &&& !cbf_cb1
    &&& !cbf_cr1
    &&& parent_chroma == pc
    &&& k@ == kids
}

/// Names the steps of coding a unit of four parts.
pub open spec fn parted_steps(
    marked: SearchState,
    coded: SearchState,
    qp: (i32, i32),
    pred: u8,
    mpms: Seq<[u8; 3]>,
    kids: Seq<Tt>,
    pc: Option<ParentChromaTu>,
) -> bool {
    true
}

/// A coding unit of four prediction units was coded.
pub open spec fn nxn_coded<'a, F, Q, D>(
    env: &CodeEnv<'a, F, Q, D>,
    modes: Seq<u8>,
    mode_idx: u8,
    at: Place,
    ct_depth: u8,
    before: SearchState,
    after: SearchState,
    node: CuNode,
) -> bool where
    F: Fn(&SearchState, BlockTask) -> BlockOutcome,
    Q: Fn(u32, u32) -> (i32, i32),
    D: Fn(u8) -> u8,
 {
    exists|
        marked: SearchState,
        coded: SearchState,
        qp: (i32, i32),
        pred: u8,
        mpms: Seq<[u8; 3]>,
        kids: Seq<Tt>,
        pc: Option<ParentChromaTu>,
    |
        {
            let chroma_mode = spec_chroma_mode(modes[0], mode_idx);
            &&& #[trigger] parted_steps(marked, coded, qp, pred, mpms, kids, pc)
            &&& depth_noted(before, marked, at.x as int, at.y as int, 3, ct_depth)
            &&& call_ensures(env.qps, (at.x, at.y), qp)
            &&& parts_coded(env, at, qp, modes, marked, coded, mpms, kids, 4)
            &&& call_ensures(env.pred, (chroma_mode,), pred)
            &&& parent_coded(
                env.code,
                settings_of(env.pic.cat, modes[0], chroma_mode, pred, qp),
                at.x as int,
                at.y as int,
                coded,
                after,
                pc,
            )
            &&& node matches CuNode::Leaf(leaf) && parted_leaf(
                &leaf,
                modes,
                mpms,
                mode_idx,
                pc,
                kids,
            )
        }
}

/// Names the steps of coding a unit of one part.
pub open spec fn plain_steps(
    marked: SearchState,
    noted: SearchState,
    qp: (i32, i32),
    pred: u8,
    tt: Tt,
) -> bool {
    true
}

/// A coding unit of one prediction unit was coded: its most probable modes are those of
/// the neighbours as they were coded.
pub open spec fn plain_coded<'a, F, Q, D>(
    env: &CodeEnv<'a, F, Q, D>,
    p: CuLeafPlan,
    at: Place,
    ct_depth: u8,
    before: SearchState,
    after: SearchState,
    node: CuNode,
) -> bool where
    F: Fn(&SearchState, BlockTask) -> BlockOutcome,
    Q: Fn(u32, u32) -> (i32, i32),
    D: Fn(u8) -> u8,
 {
    exists|marked: SearchState, noted: SearchState, qp: (i32, i32), pred: u8, tt: Tt|
        {
            &&& #[trigger] plain_steps(marked, noted, qp, pred, tt)
            &&& depth_noted(before, marked, at.x as int, at.y as int, at.log2_size, ct_depth)
            &&& mode_noted(
                marked,
                noted,
                at.x as int,
                at.y as int,
                at.log2_size,
                p.luma_mode,
            )
            &&& call_ensures(env.qps, (at.x, at.y), qp)
            &&& call_ensures(env.pred, (p.chroma_mode,), pred)
            &&& tree_coded(
                env.code,
                p.tt,
                settings_of(env.pic.cat, p.luma_mode, p.chroma_mode, pred, qp),
                at.x as int,
                at.y as int,
                noted,
                after,
                tt,
            )
            &&& node matches CuNode::Leaf(leaf) && plain_leaf(
                &leaf,
                mpm_at(&marked.maps, marked.maps.mode_map@, at.x, at.y),
                p.luma_mode,
                p.chroma_mode_idx,
                tt,
            )
        }
}

/// A quadtree was coded as planned.
pub open spec fn cu_coded<'a, F, Q, D>(
    env: &CodeEnv<'a, F, Q, D>,
    plan: &CuPlan,
    at: Place,
    ct_depth: u8,
    before: SearchState,
    after: SearchState,
    node: CuNode,
) -> bool where
    F: Fn(&SearchState, BlockTask) -> BlockOutcome,
    Q: Fn(u32, u32) -> (i32, i32),
    D: Fn(u8) -> u8,

    decreases plan, 0nat,
{
    match plan {
        CuPlan::Leaf(p) => match p.nxn {
            Some(modes) => nxn_coded(
                env,
                modes@,
                p.chroma_mode_idx,
                at,
                ct_depth,
                before,
                after,
                node,
            ),
            None => plain_coded(env, *p, at, ct_depth, before, after, node),
        },
        CuPlan::Split { kids } => {
            let places = kid_places(&before, at);
            exists|marked: SearchState|
                {
                    &&& #[trigger] passing(marked)
                    &&& depth_noted(
                        before,
                        marked,
                        at.x as int,
                        at.y as int,
                        at.log2_size,
                        ct_depth,
                    )
                    &&& node is Split
                    &&& node->kids@.len() == places.len()
                    &&& cu_kids_coded(
                        env,
                        kids@,
                        places,
                        (at.log2_size - 1) as u8,
                        (ct_depth + 1) as u8,
                        marked,
                        after,
                        node->kids@,
                        places.len(),
                    )
                }
        },
    }
}

/// The first `n` children of a node were coded as planned.
pub open spec fn cu_kids_coded<'a, F, Q, D>(
    env: &CodeEnv<'a, F, Q, D>,
    plans: Seq<CuPlan>,
    places: Seq<(int, int)>,
    log2_size: u8,
    ct_depth: u8,
    before: SearchState,
    after: SearchState,
    kids: Seq<CuNode>,
    n: nat,
) -> bool where
    F: Fn(&SearchState, BlockTask) -> BlockOutcome,
    Q: Fn(u32, u32) -> (i32, i32),
    D: Fn(u8) -> u8,

    decreases plans, n,
{
    if n == 0 || n > plans.len() {
        after == before
    } else {
        exists|mid: SearchState|
            {
                &&& #[trigger] passing(mid)
                &&& cu_kids_coded(
                    env,
                    plans,
                    places,
                    log2_size,
                    ct_depth,
                    before,
                    mid,
                    kids,
                    (n - 1) as nat,
                )
                &&& cu_coded(
                    env,
                    &plans[n - 1],
                    kid_place(places[n - 1], log2_size),
                    ct_depth,
                    mid,
                    after,
                    kids[n - 1],
                )
            }
    }
}

/// Notes a depth in a state.
pub fn mark_depth(state: &mut SearchState, at: Place, ct_depth: u8)
    requires
        old(state).well_formed(),
        at.log2_size < 31,
    ensures
        depth_noted(
            *old(state),
            *final(state),
            at.x as int,
            at.y as int,
            at.log2_size,
            ct_depth,
        ),
        final(state).well_formed(),
        final(state).same_picture(old(state)),
{
    note_depth(&mut state.maps, at.x, at.y, at.log2_size, ct_depth);
    assert(state.frame.same_shape(&old(state).frame));
}

/// Notes a luma mode in a state.
pub fn mark_mode(state: &mut SearchState, at: Place, mode: u8)
    requires
        old(state).well_formed(),
        at.log2_size < 31,
    ensures
        mode_noted(*old(state), *final(state), at.x as int, at.y as int, at.log2_size, mode),
        final(state).well_formed(),
        final(state).same_picture(old(state)),
{
    note_mode(&mut state.maps, at.x, at.y, at.log2_size, mode);
    assert(state.frame.same_shape(&old(state).frame));
}

/// Codes one of four prediction units.
pub fn code_part<'a, F, Q, D>(
    env: &CodeEnv<'a, F, Q, D>,
    px: u32,
    py: u32,
    qp: (i32, i32),
    mode: u8,
    state: SearchState,
) -> (r: (SearchState, [u8; 3], Tt)) where
    F: Fn(&SearchState, BlockTask) -> BlockOutcome,
    Q: Fn(u32, u32) -> (i32, i32),
    D: Fn(u8) -> u8,

    requires
        code_env_ok(env),
        state.well_formed(),
        square_ok(px as int, py as int, 2),
        square_in_planes(&state.frame, env.pic.cat, px as int, py as int, 2),
    ensures
        part_coded(env, (px as int, py as int), qp, mode, state, r.0, r.1, r.2),
        r.0.well_formed(),
        r.0.same_picture(&state),
        mpm_distinct(r.1),
        tt_whole(&r.2, 2),
{
    let ghost before = state;
    let mut state = state;
    let mpm = mpm_here(&state.maps, px, py);
    proof {
        lemma_mpm_distinct(&before, mpm, px, py);
    }
    mark_mode(&mut state, Place { x: px, y: py, log2_size: 2 }, mode);
    let ghost noted = state;
    let pred: u8 = (env.pred)(mode);
    let s = CodeSettings {
        cat: env.pic.cat,
        luma_mode: mode,
        chroma_mode: mode,
        chroma_pred: pred,
        qp_y: qp.0,
        qp_c: qp.1,
    };
    let plan = TtPlan::Leaf { log2_size: 2, trafo_depth: 1 };
    proof {
        assert(unit_steps(noted, pred));
        assert(noted.frame == before.frame);
    }
    let (after, kid) = code_tree(&env.code, &plan, s, px, py, state);
    proof {
        assert(after.same_picture(&noted));
        lemma_same_trans(&before, &noted, &after);
    }
    (after, mpm, kid)
}

/// A quarter of a unit of the smallest size lies where the unit does.
pub proof fn lemma_part_fits(frame: &Frame, cat: u8, x0: int, y0: int, i: int)
    requires
        square_ok(x0, y0, 3),
        square_in_planes(frame, cat, x0, y0, 3),
        0 <= i < 4,
    ensures
        square_ok(quadrant(x0, y0, 4, i).0, quadrant(x0, y0, 4, i).1, 2),
        square_in_planes(frame, cat, quadrant(x0, y0, 4, i).0, quadrant(x0, y0, 4, i).1, 2),
{
    lemma_sides();
    assert(i == 0 || i == 1 || i == 2 || i == 3);
}

pub proof fn lemma_planes_same(
    a: &SearchState,
    b: &SearchState,
    cat: u8,
    x0: int,
    y0: int,
    log2_size: u8,
)
    requires
        square_in_planes(&a.frame, cat, x0, y0, log2_size),
        a.frame.well_formed(),
        b.same_picture(a),
    ensures
        square_in_planes(&b.frame, cat, x0, y0, log2_size),
{
    assert(b.frame.planes@[0].width == a.frame.planes@[0].width);
    assert(b.frame.planes@[1].width == a.frame.planes@[1].width);
    assert(b.frame.planes@[2].width == a.frame.planes@[2].width);
}

/// Later parts do not change what is said of the earlier.
pub proof fn lemma_parts_prefix<'a, F, Q, D>(
    env: &CodeEnv<'a, F, Q, D>,
    at: Place,
    qp: (i32, i32),
    modes: Seq<u8>,
    before: SearchState,
    after: SearchState,
    a_mpms: Seq<[u8; 3]>,
    a_kids: Seq<Tt>,
    b_modes: Seq<u8>,
    b_mpms: Seq<[u8; 3]>,
    b_kids: Seq<Tt>,
    n: nat,
) where
    F: Fn(&SearchState, BlockTask) -> BlockOutcome,
    Q: Fn(u32, u32) -> (i32, i32),
    D: Fn(u8) -> u8,

    requires
        parts_coded(env, at, qp, modes, before, after, a_mpms, a_kids, n),
        forall|i: int| 0 <= i < n ==> #[trigger] a_mpms[i] == b_mpms[i],
        forall|i: int| 0 <= i < n ==> #[trigger] a_kids[i] == b_kids[i],
        forall|i: int| 0 <= i < n ==> #[trigger] modes[i] == b_modes[i],
    ensures
        parts_coded(env, at, qp, b_modes, before, after, b_mpms, b_kids, n),
    decreases n,
{
    if n > 0 {
        let mid = choose|mid: SearchState|
            {
                &&& #[trigger] passing(mid)
                &&& parts_coded(env, at, qp, modes, before, mid, a_mpms, a_kids, (n - 1) as nat)
                &&& part_coded(
                    env,
                    quadrant(at.x as int, at.y as int, 4, n - 1),
                    qp,
                    modes[n - 1],
                    mid,
                    after,
                    a_mpms[n - 1],
                    a_kids[n - 1],
                )
            };
        lemma_parts_prefix(
            env,
            at,
            qp,
            modes,
            before,
            mid,
            a_mpms,
            a_kids,
            b_modes,
            b_mpms,
            b_kids,
            (n - 1) as nat,
        );
        assert(passing(mid));
        assert(a_mpms[n - 1] == b_mpms[n - 1] && a_kids[n - 1] == b_kids[n - 1]);
        assert(modes[n - 1] == b_modes[n - 1]);
    }
}

/// Puts a coding unit of four prediction units together.
pub fn make_parted(
    luma_modes: [u8; 4],
    mpms: [[u8; 3]; 4],
    mode_idx: u8,
    pc: Option<ParentChromaTu>,
    kids: Vec<Tt>,
) -> (leaf: CuLeaf)
    requires
        kids@.len() == 4,
        forall|i: int| 0 <= i < 4 ==> tt_whole(&#[trigger] kids@[i], 2),
        forall|i: int| 0 <= i < 4 ==> mpm_distinct(#[trigger] mpms@[i]),
        parent_small(&pc),
        mode_idx <= CHROMA_DM_IDX,
    ensures
        parted_leaf(&leaf, luma_modes@, mpms@, mode_idx, pc, kids@),
        whole_leaf(&leaf, 3),
{
    let ghost parts = kids@;
    let cbf_cb: bool = match &pc {
        Some(c) => c.cb.cbf,
        None => false,
    };
    let cbf_cr: bool = match &pc {
        Some(c) => c.cr.cbf,
        None => false,
    };
    let tt = Tt::Split {
        log2_size: 3,
        trafo_depth: 0,
        cbf_cb,
        cbf_cr,
        cbf_cb1: false,
        cbf_cr1: false,
        parent_chroma: pc,
        kids,
    };
    let leaf = CuLeaf {
        mpm: mpms[0],
        luma_mode: luma_modes[0],
        chroma_mode_idx: mode_idx,
        nxn: Some(NxnInfo { luma_modes, mpms }),
        confidence: DecisionConfidence::Clear,
        tt,
    };
    proof {
        assert(leaf.tt->kids@ == parts);
        assert forall|i: int| 0 <= i < parts.len() implies tt_shaped(
            &#[trigger] leaf.tt->kids@[i],
            2,
        ) && tt_depths_ok(&leaf.tt->kids@[i]) && tt_small(&leaf.tt->kids@[i]) by {
            assert(tt_whole(&parts[i], 2));
        }
        assert(tt_shaped(&leaf.tt, 3));
        lemma_shaped_nodes(&leaf.tt, 3);
        assert(mpm_distinct(mpms@[0]));
        assert(leaf_modes_ok(&leaf)) by {
            assert forall|pu: int| 0 <= pu < 4 implies mpm_distinct(
                #[trigger] leaf.nxn.unwrap().mpms[pu],
            ) by {
                assert(mpm_distinct(mpms@[pu]));
            }
        }
    }
    leaf
}

/// Codes a coding unit of four prediction units.
pub fn final_code_cu_nxn<'a, F, Q, D>(
    env: &CodeEnv<'a, F, Q, D>,
    modes: [u8; 4],
    mode_idx: u8,
    at: Place,
    ct_depth: u8,
    state: SearchState,
) -> (r: (SearchState, CuNode)) where
    F: Fn(&SearchState, BlockTask) -> BlockOutcome,
    Q: Fn(u32, u32) -> (i32, i32),
    D: Fn(u8) -> u8,

    requires
        code_env_ok(env),
        state.well_formed(),
        unit_fits(env.pic, &state.frame, at.x, at.y, at.log2_size),
        at.log2_size == 3,
        mode_idx <= CHROMA_DM_IDX,
    ensures
        nxn_coded(env, modes@, mode_idx, at, ct_depth, state, r.0, r.1),
        left_whole(env.pic, at, ct_depth, &state, &r.0, &r.1),
{
    let ghost before = state;
    let mut state = state;
    mark_depth(&mut state, at, ct_depth);
    let ghost marked = state;
    let qp: (i32, i32) = (env.qps)(at.x, at.y);
    let ghost cat = env.pic.cat;
    let ghost (xi, yi) = (at.x as int, at.y as int);
    let mut mpms: [[u8; 3]; 4] = [[0, 0, 0], [0, 0, 0], [0, 0, 0], [0, 0, 0]];
    let mut kids: Vec<Tt> = Vec::new();
    proof {
        lemma_sides();
        lemma_planes_same(&before, &marked, cat, xi, yi, 3);
    }
    for i in 0..4usize
        invariant
            code_env_ok(env),
            cat == env.pic.cat,
            xi == at.x,
            yi == at.y,
            side(3) == 8,
            at.log2_size == 3,
            square_ok(xi, yi, 3),
            square_in_planes(&marked.frame, cat, xi, yi, 3),
            marked.well_formed(),
            state.well_formed(),
            state.same_picture(&marked),
            kids@.len() == i,
            forall|k: int| 0 <= k < i ==> tt_whole(&#[trigger] kids@[k], 2),
            forall|k: int| 0 <= k < i ==> mpm_distinct(#[trigger] mpms@[k]),
            parts_coded(env, at, qp, modes@, marked, state, mpms@, kids@, i as nat),
    {
        let px: u32 = if i % 2 == 1 {
            at.x + 4
        } else {
            at.x
        };
        let py: u32 = if i / 2 == 1 {
            at.y + 4
        } else {
            at.y
        };
        let ghost mid = state;
        let ghost old_mpms = mpms@;
        let ghost old_kids = kids@;
        proof {
            assert(quadrant(xi, yi, 4, i as int) == (px as int, py as int));
            lemma_part_fits(&marked.frame, cat, xi, yi, i as int);
            lemma_planes_same(&marked, &mid, cat, px as int, py as int, 2);
        }
        let (after, mpm, kid) = code_part(env, px, py, qp, modes[i], state);
        let ghost coded = kid;
        mpms[i] = mpm;
        kids.push(kid);
        state = after;
        proof {
            lemma_same_trans(&marked, &mid, &state);
            assert(passing(mid));
            lemma_parts_prefix(
                env,
                at,
                qp,
                modes@,
                marked,
                mid,
                old_mpms,
                old_kids,
                modes@,
                mpms@,
                kids@,
                i as nat,
            );
            assert(kids@[i as int] == coded);
            assert(mpms@[i as int] == mpm);
            assert forall|k: int| 0 <= k < i + 1 implies tt_whole(&#[trigger] kids@[k], 2) by {
                if k < i {
                    assert(kids@[k] == old_kids[k]);
                }
            }
            assert forall|k: int| 0 <= k < i + 1 implies mpm_distinct(#[trigger] mpms@[k]) by {
                if k < i {
                    assert(mpms@[k] == old_mpms[k]);
                }
            }
        }
    }
    let ghost parts = state;
    let chroma_mode: u8 = chroma_mode_from_idx(modes[0], mode_idx);
    let pred: u8 = (env.pred)(chroma_mode);
    let s = CodeSettings {
        cat: env.pic.cat,
        luma_mode: modes[0],
        chroma_mode,
        chroma_pred: pred,
        qp_y: qp.0,
        qp_c: qp.1,
    };
    proof {
        lemma_planes_same(&marked, &parts, cat, xi, yi, 3);
    }
    let (after, pc) = code_parent(&env.code, s, at.x, at.y, state);
    let ghost parent = pc;
    let ghost all = kids@;
    let leaf = make_parted(modes, mpms, mode_idx, pc, kids);
    let node = CuNode::Leaf(leaf);
    proof {
        assert(parted_steps(marked, parts, qp, pred, mpms@, all, parent));
        lemma_same_trans(&before, &marked, &parts);
        assert(after.same_picture(&parts));
        lemma_same_trans(&before, &parts, &after);
        lemma_unit_fits_same(env.pic, &before, &after, at.x, at.y, at.log2_size);
        lemma_leaf_fits(env.pic, &after, &node, at, ct_depth);
    }
    (after, node)
}

/// Codes a coding unit of one prediction unit.
fn code_plain<'a, F, Q, D>(
    env: &CodeEnv<'a, F, Q, D>,
    p: &CuLeafPlan,
    at: Place,
    ct_depth: u8,
    state: SearchState,
) -> (r: (SearchState, CuNode)) where
    F: Fn(&SearchState, BlockTask) -> BlockOutcome,
    Q: Fn(u32, u32) -> (i32, i32),
    D: Fn(u8) -> u8,

    requires
        code_env_ok(env),
        state.well_formed(),
        unit_fits(env.pic, &state.frame, at.x, at.y, at.log2_size),
        plan_whole(&p.tt, at.log2_size),
        p.chroma_mode_idx <= CHROMA_DM_IDX,
    ensures
        plain_coded(env, *p, at, ct_depth, state, r.0, r.1),
        left_whole(env.pic, at, ct_depth, &state, &r.0, &r.1),
{
    let ghost before = state;
    let mut state = state;
    mark_depth(&mut state, at, ct_depth);
    let ghost marked = state;
    let mpm = mpm_here(&state.maps, at.x, at.y);
    proof {
        lemma_mpm_distinct(&marked, mpm, at.x, at.y);
    }
    mark_mode(&mut state, at, p.luma_mode);
    let ghost noted = state;
    let qp: (i32, i32) = (env.qps)(at.x, at.y);
    let pred: u8 = (env.pred)(p.chroma_mode);
    let s = CodeSettings {
        cat: env.pic.cat,
        luma_mode: p.luma_mode,
        chroma_mode: p.chroma_mode,
        chroma_pred: pred,
        qp_y: qp.0,
        qp_c: qp.1,
    };
    proof {
        assert(noted.frame == before.frame);
    }
    let (after, tt) = code_tree(&env.code, &p.tt, s, at.x, at.y, state);
    let ghost tree = tt;
    let leaf = CuLeaf {
        mpm,
        luma_mode: p.luma_mode,
        chroma_mode_idx: p.chroma_mode_idx,
        nxn: None,
        confidence: DecisionConfidence::Clear,
        tt,
    };
    let node = CuNode::Leaf(leaf);
    proof {
        assert(plain_steps(marked, noted, qp, pred, tree));
        lemma_same_trans(&before, &marked, &noted);
        assert(after.same_picture(&noted));
        lemma_same_trans(&before, &noted, &after);
        lemma_unit_fits_same(env.pic, &before, &after, at.x, at.y, at.log2_size);
        lemma_leaf_fits(env.pic, &after, &node, at, ct_depth);
    }
    (after, node)
}

/// Codes a quadtree as planned.
#[verifier::rlimit(40)]
pub fn final_code_cu<'a, F, Q, D>(
    env: &CodeEnv<'a, F, Q, D>,
    plan: &CuPlan,
    at: Place,
    ct_depth: u8,
    state: SearchState,
) -> (r: (SearchState, CuNode)) where
    F: Fn(&SearchState, BlockTask) -> BlockOutcome,
    Q: Fn(u32, u32) -> (i32, i32),
    D: Fn(u8) -> u8,

    requires
        code_env_ok(env),
        state.well_formed(),
        spot(env.pic, &state, at, ct_depth),
        cu_plan_fits(env.pic, &state.frame, plan, at.x as int, at.y as int, at.log2_size),
    ensures
        cu_coded(env, plan, at, ct_depth, state, r.0, r.1),
        left_whole(env.pic, at, ct_depth, &state, &r.0, &r.1),
    decreases plan,
{
    match plan {
        CuPlan::Leaf(p) => match p.nxn {
            Some(modes) => final_code_cu_nxn(
                env,
                modes,
                p.chroma_mode_idx,
                at,
                ct_depth,
                state,
            ),
            None => code_plain(env, p, at, ct_depth, state),
        },
        CuPlan::Split { kids: plans } => {
            let ghost before = state;
            let ghost pv = kid_places(&before, at);
            let mut state = state;
            mark_depth(&mut state, at, ct_depth);
            let ghost marked = state;
            proof {
                lemma_sides();
                assert(at.log2_size == 4 || at.log2_size == 5 || at.log2_size == 6);
                lemma_plan_fits_same(
                    env.pic,
                    &before,
                    &marked,
                    plan,
                    at.x as int,
                    at.y as int,
                    at.log2_size,
                );
                lemma_spot_same(env.pic, &before, &marked, at, ct_depth);
            }
            let half: u32 = block_side(at.log2_size) / 2;
            let places = cu_kid_positions(at.x, at.y, half, state.maps.width, state.maps.height);
            assert(positions_view(places@) == pv);
            let kl: u8 = at.log2_size - 1;
            let kd: u8 = ct_depth + 1;
            let n: usize = places.len();
            assert(pv.len() == n);
            let mut kids: Vec<CuNode> = Vec::new();
            for i in 0..n
                invariant
                    n == places@.len(),
                    n == pv.len(),
                    n <= plans@.len(),
                    plan matches CuPlan::Split { kids: k } && k == plans,
                    pv == positions_view(places@),
                    pv == kid_places(&marked, at),
                    code_env_ok(env),
                    marked.well_formed(),
                    spot(env.pic, &marked, at, ct_depth),
                    cu_plan_fits(
                        env.pic,
                        &marked.frame,
                        plan,
                        at.x as int,
                        at.y as int,
                        at.log2_size,
                    ),
                    3 < at.log2_size,
                    kl == at.log2_size - 1,
                    kd == ct_depth + 1,
                    state.well_formed(),
                    state.same_picture(&marked),
                    kids@.len() == i,
                    kids_fit(env.pic, &state, kids@, pv, kl, kd),
                    cu_kids_coded(env, plans@, pv, kl, kd, marked, state, kids@, i as nat),
            {
                let (kx, ky) = places[i];
                let kat = Place { x: kx, y: ky, log2_size: kl };
                let ghost mid = state;
                proof {
                    assert(pv[i as int] == (kx as int, ky as int));
                    assert(kat == kid_place(pv[i as int], kl));
                    lemma_kid_spot(env.pic, &marked, at, ct_depth, i as int);
                    lemma_spot_same(env.pic, &marked, &mid, kat, kd);
                    assert(cu_plan_fits(
                        env.pic,
                        &marked.frame,
                        &plans@[i as int],
                        kx as int,
                        ky as int,
                        kl,
                    ));
                    lemma_plan_fits_same(
                        env.pic,
                        &marked,
                        &mid,
                        &plans@[i as int],
                        kx as int,
                        ky as int,
                        kl,
                    );
                }
                let (next, kid) = final_code_cu(env, &plans[i], kat, kd, state);
                let ghost old_kids = kids@;
                let ghost new_kid = kid;
                state = next;
                kids.push(kid);
                proof {
                    lemma_same_trans(&marked, &mid, &state);
                    lemma_kids_later(env.pic, &mid, &state, old_kids, pv, kl, kd);
                    assert forall|j: int| 0 <= j < kids@.len() implies node_fits(
                        env.pic,
                        &state,
                        &#[trigger] kids@[j],
                        kid_place(pv[j], kl),
                        kd,
                    ) by {
                        if j < i {
                            assert(kids@[j] == old_kids[j]);
                        }
                    }
                    lemma_coded_prefix(
                        env,
                        plans@,
                        pv,
                        kl,
                        kd,
                        marked,
                        mid,
                        old_kids,
                        kids@,
                        i as nat,
                    );
                    assert(passing(mid));
                    assert(kids@[i as int] == new_kid);
                }
            }
            let ghost built = kids@;
            let node = CuNode::Split { kids };
            proof {
                assert(passing(marked));
                lemma_same_trans(&before, &marked, &state);
                lemma_spot_same(env.pic, &before, &state, at, ct_depth);
                assert(kid_places(&state, at) == pv);
                assert(node->kids@ == built);
                lemma_split_fits(env.pic, &state, &node, at, ct_depth);
            }
            (state, node)
        },
    }
}

proof fn lemma_coded_prefix<'a, F, Q, D>(
    env: &CodeEnv<'a, F, Q, D>,
    plans: Seq<CuPlan>,
    places: Seq<(int, int)>,
    log2_size: u8,
    ct_depth: u8,
    before: SearchState,
    after: SearchState,
    a: Seq<CuNode>,
    b: Seq<CuNode>,
    n: nat,
) where
    F: Fn(&SearchState, BlockTask) -> BlockOutcome,
    Q: Fn(u32, u32) -> (i32, i32),
    D: Fn(u8) -> u8,

    requires
        cu_kids_coded(env, plans, places, log2_size, ct_depth, before, after, a, n),
        n <= plans.len(),
        forall|i: int| 0 <= i < n ==> #[trigger] a[i] == b[i],
    ensures
        cu_kids_coded(env, plans, places, log2_size, ct_depth, before, after, b, n),
    decreases n,
{
    if n > 0 {
        let mid = choose|mid: SearchState|
            {
                &&& #[trigger] passing(mid)
                &&& cu_kids_coded(
                    env,
                    plans,
                    places,
                    log2_size,
                    ct_depth,
                    before,
                    mid,
                    a,
                    (n - 1) as nat,
                )
                &&& cu_coded(
                    env,
                    &plans[n - 1],
                    kid_place(places[n - 1], log2_size),
                    ct_depth,
                    mid,
                    after,
                    a[n - 1],
                )
            };
        lemma_coded_prefix(
            env,
            plans,
            places,
            log2_size,
            ct_depth,
            before,
            mid,
            a,
            b,
            (n - 1) as nat,
        );
        assert(passing(mid));
        assert(a[n - 1] == b[n - 1]);
    }
}

proof fn lemma_unit_of_tree(
    pic: &SourcePicture,
    frame: &Frame,
    x0: u32,
    y0: u32,
    log2_size: u8,
)
    requires
        8 <= pic.bit_depth <= 16,
        3 <= log2_size <= 6,
        x0 % 2 == 0,
        y0 % 2 == 0,
        tt_in_frame(pic, frame, x0, y0, log2_size),
    ensures
        unit_fits(pic, frame, x0, y0, log2_size),
{
    lemma_half_side(log2_size);
    match spec_chroma_tb_geom(pic.cat, x0, y0, log2_size) {
        Some((cx, cy, clog2, count)) => {
            assert(chroma_in_planes(frame, cx as int, cy as int, clog2, 0));
            assert(0 * side(clog2) == 0 && 1 * side(clog2) == side(clog2));
            if count > 1 {
                assert(chroma_in_planes(frame, cx as int, cy as int, clog2, 1));
            }
        },
        None => {},
    }
}

/// What the search decides can be coded: the plan of every quadtree that it leaves fits
/// the place that it was decided for.
pub proof fn law_decisions_can_be_coded(
    pic: &SourcePicture,
    st: &SearchState,
    node: &CuNode,
    plan: &CuPlan,
    at: Place,
    ct_depth: u8,
)
    requires
        spot(pic, st, at, ct_depth),
        node_fits(pic, st, node, at, ct_depth),
        cu_plan_of(plan, node),
    ensures
        cu_plan_fits(pic, &st.frame, plan, at.x as int, at.y as int, at.log2_size),
    decreases node,
{
    lemma_sides();
    let l = at.log2_size;
    assert(l == 3 || l == 4 || l == 5 || l == 6);
    match node {
        CuNode::Leaf(leaf) => {
            lemma_unit_of_tree(pic, &st.frame, at.x, at.y, l);
            match plan {
                CuPlan::Leaf(p) => {
                    lemma_plan_whole(&p.tt, &leaf.tt, l);
                },
                CuPlan::Split { .. } => {},
            }
        },
        CuNode::Split { kids } => {
            let places = kid_places(st, at);
            match plan {
                CuPlan::Split { kids: plans } => {
                    assert forall|i: int|
                        0 <= i < plans@.len() && i < places.len() implies cu_plan_fits(
                        pic,
                        &st.frame,
                        &#[trigger] plans@[i],
                        places[i].0,
                        places[i].1,
                        (l - 1) as u8,
                    ) by {
                        lemma_kid_spot(pic, st, at, ct_depth, i);
                        let kat = kid_place(places[i], (l - 1) as u8);
                        let kid = kids@[i];
                        assert(cu_plan_of(&plans@[i], &kids@[i]));
                        assert(cu_ok(
                            &st.maps,
                            &kids@[i],
                            places[i].0,
                            places[i].1,
                            (l - 1) as u8,
                            ct_depth + 1,
                        ));
                        assert(node_fits(pic, st, &kids@[i], kat, (ct_depth + 1) as u8));
                        law_decisions_can_be_coded(
                            pic,
                            st,
                            &kids@[i],
                            &plans@[i],
                            kat,
                            (ct_depth + 1) as u8,
                        );
                    }
                },
                CuPlan::Leaf(_) => {},
            }
        },
    }
}

} // verus!
