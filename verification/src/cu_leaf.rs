//! Searching a coding unit that is not split: its luma mode, its chroma mode and its
//! transform tree.

use vstd::prelude::*;

use crate::budget::BlockSearchBudget;
use crate::contexts::Contexts;
use crate::cost::{estimate_cu_leaf_bits, items_cost};
use crate::cost_bound::{lemma_leaf_cost_bound, tt_whole};
use crate::cu_tree::square_in_planes;
use crate::final_code::square_ok;
use crate::unit_modes::{
    law_mpm, mpm_at, mpm_here, mpm_of, note_depth, note_mode, state_of, with_depth, with_mode,
};
use crate::frame::Frame;
use crate::geometry::{block_side, side, MAX_TB_LOG2};
use crate::items::{cu_leaf_items, mpm_distinct};
use crate::math::min_u8;
use crate::mode_search::{
    chroma_decided, decide_chroma_mode, luma_ranked, rank_luma, screening_work, ChromaLimits,
    ChromaModePlan, LumaScreen, LumaScreening,
};
use crate::policy::EvalKind;
use crate::quadtree::whole_leaf;
use crate::ranking::NO_COST;
use crate::rough::{
    count_scan, decide_luma_modes, modes_decided, scan_work, steered_pruning, LumaModePlan, Place,
};
use crate::search_state::{
    lemma_fits_same, restore_region, restored, save_region, save_work, worked, RegionSnapshot,
    SearchState,
};
use crate::source::{
    chroma_in_planes, distortion_tt_region, tt_distortion, tt_in_frame, SourcePicture,
};
use crate::stats::{EncodeStats, Tried};
use crate::syntax::{CuLeaf, DecisionConfidence, Tt};
use crate::texture::{is_uniform, prune_angular_modes, threshold_fits};
use crate::tu_search::lemma_node_cap;

verus! {

/// What the search of a coding unit asks of its caller.
pub struct LeafQuestions<S, T, Y, R, X, K, G, P> {
    /// The rough score of a luma mode.
    pub score: S,
    /// The cost of a luma mode.
    pub trial: T,
    /// Whether two costs of luma modes are close.
    pub luma_close: Y,
    /// The rough cost of a chroma mode next to a luma mode.
    pub rough: R,
    /// The cost of a chroma mode.
    pub chroma_trial: X,
    /// Whether two costs of chroma modes are close.
    pub close: K,
    /// The transform tree of two modes, coded into the state.
    pub tree: G,
    /// The cost of distortion and bits.
    pub price: P,
}

/// How a coding unit is searched.
#[derive(Clone, Copy, Debug, PartialEq, Eq, Structural)]
pub struct LeafSettings {
    pub cat: u8,
    /// Every candidate gets a full trial.
    pub reference: bool,
    /// Luma candidates are screened cheaply.
    pub cheap: bool,
    /// Luma trials are of the fast quality.
    pub fast: bool,
    /// A screen of so many modes takes the place of the budget's number.
    pub screen: Option<usize>,
    pub chroma: ChromaLimits,
}

/// A square of a picture that a search can ask about: it lies in the planes of a state.
pub open spec fn asked(pic: &SourcePicture, s: &SearchState, at: Place) -> bool {
    &&& s.well_formed()
    &&& 8 <= pic.bit_depth <= 16
    &&& 2 <= at.log2_size <= 6
    &&& square_ok(at.x as int, at.y as int, at.log2_size)
    &&& square_in_planes(&s.frame, pic.cat, at.x as int, at.y as int, at.log2_size)
}

/// A luma trial can be asked for: larger units are tried by their subtrees alone.
pub open spec fn trial_asked(
    pic: &SourcePicture,
    s: &SearchState,
    at: Place,
    k: LumaScreen,
) -> bool {
    asked(pic, s, at) && (at.log2_size <= MAX_TB_LOG2 || k is Subtree)
}

/// The caller answers for every square that lies in the planes. Trials have costs, and
/// trees keep the state whole.
pub open spec fn questions_ok<S, T, Y, R, X, K, G, P>(
    q: &LeafQuestions<S, T, Y, R, X, K, G, P>,
    pic: &SourcePicture,
) -> bool where
    S: Fn(&SearchState, Place, u8) -> u64,
    T: Fn(&SearchState, Place, u8, LumaScreen) -> Tried,
    Y: Fn(&SearchState, Place, u64, u64) -> bool,
    R: Fn(&SearchState, Place, u8, u8) -> u64,
    X: Fn(&SearchState, Place, u8, u8, EvalKind) -> Tried,
    K: Fn(&SearchState, Place, u64, u64) -> bool,
    G: Fn(SearchState, Place, u8, u8) -> (SearchState, Tt),
    P: Fn(u64, u64) -> u64,
 {
    &&& forall|s: &SearchState, at: Place, m: u8|
        asked(pic, s, at) && at.log2_size <= MAX_TB_LOG2 ==> #[trigger] call_requires(
            q.score,
            (s, at, m),
        )
    &&& forall|s: &SearchState, at: Place, m: u8, k: LumaScreen|
        trial_asked(pic, s, at, k) ==> #[trigger] call_requires(q.trial, (s, at, m, k))
    &&& forall|s: &SearchState, at: Place, m: u8, k: LumaScreen, c: Tried| #[trigger]
        call_ensures(q.trial, (s, at, m, k), c) && trial_asked(pic, s, at, k) ==> c.cost
            < NO_COST
    &&& forall|s: &SearchState, at: Place, a: u64, b: u64|
        asked(pic, s, at) ==> #[trigger] call_requires(q.luma_close, (s, at, a, b))
    &&& forall|s: &SearchState, at: Place, l: u8, m: u8|
        asked(pic, s, at) && at.log2_size <= MAX_TB_LOG2 ==> #[trigger] call_requires(
            q.rough,
            (s, at, l, m),
        )
    &&& forall|s: &SearchState, at: Place, l: u8, m: u8, k: EvalKind|
        asked(pic, s, at) && at.log2_size <= MAX_TB_LOG2 ==> #[trigger] call_requires(
            q.chroma_trial,
            (s, at, l, m, k),
        )
    &&& forall|s: &SearchState, at: Place, l: u8, m: u8, k: EvalKind, c: Tried| #[trigger]
        call_ensures(q.chroma_trial, (s, at, l, m, k), c) && asked(pic, s, at) && at.log2_size
            <= MAX_TB_LOG2 ==> c.cost < NO_COST
    &&& forall|s: &SearchState, at: Place, a: u64, b: u64|
        asked(pic, s, at) ==> #[trigger] call_requires(q.close, (s, at, a, b))
    &&& forall|s: SearchState, at: Place, l: u8, c: u8|
        asked(pic, &s, at) ==> #[trigger] call_requires(q.tree, (s, at, l, c))
    &&& forall|s: SearchState, at: Place, l: u8, c: u8, r: (SearchState, Tt)| #[trigger]
        call_ensures(q.tree, (s, at, l, c), r) && asked(pic, &s, at) ==> {
            &&& r.0.well_formed()
            &&& r.0.same_picture(&s)
            &&& tt_whole(&r.1, at.log2_size)
        }
    &&& forall|d: u64, b: u64| #[trigger] call_requires(q.price, (d, b))
}

/// A state with a coding unit's depth noted.
pub open spec fn depth_noted(
    before: SearchState,
    after: SearchState,
    x0: int,
    y0: int,
    log2_size: u8,
    depth: u8,
) -> bool {
    &&& after == (SearchState { maps: after.maps, ..before })
    &&& crate::unit_modes::same_picture(&after.maps, &before.maps)
    &&& state_of(&after.maps) == with_depth(
        &before.maps,
        state_of(&before.maps),
        x0,
        y0,
        log2_size,
        depth,
    )
}

/// A state with a luma mode noted.
pub open spec fn mode_noted(
    before: SearchState,
    after: SearchState,
    x0: int,
    y0: int,
    log2_size: u8,
    mode: u8,
) -> bool {
    &&& after == (SearchState { maps: after.maps, ..before })
    &&& crate::unit_modes::same_picture(&after.maps, &before.maps)
    &&& state_of(&after.maps) == with_mode(
        &before.maps,
        state_of(&before.maps),
        x0,
        y0,
        log2_size,
        mode,
    )
}

/// The place of a coding unit's transform blocks.
pub open spec fn tt_place(x0: u32, y0: u32, log2_size: u8) -> Place {
    Place {
        x: x0,
        y: y0,
        log2_size: if log2_size <= MAX_TB_LOG2 {
            log2_size
        } else {
            MAX_TB_LOG2
        },
    }
}

/// A coding unit of given modes and tree.
pub open spec fn plain_leaf(leaf: &CuLeaf, mpm: Seq<u8>, luma_mode: u8, mode_idx: u8, tt: Tt) -> bool {
    &&& leaf.mpm@ == mpm
    &&& leaf.luma_mode == luma_mode
    &&& leaf.chroma_mode_idx == mode_idx
    &&& leaf.nxn is None
    &&& leaf.confidence == DecisionConfidence::Clear
    &&& leaf.tt == tt
}

/// Names the steps of a coding unit's trial.
pub open spec fn mode_steps(
    chroma: ChromaModePlan,
    noted: SearchState,
    work: EncodeStats,
) -> bool {
    true
}

/// A coding unit of a luma mode was built: its chroma mode decided, its mode noted and
/// its tree coded.
pub open spec fn mode_built<S, T, Y, R, X, K, G, P>(
    q: &LeafQuestions<S, T, Y, R, X, K, G, P>,
    set: LeafSettings,
    x0: u32,
    y0: u32,
    log2_size: u8,
    mpm: Seq<u8>,
    luma_mode: u8,
    before: SearchState,
    after: SearchState,
    leaf: CuLeaf,
) -> bool where
    S: Fn(&SearchState, Place, u8) -> u64,
    T: Fn(&SearchState, Place, u8, LumaScreen) -> Tried,
    Y: Fn(&SearchState, Place, u64, u64) -> bool,
    R: Fn(&SearchState, Place, u8, u8) -> u64,
    X: Fn(&SearchState, Place, u8, u8, EvalKind) -> Tried,
    K: Fn(&SearchState, Place, u64, u64) -> bool,
    G: Fn(SearchState, Place, u8, u8) -> (SearchState, Tt),
    P: Fn(u64, u64) -> u64,
 {
    exists|chroma: ChromaModePlan, noted: SearchState, work: EncodeStats|
        {
            &&& #[trigger] mode_steps(chroma, noted, work)
            &&& chroma_decided(
                &before,
                tt_place(x0, y0, log2_size),
                set.cat,
                luma_mode,
                q.rough,
                q.chroma_trial,
                q.close,
                set.chroma,
                chroma,
                work,
            )
            &&& mode_noted(
                worked(before, work),
                noted,
                x0 as int,
                y0 as int,
                log2_size,
                luma_mode,
            )
            &&& call_ensures(
                q.tree,
                (noted, Place { x: x0, y: y0, log2_size }, luma_mode, chroma.mode),
                (after, leaf.tt),
            )
            &&& plain_leaf(&leaf, mpm, luma_mode, chroma.mode_idx, leaf.tt)
        }
}

fn build_mode<S, T, Y, R, X, K, G, P>(
    q: &LeafQuestions<S, T, Y, R, X, K, G, P>,
    set: LeafSettings,
    pic: &SourcePicture,
    x0: u32,
    y0: u32,
    log2_size: u8,
    mpm: [u8; 3],
    luma_mode: u8,
    state: SearchState,
) -> (r: (SearchState, CuLeaf)) where
    S: Fn(&SearchState, Place, u8) -> u64,
    T: Fn(&SearchState, Place, u8, LumaScreen) -> Tried,
    Y: Fn(&SearchState, Place, u64, u64) -> bool,
    R: Fn(&SearchState, Place, u8, u8) -> u64,
    X: Fn(&SearchState, Place, u8, u8, EvalKind) -> Tried,
    K: Fn(&SearchState, Place, u64, u64) -> bool,
    G: Fn(SearchState, Place, u8, u8) -> (SearchState, Tt),
    P: Fn(u64, u64) -> u64,

    requires
        questions_ok(q, pic),
        unit_fits(pic, &state.frame, x0, y0, log2_size),
        mpm_distinct(mpm),
        state.well_formed(),
    ensures
        mode_built(q, set, x0, y0, log2_size, mpm@, luma_mode, state, r.0, r.1),
        r.0.well_formed(),
        r.0.same_picture(&state),
        whole_leaf(&r.1, log2_size),
{
    let ghost before = state;
    let at_tt = Place { x: x0, y: y0, log2_size: min_u8(log2_size, MAX_TB_LOG2) };
    let at_cu = Place { x: x0, y: y0, log2_size };
    proof {
        lemma_unit_asked(pic, &state, x0, y0, log2_size);
    }
    let (chroma, work) = decide_chroma_mode(
        &state,
        at_tt,
        set.cat,
        luma_mode,
        &q.rough,
        &q.chroma_trial,
        &q.close,
        set.chroma,
    );
    let mut state = state;
    state.count(work);
    note_mode(&mut state.maps, x0, y0, log2_size, luma_mode);
    let ghost noted = state;
    proof {
        assert(mode_steps(chroma, noted, work));
        assert(noted.frame.same_shape(&before.frame));
        assert(noted.same_picture(&before));
        lemma_unit_fits_same(pic, &before, &noted, x0, y0, log2_size);
        lemma_unit_asked(pic, &noted, x0, y0, log2_size);
    }
    let (after, tt) = (q.tree)(state, at_cu, luma_mode, chroma.mode);
    proof {
        assert(call_ensures(q.tree, (noted, at_cu, luma_mode, chroma.mode), (after, tt)));
        lemma_same_trans(&before, &noted, &after);
    }
    (
        after,
        CuLeaf {
            mpm,
            luma_mode,
            chroma_mode_idx: chroma.mode_idx,
            nxn: None,
            confidence: DecisionConfidence::Clear,
            tt,
        },
    )
}

/// States of the same picture.
pub proof fn lemma_same_trans(a: &SearchState, b: &SearchState, c: &SearchState)
    requires
        b.same_picture(a),
        c.same_picture(b),
    ensures
        c.same_picture(a),
{
    assert forall|k: int| 0 <= k < c.frame.planes@.len() implies ({
        &&& (#[trigger] c.frame.planes@[k]).width == a.frame.planes@[k].width
        &&& c.frame.planes@[k].height == a.frame.planes@[k].height
        &&& c.frame.planes@[k].stride == a.frame.planes@[k].stride
        &&& c.frame.planes@[k].data@.len() == a.frame.planes@[k].data@.len()
    }) by {
        assert(b.frame.planes@[k].width == a.frame.planes@[k].width);
        assert(c.frame.planes@[k].width == b.frame.planes@[k].width);
    }
}

/// A coding unit that is kept while others are tried.
pub struct KeptLeaf {
    pub leaf: CuLeaf,
    pub cost: u64,
    pub region: RegionSnapshot,
}

/// Names the steps of one trial among several.
pub open spec fn trial_steps(
    mid: SearchState,
    kept: Option<KeptLeaf>,
    start: SearchState,
    built: SearchState,
    leaf: CuLeaf,
    cost: u64,
) -> bool {
    true
}

/// The first `n` candidates were each tried in full from the same region, and the first
/// of the cheapest kept.
pub open spec fn trials_run<S, T, Y, R, X, K, G, P>(
    q: &LeafQuestions<S, T, Y, R, X, K, G, P>,
    set: LeafSettings,
    pic: &SourcePicture,
    ctxs: Seq<int>,
    x0: u32,
    y0: u32,
    log2_size: u8,
    mpm: Seq<u8>,
    candidates: Seq<u8>,
    base: RegionSnapshot,
    before: SearchState,
    n: nat,
    after: SearchState,
    kept: Option<KeptLeaf>,
) -> bool where
    S: Fn(&SearchState, Place, u8) -> u64,
    T: Fn(&SearchState, Place, u8, LumaScreen) -> Tried,
    Y: Fn(&SearchState, Place, u64, u64) -> bool,
    R: Fn(&SearchState, Place, u8, u8) -> u64,
    X: Fn(&SearchState, Place, u8, u8, EvalKind) -> Tried,
    K: Fn(&SearchState, Place, u64, u64) -> bool,
    G: Fn(SearchState, Place, u8, u8) -> (SearchState, Tt),
    P: Fn(u64, u64) -> u64,

    decreases n,
{
    if n == 0 {
        after == before && kept is None
    } else {
        exists|
            mid: SearchState,
            earlier: Option<KeptLeaf>,
            start: SearchState,
            built: SearchState,
            leaf: CuLeaf,
            cost: u64,
        |
            {
                &&& #[trigger] trial_steps(mid, earlier, start, built, leaf, cost)
                &&& trials_run(
                    q,
                    set,
                    pic,
                    ctxs,
                    x0,
                    y0,
                    log2_size,
                    mpm,
                    candidates,
                    base,
                    before,
                    (n - 1) as nat,
                    mid,
                    earlier,
                )
                &&& restored(&worked(mid, screening_work(1)), &start, &base)
                &&& mode_built(
                    q,
                    set,
                    x0,
                    y0,
                    log2_size,
                    mpm,
                    candidates[n - 1],
                    start,
                    built,
                    leaf,
                )
                &&& leaf_priced(q, pic, ctxs, set.cat, x0, y0, log2_size, &built, &leaf, cost)
                &&& if (earlier matches Some(e) ==> cost < e.cost) {
                    &&& kept matches Some(k)
                    &&& k.leaf == leaf
                    &&& k.cost == cost
                    &&& k.region.copies(&built, x0, y0, log2_size)
                    &&& after == worked(built, save_work(&k.region))
                } else {
                    kept == earlier && after == built
                }
            }
    }
}

/// What a coding unit costs in a state.
pub open spec fn leaf_priced<S, T, Y, R, X, K, G, P>(
    q: &LeafQuestions<S, T, Y, R, X, K, G, P>,
    pic: &SourcePicture,
    ctxs: Seq<int>,
    cat: u8,
    x0: u32,
    y0: u32,
    log2_size: u8,
    state: &SearchState,
    leaf: &CuLeaf,
    cost: u64,
) -> bool where P: Fn(u64, u64) -> u64 {
    call_ensures(
        q.price,
        (
            tt_distortion(pic, &state.frame, x0, y0, log2_size) as u64,
            items_cost(ctxs, cu_leaf_items(leaf, log2_size, cat)) as u64,
        ),
        cost,
    )
}

/// The sizes that a coding unit needs of the picture.
pub open spec fn unit_fits(
    pic: &SourcePicture,
    frame: &Frame,
    x0: u32,
    y0: u32,
    log2_size: u8,
) -> bool {
    &&& 8 <= pic.bit_depth <= 16
    &&& 3 <= log2_size <= 6
    &&& square_ok(x0 as int, y0 as int, log2_size)
    &&& square_in_planes(frame, pic.cat, x0 as int, y0 as int, log2_size)
}

pub proof fn lemma_unit_in_frame(
    pic: &SourcePicture,
    frame: &Frame,
    x0: u32,
    y0: u32,
    log2_size: u8,
)
    requires
        unit_fits(pic, frame, x0, y0, log2_size),
    ensures
        tt_in_frame(pic, frame, x0, y0, log2_size),
{
    crate::write::lemma_half_side(log2_size);
    match crate::geometry::spec_chroma_tb_geom(pic.cat, x0, y0, log2_size) {
        Some((cx, cy, clog2, count)) => {
            assert forall|n: int| 0 <= n < count implies #[trigger] chroma_in_planes(
                frame,
                cx as int,
                cy as int,
                clog2,
                n,
            ) by {
                assert(n == 0 || n == 1);
                assert(0 * side(clog2) == 0 && 1 * side(clog2) == side(clog2));
            }
        },
        None => {},
    }
}

/// A unit that fits one state of a picture fits all of them.
pub proof fn lemma_unit_fits_same(
    pic: &SourcePicture,
    a: &SearchState,
    b: &SearchState,
    x0: u32,
    y0: u32,
    log2_size: u8,
)
    requires
        unit_fits(pic, &a.frame, x0, y0, log2_size),
        b.same_picture(a),
        a.frame.well_formed(),
    ensures
        unit_fits(pic, &b.frame, x0, y0, log2_size),
{
    assert(b.frame.planes@[0].width == a.frame.planes@[0].width);
    assert(b.frame.planes@[1].width == a.frame.planes@[1].width);
    assert(b.frame.planes@[2].width == a.frame.planes@[2].width);
}

/// A unit and its transform blocks can be asked about.
pub proof fn lemma_unit_asked(
    pic: &SourcePicture,
    s: &SearchState,
    x0: u32,
    y0: u32,
    log2_size: u8,
)
    requires
        unit_fits(pic, &s.frame, x0, y0, log2_size),
        s.well_formed(),
    ensures
        asked(pic, s, Place { x: x0, y: y0, log2_size }),
        asked(pic, s, tt_place(x0, y0, log2_size)),
{
    lemma_tt_side(
        if log2_size <= MAX_TB_LOG2 {
            log2_size
        } else {
            MAX_TB_LOG2
        },
        log2_size,
    );
}

/// Tries every candidate in full and keeps the cheapest, with the state it leaves.
fn try_all<S, T, Y, R, X, K, G, P>(
    q: &LeafQuestions<S, T, Y, R, X, K, G, P>,
    set: LeafSettings,
    pic: &SourcePicture,
    ctxs: &Contexts,
    x0: u32,
    y0: u32,
    log2_size: u8,
    mpm: [u8; 3],
    candidates: &Vec<u8>,
    state: SearchState,
) -> (r: (SearchState, CuLeaf)) where
    S: Fn(&SearchState, Place, u8) -> u64,
    T: Fn(&SearchState, Place, u8, LumaScreen) -> Tried,
    Y: Fn(&SearchState, Place, u64, u64) -> bool,
    R: Fn(&SearchState, Place, u8, u8) -> u64,
    X: Fn(&SearchState, Place, u8, u8, EvalKind) -> Tried,
    K: Fn(&SearchState, Place, u64, u64) -> bool,
    G: Fn(SearchState, Place, u8, u8) -> (SearchState, Tt),
    P: Fn(u64, u64) -> u64,

    requires
        questions_ok(q, pic),
        ctxs.well_formed(),
        unit_fits(pic, &state.frame, x0, y0, log2_size),
        set.cat == pic.cat,
        mpm_distinct(mpm),
        candidates@.len() > 0,
        state.well_formed(),
    ensures
        all_tried(
            q,
            set,
            pic,
            ctxs@,
            x0,
            y0,
            log2_size,
            mpm@,
            candidates@,
            state,
            r.0,
            r.1,
        ),
        r.0.well_formed(),
        r.0.same_picture(&state),
        whole_leaf(&r.1, log2_size),
{
    let ghost before = state;
    let mut state = state;
    let base = save_region(&mut state, x0, y0, log2_size);
    let ghost first = state;
    let mut kept: Option<KeptLeaf> = None;
    let n: usize = candidates.len();
    for i in 0..n
        invariant
            n == candidates@.len(),
            questions_ok(q, pic),
            ctxs.well_formed(),
            unit_fits(pic, &before.frame, x0, y0, log2_size),
            set.cat == pic.cat,
            mpm_distinct(mpm),
            before.well_formed(),
            base.fits(&before),
            state.well_formed(),
            state.same_picture(&before),
            trials_run(
                q,
                set,
                pic,
                ctxs@,
                x0,
                y0,
                log2_size,
                mpm@,
                candidates@,
                base,
                first,
                i as nat,
                state,
                kept,
            ),
            i > 0 ==> kept is Some,
            kept matches Some(k) ==> whole_leaf(&k.leaf, log2_size) && k.region.fits(&before),
    {
        let ghost mid = state;
        let ghost earlier = kept;
        state.count(EncodeStats { cu_trials: 1, ..EncodeStats::default() });
        let ghost counted = state;
        proof {
            lemma_same_trans(&before, &mid, &counted);
            lemma_fits_same(&base, &before, &counted);
        }
        restore_region(&mut state, &base);
        let ghost start = state;
        proof {
            lemma_same_trans(&before, &counted, &start);
            lemma_unit_fits_same(pic, &before, &start, x0, y0, log2_size);
        }
        let (mut after, leaf) = build_mode(
            q,
            set,
            pic,
            x0,
            y0,
            log2_size,
            mpm,
            candidates[i],
            state,
        );
        let ghost built = after;
        let ghost one = leaf;
        proof {
            lemma_same_trans(&before, &start, &after);
            lemma_unit_fits_same(pic, &before, &after, x0, y0, log2_size);
            lemma_unit_in_frame(pic, &after.frame, x0, y0, log2_size);
            lemma_leaf_cost_bound(ctxs@, &leaf, log2_size, set.cat, log2_size);
            lemma_node_cap(log2_size);
        }
        let distortion: u64 = distortion_tt_region(pic, &after.frame, x0, y0, log2_size);
        let bits: u64 = estimate_cu_leaf_bits(ctxs, &leaf, log2_size, set.cat);
        let cost: u64 = (q.price)(distortion, bits);
        assert(trial_steps(mid, earlier, start, built, one, cost));
        assert(leaf_priced(q, pic, ctxs@, set.cat, x0, y0, log2_size, &built, &one, cost));
        let better: bool = match &kept {
            Some(e) => cost < e.cost,
            None => true,
        };
        if better {
            let region = save_region(&mut after, x0, y0, log2_size);
            proof {
                lemma_same_trans(&before, &built, &after);
                lemma_same_sym(&before, &built);
                lemma_fits_same(&region, &built, &before);
            }
            kept = Some(KeptLeaf { leaf, cost, region });
        }
        state = after;
        assert(trials_run(
            q,
            set,
            pic,
            ctxs@,
            x0,
            y0,
            log2_size,
            mpm@,
            candidates@,
            base,
            first,
            (i + 1) as nat,
            state,
            kept,
        ));
    }
    let ghost last = state;
    let won = kept.unwrap();
    proof {
        lemma_fits_same(&won.region, &before, &last);
    }
    restore_region(&mut state, &won.region);
    proof {
        lemma_same_trans(&before, &last, &state);
        assert(all_steps(base, last, won));
    }
    (state, won.leaf)
}

pub proof fn lemma_same_sym(a: &SearchState, b: &SearchState)
    requires
        b.same_picture(a),
    ensures
        a.same_picture(b),
{
    assert forall|k: int| 0 <= k < a.frame.planes@.len() implies ({
        &&& (#[trigger] a.frame.planes@[k]).width == b.frame.planes@[k].width
        &&& a.frame.planes@[k].height == b.frame.planes@[k].height
        &&& a.frame.planes@[k].stride == b.frame.planes@[k].stride
        &&& a.frame.planes@[k].data@.len() == b.frame.planes@[k].data@.len()
    }) by {
        assert(b.frame.planes@[k].width == a.frame.planes@[k].width);
    }
}

/// Names the region that full trials start from, the state that they leave, and the
/// winner.
pub open spec fn all_steps(base: RegionSnapshot, last: SearchState, won: KeptLeaf) -> bool {
    true
}

/// Every candidate was tried in full, and the winner's region put back.
pub open spec fn all_tried<S, T, Y, R, X, K, G, P>(
    q: &LeafQuestions<S, T, Y, R, X, K, G, P>,
    set: LeafSettings,
    pic: &SourcePicture,
    ctxs: Seq<int>,
    x0: u32,
    y0: u32,
    log2_size: u8,
    mpm: Seq<u8>,
    candidates: Seq<u8>,
    before: SearchState,
    after: SearchState,
    leaf: CuLeaf,
) -> bool where
    S: Fn(&SearchState, Place, u8) -> u64,
    T: Fn(&SearchState, Place, u8, LumaScreen) -> Tried,
    Y: Fn(&SearchState, Place, u64, u64) -> bool,
    R: Fn(&SearchState, Place, u8, u8) -> u64,
    X: Fn(&SearchState, Place, u8, u8, EvalKind) -> Tried,
    K: Fn(&SearchState, Place, u64, u64) -> bool,
    G: Fn(SearchState, Place, u8, u8) -> (SearchState, Tt),
    P: Fn(u64, u64) -> u64,
 {
    exists|base: RegionSnapshot, last: SearchState, won: KeptLeaf|
        {
            &&& #[trigger] all_steps(base, last, won)
            &&& base.copies(&before, x0, y0, log2_size)
            &&& trials_run(
                q,
                set,
                pic,
                ctxs,
                x0,
                y0,
                log2_size,
                mpm,
                candidates,
                base,
                worked(before, save_work(&base)),
                candidates.len(),
                last,
                Some(won),
            )
            &&& restored(&last, &after, &won.region)
            &&& leaf == won.leaf
        }
}

/// The samples of a luma block, row by row.
pub open spec fn luma_samples(pic: &SourcePicture, at: Place) -> Seq<u16> {
    let size = side(at.log2_size);
    Seq::new(
        (size * size) as nat,
        |k: int| pic.sample(0, at.x + k % size, at.y + k / size),
    )
}

/// A luma block is too smooth for angular modes.
pub open spec fn smooth_block(pic: &SourcePicture, threshold: Option<i64>, at: Place) -> bool {
    is_uniform(luma_samples(pic, at), side(at.log2_size), threshold, pic.bit_depth as int)
}

/// Names the steps of a coding unit's search.
pub open spec fn leaf_steps(
    marked: SearchState,
    plan: LumaModePlan,
    work: EncodeStats,
) -> bool {
    true
}

/// A coding unit was searched: its depth noted, its candidate modes decided, and either
/// the best of them ranked and built, or each of them built and the cheapest kept.
pub open spec fn leaf_built<S, T, Y, R, X, K, G, P>(
    q: &LeafQuestions<S, T, Y, R, X, K, G, P>,
    set: LeafSettings,
    budget: &BlockSearchBudget,
    pic: &SourcePicture,
    ctxs: Seq<int>,
    x0: u32,
    y0: u32,
    log2_size: u8,
    ct_depth: u8,
    before: SearchState,
    after: SearchState,
    leaf: CuLeaf,
) -> bool where
    S: Fn(&SearchState, Place, u8) -> u64,
    T: Fn(&SearchState, Place, u8, LumaScreen) -> Tried,
    Y: Fn(&SearchState, Place, u64, u64) -> bool,
    R: Fn(&SearchState, Place, u8, u8) -> u64,
    X: Fn(&SearchState, Place, u8, u8, EvalKind) -> Tried,
    K: Fn(&SearchState, Place, u64, u64) -> bool,
    G: Fn(SearchState, Place, u8, u8) -> (SearchState, Tt),
    P: Fn(u64, u64) -> u64,
 {
    exists|marked: SearchState, plan: LumaModePlan, work: EncodeStats|
        {
            let scanned = worked(marked, scan_work(plan.scored as nat));
            let mpm = mpm_at(&marked.maps, marked.maps.mode_map@, x0, y0);
            let candidates = plan.selection.candidates@;
            &&& #[trigger] leaf_steps(marked, plan, work)
            &&& depth_noted(before, marked, x0 as int, y0 as int, log2_size, ct_depth)
            &&& modes_decided(
                &marked,
                tt_place(x0, y0, log2_size),
                q.score,
                budget,
                mpm,
                set.screen,
                &plan,
            )
            &&& plan.pruning == steered_pruning(
                budget.angular_prune,
                smooth_block(
                    pic,
                    budget.angular_prune_var_threshold_8bit,
                    tt_place(x0, y0, log2_size),
                ),
            )
            &&& if candidates.len() > 1 && !set.reference {
                &&& luma_ranked(
                    &scanned,
                    Place { x: x0, y: y0, log2_size },
                    q.trial,
                    q.luma_close,
                    LumaScreening {
                        single_block: log2_size <= MAX_TB_LOG2,
                        cheap: set.cheap,
                        fast: set.fast,
                    },
                    if log2_size > MAX_TB_LOG2 {
                        LumaScreen::Subtree
                    } else if set.cheap {
                        LumaScreen::Block(EvalKind::CheapTrial)
                    } else {
                        LumaScreen::Block(EvalKind::ExactTrial)
                    },
                    candidates,
                    leaf.luma_mode,
                    work,
                )
                &&& mode_built(
                    q,
                    set,
                    x0,
                    y0,
                    log2_size,
                    mpm,
                    leaf.luma_mode,
                    worked(scanned, work),
                    after,
                    leaf,
                )
            } else {
                all_tried(
                    q,
                    set,
                    pic,
                    ctxs,
                    x0,
                    y0,
                    log2_size,
                    mpm,
                    candidates,
                    scanned,
                    after,
                    leaf,
                )
            }
        }
}

/// Searches a coding unit that is not split.
pub fn build_cu_leaf<S, T, Y, R, X, K, G, P>(
    q: &LeafQuestions<S, T, Y, R, X, K, G, P>,
    set: LeafSettings,
    budget: &BlockSearchBudget,
    pic: &SourcePicture,
    ctxs: &Contexts,
    x0: u32,
    y0: u32,
    log2_size: u8,
    ct_depth: u8,
    state: SearchState,
) -> (r: (SearchState, CuLeaf)) where
    S: Fn(&SearchState, Place, u8) -> u64,
    T: Fn(&SearchState, Place, u8, LumaScreen) -> Tried,
    Y: Fn(&SearchState, Place, u64, u64) -> bool,
    R: Fn(&SearchState, Place, u8, u8) -> u64,
    X: Fn(&SearchState, Place, u8, u8, EvalKind) -> Tried,
    K: Fn(&SearchState, Place, u64, u64) -> bool,
    G: Fn(SearchState, Place, u8, u8) -> (SearchState, Tt),
    P: Fn(u64, u64) -> u64,

    requires
        questions_ok(q, pic),
        ctxs.well_formed(),
        unit_fits(pic, &state.frame, x0, y0, log2_size),
        set.cat == pic.cat,
        set.screen is Some ==> 0 < set.screen.unwrap() <= u32::MAX,
        budget.luma_rd_candidates > 0,
        threshold_fits(budget.angular_prune_var_threshold_8bit, pic.bit_depth as int),
        state.well_formed(),
    ensures
        leaf_built(
            q,
            set,
            budget,
            pic,
            ctxs@,
            x0,
            y0,
            log2_size,
            ct_depth,
            state,
            r.0,
            r.1,
        ),
        r.0.well_formed(),
        r.0.same_picture(&state),
        whole_leaf(&r.1, log2_size),
{
    let ghost before = state;
    let mut state = state;
    note_depth(&mut state.maps, x0, y0, log2_size, ct_depth);
    let ghost marked = state;
    proof {
        assert(marked.frame.same_shape(&before.frame));
        assert(marked.same_picture(&before));
        lemma_unit_fits_same(pic, &before, &marked, x0, y0, log2_size);
    }
    let mpm = mpm_here(&state.maps, x0, y0);
    proof {
        lemma_mpm_distinct(&marked, mpm, x0, y0);
    }
    let tt_log2: u8 = min_u8(log2_size, MAX_TB_LOG2);
    let at_tt = Place { x: x0, y: y0, log2_size: tt_log2 };
    let size: u32 = block_side(tt_log2);
    proof {
        lemma_tt_side(tt_log2, log2_size);
        assert(size * size <= 1024) by (nonlinear_arith)
            requires
                0 <= size <= 32,
        ;
    }
    let src = pic.source_block(0, x0, y0, size);
    assert(src@ =~= luma_samples(pic, at_tt));
    let smooth: bool = prune_angular_modes(
        &src,
        size as usize,
        budget.angular_prune_var_threshold_8bit,
        pic.bit_depth,
    );
    proof {
        lemma_unit_asked(pic, &marked, x0, y0, log2_size);
    }
    let plan = decide_luma_modes(&state, at_tt, &q.score, budget, mpm, smooth, set.screen);
    state.count(count_scan(plan.scored));
    let ghost scanned = state;
    proof {
        lemma_same_trans(&before, &marked, &scanned);
        lemma_unit_fits_same(pic, &before, &scanned, x0, y0, log2_size);
        lemma_unit_asked(pic, &scanned, x0, y0, log2_size);
    }
    let candidates = &plan.selection.candidates;
    if candidates.len() > 1 && !set.reference {
        let at_cu = Place { x: x0, y: y0, log2_size };
        let (mode, work) = rank_luma(
            &state,
            at_cu,
            &q.trial,
            &q.luma_close,
            candidates,
            set.cheap,
            set.fast,
        );
        state.count(work);
        let ghost ranked = state;
        proof {
            lemma_same_trans(&before, &scanned, &ranked);
            lemma_unit_fits_same(pic, &before, &ranked, x0, y0, log2_size);
        }
        let (after, leaf) = build_mode(q, set, pic, x0, y0, log2_size, mpm, mode, state);
        proof {
            assert(leaf_steps(marked, plan, work));
            lemma_same_trans(&before, &ranked, &after);
        }
        (after, leaf)
    } else {
        let (after, leaf) = try_all(
            q,
            set,
            pic,
            ctxs,
            x0,
            y0,
            log2_size,
            mpm,
            candidates,
            state,
        );
        proof {
            assert(leaf_steps(marked, plan, EncodeStats::none()));
            lemma_same_trans(&before, &scanned, &after);
        }
        (after, leaf)
    }
}

proof fn lemma_tt_side(tt_log2: u8, log2_size: u8)
    requires
        tt_log2 <= log2_size,
        3 <= tt_log2 <= 5,
    ensures
        8 <= side(tt_log2) <= 32,
        side(tt_log2) <= side(log2_size),
{
    vstd::arithmetic::power2::lemma2_to64();
    if tt_log2 < log2_size {
        vstd::arithmetic::power2::lemma_pow2_strictly_increases(tt_log2 as nat, log2_size as nat);
    }
}

pub proof fn lemma_mpm_distinct(st: &SearchState, mpm: [u8; 3], x0: u32, y0: u32)
    requires
        mpm@ == mpm_at(&st.maps, st.maps.mode_map@, x0, y0),
    ensures
        mpm_distinct(mpm),
{
    let left = if x0 == 0 || !st.maps.tile_grid.same_tile((x0 - 1) as u32, y0, x0, y0) {
        crate::maps::DC_MODE
    } else {
        crate::maps::valid_mode(
            crate::unit_modes::mode_in(&st.maps, st.maps.mode_map@, x0 - 1, y0 as int),
        )
    };
    let above = if y0 == 0 || !st.maps.tile_grid.same_tile(x0, (y0 - 1) as u32, x0, y0) || y0 % 64
        == 0 {
        crate::maps::DC_MODE
    } else {
        crate::maps::valid_mode(
            crate::unit_modes::mode_in(&st.maps, st.maps.mode_map@, x0 as int, y0 - 1),
        )
    };
    law_mpm(left, above);
    assert(mpm@ == mpm_of(left, above));
}

} // verus!
