//! Searching and coding quadtrees with a coder that fills each block with its mean.

use still265::budget::{inert, BlockDesc, BlockSearchBudget, RegionClass};
use still265::config::{
    AqMode, ChromaFormat, DeblockMode, Effort, SaoMode, StillHevcConfig,
};
use still265::contexts::{Contexts, NUM_CONTEXTS};
use still265::cu_leaf::{build_cu_leaf, LeafQuestions, LeafSettings};
use still265::cu_search::{build_cu, decide_cu, CuEnv};
use still265::cu_tree::{analyze_tt, code_tree};
use still265::effort::{ComponentKind, RmdModeSet, SplitSearch};
use still265::encode_pass::{pass_setup, start_state, PassRun};
use still265::final_code::{BlockTask, CodeSettings};
use still265::luma_search::decide_luma_tt;
use still265::maps::TileGrid;
use still265::mode_search::{ChromaLimits, LumaScreen, PartNxnPrune};
use still265::nxn_search::{
    build_cu_leaf_nxn, rough_best_luma_mode, should_try_partnxn_8x8, NxnEnv,
};
use still265::policy::EvalKind;
use still265::presets::template;
use still265::replay::{final_code_cu, CodeEnv};
use still265::rough::Place;
use still265::search_state::{
    restore_region, save_region, SearchState,
};
use still265::slice::write_slice;
use still265::slice_build::build_slice_trees;
use still265::source::{distortion_tt_region, Source, SourcePicture};
use still265::stats::{EncodeStats, Tried};
use still265::syntax::{
    cu_to_plan, CodedBlock, CuLeaf, CuNode, CuPlan, DecisionConfidence, Tt, TtPlan,
};
use still265::trial_region::TrialReconRegion;
use still265::tu_search::{decide_tt, BlockOutcome, TtEnv};

fn config(width: u32, height: u32, chroma: ChromaFormat) -> StillHevcConfig {
    StillHevcConfig {
        width,
        height,
        bit_depth: 8,
        chroma,
        qp: 30,
        effort: Effort::Placebo,
        sao: SaoMode::Off,
        deblock: DeblockMode::Off,
        adaptive_qp: false,
        aq_mode: AqMode::Off,
        aq_strength_milli: 350,
        aq_clamp: 2,
        two_pass_gate: true,
    }
}

fn fresh(width: u32, height: u32, chroma: ChromaFormat) -> SearchState {
    let c = config(width, height, chroma);
    let run = PassRun { aq_active: false, chroma_qp_offset: 0, oracle: true };
    let s = pass_setup(&c, run).unwrap();
    start_state(&s, width, height, TileGrid::single())
}

fn contexts() -> Contexts {
    Contexts::new(&[154u8; NUM_CONTEXTS], 30)
}

fn budget(log2_size: u8) -> BlockSearchBudget {
    template(Effort::Placebo).resolve(BlockDesc {
        x: 0,
        y: 0,
        log2_size,
        qp: 30,
        region: RegionClass::Texture,
        importance_q8: 128,
        component: ComponentKind::Luma,
        policy: inert(),
    })
}

/// A picture of squares that alternate between two values.
fn checks(width: u32, height: u32, cell: u32) -> Vec<u16> {
    let mut v = Vec::new();
    for y in 0..height {
        for x in 0..width {
            v.push(if (x / cell + y / cell) % 2 == 0 { 40 } else { 200 });
        }
    }
    v
}

fn mean_code(pic: &SourcePicture, t: BlockTask) -> BlockOutcome {
    let size = 1u32 << t.log2_size;
    let src = pic.source_block(t.c_idx, t.x, t.y, size);
    let sum: u64 = src.iter().map(|&v| v as u64).sum();
    let mean = (sum / src.len() as u64) as u16;
    let distortion = src.iter().map(|&v| (v as i64 - mean as i64).pow(2) as u64).sum();
    BlockOutcome {
        coded: CodedBlock { levels: vec![mean as i16], cbf: true, frac_bits: 32768 },
        distortion,
        samples: vec![mean; src.len()],
        work: EncodeStats { forward_transforms: 1, inverse_transforms: 1, ..EncodeStats::default() },
    }
}

/// A trial that took one exact estimate.
fn tried(cost: u64) -> Tried {
    Tried { cost, work: EncodeStats { residual_bit_estimates: 1, ..EncodeStats::default() } }
}

fn price(d: u64, b: u64) -> u64 {
    d * 100 + b / 3277
}

fn tt_shape(log2_size: u8, depth: u8) -> TtPlan {
    if log2_size > 5 {
        TtPlan::Split {
            log2_size,
            trafo_depth: depth,
            parent_chroma: None,
            kids: (0..4).map(|_| tt_shape(log2_size - 1, depth + 1)).collect(),
        }
    } else {
        TtPlan::Leaf { log2_size, trafo_depth: depth }
    }
}

fn settings(cat: u8) -> CodeSettings {
    CodeSettings { cat, luma_mode: 1, chroma_mode: 1, chroma_pred: 1, qp_y: 30, qp_c: 30 }
}

fn leaf_of(tt: Tt) -> CuLeaf {
    CuLeaf {
        mpm: [0, 1, 26],
        luma_mode: 1,
        chroma_mode_idx: 4,
        nxn: None,
        confidence: DecisionConfidence::Close,
        tt,
    }
}

fn depth_of(node: &CuNode) -> u32 {
    match node {
        CuNode::Leaf(_) => 0,
        CuNode::Split { kids } => 1 + kids.iter().map(depth_of).max().unwrap(),
    }
}

fn units(node: &CuNode) -> usize {
    match node {
        CuNode::Leaf(_) => 1,
        CuNode::Split { kids } => kids.iter().map(units).sum(),
    }
}

/// Builds the coding tree block at the origin, with a split search forced or not.
fn build(
    width: u32,
    height: u32,
    y: &[u16],
    split: Option<SplitSearch>,
    keep: bool,
) -> (SearchState, CuNode) {
    let pic = SourcePicture { width, height, cat: 0, bit_depth: 8, src: Source { y, cb: &[], cr: &[] } };
    let ctxs = contexts();
    let env = CuEnv {
        pic: &pic,
        ctxs: &ctxs,
        parts: false,
        keep,
        leaf: |s: SearchState, at: Place, _d: u8| {
            let code = |_s: &SearchState, t: BlockTask| mean_code(&pic, t);
            let (s, tt) =
                code_tree(&code, &tt_shape(at.log2_size, 0), settings(0), at.x, at.y, s);
            (s, leaf_of(tt))
        },
        nxn: |s: SearchState, _at: Place, _d: u8| {
            (s, leaf_of(Tt::Leaf(still265::syntax::LeafTu {
                log2_size: 3,
                chroma_log2: 0,
                trafo_depth: 0,
                luma_mode: 1,
                chroma_mode: 1,
                luma: CodedBlock::empty(),
                cb: CodedBlock::empty(),
                cr: CodedBlock::empty(),
                cb1: CodedBlock::empty(),
                cr1: CodedBlock::empty(),
            })))
        },
        try_nxn: |_s: &SearchState, _at: Place| (false, EncodeStats::default()),
        budget: |_s: &SearchState, at: Place| {
            let mut b = budget(at.log2_size);
            if let Some(split) = split {
                b.cu_split = split;
            }
            (b, 30)
        },
        price: |d: u64, b: u64| price(d, b),
        close: |_g: BlockSearchBudget, low: u64, high: u64| high - low < low / 50,
        residual: |_l: &CuLeaf| true,
        replay: |s: SearchState, p: &CuPlan, at: Place, d: u8| {
            let code = CodeEnv {
                pic: &pic,
                code: |_s: &SearchState, t: BlockTask| mean_code(&pic, t),
                qps: |_x: u32, _y: u32| (30, 30),
                pred: |m: u8| m,
            };
            final_code_cu(&code, p, at, d, s)
        },
    };
    let state = fresh(width, height, ChromaFormat::Gray);
    build_cu(&env, Place { x: 0, y: 0, log2_size: 6 }, 0, state)
}

#[test]
fn a_flat_block_stays_whole() {
    let y = vec![77u16; 64 * 64];
    let (state, node) = build(64, 64, &y, None, false);
    // The blocks of the search, and the four of the tree that is coded in the end.
    assert!(state.stats.forward_transforms > 4);
    assert!(state.stats.frame_restores > 0 && state.stats.frame_snapshots > 0);
    assert!(matches!(node, CuNode::Leaf(_)));
    assert_eq!(state.frame.planes[0].data, y);
    assert!(state.maps.ct_depth_map.iter().all(|&d| d == 0));
    assert!(state.maps.mode_map.iter().all(|&m| m == 1));
}

#[test]
fn squares_are_split_down_to_their_size() {
    for (cell, depth) in [(16u32, 2u32), (8, 3)] {
        let y = checks(64, 64, cell);
        let (state, node) = build(64, 64, &y, None, false);
        assert_eq!(depth_of(&node), depth);
        assert_eq!(units(&node), (64 / cell * 64 / cell) as usize);
        assert_eq!(state.frame.planes[0].data, y);
        assert!(state.maps.ct_depth_map.iter().all(|&d| d as u32 == depth));
    }
}

#[test]
fn forced_splits_and_leaves_ask_for_no_comparison() {
    let y = vec![77u16; 64 * 64];
    let (_, node) = build(64, 64, &y, Some(SplitSearch::ForceSplit), false);
    assert_eq!(units(&node), 64);
    let y = checks(64, 64, 8);
    let (state, node) = build(64, 64, &y, Some(SplitSearch::ForceLeaf), false);
    assert_eq!(units(&node), 1);
    assert!(state.frame.planes[0].data.iter().all(|&v| v == 120));
}

#[test]
fn trying_the_split_first_decides_alike() {
    for cell in [64u32, 32, 16, 8] {
        let y = checks(64, 64, cell);
        let (a, leaf_first) = build(64, 64, &y, None, false);
        let (b, split_first) = build(64, 64, &y, Some(SplitSearch::PreferSplit), false);
        assert_eq!(units(&leaf_first), units(&split_first));
        assert_eq!(a.frame.planes[0].data, b.frame.planes[0].data);
        // What the split coded is in the frame where the split won.
        let (kept, node) = build(64, 64, &y, Some(SplitSearch::PreferSplit), true);
        assert_eq!(units(&node), units(&split_first));
        assert_eq!(kept.frame.planes[0].data, b.frame.planes[0].data);
    }
}

#[test]
fn blocks_across_the_edge_are_split() {
    let y = checks(40, 24, 8);
    let (state, node) = build(40, 24, &y, None, false);
    // 32x32 and 8-wide columns, in the quadrants that begin inside.
    assert!(depth_of(&node) >= 2);
    let plane = &state.frame.planes[0];
    for yy in 0..24usize {
        for x in 0..40usize {
            assert_eq!(plane.data[yy * plane.stride + x], y[yy * 40 + x]);
        }
    }
    match &node {
        CuNode::Split { kids } => assert_eq!(kids.len(), 2),
        CuNode::Leaf(_) => panic!("a split"),
    }
}

#[test]
fn keeping_the_search_gives_the_same_tree_as_replaying() {
    for cell in [32u32, 16, 8] {
        let y = checks(64, 64, cell);
        let (a, kept) = build(64, 64, &y, None, true);
        let (b, replayed) = build(64, 64, &y, None, false);
        assert_eq!(units(&kept), units(&replayed));
        assert_eq!(a.frame.planes[0].data, b.frame.planes[0].data);
    }
}

#[test]
fn regions_come_back_as_they_were() {
    let mut s = fresh(64, 64, ChromaFormat::Yuv420);
    s.frame.planes[0].data[5 * 64 + 7] = 9;
    let saved = save_region(&mut s, 0, 0, 4);
    for v in s.frame.planes[0].data.iter_mut() {
        *v = 3;
    }
    s.maps.mode_map[0] = 26;
    s.tu_depth_map[1] = 2;
    restore_region(&mut s, &saved);
    assert_eq!(s.frame.planes[0].data[5 * 64 + 7], 9);
    assert_eq!(s.frame.planes[0].data[0], 0);
    assert_eq!(s.frame.planes[0].data[16], 3);
    assert_eq!(s.maps.mode_map[0], 1);
    assert_eq!(s.tu_depth_map[1], 0);
}

#[test]
fn saving_a_region_is_counted() {
    let mut s = fresh(64, 64, ChromaFormat::Gray);
    let saved = save_region(&mut s, 8, 8, 3);
    assert_eq!((s.stats.frame_snapshots, s.stats.map_snapshots), (1, 3));
    assert_eq!(s.stats.bytes_snapshotted, 2 * 64 + 4 + 1 + 4);
    s.frame.planes[0].data[8 * 64 + 8] = 5;
    s.maps.mode_map[2 * 16 + 2] = 34;
    restore_region(&mut s, &saved);
    assert_eq!(s.frame.planes[0].data[8 * 64 + 8], 0);
    assert_eq!(s.maps.mode_map[2 * 16 + 2], 1);
    assert_eq!((s.stats.frame_restores, s.stats.map_restores), (1, 3));
}

fn tt_leaves(tt: &Tt) -> usize {
    match tt {
        Tt::Leaf(_) => 1,
        Tt::Split { kids, .. } => kids.iter().map(tt_leaves).sum(),
    }
}

#[test]
fn transform_trees_follow_the_picture() {
    // A leaf has depth 0, four have depth 1 and sixteen depth 2.
    for (cell, leaves) in [(32u32, 1usize), (16, 4), (8, 16)] {
        let y = checks(32, 32, cell);
        let pic = SourcePicture {
            width: 32,
            height: 32,
            cat: 0,
            bit_depth: 8,
            src: Source { y: &y, cb: &[], cr: &[] },
        };
        let state = fresh(32, 32, ChromaFormat::Gray);
        let (after, tt) = analyze_tt(
            |_s: &SearchState, _r: &TrialReconRegion, t: BlockTask, _k: EvalKind| {
                mean_code(&pic, t)
            },
            |d: u64, b: u64| price(d, b),
            |_s: &SearchState, _x: u32, _y: u32, _l: u8, _t: &Tt| false,
            |_s: &SearchState, _x: u32, _y: u32, l: u8| {
                let mut b = budget(l);
                b.tu_split = SplitSearch::EvaluateBoth;
                b.zero_residual_tu_early_terminate = false;
                b
            },
            &|_s: &SearchState, t: BlockTask| mean_code(&pic, t),
            &contexts(),
            settings(0),
            0,
            0,
            5,
            state,
        );
        assert_eq!(tt_leaves(&tt), leaves);
        assert_eq!(distortion_tt_region(&pic, &after.frame, 0, 0, 5), 0);
        assert!(after.tu_depth_map.iter().all(|&d| leaves == 1 << (2 * d)));
        // One leaf of 32, four of 16 and sixteen of 8 are tried, and the winner coded.
        assert_eq!(after.stats.forward_transforms, 1 + 4 + 16 + leaves as u64);
    }
}

#[test]
fn a_limited_leaf_is_not_split() {
    let y = checks(32, 32, 8);
    let pic = SourcePicture {
        width: 32,
        height: 32,
        cat: 0,
        bit_depth: 8,
        src: Source { y: &y, cb: &[], cr: &[] },
    };
    let state = fresh(32, 32, ChromaFormat::Gray);
    let region = TrialReconRegion::new(&state.frame, 0, 0, 5);
    let env = TtEnv {
        world: &(),
        code: |_w: &(), _r: &TrialReconRegion, t: BlockTask, _k: EvalKind| mean_code(&pic, t),
        price: |d: u64, b: u64| price(d, b),
        limited: |_w: &(), _x: u32, _y: u32, _l: u8, _t: &Tt| true,
        budget: |_w: &(), _x: u32, _y: u32, l: u8| {
            let mut b = budget(l);
            b.tu_split = SplitSearch::EvaluateBoth;
            b.zero_residual_tu_early_terminate = false;
            b
        },
    };
    let never = |_w: &(), _at: Place, _a: u64, _b: u64| -> bool { panic!("nothing compared") };
    let d = decide_tt(&env, &never, &contexts(), settings(0), 0, 0, 5, 0, region);
    assert_eq!(tt_leaves(&d.trial.tt), 1);
    assert_eq!(d.confidence, DecisionConfidence::Clear);
    assert_eq!(d.trial.race, None);
    let region = TrialReconRegion::new(&state.frame, 0, 0, 5);
    let free = TtEnv {
        world: &(),
        code: |_w: &(), _r: &TrialReconRegion, t: BlockTask, _k: EvalKind| mean_code(&pic, t),
        price: |d: u64, b: u64| price(d, b),
        limited: |_w: &(), _x: u32, _y: u32, _l: u8, _t: &Tt| false,
        budget: |_w: &(), _x: u32, _y: u32, l: u8| {
            let mut b = budget(l);
            b.tu_split = SplitSearch::EvaluateBoth;
            b.zero_residual_tu_early_terminate = false;
            b
        },
    };
    let close = |_w: &(), at: Place, a: u64, b: u64| at.log2_size == 5 && a <= b;
    let again = TrialReconRegion::new(&state.frame, 0, 0, 5);
    let d = decide_tt(&free, &close, &contexts(), settings(0), 0, 0, 5, 0, again);
    assert_eq!(d.confidence, DecisionConfidence::Close);
    let (leaf_cost, split_cost) = d.trial.race.unwrap();
    assert!(split_cost < leaf_cost);
    assert_eq!(d.cost.cost, split_cost);
    assert_eq!(d.cost.distortion, d.trial.distortion);
    assert!(matches!(d.plan, TtPlan::Split { log2_size: 5, .. }));
    let luma = decide_luma_tt(
        &env,
        &|a: u64, b: u64, _margin: u32| a.abs_diff(b) < 10,
        &contexts(),
        0,
        settings(0),
        0,
        0,
        5,
        0,
        region,
    );
    assert_eq!(tt_leaves(&luma.tt), 1);
}

#[test]
fn a_unit_takes_the_mode_that_costs_least() {
    let y = checks(32, 32, 32);
    let pic = SourcePicture {
        width: 32,
        height: 32,
        cat: 0,
        bit_depth: 8,
        src: Source { y: &y, cb: &[], cr: &[] },
    };
    let scores = std::cell::Cell::new(0u64);
    let q = LeafQuestions {
        score: |_s: &SearchState, _at: Place, m: u8| {
            scores.set(scores.get() + 1);
            (m as i64 - 20).unsigned_abs()
        },
        trial: |_s: &SearchState, _at: Place, m: u8, _k: LumaScreen| {
            tried((m as i64 - 22).unsigned_abs())
        },
        rough: |_s: &SearchState, _at: Place, _l: u8, m: u8| m as u64,
        chroma_trial: |_s: &SearchState, _at: Place, _l: u8, m: u8, _k: EvalKind| tried(m as u64),
        luma_close: |_s: &SearchState, _at: Place, _a: u64, _b: u64| false,
        close: |_s: &SearchState, _at: Place, _a: u64, _b: u64| false,
        tree: |s: SearchState, at: Place, _l: u8, _c: u8| {
            code_tree(
                &|_s: &SearchState, t: BlockTask| mean_code(&pic, t),
                &tt_shape(at.log2_size, 0),
                settings(0),
                at.x,
                at.y,
                s,
            )
        },
        price: |d: u64, b: u64| price(d, b),
    };
    let mut set = LeafSettings {
        cat: 0,
        reference: false,
        cheap: false,
        fast: false,
        screen: None,
        chroma: ChromaLimits { candidates: 2, gate_milli: None, region: None, cheap: false },
    };
    let mut b = budget(5);
    b.luma_rd_candidates = 5;
    let state = fresh(32, 32, ChromaFormat::Gray);
    let (s, leaf) = build_cu_leaf(&q, set, &b, &pic, &contexts(), 0, 0, 5, 1, state);
    // Every score, trial and block is counted.
    assert!(scores.get() > 0);
    assert_eq!(s.stats.luma_rough_predictions, scores.get());
    assert_eq!((s.stats.cu_trials, s.stats.residual_bit_estimates), (5, 5));
    assert_eq!((s.stats.forward_transforms, s.stats.chroma_rough_predictions), (1, 0));
    // Scored 18 to 22 best, tried 22 best.
    assert_eq!(leaf.luma_mode, 22);
    assert_eq!(leaf.chroma_mode_idx, 4);
    assert!(s.maps.mode_map.iter().all(|&m| m == 22));
    assert!(s.maps.ct_depth_map.iter().all(|&d| d == 1));
    // In full trials all modes code alike here, so the cheapest number of bits wins.
    set.reference = true;
    let state = fresh(32, 32, ChromaFormat::Gray);
    let (s, leaf) = build_cu_leaf(&q, set, &b, &pic, &contexts(), 0, 0, 5, 1, state);
    assert_eq!(leaf.luma_mode, 20);
    // Five full trials from the same region; the first is kept, and put back in the end.
    assert_eq!((s.stats.cu_trials, s.stats.residual_bit_estimates), (5, 0));
    assert_eq!(s.stats.forward_transforms, 5);
    assert_eq!((s.stats.frame_snapshots, s.stats.frame_restores), (2, 6));
}

#[test]
fn four_parts_get_their_own_modes() {
    let y = checks(16, 16, 4);
    let cb = vec![90u16; 64];
    let cr = vec![30u16; 64];
    let pic = SourcePicture {
        width: 16,
        height: 16,
        cat: 1,
        bit_depth: 8,
        src: Source { y: &y, cb: &cb, cr: &cr },
    };
    let (scores, trials) = (std::cell::Cell::new(0u64), std::cell::Cell::new(0u64));
    let env = NxnEnv {
        coding: CodeEnv {
            pic: &pic,
            code: |_s: &SearchState, t: BlockTask| mean_code(&pic, t),
            qps: |_x: u32, _y: u32| (30, 31),
            pred: |m: u8| m,
        },
        adaptive: false,
        screen: None,
        chroma: ChromaLimits { candidates: 1, gate_milli: None, region: None, cheap: false },
        score: |_s: &SearchState, at: Place, m: u8| {
            scores.set(scores.get() + 1);
            (m as i64 - 10 - at.x as i64 - at.y as i64).unsigned_abs()
        },
        trial: |_s: &SearchState, at: Place, m: u8, _e: bool| {
            trials.set(trials.get() + 1);
            tried((m as i64 - 10 - at.x as i64 - at.y as i64).unsigned_abs())
        },
        close: |_s: &SearchState, _at: Place, _a: u64, _b: u64| false,
        rough: |_s: &SearchState, _at: Place, _l: u8, m: u8| (m as i64 - 3).unsigned_abs(),
        chroma_trial: |_s: &SearchState, _at: Place, _l: u8, m: u8, _k: EvalKind| tried(m as u64),
        budget: |_s: &SearchState, at: Place| budget(at.log2_size),
    };
    let state = fresh(16, 16, ChromaFormat::Yuv420);
    let at = Place { x: 0, y: 0, log2_size: 3 };
    let (s, leaf) = build_cu_leaf_nxn(&env, at, 1, state);
    // Four parts and two chroma blocks are coded.
    assert!(trials.get() > 0);
    assert_eq!(s.stats.luma_rough_predictions, scores.get());
    assert_eq!(s.stats.cu_trials, trials.get());
    assert_eq!(s.stats.residual_bit_estimates, trials.get());
    assert_eq!((s.stats.forward_transforms, s.stats.chroma_rough_predictions), (6, 5));
    let nxn = leaf.nxn.unwrap();
    assert_eq!(nxn.luma_modes, [10, 14, 14, 18]);
    assert_eq!(leaf.luma_mode, 10);
    assert_eq!(leaf.chroma_mode_idx, 3);
    // The second part's most probable modes begin with its left neighbour's.
    assert_eq!(nxn.mpms[1][0], 10);
    match &leaf.tt {
        Tt::Split { parent_chroma, kids, cbf_cb, .. } => {
            assert_eq!(kids.len(), 4);
            let pc = parent_chroma.as_ref().unwrap();
            assert_eq!(pc.cb.levels, vec![90]);
            assert_eq!(pc.cr.levels, vec![30]);
            assert!(*cbf_cb);
        }
        Tt::Leaf(_) => panic!("four blocks"),
    }
    assert_eq!(distortion_tt_region(&pic, &s.frame, 0, 0, 3), 0);
    // The plan of the unit codes to the same unit.
    let plan = cu_to_plan(&CuNode::Leaf(leaf));
    let state = fresh(16, 16, ChromaFormat::Yuv420);
    let (again, node) = final_code_cu(&env.coding, &plan, at, 1, state);
    match node {
        CuNode::Leaf(l) => {
            assert_eq!(l.nxn.unwrap().luma_modes, [10, 14, 14, 18]);
            assert_eq!(l.nxn.unwrap().mpms, nxn.mpms);
        }
        CuNode::Split { .. } => panic!("one unit"),
    }
    assert_eq!(again.frame.planes[0].data, s.frame.planes[0].data);
    assert_eq!(again.maps.mode_map, s.maps.mode_map);
}

#[test]
fn rough_costs_decide_whether_parts_are_tried() {
    let state = fresh(16, 16, ChromaFormat::Yuv420);
    let at = Place { x: 0, y: 0, log2_size: 3 };
    let whole = |_s: &SearchState, p: Place, m: u8| {
        if p.log2_size == 3 {
            1000 + m as u64
        } else {
            241 + m as u64
        }
    };
    let g = |_s: &SearchState, p: Place| budget(p.log2_size);
    let text = RegionClass::TextLike;
    let noisy = RegionClass::Noisy;
    let mut coarse = budget(3);
    coarse.rmd_mode_set = RmdModeSet::Step4;
    let (best, work) = rough_best_luma_mode(&state, at, &whole, coarse);
    assert_eq!(best, (0, 1000));
    // Planar, DC, nine angular modes and the three most probable ones.
    assert_eq!(work.luma_rough_predictions, 14);
    let off = should_try_partnxn_8x8(&state, at, PartNxnPrune::Off, noisy, &whole, &g);
    assert_eq!(off, (true, EncodeStats::default()));
    let calls = std::cell::Cell::new(0u64);
    let counted = |s: &SearchState, p: Place, m: u8| {
        calls.set(calls.get() + 1);
        whole(s, p, m)
    };
    let (_, work) =
        should_try_partnxn_8x8(&state, at, PartNxnPrune::Aggressive, noisy, &counted, &g);
    assert_eq!(work.luma_rough_predictions, calls.get());
    assert!(should_try_partnxn_8x8(&state, at, PartNxnPrune::Off, noisy, &whole, &g).0);
    assert!(should_try_partnxn_8x8(&state, at, PartNxnPrune::Conservative, text, &whole, &g).0);
    // Four times 241 is above 96 of 100 parts of 1000.
    assert!(!should_try_partnxn_8x8(&state, at, PartNxnPrune::Conservative, noisy, &whole, &g).0);
    assert!(!should_try_partnxn_8x8(&state, at, PartNxnPrune::Aggressive, noisy, &whole, &g).0);
    let better = |_s: &SearchState, p: Place, m: u8| {
        if p.log2_size == 3 {
            1000 + m as u64
        } else {
            240 + m as u64
        }
    };
    assert!(should_try_partnxn_8x8(&state, at, PartNxnPrune::Conservative, noisy, &better, &g).0);
}

#[test]
fn a_decision_names_its_cost() {
    let y = vec![77u16; 8 * 8];
    let pic = SourcePicture {
        width: 8,
        height: 8,
        cat: 0,
        bit_depth: 8,
        src: Source { y: &y, cb: &[], cr: &[] },
    };
    let ctxs = contexts();
    let env = CuEnv {
        pic: &pic,
        ctxs: &ctxs,
        parts: true,
        keep: true,
        leaf: |s: SearchState, at: Place, _d: u8| {
            let code = |_s: &SearchState, t: BlockTask| mean_code(&pic, t);
            let (s, tt) =
                code_tree(&code, &tt_shape(at.log2_size, 0), settings(0), at.x, at.y, s);
            (s, leaf_of(tt))
        },
        nxn: |_s: SearchState, _at: Place, _d: u8| -> (SearchState, CuLeaf) {
            panic!("gray pictures have no units of four parts")
        },
        try_nxn: |_s: &SearchState, _at: Place| (true, EncodeStats::default()),
        budget: |_s: &SearchState, at: Place| (budget(at.log2_size), 30),
        price: |d: u64, b: u64| price(d, b),
        close: |_g: BlockSearchBudget, _a: u64, _b: u64| false,
        residual: |_l: &CuLeaf| true,
        replay: |_s: SearchState, _p: &CuPlan, _at: Place, _d: u8| -> (SearchState, CuNode) {
            panic!("the search is kept")
        },
    };
    let state = fresh(8, 8, ChromaFormat::Gray);
    let (_, trial) = decide_cu(&env, Place { x: 0, y: 0, log2_size: 3 }, 0, state);
    assert_eq!(trial.cost.distortion, 0);
    assert_eq!(trial.cost.cost, price(0, trial.cost.frac_bits));
    assert_eq!(trial.confidence, DecisionConfidence::Clear);
    match trial.node {
        CuNode::Leaf(l) => assert_eq!(l.confidence, DecisionConfidence::Clear),
        CuNode::Split { .. } => panic!("one unit"),
    }
}

#[test]
fn every_tree_of_a_picture_is_built_in_order() {
    let y = checks(130, 70, 64);
    let pic = SourcePicture {
        width: 130,
        height: 70,
        cat: 0,
        bit_depth: 8,
        src: Source { y: &y, cb: &[], cr: &[] },
    };
    let ctxs = contexts();
    let places = std::cell::RefCell::new(Vec::new());
    let env = CuEnv {
        pic: &pic,
        ctxs: &ctxs,
        parts: false,
        keep: true,
        leaf: |s: SearchState, at: Place, _d: u8| {
            places.borrow_mut().push((at.x, at.y, at.log2_size));
            let code = |_s: &SearchState, t: BlockTask| mean_code(&pic, t);
            let (s, tt) =
                code_tree(&code, &tt_shape(at.log2_size, 0), settings(0), at.x, at.y, s);
            (s, leaf_of(tt))
        },
        nxn: |_s: SearchState, _at: Place, _d: u8| -> (SearchState, CuLeaf) {
            panic!("gray pictures have no units of four parts")
        },
        try_nxn: |_s: &SearchState, _at: Place| (false, EncodeStats::default()),
        budget: |_s: &SearchState, at: Place| {
            let mut b = budget(at.log2_size);
            b.cu_split = SplitSearch::ForceLeaf;
            (b, 30)
        },
        price: |d: u64, b: u64| price(d, b),
        close: |_g: BlockSearchBudget, _a: u64, _b: u64| false,
        residual: |_l: &CuLeaf| true,
        replay: |_s: SearchState, _p: &CuPlan, _at: Place, _d: u8| -> (SearchState, CuNode) {
            panic!("the search is kept")
        },
    };
    let (state, trees) = build_slice_trees(&env, fresh(130, 70, ChromaFormat::Gray));
    assert_eq!(trees.len(), 6);
    assert_eq!(state.stats.ctu_count, 6);
    let p = places.borrow();
    assert_eq!((p[0], p[1]), ((0, 0, 6), (64, 0, 6)));
    assert_eq!(p[2], (128, 0, 3));
    assert!(p.iter().all(|&(x, y, _)| x < 130 && y < 70));
    let plane = &state.frame.planes[0];
    for yy in 0..70usize {
        for x in 0..130usize {
            assert_eq!(plane.data[yy * plane.stride + x], y[yy * 130 + x]);
        }
    }
    let mut items = Vec::new();
    write_slice(&mut items, &state.maps, 0, &trees);
    assert!(!items.is_empty());
}
