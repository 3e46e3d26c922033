//! Pictures, their reconstruction, and what is measured on them.

use still265::analysis_cache::{AnalysisCache, CacheDecisionConfidence, UNKNOWN_U8};
use still265::aq::{AqState, QgOffsets, QpMap};
use still265::block_eval::{
    block_residual, commit_block, count_block, count_nonzero, finish_eval, is_dst, reconstruct,
    Pricing,
};
use still265::config::{ChromaFormat, Effort};
use still265::frame::{Frame, Plane};
use still265::geometry::{
    can_split_tt, chroma_array_type, chroma_mode_from_idx, chroma_qp_from_luma, chroma_tb_geom,
    cu_kid_positions, decode_second_cbf,
};
use still265::measure::{collect_qg_activity, collect_qg_sse};
use still265::policy::{EvalKind, EvalPolicy};
use still265::refine::{refine_levels_rdoq_limited, RefineEnv};
use still265::rough::Place;
use still265::sao::{sao_bo_stats, sao_eo_stats, BoStats, EoStats, Region};
use still265::sao_choice::{decide_sao_ctb, decide_sao_map, rows_of_worker, Offsets};
use still265::snapshot::{
    recycle_frame_snapshot, restore_frame_region, restore_plane, snapshot_frame_region,
    snapshot_frame_region_pooled, snapshot_plane,
};
use still265::source::{distortion_block, Source, SourcePicture};
use still265::stats::EncodeStats;
use still265::syntax::{CodedBlock, CuLeaf, CuNode, DecisionConfidence, LeafTu, ParentChromaTu, Tt};
use still265::texture::{prune_angular_modes, sample_range};
use still265::trial_region::TrialReconRegion;
use still265::unit_modes::{cu_qps, fill_mpm_candidates};
use still265::wins::{list_nodes, record_cu_wins};

fn plane(width: usize, height: usize, f: impl Fn(usize, usize) -> u16) -> Plane {
    let mut data = Vec::new();
    for y in 0..height {
        for x in 0..width {
            data.push(f(x, y));
        }
    }
    Plane { data, stride: width, width, height }
}

fn gray(width: usize, height: usize, f: impl Fn(usize, usize) -> u16) -> Frame {
    Frame {
        bit_depth: 8,
        cat: 0,
        planes: vec![plane(width, height, f), plane(0, 0, |_, _| 0), plane(0, 0, |_, _| 0)],
    }
}

fn picture<'a>(width: u32, height: u32, y: &'a [u16]) -> SourcePicture<'a> {
    SourcePicture { width, height, cat: 0, bit_depth: 8, src: Source { y, cb: &[], cr: &[] } }
}

#[test]
fn samples_behind_the_edge_repeat_it() {
    let y = [1u16, 2, 3, 4, 5, 6];
    let p = picture(3, 2, &y);
    assert_eq!(p.src_sample(0, 1, 1), 5);
    assert_eq!(p.src_sample(0, 9, 0), 3);
    assert_eq!(p.src_sample(0, 9, 9), 6);
    // A plane that is missing reads as mid gray.
    assert_eq!(p.src_sample(1, 0, 0), 128);
    assert_eq!(p.source_block(0, 2, 1, 2), vec![6, 6, 6, 6]);
}

#[test]
fn chroma_goes_by_its_format() {
    assert_eq!(chroma_array_type(ChromaFormat::Gray), 0);
    assert_eq!(chroma_array_type(ChromaFormat::Yuv444), 3);
    assert_eq!(chroma_tb_geom(1, 8, 16, 3), Some((4, 8, 2, 1)));
    assert_eq!(chroma_tb_geom(2, 8, 16, 3), Some((4, 16, 2, 2)));
    assert_eq!(chroma_tb_geom(3, 8, 16, 2), Some((8, 16, 2, 1)));
    assert_eq!(chroma_tb_geom(1, 8, 16, 2), None);
    assert_eq!(chroma_tb_geom(0, 8, 16, 4), None);
    assert_eq!(chroma_qp_from_luma(29, 1), 29);
    assert_eq!(chroma_qp_from_luma(35, 1), 33);
    assert_eq!(chroma_qp_from_luma(43, 1), 37);
    assert_eq!(chroma_qp_from_luma(57, 1), 51);
    assert_eq!(chroma_qp_from_luma(57, 3), 51);
    assert!(decode_second_cbf(2, 4, false));
    assert!(!decode_second_cbf(1, 4, false));
    assert!(!can_split_tt(0, 2, 0));
    assert!(can_split_tt(0, 3, 0));
    assert_eq!(chroma_mode_from_idx(17, 4), 17);
    assert_eq!(chroma_mode_from_idx(17, 0), 0);
    assert_eq!(chroma_mode_from_idx(26, 1), 34);
}

#[test]
fn quadrants_outside_the_picture_are_left_out() {
    assert_eq!(cu_kid_positions(0, 0, 32, 64, 64), vec![(0, 0), (32, 0), (0, 32), (32, 32)]);
    assert_eq!(cu_kid_positions(0, 0, 32, 32, 64), vec![(0, 0), (0, 32)]);
    assert_eq!(cu_kid_positions(0, 0, 32, 33, 20), vec![(0, 0), (32, 0)]);
}

#[test]
fn most_probable_modes_follow_the_neighbours() {
    assert_eq!(fill_mpm_candidates(1, 1), [0, 1, 26]);
    assert_eq!(fill_mpm_candidates(0, 0), [0, 1, 26]);
    assert_eq!(fill_mpm_candidates(10, 10), [10, 9, 11]);
    assert_eq!(fill_mpm_candidates(2, 2), [2, 33, 3]);
    assert_eq!(fill_mpm_candidates(34, 34), [34, 33, 3]);
    assert_eq!(fill_mpm_candidates(10, 26), [10, 26, 0]);
    assert_eq!(fill_mpm_candidates(0, 10), [0, 10, 1]);
    assert_eq!(fill_mpm_candidates(0, 1), [0, 1, 26]);
}

#[test]
fn snapshots_undo_trials_and_count_them() {
    let mut frame = gray(16, 16, |x, y| (x + 16 * y) as u16);
    let before = frame.planes[0].data.clone();
    let mut stats = EncodeStats::default();
    let snap = snapshot_frame_region(&frame, &mut stats, 4, 4, 3);
    for v in frame.planes[0].data.iter_mut().skip(4 * 16 + 4).take(8) {
        *v = 999;
    }
    assert_ne!(frame.planes[0].data, before);
    restore_frame_region(&mut frame, &mut stats, &snap);
    assert_eq!(frame.planes[0].data, before);
    assert!(stats.frame_snapshots > 0);
    assert_eq!(stats.frame_snapshots, stats.frame_restores);
    let mut pool = Vec::new();
    recycle_frame_snapshot(&mut pool, snap);
    assert_eq!(pool.len(), 1);
    let again = snapshot_frame_region_pooled(&frame, &mut stats, &mut pool, 4, 4, 3);
    assert_eq!(pool.len(), 0);
    assert_eq!(again.planes[0].data[0], before[4 * 16 + 4]);
}

#[test]
fn trial_regions_stay_out_of_the_frame() {
    let mut frame = gray(16, 16, |_, _| 5);
    let mut region = TrialReconRegion::new(&frame, 0, 0, 3);
    assert_eq!(region.sample(0, 3, 3), Some(5));
    assert_eq!(region.sample(0, 8, 3), None);
    let fork = region.fork();
    region.write_block(0, 0, 0, 2, &vec![9u16; 16]);
    assert_eq!(region.sample(0, 3, 3), Some(9));
    assert_eq!(region.sample(0, 4, 3), Some(5));
    assert_eq!(fork.sample(0, 3, 3), Some(5));
    assert_eq!(frame.planes[0].data[0], 5);
    region.commit(&mut frame);
    assert_eq!(frame.planes[0].data[0], 9);
    assert_eq!(frame.planes[0].data[4], 5);
}

#[test]
fn a_block_is_predicted_corrected_and_clipped() {
    let y = [100u16; 16];
    let p = picture(4, 4, &y);
    let pred = vec![250u16; 16];
    let residual = block_residual(&p, 0, 0, 0, 2, &pred);
    assert!(residual.iter().all(|&r| r == -150));
    let recon = reconstruct(&pred, &Some(vec![10i16; 16]), 8);
    assert!(recon.iter().all(|&v| v == 255));
    let recon = reconstruct(&pred, &None, 8);
    assert_eq!(recon, pred);
    let policy = EvalPolicy::for_kind(EvalKind::Final);
    let (e, samples) =
        finish_eval(policy, &pred, &residual, vec![7i16], 1, &Some(vec![-149i16; 16]), 42, 8);
    assert!(samples.iter().all(|&v| v == 101));
    assert_eq!(e.distortion, 16);
    assert_eq!(e.coded.levels, vec![7]);
    assert_eq!(e.coded.frac_bits, 42);
    assert!(e.coded.cbf);
    let cheap = EvalPolicy::for_kind(EvalKind::CheapTrial);
    let (e, _) = finish_eval(cheap, &pred, &residual, vec![0i16], 0, &None, 0, 8);
    assert!(e.coded.levels.is_empty());
    assert_eq!(e.distortion, 16 * 150 * 150);
    let mut frame = gray(4, 4, |_, _| 0);
    commit_block(&mut frame, 0, 0, 0, 2, &samples);
    assert_eq!(distortion_block(&p, &frame, 0, 0, 0, 2), 16);
    assert!(is_dst(2, 0) && !is_dst(2, 1) && !is_dst(3, 0));
    assert_eq!(count_nonzero(&[0, 1, 0, -3]), 2);
}

#[test]
fn uniform_blocks_prune_directions() {
    let flat = [50u16; 16];
    let mut noisy = [50u16; 16];
    noisy[3] = 90;
    assert!(prune_angular_modes(&flat, 4, Some(32), 8));
    assert!(!prune_angular_modes(&flat, 4, None, 8));
    assert!(!prune_angular_modes(&noisy, 4, Some(32), 8));
    // Sixteen times the variance is allowed at ten bits.
    assert!(prune_angular_modes(&noisy, 4, Some(32), 10));
    assert_eq!(sample_range(&noisy), 40);
}

#[test]
fn levels_are_refined_while_that_pays() {
    // Coefficients 25, 12 and -21, quantised in steps of ten.
    let coeffs = [25i64, 12, -21];
    let env = RefineEnv {
        error: |i: usize, l: i16| {
            let d = coeffs[i] - 10 * l as i64;
            (d * d) as u64
        },
        total: |v: &Vec<i16>| v.iter().map(|&l| 20 * l.unsigned_abs() as u64).sum(),
        changed: |v: &Vec<i16>, i: usize, l: i16| {
            let all: u64 = v.iter().map(|&l| 20 * l.unsigned_abs() as u64).sum();
            Some(all - 20 * v[i].unsigned_abs() as u64 + 20 * l.unsigned_abs() as u64)
        },
        full: |_v: &Vec<i16>, _i: usize, _l: i16| -> u64 { panic!("the tables tell") },
        follows: |_v: &Vec<i16>, _i: usize| false,
        price: |d: u64, b: u64| d + b,
    };
    // 3 costs 25 + 60, 2 costs 25 + 40; 1 costs 4 + 20; -2 costs 1 + 40.
    let r = refine_levels_rdoq_limited(&env, vec![3, 1, -2], 4);
    assert_eq!((r.levels, r.nonzeros), (vec![2, 1, -2], 3));
    // Two passes of three, two and three other levels; the tables are built for the block
    // and for the level that was changed.
    assert_eq!((r.work.cache_fast_hits, r.work.cache_builds), (16, 2));
    assert_eq!((r.work.cache_fallbacks, r.work.residual_bit_estimates), (0, 0));
    let r = refine_levels_rdoq_limited(&env, vec![3, 1, -2], 0);
    assert_eq!((r.levels, r.nonzeros), (vec![3, 1, -2], 3));
    assert_eq!(r.work, EncodeStats { cache_builds: 1, ..EncodeStats::default() });
}

#[test]
fn refinement_takes_one_step_per_pass() {
    let env = RefineEnv {
        error: |_i: usize, l: i16| {
            let d = 100 - 10 * l as i64;
            (d * d) as u64
        },
        total: |v: &Vec<i16>| 20 * v[0].unsigned_abs() as u64,
        changed: |_v: &Vec<i16>, _i: usize, _l: i16| None,
        full: |_v: &Vec<i16>, _i: usize, l: i16| 20 * l.unsigned_abs() as u64,
        follows: |_v: &Vec<i16>, _i: usize| true,
        price: |d: u64, b: u64| d + b,
    };
    let r = refine_levels_rdoq_limited(&env, vec![13], 1);
    assert_eq!(r.levels, vec![12]);
    // The change to zero leaves nothing to estimate.
    assert_eq!((r.work.cache_fallbacks, r.work.residual_bit_estimates), (3, 2));
    assert_eq!((r.work.cache_fast_hits, r.work.cache_builds), (0, 1));
    let r = refine_levels_rdoq_limited(&env, vec![13], 9);
    assert_eq!((r.levels, r.nonzeros), (vec![10], 1));
    // The lowest level becomes the highest where that is nearer.
    let near = RefineEnv {
        error: |_i: usize, l: i16| if l == i16::MAX { 1 } else { 5 },
        total: |_v: &Vec<i16>| 0,
        changed: |_v: &Vec<i16>, _i: usize, _l: i16| Some(0),
        full: |_v: &Vec<i16>, _i: usize, _l: i16| 0,
        follows: |_v: &Vec<i16>, _i: usize| true,
        price: |d: u64, b: u64| d + b,
    };
    let r = refine_levels_rdoq_limited(&near, vec![i16::MIN], 1);
    assert_eq!(r.levels, vec![i16::MAX]);
}

#[test]
fn offset_statistics_are_tallied_by_kind() {
    let frame = gray(4, 4, |x, _| if x == 1 { 10 } else { 20 });
    let y = [18u16; 16];
    let p = picture(4, 4, &y);
    let r = Region { x_start: 0, y_start: 0, x_end: 4, y_end: 4 };
    let bo: BoStats = sao_bo_stats(&p, &frame.planes[0], 0, r);
    // 10 and 20 lie in bands 1 and 2.
    assert_eq!(bo.count[1], 4);
    assert_eq!(bo.sum[1], 4 * 8);
    assert_eq!(bo.count[2], 12);
    assert_eq!(bo.sum[2], -12 * 2);
    let eo: EoStats = sao_eo_stats(&p, &frame.planes[0], 0, 0, r);
    // Horizontally, column 1 is a valley and column 2 a step down from the right.
    assert_eq!(eo.count[0], 4);
    assert_eq!(eo.sum[0], 4 * 8);
    assert_eq!(eo.count[2], 0);
    assert_eq!(eo.count[3], 4);
    assert_eq!(eo.sum[3], -4 * 2);
}

fn no_bands(_s: &BoStats) -> Offsets {
    Offsets { values: [0; 4], band: 0, reduction: 0 }
}

#[test]
fn offsets_go_to_the_greatest_reduction() {
    let frame = gray(8, 8, |_, _| 20);
    let y = [18u16; 64];
    let p = picture(8, 8, &y);
    let bands = |s: &BoStats| Offsets { values: [-2, 0, 0, 0], band: 2, reduction: s.count[2] as i64 };
    let none = |_s: &EoStats| Offsets { values: [1, 1, 1, 1], band: 9, reduction: 0 };
    let info = decide_sao_ctb(&p, &frame, 64, 0, 0, &bands, &none);
    assert_eq!(info.type_idx, [1, 0, 0]);
    assert_eq!(info.offsets[0], [-2, 0, 0, 0]);
    assert_eq!(info.band_position, [2, 0, 0]);
    let edges = |_s: &EoStats| Offsets { values: [1, 2, 3, 4], band: 9, reduction: 65 };
    let info = decide_sao_ctb(&p, &frame, 64, 0, 0, &bands, &edges);
    // The first class of those that are equal.
    assert_eq!(info.type_idx, [2, 0, 0]);
    assert_eq!(info.eo_class, [0, 0, 0]);
    assert_eq!(info.offsets[0], [1, 2, 3, 4]);
    assert_eq!(info.band_position, [0, 0, 0]);
    let info = decide_sao_ctb(&p, &frame, 64, 0, 0, &no_bands, &none);
    assert_eq!(info.type_idx, [0, 0, 0]);
    assert_eq!(info.offsets, [[0; 4]; 3]);
}

#[test]
fn chroma_offsets_are_chosen_together() {
    let y = [18u16; 64];
    let cb = [7u16; 16];
    let cr = [9u16; 16];
    let p = SourcePicture {
        width: 8,
        height: 8,
        cat: 1,
        bit_depth: 8,
        src: Source { y: &y, cb: &cb, cr: &cr },
    };
    let frame = Frame {
        bit_depth: 8,
        cat: 1,
        planes: vec![
            plane(8, 8, |_, _| 18),
            plane(4, 4, |_, _| 100),
            plane(4, 4, |_, _| 9),
        ],
    };
    // Cb gains from bands what Cr loses.
    let bands = |s: &BoStats| {
        let gain = if s.count[12] > 0 { 5 } else { -5 };
        Offsets { values: [gain as i8; 4], band: 3, reduction: gain }
    };
    let edges = |_s: &EoStats| Offsets { values: [0; 4], band: 0, reduction: -1 };
    let info = decide_sao_ctb(&p, &frame, 64, 0, 0, &bands, &edges);
    assert_eq!(info.type_idx, [0, 0, 0]);
    let bands = |s: &BoStats| {
        let gain = if s.count[12] > 0 { 6 } else { -5 };
        Offsets { values: [gain as i8; 4], band: s.count[12] as u8, reduction: gain }
    };
    let info = decide_sao_ctb(&p, &frame, 64, 0, 0, &bands, &edges);
    assert_eq!(info.type_idx, [0, 1, 1]);
    assert_eq!(info.offsets[1], [6; 4]);
    assert_eq!(info.offsets[2], [-5; 4]);
    assert_eq!(info.band_position, [0, 16, 0]);
}

#[test]
fn workers_share_the_rows_of_a_map() {
    assert_eq!(rows_of_worker(7, 3, 0), vec![0, 3, 6]);
    assert_eq!(rows_of_worker(7, 3, 1), vec![1, 4]);
    assert_eq!(rows_of_worker(7, 3, 2), vec![2, 5]);
    let frame = gray(136, 72, |_, _| 20);
    let y = vec![18u16; 130 * 70];
    let p = picture(130, 70, &y);
    let edges = |_s: &EoStats| Offsets { values: [0; 4], band: 0, reduction: 0 };
    let bands = |s: &BoStats| Offsets {
        values: [0; 4],
        band: (s.count[2] % 251) as u8,
        reduction: 1,
    };
    let map = decide_sao_map(&p, &frame, 64, &bands, &edges);
    assert_eq!(map.len(), 2);
    assert_eq!(map[0].len(), 3);
    assert_eq!(map[0][0].band_position[0] as u64, 64 * 64 % 251);
    assert_eq!(map[1][2].band_position[0] as u64, 8 * 8 % 251);
}

fn coded(levels: &[i16], frac_bits: u64) -> CodedBlock {
    CodedBlock { levels: levels.to_vec(), cbf: !levels.is_empty(), frac_bits }
}

fn tu(log2_size: u8, trafo_depth: u8, luma: CodedBlock) -> Tt {
    Tt::Leaf(LeafTu {
        log2_size,
        chroma_log2: 0,
        trafo_depth,
        luma_mode: 1,
        chroma_mode: 1,
        luma,
        cb: CodedBlock::empty(),
        cr: CodedBlock::empty(),
        cb1: CodedBlock::empty(),
        cr1: CodedBlock::empty(),
    })
}

fn unit(tt: Tt) -> CuNode {
    CuNode::Leaf(CuLeaf {
        mpm: [0, 1, 26],
        luma_mode: 1,
        chroma_mode_idx: 4,
        nxn: None,
        confidence: DecisionConfidence::Clear,
        tt,
    })
}

#[test]
fn activity_counts_for_the_group_a_block_begins_in() {
    // A picture of one block and a half across: the right block has two quadrants.
    let left = CuNode::Split {
        kids: vec![
            unit(tu(5, 0, coded(&[3, -4], 10))),
            unit(tu(5, 0, coded(&[1], 20))),
            unit(tu(5, 0, coded(&[], 0))),
            unit(Tt::Split {
                log2_size: 5,
                trafo_depth: 0,
                cbf_cb: false,
                cbf_cr: false,
                cbf_cb1: false,
                cbf_cr1: false,
                parent_chroma: None,
                kids: (0..4).map(|i| tu(4, 1, coded(&[i], 1))).collect(),
            }),
        ],
    };
    let right = CuNode::Split {
        kids: vec![unit(tu(5, 0, coded(&[-7], 70))), unit(tu(5, 0, coded(&[9], 90)))],
    };
    let a = collect_qg_activity(&vec![Some(left), Some(right)], 96, 64);
    assert_eq!((a.cells_x, a.cells_y), (3, 2));
    assert_eq!(a.energy, vec![7, 1, 7, 0, 6, 9]);
    assert_eq!(a.frac_bits, vec![10, 20, 70, 0, 4, 90]);
    let none = collect_qg_activity(&vec![None, None], 96, 64);
    assert_eq!(none.energy, vec![0; 6]);
}

#[test]
fn activity_counts_chroma_behind_small_luma_blocks() {
    let node = CuNode::Split {
        kids: vec![CuNode::Split {
            kids: vec![CuNode::Split {
                kids: vec![unit(Tt::Split {
                    log2_size: 3,
                    trafo_depth: 0,
                    cbf_cb: true,
                    cbf_cr: true,
                    cbf_cb1: false,
                    cbf_cr1: false,
                    parent_chroma: Some(ParentChromaTu {
                        log2_size: 2,
                        chroma_mode: 1,
                        cb: coded(&[5], 50),
                        cr: coded(&[-6], 60),
                    }),
                    kids: (0..4).map(|_| tu(2, 1, coded(&[1], 1))).collect(),
                })],
            }],
        }],
    };
    let a = collect_qg_activity(&vec![Some(node)], 8, 8);
    assert_eq!(a.energy, vec![4 + 11]);
    assert_eq!(a.frac_bits, vec![4 + 110]);
}

#[test]
fn errors_are_summed_per_group() {
    let p = plane(40, 33, |x, y| if x == 39 && y == 32 { 3 } else { 10 });
    let src = vec![12u16; 33 * 33];
    let sse = collect_qg_sse(&src, &p, 33, 33);
    assert_eq!(sse, vec![32 * 32 * 4, 32 * 4, 32 * 4, 4]);
}

#[test]
fn wins_are_counted_by_region() {
    let node = CuNode::Split {
        kids: vec![unit(tu(5, 0, coded(&[], 0))), unit(tu(5, 0, coded(&[], 0)))],
    };
    let mut nodes = Vec::new();
    list_nodes(&mut nodes, &node, 64, 32, 0, 0, 6);
    assert_eq!(nodes.len(), 3);
    assert_eq!(nodes[2].at, Place { x: 32, y: 0, log2_size: 5 });
    let region = |at: Place| {
        if at.x == 0 {
            still265::budget::RegionClass::Flat
        } else {
            still265::budget::RegionClass::Noisy
        }
    };
    let w = record_cu_wins(&nodes, &region);
    assert_eq!(w.leaf, [1, 0, 0, 0, 0, 1, 0]);
    assert_eq!(w.split, [1, 0, 0, 0, 0, 0, 0]);
}

#[test]
fn the_analysis_cache_remembers_regions() {
    let mut c = AnalysisCache::new(20, 20, 8, ChromaFormat::Yuv420, Effort::Slow, 30, 7);
    assert!(c.cu_depth.iter().all(|&d| d == UNKNOWN_U8));
    c.record_cu_region(8, 8, 3, 2, CacheDecisionConfidence::Close);
    let known = c.cu_depth.iter().filter(|&&d| d == 2).count();
    assert!(known > 0);
    c.record_leaf_modes(0, 0, 3, 26, 4);
    assert_eq!(c.luma_mode[0], 26);
    c.record_tu_region(0, 0, 3, 1);
    let empty = c.empty_like();
    assert!(empty.cu_depth.iter().all(|&d| d == UNKNOWN_U8));
    c.clear();
    assert_eq!(c.cu_depth, empty.cu_depth);
    assert_eq!(CacheDecisionConfidence::Unknown.as_u8(), 0);
}

#[test]
fn adaptive_targets_are_clamped_offsets() {
    let offsets = QgOffsets { offsets: vec![3, -2, 60, -60], cells_x: 2 };
    let mut aq = AqState::inert();
    aq.active = true;
    aq.slice_qp_y = 30;
    aq.reset_for_slice();
    assert_eq!(aq.aq_qg_target(&offsets, 0, 0), 33);
    assert_eq!(aq.aq_qg_target(&offsets, 40, 8), 28);
    assert_eq!(aq.aq_qg_target(&offsets, 8, 40), 51);
    assert_eq!(aq.aq_qg_target(&offsets, 40, 40), 0);
    let (y, c) = aq.aq_set_cu_qp(&offsets, 1, 0, 0);
    assert_eq!((y, c), (33, 32));
    assert_eq!(aq.aq_resolve_qpy(50, 4), 2);
}

#[test]
fn a_group_carries_one_difference_to_its_target() {
    let offsets = QgOffsets { offsets: vec![3, -2, 60, -60], cells_x: 2 };
    let noted = QpMap { stride: 16, qps: vec![33; 256] };
    let mut aq = AqState::inert();
    aq.active = true;
    aq.slice_qp_y = 30;
    aq.reset_for_slice();
    aq.aq_qg_reset();
    aq.aq_cu_begin(&offsets, &noted, 0, 0);
    assert_eq!((aq.pred, aq.cu_target), (30, 33));
    assert_eq!(aq.aq_take_cu_qp_delta(), 3);
    assert!(aq.coded);
    assert_eq!(aq.current_qpy, 33);
    aq.aq_cu_begin(&offsets, &noted, 16, 16);
    assert_eq!((aq.pred, aq.current_qpy), (30, 33));
    aq.aq_qg_reset();
    assert!(!aq.coded);
    aq.aq_cu_begin(&offsets, &noted, 32, 0);
    assert_eq!((aq.pred, aq.cu_target), (33, 28));
    assert_eq!(aq.aq_take_cu_qp_delta(), -5);
    assert_eq!(aq.current_qpy, 28);
}

#[test]
fn units_take_the_qps_of_their_group_or_of_the_slice() {
    let offsets = QgOffsets { offsets: vec![3, -2, 60, -60], cells_x: 2 };
    let mut aq = AqState::inert();
    assert_eq!(cu_qps(&mut aq, &offsets, 1, (30, 29), 0, 0), (30, 29));
    aq.active = true;
    aq.slice_qp_y = 30;
    aq.reset_for_slice();
    assert_eq!(cu_qps(&mut aq, &offsets, 1, (30, 29), 0, 0), (33, 32));
    assert_eq!(cu_qps(&mut aq, &offsets, 1, (30, 29), 63, 31), (28, 28));
}

#[test]
fn planes_are_saved_and_put_back_alone() {
    let mut frame = gray(16, 16, |x, y| (x + 16 * y) as u16);
    let before = frame.planes[0].data.clone();
    let mut stats = EncodeStats::default();
    let s = snapshot_plane(&frame, &mut stats, 0, 12, 12, 8, 8);
    assert_eq!(s.data.len(), 16);
    assert_eq!(stats.bytes_snapshotted, 32);
    frame.planes[0].data[13 * 16 + 13] = 7;
    frame.planes[0].data[0] = 8;
    restore_plane(&mut frame, &mut stats, &s);
    assert_eq!(frame.planes[0].data[13 * 16 + 13], before[13 * 16 + 13]);
    assert_eq!(frame.planes[0].data[0], 8);
    assert_eq!((stats.frame_snapshots, stats.frame_restores), (1, 1));
}

#[test]
fn inverse_transforms_are_for_coded_blocks() {
    let stats = count_block(true, Pricing::Exact).joined(count_block(false, Pricing::Free));
    assert_eq!((stats.forward_transforms, stats.inverse_transforms), (2, 1));
    assert_eq!(stats.residual_bit_estimates, 1);
    assert_eq!(count_block(true, Pricing::Approx).residual_bit_estimates, 0);
}
