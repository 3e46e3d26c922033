//! The encoder's settings, its passes, and the choice between them.

use still265::block_code::{code_block, trial_code_block, BlockPlan, BlockTrial};
use still265::block_eval::{Pricing, Quantiser};
use still265::budget::{inert, BlockDesc, RegionClass};
use still265::candidate_cost::{
    eval_chroma_candidate, eval_luma_candidate, eval_part_candidate, luma_candidate_bits,
    part_screen_policy, rough_chroma_cost, score_chroma_mode, score_luma_mode,
};
use still265::config::{AqMode, ChromaFormat, DeblockMode, Effort, SaoMode, StillHevcConfig};
use still265::contexts::{Contexts, CBF_LUMA, NUM_CONTEXTS, PART_MODE};
use still265::cost::{estimate_intra_chroma_mode_bits, estimate_intra_luma_mode_bits};
use still265::effort::{ComponentKind, TrialQuality};
use still265::encode_pass::{
    bracket_qp, encode_two_pass, encode_with_stats, pass_setup, run_phases, start_aq, start_state,
    uniform_config, uses_two_passes, PassFlags, PassRun, PassSetup, Phases, TwoPass,
};
use still265::final_code::BlockTask;
use still265::frame::{Frame, Plane};
use still265::leaf_eval::{approx_residual_frac_bits, eval_leaf_block, EvalEnv};
use still265::maps::TileGrid;
use still265::policy::{EvalKind, EvalPolicy, TrialGates, TrialRdoqGate, WorkStage};
use still265::presets::template;
use still265::refine::Refined;
use still265::rough::Place;
use still265::source::{Source, SourcePicture};
use still265::stats::{EncodeStats, Tried};
use still265::stream::{
    encode_inner, Division, Encoded, NalType, PassEnv, Reconstruction, SliceData, StreamWriter,
};
use still265::still_encoder::{
    supports_bit_depth, EncodeError, HevcEncodeParams, Image,
    RustStillHevcEncoder,
};
use std::cell::RefCell;

fn config(qp: u8) -> StillHevcConfig {
    StillHevcConfig {
        width: 70,
        height: 33,
        bit_depth: 10,
        chroma: ChromaFormat::Yuv420,
        qp,
        effort: Effort::Slow,
        sao: SaoMode::Off,
        deblock: DeblockMode::On,
        adaptive_qp: true,
        aq_mode: AqMode::TwoPassMeasured,
        aq_strength_milli: 350,
        aq_clamp: 2,
        two_pass_gate: true,
    }
}

fn params(bit_depth: u8) -> HevcEncodeParams {
    HevcEncodeParams {
        width: 70,
        height: 33,
        bit_depth,
        chroma_format: ChromaFormat::Yuv420,
        qp: 30,
    }
}

fn tiny_frame() -> Frame {
    let p = || Plane { data: vec![1u16], stride: 1, width: 1, height: 1 };
    Frame { bit_depth: 8, cat: 3, planes: vec![p(), p(), p()] }
}

#[test]
fn a_new_encoder_deblocks_and_compares() {
    let e = RustStillHevcEncoder::new(Effort::Slow);
    let c = e.still_config(params(10)).unwrap();
    assert_eq!(c.effort, Effort::Slow);
    assert_eq!(c.deblock, DeblockMode::On);
    assert_eq!(c.sao, SaoMode::Off);
    assert_eq!(c.aq_mode, AqMode::Off);
    assert_eq!(c.aq_strength_milli, 350);
    assert_eq!(c.aq_clamp, 2);
    assert!(c.two_pass_gate);
    assert!(!c.adaptive_qp);
    assert!(!e.debug_stats);
    assert!(e.last_encode_stats().is_none());
    assert!(e.last_reconstruction().is_none());
}

#[test]
fn settings_change_what_they_name() {
    let e = RustStillHevcEncoder::new(Effort::Fast)
        .with_adaptive_qp(true)
        .with_aq(AqMode::TwoPassMeasured, 500, 3)
        .with_two_pass_gate(false)
        .with_debug_stats(true)
        .with_sao(SaoMode::On)
        .with_deblock(DeblockMode::Off);
    assert!(e.debug_stats);
    let c = e.still_config(params(8)).unwrap();
    assert!(c.adaptive_qp);
    assert_eq!(c.aq_mode, AqMode::TwoPassMeasured);
    assert_eq!(c.aq_strength_milli, 500);
    assert_eq!(c.aq_clamp, 3);
    assert!(!c.two_pass_gate);
    assert_eq!(c.sao, SaoMode::On);
    assert_eq!(c.deblock, DeblockMode::Off);
    assert_eq!((c.width, c.height, c.qp), (70, 33, 30));
}

#[test]
fn other_bit_depths_are_refused() {
    let mut e = RustStillHevcEncoder::new(Effort::Fast);
    let encode = |_c: StillHevcConfig, _s: Source| -> (Vec<u8>, Frame, EncodeStats) {
        panic!("nothing to encode")
    };
    let image = Image { planes: vec![vec![7; 4]] };
    assert_eq!(e.encode_still(&image, params(9), &encode), Err(EncodeError::UnsupportedBitDepth));
    assert!(e.last_encode_stats().is_none());
    assert_eq!(
        EncodeError::UnsupportedBitDepth.message(),
        "still265 backend supports only 8/10/12-bit"
    );
    assert_eq!(
        EncodeError::UnsupportedChroma.message(),
        "still265 backend supports only 4:2:0/4:4:4 chroma"
    );
    let caps = e.caps();
    assert!(caps.supports_sao && caps.supports_deblock);
    assert!(!caps.supports_lossless && !caps.supports_alpha);
    for bd in 0..=16u8 {
        assert_eq!(supports_bit_depth(bd), [8, 10, 12].contains(&bd));
        assert_eq!(caps.supports_bit_depth(bd), [8, 10, 12].contains(&bd));
    }
    for f in [
        ChromaFormat::Gray,
        ChromaFormat::Yuv420,
        ChromaFormat::Yuv422,
        ChromaFormat::Yuv444,
    ] {
        assert!(caps.supports_chroma_format(f));
    }
}

#[test]
fn the_last_encode_is_remembered() {
    let mut e = RustStillHevcEncoder::new(Effort::Fast);
    let encode = |c: StillHevcConfig, s: Source| {
        let mut stats = EncodeStats::default();
        stats.cu_trials = c.qp as u64;
        (vec![s.y[0] as u8, s.cb.len() as u8, s.cr.len() as u8], tiny_frame(), stats)
    };
    let image = Image { planes: vec![vec![7; 4], vec![8; 1]] };
    assert_eq!(e.encode_still(&image, params(12), &encode), Ok(vec![7, 1, 0]));
    let last = e.last_encode_stats().unwrap();
    assert_eq!(last.annexb_bytes, 3);
    assert_eq!(last.stats.cu_trials, 30);
    assert_eq!(e.last_reconstruction().unwrap().cat, 3);
}

#[test]
fn the_default_is_the_production_preset() {
    let e = RustStillHevcEncoder::default();
    assert_eq!(e.effort, Effort::Slow);
    assert_eq!(e.deblock, DeblockMode::On);
}

#[test]
fn a_pass_is_set_up_from_its_configuration() {
    let run = PassRun { aq_active: false, chroma_qp_offset: 1, oracle: true };
    let s = pass_setup(&config(34), run).unwrap();
    assert_eq!((s.coded_width, s.coded_height), (72, 40));
    assert_eq!(s.qp_bd_offset, 12);
    assert_eq!(s.qp_y, 46);
    // QP 35 of 4:2:0 chroma is 33, and 12 for the depth.
    assert_eq!(s.qp_c, 45);
    assert!(s.deblock);
    assert!(!s.analyse);
    let steered = PassRun { oracle: false, ..run };
    assert!(pass_setup(&config(34), steered).unwrap().analyse);
    let aq = PassRun { aq_active: true, ..run };
    assert!(pass_setup(&config(34), aq).unwrap().analyse);
    let mut c = config(34);
    c.width = 0;
    assert!(pass_setup(&c, run).is_none());
    let mut c = config(34);
    c.height = 0;
    assert!(pass_setup(&c, run).is_none());
    let mut c = config(34);
    c.bit_depth = 9;
    assert!(pass_setup(&c, run).is_none());
    let aq = start_aq(&s);
    assert_eq!((aq.current_qpy, aq.qg_x, aq.target_qg), (34, -1, (-1, -1)));
}

#[test]
fn a_search_starts_from_a_blank_state() {
    let run = PassRun { aq_active: false, chroma_qp_offset: 0, oracle: true };
    let s = pass_setup(&config(30), run).unwrap();
    let st = start_state(&s, 70, 33, TileGrid::single());
    assert_eq!(st.frame.planes[0].data.len(), 72 * 40);
    assert_eq!(st.frame.planes[1].data.len(), 36 * 20);
    assert_eq!(st.maps.mode_stride, 18);
    assert_eq!(st.maps.mode_map, vec![1u8; 18 * 9]);
    assert_eq!(st.maps.ct_depth_map, vec![0xffu8; 9 * 5]);
    assert_eq!(st.tu_depth_map, vec![0u8; 18 * 9]);
}

fn phases_run(flags: PassFlags) -> (Vec<String>, Option<usize>) {
    let note = |mut s: Vec<String>, what: &str| {
        s.push(what.to_string());
        s
    };
    let p = Phases {
        build: |s: Vec<String>, wpp: bool, aq: bool| {
            (note(s, &format!("build {} {}", wpp, aq)), 5usize)
        },
        measure: |t: &usize| t + 1,
        deblock: |s: Vec<String>| note(s, "deblock"),
        decide_sao: |s: &Vec<String>| s.len(),
        write: |s: Vec<String>, t: &usize, o: &Option<usize>, wpp: bool| {
            (note(s, &format!("write {} {:?} {}", t, o, wpp)), 9u8)
        },
        apply_sao: |s: Vec<String>, o: &usize| note(s, &format!("apply {}", o)),
        code: |s: Vec<String>| (note(s, "code"), 8u8),
    };
    let out = run_phases(&p, flags, Vec::new());
    (out.state, out.measured)
}

#[test]
fn phases_come_in_their_order() {
    let flags = PassFlags {
        sao: true,
        single_tile: true,
        stream_wpp: false,
        build_wpp: true,
        deblock: true,
        aq_active: true,
        collect: true,
    };
    let (log, measured) = phases_run(flags);
    assert_eq!(log, vec!["build true true", "deblock", "write 5 Some(2) false", "apply 2"]);
    assert_eq!(measured, Some(6));
    let plain = PassFlags {
        sao: false,
        single_tile: true,
        stream_wpp: false,
        build_wpp: false,
        deblock: true,
        aq_active: false,
        collect: false,
    };
    assert!(!plain.builds_trees());
    let (log, measured) = phases_run(plain);
    assert_eq!(log, vec!["code", "deblock"]);
    assert_eq!(measured, None);
    let tiles = PassFlags { single_tile: false, deblock: false, ..plain };
    let (log, _) = phases_run(tiles);
    assert_eq!(log, vec!["build false false", "write 5 None false"]);
}

fn encoded(c: &StillHevcConfig, collect: bool) -> Encoded<Vec<i32>, usize, i32> {
    let env = PassEnv {
        phases: Phases {
            build: |mut s: Vec<i32>, _wpp: bool, _aq: bool| {
                s.push(1);
                (s, 5usize)
            },
            measure: |t: &usize| *t,
            deblock: |mut s: Vec<i32>| {
                s.push(2);
                s
            },
            decide_sao: |s: &Vec<i32>| s.len(),
            write: |s: Vec<i32>, _t: &usize, _o: &Option<usize>, _wpp: bool| {
                (s, SliceData { data: vec![8, 9], entry_sizes: vec![2] })
            },
            apply_sao: |mut s: Vec<i32>, _o: &usize| {
                s.push(3);
                s
            },
            code: |mut s: Vec<i32>| {
                s.push(4);
                (s, SliceData { data: vec![7], entry_sizes: vec![] })
            },
        },
        begin: |s: PassSetup| vec![s.qp_y],
        error: |s: &Vec<i32>, q: &usize| s[s.len() - 1] + *q as i32,
        counters: |s: &Vec<i32>| {
            let mut c = EncodeStats::default();
            c.ctu_count = s.len() as u64;
            c
        },
        writer: StreamWriter {
            vps: vec![0],
            sps: |c: &StillHevcConfig| vec![c.bit_depth],
            pps: |_c: &StillHevcConfig, wpp: bool| vec![wpp as u8],
            header: |_c: &StillHevcConfig, _wpp: bool, e: &Vec<usize>| vec![e.len() as u8],
            nal: |mut out: Vec<u8>, t: NalType, b: &Vec<u8>| {
                out.push(match t {
                    NalType::Vps => 32,
                    NalType::Sps => 33,
                    NalType::Pps => 34,
                    NalType::IdrWRadl => 19,
                });
                out.extend_from_slice(b);
                out
            },
        },
    };
    let run = PassRun { aq_active: false, chroma_qp_offset: 0, oracle: true };
    let div = Division { single_tile: true, stream_wpp: false, build_wpp: false };
    encode_inner(&env, c, run, div, collect)
}

#[test]
fn a_stream_is_its_parameter_sets_and_a_slice() {
    let mut c = config(30);
    c.sao = SaoMode::Off;
    c.deblock = DeblockMode::On;
    let bd = c.bit_depth;
    let qp_y = 30 + 6 * (bd as i32 - 8);
    let out = encoded(&c, false);
    assert_eq!(out.bytes, vec![32, 0, 33, bd, 34, 0, 19, 0, 7]);
    assert!(matches!(out.reconstruction, Reconstruction::Coded(s) if s == vec![qp_y, 4, 2]));
    assert!(out.measured.is_none());
    assert_eq!(out.stats.ctu_count, 3);
    c.sao = SaoMode::On;
    let out = encoded(&c, true);
    assert_eq!(out.bytes, vec![32, 0, 33, bd, 34, 0, 19, 1, 8, 9]);
    assert!(matches!(out.reconstruction, Reconstruction::Coded(s) if s == vec![qp_y, 1, 2, 3]));
    // The error is that of the last state: 3 and the 5 that was measured.
    assert_eq!(out.measured, Some((5, 8)));
}

#[test]
fn what_cannot_be_coded_gives_an_empty_stream() {
    let mut c = config(30);
    c.bit_depth = 9;
    c.width = 0;
    let out = encoded(&c, true);
    assert!(out.bytes.is_empty() && out.measured.is_none());
    assert_eq!(out.stats.ctu_count, 0);
    assert!(matches!(
        out.reconstruction,
        Reconstruction::Empty { width: 1, height: 33, bit_depth: 8 }
    ));
}

#[test]
fn the_bracketing_qp_goes_where_the_bytes_went() {
    assert_eq!(bracket_qp(30, 90, 100), 31);
    assert_eq!(bracket_qp(30, 100, 100), 31);
    assert_eq!(bracket_qp(30, 101, 100), 29);
    assert_eq!(bracket_qp(51, 90, 100), 51);
    assert_eq!(bracket_qp(0, 101, 100), 0);
}

#[test]
fn two_passes_are_for_measured_pictures_with_chroma() {
    assert!(uses_two_passes(AqMode::TwoPassMeasured, ChromaFormat::Yuv420));
    assert!(!uses_two_passes(AqMode::TwoPassMeasured, ChromaFormat::Gray));
    assert!(!uses_two_passes(AqMode::Off, ChromaFormat::Yuv420));
    let u = uniform_config(&config(30));
    assert_eq!(u.aq_mode, AqMode::Off);
    assert!(!u.adaptive_qp);
    assert_eq!(u.qp, 30);
}

/// Encodes to a description of the pass; the adaptive one is `size` long.
fn two_passes(
    qp: u8,
    compare: bool,
    spread: bool,
    size: usize,
    keep: bool,
) -> (String, Vec<String>) {
    let log: RefCell<Vec<String>> = RefCell::new(Vec::new());
    let t = TwoPass {
        encode: |c: StillHevcConfig, map: Option<u8>, measure: bool| {
            let name = format!("qp{} map{:?} {}", c.qp, map, measure);
            log.borrow_mut().push(name.clone());
            (name, if measure { Some(spread) } else { None })
        },
        map: |q: bool| if q { Some(7u8) } else { None },
        size: |o: &String| if o.contains("Some") { size } else { 100 },
        no_worse: |_u: &String, _a: &String| keep,
        keeps: |_u: &String, _a: &String, _b: &String| keep,
    };
    let out = encode_two_pass(&t, &config(qp), compare);
    (out, log.into_inner())
}

#[test]
fn a_picture_without_spread_is_encoded_once() {
    let (out, log) = two_passes(30, true, false, 90, true);
    assert_eq!(out, "qp30 mapNone true");
    assert_eq!(log.len(), 1);
}

#[test]
fn without_a_comparison_the_adaptive_encode_is_kept() {
    let (out, log) = two_passes(30, false, true, 90, false);
    assert_eq!(out, "qp30 mapSome(7) false");
    assert_eq!(log.len(), 2);
}

#[test]
fn the_comparison_takes_a_third_encode() {
    let (out, log) = two_passes(30, true, true, 90, true);
    assert_eq!(out, "qp30 mapSome(7) false");
    assert_eq!(log[2], "qp31 mapNone false");
    let (out, log) = two_passes(30, true, true, 110, false);
    assert_eq!(out, "qp30 mapNone true");
    assert_eq!(log[2], "qp29 mapNone false");
    // At the end of the range there is no third encode.
    let (out, log) = two_passes(51, true, true, 90, true);
    assert_eq!(out, "qp51 mapSome(7) false");
    assert_eq!(log.len(), 2);
}

#[test]
fn gray_pictures_are_encoded_in_one_pass() {
    let t = TwoPass {
        encode: |c: StillHevcConfig, _map: Option<u8>, measure: bool| {
            (c.qp as usize, if measure { Some(true) } else { None })
        },
        map: |_q: bool| -> Option<u8> { panic!("nothing was measured") },
        size: |o: &usize| *o,
        no_worse: |_u: &usize, _a: &usize| true,
        keeps: |_u: &usize, _a: &usize, _b: &usize| true,
    };
    let mut c = config(30);
    c.chroma = ChromaFormat::Gray;
    assert_eq!(encode_with_stats(&t, &c, AqMode::TwoPassMeasured, true), 30);
}

fn contexts() -> Contexts {
    Contexts::new(&[154u8; NUM_CONTEXTS], 30)
}

fn task(c_idx: u8) -> BlockTask {
    BlockTask { x: 0, y: 0, log2_size: 2, c_idx, mode: 10, qp: 30 }
}

/// The levels of a 4x4 block, zero behind the first two.
fn levels(a: i16, b: i16) -> Vec<i16> {
    let mut l = vec![0i16; 16];
    l[0] = a;
    l[1] = b;
    l
}

#[test]
fn a_block_without_levels_costs_nothing() {
    let y = [100u16; 16];
    let pic = SourcePicture {
        width: 4,
        height: 4,
        cat: 0,
        bit_depth: 8,
        src: Source { y: &y, cb: &[], cr: &[] },
    };
    let env = EvalEnv {
        pic: &pic,
        hide_signs: true,
        predict: |_w: &(), _t: BlockTask| vec![98u16; 16],
        transform: |r: &Vec<i16>, _t: BlockTask, _dst: bool| r.clone(),
        quantise: |_c: &Vec<i16>, _t: BlockTask, _q: Quantiser| (vec![0i16; 16], 0u32),
        hide: |_l: Vec<i16>, _c: &Vec<i16>, _t: BlockTask, _n: u32| -> (Vec<i16>, u32) {
            panic!("no signs to hide")
        },
        invert: |_l: &Vec<i16>, _t: BlockTask, _d: bool| -> Vec<i16> {
            panic!("nothing to invert")
        },
        price: |_l: &Vec<i16>, _t: BlockTask, _p: Pricing| -> u64 { panic!("nothing to price") },
    };
    let out = eval_leaf_block(&env, &(), task(0), EvalPolicy::for_kind(EvalKind::ExactTrial));
    assert!(!out.coded.cbf);
    assert_eq!(out.coded.frac_bits, 0);
    assert_eq!(out.distortion, 64);
    assert_eq!(out.samples, vec![98u16; 16]);
}

#[test]
fn a_block_goes_through_its_steps() {
    let y = [100u16; 16];
    let pic = SourcePicture {
        width: 4,
        height: 4,
        cat: 3,
        bit_depth: 8,
        src: Source { y: &y, cb: &y, cr: &y },
    };
    let env = EvalEnv {
        pic: &pic,
        hide_signs: false,
        predict: |_w: &(), _t: BlockTask| vec![90u16; 16],
        transform: |r: &Vec<i16>, _t: BlockTask, dst: bool| {
            assert!(r.iter().all(|&v| v == 10));
            levels(if dst { 1 } else { 2 }, 0)
        },
        quantise: |c: &Vec<i16>, _t: BlockTask, q: Quantiser| {
            (levels(c[0], if q == Quantiser::SingleScan { 5 } else { 6 }), 2u32)
        },
        hide: |_l: Vec<i16>, _c: &Vec<i16>, _t: BlockTask, _n: u32| -> (Vec<i16>, u32) {
            panic!("signs are not hidden")
        },
        invert: |_l: &Vec<i16>, _t: BlockTask, _d: bool| vec![9i16; 16],
        price: |l: &Vec<i16>, _t: BlockTask, p: Pricing| {
            l[1] as u64 * if p == Pricing::Exact { 100 } else { 10 }
        },
    };
    let out = eval_leaf_block(&env, &(), task(0), EvalPolicy::for_kind(EvalKind::Final));
    assert_eq!(out.samples, vec![99u16; 16]);
    assert_eq!(out.distortion, 16);
    assert_eq!(out.coded.levels, levels(1, 5));
    assert_eq!(out.coded.frac_bits, 500);
    let once = EncodeStats {
        forward_transforms: 1,
        inverse_transforms: 1,
        residual_bit_estimates: 1,
        ..EncodeStats::default()
    };
    let approximate = EncodeStats { residual_bit_estimates: 0, ..once };
    assert_eq!(out.work, once);
    let out = eval_leaf_block(&env, &(), task(1), EvalPolicy::for_kind(EvalKind::CheapTrial));
    assert!(out.coded.levels.is_empty());
    assert_eq!(out.coded.frac_bits, 60);
    assert_eq!(out.work, approximate);

    let budget = template(Effort::Placebo).resolve(BlockDesc {
        x: 0,
        y: 0,
        log2_size: 2,
        qp: 30,
        region: RegionClass::Texture,
        importance_q8: 128,
        component: ComponentKind::Luma,
        policy: inert(),
    });
    let refine = |l: Vec<i16>, _c: &Vec<i16>, _t: BlockTask, n: u8| Refined {
        levels: levels(l[0], n as i16),
        nonzeros: 2,
        work: EncodeStats { cache_builds: 3, ..EncodeStats::default() },
    };
    let plan = BlockPlan {
        task: task(0),
        stage: WorkStage::FinalCode,
        quality: TrialQuality::Final,
        single_scan: false,
        elide_final_pricing: false,
        gates: None,
    };
    let out = code_block(&env, &refine, &(), plan, &budget);
    assert_eq!(out.coded.levels, levels(1, 2));
    assert_eq!(out.coded.frac_bits, 200);
    assert_eq!(out.work, EncodeStats { code_block_calls: 1, cache_builds: 3, ..once });
    let single = BlockPlan { single_scan: true, elide_final_pricing: true, ..plan };
    let out = code_block(&env, &refine, &(), single, &budget);
    assert_eq!(out.coded.levels, levels(1, 5));
    assert_eq!(out.coded.frac_bits, 0);
    assert_eq!(out.work, EncodeStats { code_block_calls: 1, ..approximate });
    let rough = BlockPlan {
        stage: WorkStage::LumaTrial,
        quality: TrialQuality::FastRd,
        ..plan
    };
    let out = code_block(&env, &refine, &(), rough, &budget);
    assert_eq!(out.coded.levels, levels(1, 6));
    assert_eq!(out.coded.frac_bits, 60);
    let cheap = TrialGates {
        cheap: true,
        exact: false,
        rdoq: TrialRdoqGate::Off,
        approx_bits: false,
    };
    let trial = BlockTrial {
        task: task(0),
        stage: WorkStage::LumaTrial,
        forced: Some(TrialQuality::Final),
        fast_luma: true,
        single_scan: false,
        gates: Some(cheap),
    };
    let out = trial_code_block(&env, &refine, &(), trial, &budget);
    assert_eq!(out.coded.levels, levels(1, 6));
    assert_eq!(out.coded.frac_bits, 60);
    let ungated = BlockTrial { gates: None, ..trial };
    let out = trial_code_block(&env, &refine, &(), ungated, &budget);
    assert_eq!(out.coded.levels, levels(1, 2));

    let ctxs = contexts();
    let at = Place { x: 0, y: 0, log2_size: 2 };
    let sum = |d: u64, b: u64| d * 1_000_000 + b;
    let mode_bits = estimate_intra_luma_mode_bits(&ctxs, [0, 1, 26], 10);
    let cbf = ctxs.models[CBF_LUMA + 1].entropy_bits(1) as u64;
    let cost =
        eval_luma_candidate(&env, &(), &ctxs, at, [0, 1, 26], 10, 30, EvalKind::ExactTrial, &sum);
    assert_eq!(cost, Tried { cost: 16_000_000 + mode_bits + cbf + 500, work: once });
    let first = ctxs.models[CBF_LUMA].entropy_bits(1) as u64;
    let screened = part_screen_policy(false);
    let cost = eval_part_candidate(&env, &(), &ctxs, at, [0, 1, 26], 10, 30, screened, &sum);
    assert_eq!(cost, Tried { cost: 16_000_000 + mode_bits + first + 600, work: once });
    let rough = part_screen_policy(true);
    let cost = eval_part_candidate(&env, &(), &ctxs, at, [0, 1, 26], 10, 30, rough, &sum);
    assert_eq!(cost, Tried { cost: 16_000_000 + mode_bits + first + 60, work: approximate });
    assert_eq!(score_luma_mode(&ctxs, [0, 1, 26], 10, 7), 7 * 32768 + mode_bits);
    assert_eq!(rough_chroma_cost(&vec![3, 4, u32::MAX]), 7 + u32::MAX as u64);
    let part = ctxs.models[PART_MODE].entropy_bits(1) as u64;
    assert_eq!(
        luma_candidate_bits(&ctxs, [0, 1, 26], 10, 3, true, 7),
        part + mode_bits + cbf + 7
    );
    let cost = eval_chroma_candidate(
        &env,
        &(),
        &ctxs,
        0,
        0,
        2,
        1,
        2,
        10,
        30,
        EvalKind::CheapTrial,
        &sum,
    );
    let chroma_bits = estimate_intra_chroma_mode_bits(&ctxs, 2);
    let two = EncodeStats {
        forward_transforms: 2,
        inverse_transforms: 2,
        ..EncodeStats::default()
    };
    assert_eq!(cost, Tried { cost: 32_000_000 + chroma_bits + 120, work: two });
    assert_eq!(
        score_chroma_mode(&ctxs, 2, &vec![5, 6], &vec![7, 8]),
        26 * 32768 + chroma_bits
    );
}

#[test]
fn residuals_are_estimated_level_by_level() {
    let ctxs = contexts();
    let half = ctxs.models[0].entropy_bits(0) as u64;
    let one = ctxs.models[0].entropy_bits(1) as u64;
    let scale = 32768u64;
    let rice = |v: u32| v + 1;
    assert_eq!(approx_residual_frac_bits(&ctxs, &vec![0i16; 16], 2, 0, &rice), 0);
    // A level of one: significance of it and of four samples, one flag, a sign.
    let bits = approx_residual_frac_bits(&ctxs, &vec![0, -1, 0, 0], 2, 0, &rice);
    assert_eq!(bits, one + 4 * half + half + scale);
    let bits = approx_residual_frac_bits(&ctxs, &vec![2i16], 2, 1, &rice);
    assert_eq!(bits, one + 4 * half + one + half + scale);
    let bits = approx_residual_frac_bits(&ctxs, &vec![5i16], 3, 0, &rice);
    assert_eq!(bits, one + 16 * half + one + one + 3 * scale + scale);
}
