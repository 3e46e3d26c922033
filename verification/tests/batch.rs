//! Memory estimates and the order of batches.

use still265::batch::{
    batch_workers, encode_batch, estimate_memory, frameless_wpp_estimate_enabled, is_parallel, merge_in_order,
    recommended_concurrency, worker_count, BatchJob, BatchOutput, RunSettings, CTB,
};
use still265::source::Source;
use still265::stats::EncodeStats;
use still265::config::{AqMode, ChromaFormat, DeblockMode, Effort, SaoMode, StillHevcConfig};

fn cfg(width: u32, height: u32, effort: Effort, chroma: ChromaFormat) -> StillHevcConfig {
    StillHevcConfig {
        width,
        height,
        bit_depth: 8,
        chroma,
        qp: 28,
        effort,
        sao: SaoMode::On,
        deblock: DeblockMode::On,
        adaptive_qp: false,
        aq_mode: AqMode::Off,
        aq_strength_milli: 350,
        aq_clamp: 2,
        two_pass_gate: true,
    }
}

fn run(config: &StillHevcConfig) -> RunSettings {
    RunSettings {
        aq_active: config.adaptive_qp,
        aq_parallel_build: true,
        parallel: true,
        threads: 8,
        frameless: true,
        import_one_row: true,
    }
}

#[test]
fn estimate_scales_with_resolution_and_format() {
    let c = cfg(512, 512, Effort::Fast, ChromaFormat::Yuv420);
    let small = estimate_memory(&c, &run(&c));
    let c = cfg(4096, 4096, Effort::Fast, ChromaFormat::Yuv420);
    let big = estimate_memory(&c, &run(&c));
    assert!(big.peak_bytes > small.peak_bytes * 50);

    let c = cfg(1024, 1024, Effort::Fast, ChromaFormat::Yuv420);
    let yuv420 = estimate_memory(&c, &run(&c));
    let c = cfg(1024, 1024, Effort::Fast, ChromaFormat::Yuv444);
    let yuv444 = estimate_memory(&c, &run(&c));
    assert!(yuv444.frame_bytes > yuv420.frame_bytes);
}

#[test]
fn aq_configs_follow_build_only_wpp_gate() {
    let mut fast_aq = cfg(1024, 768, Effort::Fast, ChromaFormat::Yuv420);
    fast_aq.adaptive_qp = true;
    let mut settings = run(&fast_aq);
    let est = estimate_memory(&fast_aq, &settings);
    assert!(is_parallel(&fast_aq, &settings));
    assert!(est.worker_bytes > 0);
    settings.aq_parallel_build = false;
    let est = estimate_memory(&fast_aq, &settings);
    assert!(!is_parallel(&fast_aq, &settings));
    assert_eq!(est.worker_frames, 0);
    assert_eq!(est.worker_bytes, 0);
}

#[test]
fn uniform_speed_tiers_account_for_wavefront_worker_memory() {
    let c = cfg(1024, 768, Effort::Slow, ChromaFormat::Yuv420);
    let mut settings = run(&c);
    let slow = estimate_memory(&c, &settings);
    assert!(slow.worker_bytes > 0);
    assert!(frameless_wpp_estimate_enabled(&settings));
    assert_eq!(slow.worker_frames, 0);
    let rounded = (768 + CTB - 1) / CTB * CTB;
    let full_clone_bytes = worker_count(rounded, &settings) as u64 * slow.frame_bytes;
    assert!(slow.worker_bytes < full_clone_bytes / 2);

    settings.frameless = false;
    let slow = estimate_memory(&c, &settings);
    assert!(slow.worker_bytes > 0);
    assert!(slow.worker_frames > 0);
    assert!(slow.worker_frames <= 12);
}

#[test]
fn recommended_concurrency_respects_budget() {
    let c = cfg(1024, 768, Effort::Fast, ChromaFormat::Yuv420);
    let settings = run(&c);
    let per = estimate_memory(&c, &settings).peak_bytes;
    // A budget below one instance still yields at least 1.
    assert_eq!(recommended_concurrency(&c, &settings, per / 2, 6), 1);
    // A large budget is capped by core count, not RAM.
    for cores in [1usize, 6, 64] {
        assert_eq!(recommended_concurrency(&c, &settings, per * 10_000, cores), cores.max(1));
    }
    assert_eq!(recommended_concurrency(&c, &settings, per * 10_000, 0), 1);
    assert_eq!(recommended_concurrency(&c, &settings, per * 3, 6), 3);
}

#[test]
fn frames_are_estimated_in_whole_coding_tree_blocks() {
    let c = cfg(65, 1, Effort::Fast, ChromaFormat::Gray);
    let e = estimate_memory(&c, &run(&c));
    // 128 x 64 samples of two bytes, and a quarter for maps.
    assert_eq!(e.frame_bytes, 128 * 64 * 2 * 5 / 4);
    assert_eq!(e.source_bytes, 65 * 2);
}

#[test]
fn workers_are_limited_by_rows_and_threads() {
    let c = cfg(64, 64, Effort::Fast, ChromaFormat::Gray);
    let mut settings = run(&c);
    settings.threads = 0;
    assert_eq!(worker_count(640, &settings), 1);
    settings.threads = 4;
    assert_eq!(worker_count(640, &settings), 4);
    settings.threads = 40;
    assert_eq!(worker_count(640, &settings), 10);
    assert_eq!(worker_count(10, &settings), 1);
}

#[test]
fn batches_use_no_more_workers_than_jobs() {
    assert_eq!(batch_workers(5, 3), 3);
    assert_eq!(batch_workers(2, 3), 2);
    assert_eq!(batch_workers(2, 0), 1);
}

#[test]
fn batch_results_come_in_input_order() {
    let finished = vec![(2usize, "c"), (0usize, "a"), (1usize, "b")];
    assert_eq!(merge_in_order(3, finished), Some(vec!["a", "b", "c"]));
}

#[test]
fn a_missing_batch_result_is_noticed() {
    let finished = vec![(2usize, 'c'), (0usize, 'a')];
    assert_eq!(merge_in_order(3, finished), None);
}

#[test]
fn a_batch_is_encoded_job_by_job() {
    let y = [0u16; 4];
    let job = |qp: u8| {
        let mut config = cfg(2, 2, Effort::Fast, ChromaFormat::Gray);
        config.qp = qp;
        BatchJob { config, source: Source { y: &y, cb: &[], cr: &[] } }
    };
    let encode = |j: &BatchJob| BatchOutput {
        annexb: vec![j.config.qp],
        stats: EncodeStats::default(),
    };
    let alone = |_j: &Vec<BatchJob>, _n: usize| -> Vec<(usize, BatchOutput)> {
        panic!("one worker takes all")
    };
    let outs = encode_batch(&vec![job(5), job(7)], 1, &encode, &alone);
    assert_eq!(outs.len(), 2);
    assert_eq!(outs[0].annexb, vec![5]);
    assert_eq!(outs[1].annexb, vec![7]);
    assert!(encode_batch(&vec![], 8, &encode, &alone).is_empty());
    let backwards = |j: &Vec<BatchJob>, n: usize| -> Vec<(usize, BatchOutput)> {
        assert_eq!(n, 3);
        (0..j.len()).rev().map(|i| (i, encode(&j[i]))).collect()
    };
    let outs = encode_batch(&vec![job(5), job(7), job(9)], 8, &encode, &backwards);
    let bytes: Vec<u8> = outs.iter().map(|o| o.annexb[0]).collect();
    assert_eq!(bytes, vec![5, 7, 9]);
    // The concurrency changes nothing; none counts as one.
    let spread = |j: &Vec<BatchJob>, n: usize| -> Vec<(usize, BatchOutput)> {
        assert!(n == 2 || n == 3);
        (0..j.len()).rev().map(|i| (i, encode(&j[i]))).collect()
    };
    for concurrency in 0..6 {
        let outs = encode_batch(&vec![job(5), job(7), job(9)], concurrency, &encode, &spread);
        let same: Vec<u8> = outs.iter().map(|o| o.annexb[0]).collect();
        assert_eq!(same, bytes);
    }
    assert_eq!((batch_workers(3, 0), batch_workers(3, 1), batch_workers(3, 9)), (1, 1, 3));
}

#[test]
fn counters_are_reported_by_name() {
    let mut s = EncodeStats::default();
    s.cu_trials = 4;
    s.bytes_snapshotted = 9;
    let lines = s.report();
    assert_eq!(lines.len(), 16);
    assert_eq!(lines[0], ("ctu_count", 0));
    assert_eq!(lines[1], ("cu_trials", 4));
    assert_eq!(lines[15], ("bytes_snapshotted", 9));
}
