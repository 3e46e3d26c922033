//! Encoding many pictures within a memory budget.

use vstd::prelude::*;

use crate::config::{ChromaFormat, Effort, StillHevcConfig};
use crate::math::{ceil_div, ceil_div_u32, max_int, min_int, min_usize};
use crate::source::Source;
use crate::stats::EncodeStats;

verus! {

pub const CTB: u32 = 64;

/// Samples are stored in 16 bits.
pub const BYTES_PER_SAMPLE: u64 = 2;

/// Workspaces of a worker that keeps no frame of its own.
pub const WORKER_SCRATCH: u64 = 65536;

/// The memory that one encode needs, in bytes. The peak is slightly overestimated, so
/// that a budget can be divided by it.
#[derive(Clone, Copy, Debug, PartialEq, Eq, Structural)]
pub struct MemoryEstimate {
    /// Planes and maps of one reconstruction.
    pub frame_bytes: u64,
    /// The source planes.
    pub source_bytes: u64,
    /// Frames that workers hold for themselves.
    pub worker_frames: u32,
    /// What the workers hold in all.
    pub worker_bytes: u64,
    pub peak_bytes: u64,
}

/// How the encoder would run: what the process environment and the machine decide.
#[derive(Clone, Copy, Debug, PartialEq, Eq, Structural)]
pub struct RunSettings {
    /// Adaptive quantisation is active for the encode.
    pub aq_active: bool,
    /// With adaptive quantisation, trees may still be built by a row of workers.
    pub aq_parallel_build: bool,
    /// The parallel path is not switched off.
    pub parallel: bool,
    /// Threads asked for.
    pub threads: usize,
    /// Workers may do without a frame of their own.
    pub frameless: bool,
    /// Workers import one row of neighbours.
    pub import_one_row: bool,
}

/// The multiple of `to` at or above `v`.
pub open spec fn rounded_up(v: int, to: int) -> int {
    ceil_div(v, to) * to
}

fn round_up(v: u32, to: u32) -> (r: u32)
    requires
        to > 0,
        rounded_up(v as int, to as int) <= u32::MAX,
    ensures
        r == rounded_up(v as int, to as int),
{
    ceil_div_u32(v, to) * to
}

/// All samples of a picture.
pub open spec fn samples(w: int, h: int, chroma: ChromaFormat) -> int {
    match chroma {
        ChromaFormat::Gray => w * h,
        ChromaFormat::Yuv420 => w * h + 2 * (ceil_div(w, 2) * ceil_div(h, 2)),
        ChromaFormat::Yuv422 => w * h + 2 * (ceil_div(w, 2) * h),
        ChromaFormat::Yuv444 => 3 * (w * h),
    }
}

proof fn lemma_product(a: int, b: int)
    requires
        0 <= a <= u32::MAX,
        0 <= b <= u32::MAX,
    ensures
        0 <= a * b <= u64::MAX,
{
    assert(0 <= a * b <= 0xffff_ffff * 0xffff_ffff) by (nonlinear_arith)
        requires
            0 <= a <= 0xffff_ffff,
            0 <= b <= 0xffff_ffff,
    ;
}

fn plane_samples(w: u32, h: u32, chroma: ChromaFormat) -> (n: u64)
    requires
        samples(w as int, h as int, chroma) <= u64::MAX,
    ensures
        n == samples(w as int, h as int, chroma),
{
    let cw: u32 = ceil_div_u32(w, 2);
    let ch: u32 = ceil_div_u32(h, 2);
    proof {
        lemma_product(w as int, h as int);
        lemma_product(cw as int, ch as int);
        lemma_product(cw as int, h as int);
    }
    let luma: u64 = w as u64 * h as u64;
    match chroma {
        ChromaFormat::Gray => luma,
        ChromaFormat::Yuv420 => luma + 2 * (cw as u64 * ch as u64),
        ChromaFormat::Yuv422 => luma + 2 * (cw as u64 * h as u64),
        ChromaFormat::Yuv444 => luma * 3,
    }
}

/// Whether an encode runs rows of workers.
pub open spec fn runs_parallel(config: &StillHevcConfig, run: &RunSettings) -> bool {
    if run.aq_active {
        run.aq_parallel_build
    } else {
        config.effort == Effort::Placebo || run.parallel
    }
}

pub fn is_parallel(config: &StillHevcConfig, run: &RunSettings) -> (r: bool)
    ensures
        r == runs_parallel(config, run),
{
    if run.aq_active {
        return run.aq_parallel_build;
    }
    match config.effort {
        Effort::Placebo => true,
        _ => run.parallel,
    }
}

/// The workers for a coded height: the threads asked for, at least one, at most one per
/// row of coding tree blocks.
pub open spec fn workers_for(coded_h: int, run: &RunSettings) -> int {
    min_int(max_int(run.threads as int, 1), max_int(coded_h / 64, 1))
}

pub fn worker_count(coded_h: u32, run: &RunSettings) -> (n: u32)
    ensures
        n == workers_for(coded_h as int, run),
        n >= 1,
{
    let ctbs_y: u32 = if coded_h / CTB > 1 {
        coded_h / CTB
    } else {
        1
    };
    if run.threads <= 1 {
        1
    } else if run.threads < ctbs_y as usize {
        run.threads as u32
    } else {
        ctbs_y
    }
}

/// Whether workers do without frames of their own.
pub fn frameless_wpp_estimate_enabled(run: &RunSettings) -> (r: bool)
    ensures
        r == (run.frameless && run.import_one_row),
{
    run.frameless && run.import_one_row
}

/// The estimate in exact numbers.
pub struct ExactEstimate {
    pub frame: int,
    pub source: int,
    pub worker_frames: int,
    pub workers: int,
    pub peak: int,
}

/// What one encode needs: a frame and a quarter more for its maps, the source, the
/// workers, and a seventh of all that for buffers.
pub open spec fn exact_estimate(config: &StillHevcConfig, run: &RunSettings) -> ExactEstimate {
    let (w, h) = (config.width as int, config.height as int);
    let (cw, ch) = (rounded_up(w, 64), rounded_up(h, 64));
    let pixels = 2 * samples(cw, ch, config.chroma);
    let aux = pixels / 4;
    let frame = pixels + aux;
    let source = 2 * samples(w, h, config.chroma);
    let count = if runs_parallel(config, run) {
        workers_for(ch, run)
    } else {
        0
    };
    let frameless = run.frameless && run.import_one_row;
    let strip = 2 * samples(cw, 1, config.chroma);
    let workers = if frameless {
        count * (aux + strip + WORKER_SCRATCH)
    } else {
        count * frame
    };
    let base = frame + workers + source;
    ExactEstimate {
        frame,
        source,
        worker_frames: if frameless {
            0
        } else {
            count
        },
        workers,
        peak: base + base / 7,
    }
}

proof fn lemma_samples_nonneg(w: int, h: int, chroma: ChromaFormat)
    requires
        w >= 0,
        h >= 0,
    ensures
        samples(w, h, chroma) >= 0,
{
    assert(w * h >= 0) by (nonlinear_arith)
        requires
            w >= 0,
            h >= 0,
    ;
    let (a, b) = (ceil_div(w, 2), ceil_div(h, 2));
    assert(a * b >= 0 && a * h >= 0) by (nonlinear_arith)
        requires
            a >= 0,
            b >= 0,
            h >= 0,
    ;
}

/// What one encode needs.
pub fn estimate_memory(config: &StillHevcConfig, run: &RunSettings) -> (e: MemoryEstimate)
    requires
        rounded_up(config.width as int, 64) <= u32::MAX,
        rounded_up(config.height as int, 64) <= u32::MAX,
        exact_estimate(config, run).peak <= u64::MAX,
    ensures
        ({
            let x = exact_estimate(config, run);
            &&& e.frame_bytes == x.frame
            &&& e.source_bytes == x.source
            &&& e.worker_frames == x.worker_frames
            &&& e.worker_bytes == x.workers
            &&& e.peak_bytes == x.peak
        }),
{
    let coded_w: u32 = round_up(config.width, CTB);
    let coded_h: u32 = round_up(config.height, CTB);
    let ghost x = exact_estimate(config, run);
    proof {
        lemma_samples_nonneg(coded_w as int, coded_h as int, config.chroma);
        lemma_samples_nonneg(config.width as int, config.height as int, config.chroma);
        lemma_samples_nonneg(coded_w as int, 1, config.chroma);
        assert(x.workers >= 0) by {
            lemma_workers_nonneg(config, run);
        }
    }
    let frame_pixels: u64 = plane_samples(coded_w, coded_h, config.chroma) * BYTES_PER_SAMPLE;
    let frame_aux_bytes: u64 = frame_pixels / 4;
    let frame_bytes: u64 = frame_pixels + frame_aux_bytes;
    let source_bytes: u64 = plane_samples(config.width, config.height, config.chroma)
        * BYTES_PER_SAMPLE;
    let workers: u32 = if is_parallel(config, run) {
        worker_count(coded_h, run)
    } else {
        0
    };
    let frameless_workers: bool = workers > 0 && frameless_wpp_estimate_enabled(run);
    let worker_frames: u32 = if frameless_workers {
        0
    } else {
        workers
    };
    let worker_bytes: u64 = if workers == 0 {
        assert(0 * x.frame == 0);
        0
    } else if frameless_workers {
        proof {
            let inner = frame_aux_bytes + 2 * samples(coded_w as int, 1, config.chroma)
                + WORKER_SCRATCH;
            assert(inner <= workers * inner) by (nonlinear_arith)
                requires
                    workers >= 1,
                    inner >= 0,
            ;
        }
        let row_strip_bytes: u64 = plane_samples(coded_w, 1, config.chroma) * BYTES_PER_SAMPLE;
        workers as u64 * (frame_aux_bytes + row_strip_bytes + WORKER_SCRATCH)
    } else {
        workers as u64 * frame_bytes
    };
    let base: u64 = frame_bytes + worker_bytes + source_bytes;
    MemoryEstimate {
        frame_bytes,
        source_bytes,
        worker_frames,
        worker_bytes,
        peak_bytes: base + base / 7,
    }
}

proof fn lemma_workers_nonneg(config: &StillHevcConfig, run: &RunSettings)
    ensures
        exact_estimate(config, run).workers >= 0,
        exact_estimate(config, run).frame >= 0,
{
    let (cw, ch) = (rounded_up(config.width as int, 64), rounded_up(config.height as int, 64));
    lemma_samples_nonneg(cw, ch, config.chroma);
    lemma_samples_nonneg(cw, 1, config.chroma);
    let aux = 2 * samples(cw, ch, config.chroma) / 4;
    let per = aux + 2 * samples(cw, 1, config.chroma) + WORKER_SCRATCH;
    let frame = exact_estimate(config, run).frame;
    let count = if runs_parallel(config, run) {
        workers_for(ch, run)
    } else {
        0
    };
    assert(count * per >= 0 && count * frame >= 0) by (nonlinear_arith)
        requires
            count >= 0,
            per >= 0,
            frame >= 0,
    ;
}

/// How many encodes of a peak may run at once: what fits the budget, at least one, at most
/// one per core.
pub open spec fn concurrency_of(peak: int, budget: int, cores: int) -> int {
    let per = max_int(peak, 1);
    max_int(min_int(max_int(budget / per, 1), cores), 1)
}

/// How many encodes may run at once: what fits the budget, at least one, at most one per
/// core.
pub fn recommended_concurrency(
    config: &StillHevcConfig,
    run: &RunSettings,
    ram_budget_bytes: u64,
    cores: usize,
) -> (n: usize)
    requires
        rounded_up(config.width as int, 64) <= u32::MAX,
        rounded_up(config.height as int, 64) <= u32::MAX,
        exact_estimate(config, run).peak <= u64::MAX,
    ensures
        n == concurrency_of(
            exact_estimate(config, run).peak,
            ram_budget_bytes as int,
            cores as int,
        ),
{
    let peak: u64 = estimate_memory(config, run).peak_bytes;
    let per: u64 = if peak < 1 {
        1
    } else {
        peak
    };
    let fits: u64 = ram_budget_bytes / per;
    let by_ram: u64 = if fits < 1 {
        1
    } else {
        fits
    };
    if cores <= 1 {
        1
    } else if by_ram < cores as u64 {
        by_ram as usize
    } else {
        cores
    }
}

/// Encodes that run at once as recommended stay within the budget, unless it is one
/// alone, and never outnumber the cores; where cores are left, one encode more would exceed
/// the budget.
pub proof fn law_concurrency_fits(peak: int, budget: int, cores: int)
    requires
        peak >= 0,
        budget >= 0,
        cores >= 0,
    ensures
        ({
            let n = concurrency_of(peak, budget, cores);
            &&& n >= 1
            &&& n == 1 || n <= cores
            &&& n > 1 ==> n * peak <= budget
            &&& n < cores && peak > 0 ==> (n + 1) * peak > budget
            &&& peak == 0 && cores <= budget && cores > 0 ==> n == cores
        }),
{
    let per = max_int(peak, 1);
    let n = concurrency_of(peak, budget, cores);
    if n < cores {
        let q = budget / per;
        assert(q <= n);
        vstd::arithmetic::div_mod::lemma_fundamental_div_mod(budget, per);
        assert((n + 1) * per > budget) by (nonlinear_arith)
            requires
                budget == per * q + budget % per,
                budget % per < per,
                q <= n,
                per > 0,
        ;
    }
    if n > 1 {
        let q = budget / per;
        assert(n <= q);
        assert(n * peak <= budget) by (nonlinear_arith)
            requires
                0 <= n <= q,
                0 <= peak <= per,
                q == budget / per,
                per > 0,
        ;
    }
}

proof fn lemma_ceil_div_monotone(a: int, b: int, d: int)
    requires
        0 <= a <= b,
        d > 0,
    ensures
        0 <= ceil_div(a, d) <= ceil_div(b, d),
{
    vstd::arithmetic::div_mod::lemma_div_is_ordered(a + d - 1, b + d - 1, d);
    vstd::arithmetic::div_mod::lemma_div_pos_is_pos(a + d - 1, d);
}

proof fn lemma_samples_monotone(w: int, h: int, w2: int, h2: int, chroma: ChromaFormat)
    requires
        0 <= w <= w2,
        0 <= h <= h2,
    ensures
        0 <= samples(w, h, chroma) <= samples(w2, h2, chroma),
{
    lemma_samples_nonneg(w, h, chroma);
    lemma_ceil_div_monotone(w, w2, 2);
    lemma_ceil_div_monotone(h, h2, 2);
    let (a, b, a2, b2) = (ceil_div(w, 2), ceil_div(h, 2), ceil_div(w2, 2), ceil_div(h2, 2));
    assert(w * h <= w2 * h2 && a * b <= a2 * b2 && a * h <= a2 * h2) by (nonlinear_arith)
        requires
            0 <= w <= w2,
            0 <= h <= h2,
            0 <= a <= a2,
            0 <= b <= b2,
    ;
}

/// A larger picture, otherwise encoded alike, never needs less memory.
pub proof fn law_estimate_grows(small: &StillHevcConfig, big: &StillHevcConfig, run: &RunSettings)
    requires
        small.width <= big.width,
        small.height <= big.height,
        small.chroma == big.chroma,
        small.effort == big.effort,
    ensures
        exact_estimate(small, run).frame <= exact_estimate(big, run).frame,
        exact_estimate(small, run).source <= exact_estimate(big, run).source,
        exact_estimate(small, run).workers <= exact_estimate(big, run).workers,
        exact_estimate(small, run).peak <= exact_estimate(big, run).peak,
{
    let (w, h) = (small.width as int, small.height as int);
    let (w2, h2) = (big.width as int, big.height as int);
    lemma_ceil_div_monotone(w, w2, 64);
    lemma_ceil_div_monotone(h, h2, 64);
    let (cw, ch) = (rounded_up(w, 64), rounded_up(h, 64));
    let (cw2, ch2) = (rounded_up(w2, 64), rounded_up(h2, 64));
    lemma_samples_monotone(w, h, w2, h2, small.chroma);
    lemma_samples_monotone(cw, ch, cw2, ch2, small.chroma);
    lemma_samples_monotone(cw, 1, cw2, 1, small.chroma);
    let (x, y) = (exact_estimate(small, run), exact_estimate(big, run));
    let parallel = runs_parallel(small, run);
    let (n, n2) = if parallel {
        (workers_for(ch, run), workers_for(ch2, run))
    } else {
        (0int, 0int)
    };
    assert(0 <= n <= n2);
    let aux = 2 * samples(cw, ch, small.chroma) / 4;
    let aux2 = 2 * samples(cw2, ch2, small.chroma) / 4;
    let per = aux + 2 * samples(cw, 1, small.chroma) + WORKER_SCRATCH;
    let per2 = aux2 + 2 * samples(cw2, 1, small.chroma) + WORKER_SCRATCH;
    assert(0 <= per <= per2);
    assert(n * per <= n2 * per2 && n * x.frame <= n2 * y.frame) by (nonlinear_arith)
        requires
            0 <= n <= n2,
            0 <= per <= per2,
            0 <= x.frame <= y.frame,
    ;
}

/// One picture of a batch.
pub struct BatchJob<'a> {
    pub config: StillHevcConfig,
    pub source: Source<'a>,
}

/// The result of one picture of a batch.
pub struct BatchOutput {
    pub annexb: Vec<u8>,
    pub stats: EncodeStats,
}

/// How many threads a batch runs: at least one, at most one per job.
pub open spec fn batch_threads(jobs: int, concurrency: int) -> int {
    min_int(max_int(concurrency, 1), jobs)
}

pub fn batch_workers(jobs: usize, concurrency: usize) -> (n: usize)
    requires
        jobs > 0,
    ensures
        n == batch_threads(jobs as int, concurrency as int),
{
    if concurrency <= 1 {
        1
    } else {
        min_usize(concurrency, jobs)
    }
}

/// Every job of a batch has its result, in the order of the jobs.
pub open spec fn batch_encoded<'a, E>(
    jobs: Seq<BatchJob<'a>>,
    encode: E,
    outs: Seq<BatchOutput>,
) -> bool where E: Fn(&BatchJob<'a>) -> BatchOutput {
    &&& outs.len() == jobs.len()
    &&& forall|i: int|
        0 <= i < jobs.len() ==> call_ensures(encode, (&jobs[i],), #[trigger] outs[i])
}

/// A job's stream does not depend on anything but the job.
pub open spec fn encodes_alike<'a, E>(encode: E) -> bool where
    E: Fn(&BatchJob<'a>) -> BatchOutput,
 {
    forall|j: &BatchJob<'a>, a: BatchOutput, b: BatchOutput|
        #[trigger] call_ensures(encode, (j,), a) && #[trigger] call_ensures(encode, (j,), b)
            ==> a.annexb@ == b.annexb@
}

/// Where a job's stream depends on the job alone, a batch has the same streams whatever
/// its concurrency: `a` and `b` are the results of the same jobs at any two.
pub proof fn law_concurrency_keeps_streams<'a, E>(
    jobs: Seq<BatchJob<'a>>,
    encode: E,
    a: Seq<BatchOutput>,
    b: Seq<BatchOutput>,
) where E: Fn(&BatchJob<'a>) -> BatchOutput
    requires
        encodes_alike(encode),
        batch_encoded(jobs, encode, a),
        batch_encoded(jobs, encode, b),
    ensures
        a.len() == b.len() == jobs.len(),
        forall|i: int| 0 <= i < jobs.len() ==> (#[trigger] a[i]).annexb@ == b[i].annexb@,
{
    assert forall|i: int| 0 <= i < jobs.len() implies (#[trigger] a[i]).annexb@ == b[i].annexb@ by {
        assert(call_ensures(encode, (&jobs[i],), b[i]));
    }
}

/// Encodes the jobs of a batch one after the other.
fn encode_serially<'a, E>(jobs: &Vec<BatchJob<'a>>, encode: &E) -> (outs: Vec<BatchOutput>) where
    E: Fn(&BatchJob<'a>) -> BatchOutput,

    requires
        forall|i: int| 0 <= i < jobs@.len() ==> call_requires(*encode, (&#[trigger] jobs@[i],)),
    ensures
        batch_encoded(jobs@, *encode, outs@),
{
    let mut outs: Vec<BatchOutput> = Vec::new();
    let n: usize = jobs.len();
    for i in 0..n
        invariant
            n == jobs@.len(),
            forall|i: int| 0 <= i < jobs@.len() ==> call_requires(*encode, (&#[trigger] jobs@[i],)),
            outs@.len() == i,
            forall|k: int|
                0 <= k < i ==> call_ensures(*encode, (&jobs@[k],), #[trigger] outs@[k]),
    {
        outs.push((*encode)(&jobs[i]));
    }
    outs
}

/// What workers bring back of a batch: for every job its result, in some order.
pub open spec fn batch_spread<'a, E>(
    jobs: &Vec<BatchJob<'a>>,
    encode: E,
    finished: Seq<(usize, BatchOutput)>,
) -> bool where E: Fn(&BatchJob<'a>) -> BatchOutput {
    &&& results_ok(jobs@.len() as int, finished)
    &&& forall|i: int| 0 <= i < jobs@.len() ==> #[trigger] has_result(finished, i)
    &&& forall|k: int|
        0 <= k < finished.len() ==> call_ensures(
            encode,
            (&jobs@[(#[trigger] finished[k]).0 as int],),
            finished[k].1,
        )
}

/// Encodes the jobs of a batch on up to `concurrency` workers, and returns the results in
/// the order of the jobs. `spread` runs them on several workers; one alone takes them one
/// after the other.
pub fn encode_batch<'a, E, R>(
    jobs: &Vec<BatchJob<'a>>,
    concurrency: usize,
    encode: &E,
    spread: &R,
) -> (outs: Vec<BatchOutput>) where
    E: Fn(&BatchJob<'a>) -> BatchOutput,
    R: Fn(&Vec<BatchJob<'a>>, usize) -> Vec<(usize, BatchOutput)>,

    requires
        forall|i: int| 0 <= i < jobs@.len() ==> call_requires(*encode, (&#[trigger] jobs@[i],)),
        forall|n: usize|
            1 < n <= jobs@.len() ==> #[trigger] call_requires(*spread, (jobs, n)),
        forall|n: usize, f: Vec<(usize, BatchOutput)>| #[trigger]
            call_ensures(*spread, (jobs, n), f) && 1 < n <= jobs@.len() ==> batch_spread(
                jobs,
                *encode,
                f@,
            ),
    ensures
        batch_encoded(jobs@, *encode, outs@),
{
    if jobs.len() == 0 {
        return Vec::new();
    }
    let workers: usize = batch_workers(jobs.len(), concurrency);
    if workers == 1 {
        return encode_serially(jobs, encode);
    }
    let finished = (*spread)(jobs, workers);
    let ghost all = finished@;
    assert(batch_spread(jobs, *encode, all));
    match merge_in_order(jobs.len(), finished) {
        Some(outs) => {
            proof {
                assert forall|i: int| 0 <= i < jobs@.len() implies call_ensures(
                    *encode,
                    (&jobs@[i],),
                    #[trigger] outs@[i],
                ) by {
                    assert(has_result(all, i));
                    let k = choose|k: int| 0 <= k < all.len() && (#[trigger] all[k]).0 == i;
                    assert(outs@[all[k].0 as int] == all[k].1);
                }
            }
            outs
        },
        None => Vec::new(),
    }
}

/// Every result names a job and no job twice.
pub open spec fn results_ok<T>(jobs: int, finished: Seq<(usize, T)>) -> bool {
    &&& forall|k: int| 0 <= k < finished.len() ==> (#[trigger] finished[k]).0 < jobs
    &&& forall|j: int, k: int|
        0 <= j < k < finished.len() ==> (#[trigger] finished[j]).0 != (#[trigger] finished[k]).0
}

/// Job `i` has a result.
pub open spec fn has_result<T>(finished: Seq<(usize, T)>, i: int) -> bool {
    exists|k: int| 0 <= k < finished.len() && (#[trigger] finished[k]).0 == i
}

/// Results stand in the order of the jobs.
pub open spec fn in_order<T>(jobs: int, finished: Seq<(usize, T)>, outs: Seq<T>) -> bool {
    &&& outs.len() == jobs
    &&& forall|k: int|
        0 <= k < finished.len() ==> outs[(#[trigger] finished[k]).0 as int] == finished[k].1
}

/// Puts the results of workers into the order of the jobs; nothing where a job has no
/// result.
pub fn merge_in_order<T>(jobs: usize, finished: Vec<(usize, T)>) -> (r: Option<Vec<T>>)
    requires
        results_ok(jobs as int, finished@),
    ensures
        r is Some <==> forall|i: int| 0 <= i < jobs ==> #[trigger] has_result(finished@, i),
        r matches Some(outs) ==> in_order(jobs as int, finished@, outs@),
{
    let ghost all = finished@;
    let mut slots: Vec<Option<T>> = Vec::new();
    for i in 0..jobs
        invariant
            slots@.len() == i,
            forall|k: int| 0 <= k < i ==> #[trigger] slots@[k] is None,
    {
        slots.push(None);
    }
    let mut rest = finished;
    let ghost mut taken: int = all.len() as int;
    while rest.len() > 0
        invariant
            results_ok(jobs as int, all),
            slots@.len() == jobs,
            rest@ == all.take(taken),
            0 <= taken <= all.len(),
            forall|k: int|
                taken <= k < all.len() ==> slots@[(#[trigger] all[k]).0 as int] == Some(all[k].1),
            forall|i: int|
                0 <= i < jobs && (#[trigger] slots@[i]) is Some ==> exists|k: int|
                    taken <= k < all.len() && (#[trigger] all[k]).0 == i,
        decreases rest@.len(),
    {
        let ghost before = slots@;
        let popped = rest.pop();
        match popped {
            Some((i, out)) => {
                proof {
                    taken = taken - 1;
                    assert(all.take(taken + 1).last() == all[taken]);
                    assert(all.take(taken + 1).drop_last() =~= all.take(taken));
                    assert(all[taken].0 < jobs);
                }
                slots.set(i, Some(out));
                proof {
                    assert forall|k: int| taken <= k < all.len() implies slots@[(
                    #[trigger] all[k]).0 as int] == Some(all[k].1) by {
                        if k > taken {
                            assert(all[taken].0 != all[k].0);
                        }
                    }
                    assert forall|j: int|
                        0 <= j < jobs && (#[trigger] slots@[j]) is Some implies exists|k: int|
                        taken <= k < all.len() && (#[trigger] all[k]).0 == j by {
                        if j == i {
                            assert(all[taken].0 == j);
                        } else {
                            assert(before[j] is Some);
                            let k = choose|k: int|
                                taken + 1 <= k < all.len() && (#[trigger] all[k]).0 == j;
                            assert(all[k].0 == j);
                        }
                    }
                }
            },
            None => {},
        }
    }
    assert(taken == 0);
    collect_slots(slots, Ghost(all))
}

fn collect_slots<T>(slots: Vec<Option<T>>, all: Ghost<Seq<(usize, T)>>) -> (r: Option<Vec<T>>)
    requires
        results_ok(slots@.len() as int, all@),
        forall|k: int|
            0 <= k < all@.len() ==> slots@[(#[trigger] all@[k]).0 as int] == Some(all@[k].1),
        forall|i: int|
            0 <= i < slots@.len() && (#[trigger] slots@[i]) is Some ==> has_result(all@, i),
    ensures
        r is Some <==> forall|i: int| 0 <= i < slots@.len() ==> #[trigger] has_result(all@, i),
        r matches Some(outs) ==> in_order(slots@.len() as int, all@, outs@),
{
    let ghost start = slots@;
    let mut rest = slots;
    let mut outs: Vec<T> = Vec::new();
    let n: usize = rest.len();
    for i in 0..n
        invariant
            n == start.len(),
            start == slots@,
            results_ok(start.len() as int, all@),
            forall|k: int|
                0 <= k < all@.len() ==> start[(#[trigger] all@[k]).0 as int] == Some(all@[k].1),
            rest@.len() == n,
            outs@.len() == i,
            forall|k: int| i <= k < n ==> #[trigger] rest@[k] == start[k],
            forall|k: int| 0 <= k < i ==> start[k] == Some(#[trigger] outs@[k]),
    {
        let slot: &mut Option<T> = &mut rest[i];
        match slot.take() {
            Some(out) => {
                outs.push(out);
            },
            None => {
                proof {
                    assert(start[i as int] is None);
                    if has_result(all@, i as int) {
                        let k = choose|k: int|
                            0 <= k < all@.len() && (#[trigger] all@[k]).0 == i;
                        assert(start[all@[k].0 as int] == Some(all@[k].1));
                    }
                    assert(!has_result(all@, i as int));
                }
                return None;
            },
        }
    }
    proof {
        assert forall|i: int| 0 <= i < start.len() implies #[trigger] has_result(all@, i) by {
            assert(start[i] == Some(outs@[i]));
        }
        assert forall|k: int| 0 <= k < all@.len() implies outs@[(#[trigger] all@[k]).0 as int]
            == all@[k].1 by {
            let i = all@[k].0 as int;
            assert(start[i] == Some(outs@[i]));
        }
    }
    Some(outs)
}

/// In whatever order workers finish the jobs of a batch, and whichever of them takes
/// which, the results are those of one job after the other.
pub proof fn law_any_order_of_finishing<T>(
    jobs: int,
    finished: Seq<(usize, T)>,
    outs: Seq<T>,
    serial: Seq<T>,
)
    requires
        in_order(jobs, finished, outs),
        in_order(jobs, finished, serial),
        forall|i: int| 0 <= i < jobs ==> #[trigger] has_result(finished, i),
    ensures
        outs == serial,
{
    assert forall|i: int| 0 <= i < jobs implies outs[i] == serial[i] by {
        assert(has_result(finished, i));
        let k = choose|k: int| 0 <= k < finished.len() && (#[trigger] finished[k]).0 == i;
        assert(outs[finished[k].0 as int] == serial[finished[k].0 as int]);
    }
    assert(outs =~= serial);
}

} // verus!
