//! What holds of a picture's passes: their parameters, the order of their phases, which
//! encode is kept, and what the stream and a batch are made of.

use vstd::prelude::*;

use crate::batch::{exact_estimate, runs_parallel, samples, workers_for, RunSettings};
use crate::config::{AqMode, ChromaFormat, DeblockMode, Effort, SaoMode, StillHevcConfig};
use crate::encode_pass::{
    adaptive_made, bracket_of, chroma_plane, deblocked, direct_steps, first_pass, keep_decided,
    pass_made, picture_encoded, second_pass, setup_of, third_pass, tree_steps, uniform_of,
    PassFlags, PassOut, PassRun, Phases, TwoPass,
};
use crate::stream::{
    flags_of, stream_made, stream_parts, Division, NalType, SliceData, StreamWriter,
};

verus! {

/// The coded size is the least multiple of eight that holds the picture. The QPs of luma
/// and chroma are raised by six for every bit of depth above eight. Chroma of 4:2:0 follows
/// luma and its own offset up to 29, and stops at 51 once both come to 57.
pub proof fn law_setup_of_a_pass(config: &StillHevcConfig, run: PassRun)
    requires
        8 <= config.bit_depth <= 16,
        config.qp <= 51,
        -12 <= run.chroma_qp_offset <= 12,
        0 < config.width <= 0xffff_fff0,
        0 < config.height <= 0xffff_fff0,
    ensures
        ({
            let s = setup_of(config, run);
            let extra = 6 * (config.bit_depth - 8);
            let q = config.qp + run.chroma_qp_offset;
            &&& s.coded_width % 8 == 0 && config.width <= s.coded_width < config.width + 8
            &&& s.coded_height % 8 == 0 && config.height <= s.coded_height < config.height + 8
            &&& s.qp_bd_offset == extra
            &&& s.slice_qp_y == config.qp
            &&& s.qp_y == config.qp + extra
            &&& config.chroma == ChromaFormat::Yuv420 && -extra <= q < 30 ==> s.qp_c == q + extra
            &&& config.chroma == ChromaFormat::Yuv420 && q >= 57 ==> s.qp_c == 51 + extra
            &&& config.chroma == ChromaFormat::Yuv444 && -extra <= q <= 51 ==> s.qp_c == q + extra
            &&& config.chroma == ChromaFormat::Yuv444 && q >= 51 ==> s.qp_c == 51 + extra
            &&& q <= -extra ==> s.qp_c == 0
            &&& s.deblock <==> config.deblock == DeblockMode::On
            &&& s.analyse <==> (run.oracle ==> run.aq_active)
            &&& s.aq_active == run.aq_active
            &&& s.bit_depth == config.bit_depth
        }),
{
}

/// The planes of chroma hold a quarter, half or all of luma's samples, by their format.
pub proof fn law_chroma_planes(width: int, height: int)
    requires
        width >= 0,
        height >= 0,
        width % 2 == 0,
        height % 2 == 0,
    ensures
        chroma_plane(0, width, height) == (0int, 0int),
        2 * chroma_plane(1, width, height).0 == width && 2 * chroma_plane(1, width, height).1
            == height,
        2 * chroma_plane(2, width, height).0 == width && chroma_plane(2, width, height).1
            == height,
        chroma_plane(3, width, height) == (width, height),
{
}

/// Phases that leave a mark in the state they work on, and keep those that were there. A
/// slice shows the marks of the state that it was written from. Offsets show those of the
/// state that they were decided on, and repeat them where they are applied.
pub open spec fn marking<St, T, Q, O, L, B, M, D, S, W, A, C>(
    p: &Phases<B, M, D, S, W, A, C>,
    marks: spec_fn(St) -> Seq<int>,
    seen: spec_fn(O) -> Seq<int>,
    written: spec_fn(L) -> Seq<int>,
) -> bool where
    B: Fn(St, bool, bool) -> (St, T),
    M: Fn(&T) -> Q,
    D: Fn(St) -> St,
    S: Fn(&St) -> O,
    W: Fn(St, &T, &Option<O>, bool) -> (St, L),
    A: Fn(St, &O) -> St,
    C: Fn(St) -> (St, L),
 {
    &&& forall|s: St, w: bool, a: bool, r: (St, T)| #[trigger]
        call_ensures(p.build, (s, w, a), r) ==> marks(r.0) == marks(s).push(
            if w {
                11int
            } else {
                10
            },
        ).push(
            if a {
                13int
            } else {
                12
            },
        )
    &&& forall|s: St, r: St| #[trigger]
        call_ensures(p.deblock, (s,), r) ==> marks(r) == marks(s).push(2)
    &&& forall|s: &St, o: O| #[trigger] call_ensures(p.decide_sao, (s,), o) ==> seen(o) == marks(*s)
    &&& forall|s: St, t: &T, o: &Option<O>, w: bool, r: (St, L)| #[trigger]
        call_ensures(p.write, (s, t, o, w), r) ==> {
            &&& marks(r.0) == marks(s).push(
                if w {
                    31
                } else {
                    30
                },
            )
            &&& written(r.1) == marks(s)
        }
    &&& forall|s: St, o: &O, r: St| #[trigger]
        call_ensures(p.apply_sao, (s, o), r) ==> marks(r) == marks(s) + seen(*o)
    &&& forall|s: St, r: (St, L)| #[trigger]
        call_ensures(p.code, (s,), r) ==> marks(r.0) == marks(s).push(5) && written(r.1)
            == marks(s)
}

/// The phases of a pass come in order. With trees: they are built, the picture deblocked
/// if that is asked for, the slice written, and then offsets applied if they are asked for,
/// which were decided on the deblocked picture. Without: the slice is coded, and the picture deblocked.
pub proof fn law_phases_in_order<St, T, Q, O, L, B, M, D, S, W, A, C>(
    p: &Phases<B, M, D, S, W, A, C>,
    flags: PassFlags,
    start: St,
    out: PassOut<St, L, Q>,
    marks: spec_fn(St) -> Seq<int>,
    seen: spec_fn(O) -> Seq<int>,
    written: spec_fn(L) -> Seq<int>,
) where
    B: Fn(St, bool, bool) -> (St, T),
    M: Fn(&T) -> Q,
    D: Fn(St) -> St,
    S: Fn(&St) -> O,
    W: Fn(St, &T, &Option<O>, bool) -> (St, L),
    A: Fn(St, &O) -> St,
    C: Fn(St) -> (St, L),

    requires
        pass_made::<St, T, Q, O, L, B, M, D, S, W, A, C>(p, flags, start, out),
        marking::<St, T, Q, O, L, B, M, D, S, W, A, C>(p, marks, seen, written),
        marks(start).len() == 0,
    ensures
        flags.sao || flags.stream_wpp || flags.build_wpp || flags.collect || !flags.single_tile
            ==> {
            let first: Seq<int> = seq![
                if flags.build_wpp {
                    11
                } else {
                    10
                },
                if flags.aq_active {
                    13
                } else {
                    12
                },
            ];
            let smooth = if flags.deblock {
                first.push(2)
            } else {
                first
            };
            let last = smooth.push(
                if flags.stream_wpp {
                    31
                } else {
                    30
                },
            );
            &&& written(out.slice) == smooth
            &&& marks(out.state) == if flags.sao {
                last + smooth
            } else {
                last
            }
            &&& out.measured is Some <==> flags.collect
        },
        !flags.sao && !flags.stream_wpp && !flags.build_wpp && !flags.collect && flags.single_tile
            ==> {
            &&& written(out.slice) == Seq::<int>::empty()
            &&& marks(out.state) == if flags.deblock {
                seq![5int, 2int]
            } else {
                seq![5int]
            }
            &&& out.measured is None
        },
{
    if flags.by_trees() {
        let (built, trees, smooth, sao, after) = choose|
            built: St,
            trees: T,
            smooth: St,
            sao: Option<O>,
            after: St,
        |
            {
                &&& #[trigger] tree_steps(built, trees, smooth, sao, after)
                &&& call_ensures(
                    p.build,
                    (start, flags.build_wpp, flags.aq_active),
                    (built, trees),
                )
                &&& deblocked(p.deblock, flags.deblock, built, smooth)
                &&& sao is Some == flags.sao
                &&& call_ensures(
                    p.write,
                    (smooth, &trees, &sao, flags.stream_wpp),
                    (after, out.slice),
                )
                &&& match sao {
                    Some(o) => call_ensures(p.apply_sao, (after, &o), out.state),
                    None => out.state == after,
                }
            };
        let first: Seq<int> = seq![
            if flags.build_wpp {
                11
            } else {
                10
            },
            if flags.aq_active {
                13
            } else {
                12
            },
        ];
        assert(marks(built) =~= first);
    } else {
        let coded = choose|coded: St|
            {
                &&& #[trigger] direct_steps(coded)
                &&& call_ensures(p.code, (start,), (coded, out.slice))
                &&& deblocked(p.deblock, flags.deblock, coded, out.state)
            };
        assert(marks(start) =~= Seq::<int>::empty());
        assert(marks(coded) =~= seq![5int]);
        if flags.deblock {
            assert(marks(out.state) =~= seq![5int, 2int]);
        }
    }
}

/// Each flag of a pass comes from its own setting.
pub proof fn law_flags_of_a_pass(config: &StillHevcConfig, run: PassRun, div: Division, collect: bool)
    ensures
        ({
            let f = flags_of(config, run, div, collect);
            &&& f.sao <==> config.sao == SaoMode::On
            &&& f.deblock <==> config.deblock == DeblockMode::On
            &&& f.single_tile == div.single_tile
            &&& f.stream_wpp == div.stream_wpp
            &&& f.build_wpp == div.build_wpp
            &&& f.aq_active == run.aq_active
            &&& f.collect == collect
        }),
{
}

/// A uniform encode differs from the configured one in adaptive quantisation alone, which
/// it does not have.
pub proof fn law_uniform_has_no_adaptation(config: &StillHevcConfig)
    ensures
        uniform_of(config).aq_mode == AqMode::Off,
        !uniform_of(config).adaptive_qp,
        *config == (StillHevcConfig {
            aq_mode: config.aq_mode,
            adaptive_qp: config.adaptive_qp,
            ..uniform_of(config)
        }),
{
}

/// Only measured adaptation takes two passes, and never of a gray picture. One pass is the
/// encode of the configuration as it is.
pub proof fn law_one_pass_encodes_as_configured<O, Q, G, E, M, Z, N, K>(
    t: &TwoPass<E, M, Z, N, K>,
    config: &StillHevcConfig,
    mode: AqMode,
    compare: bool,
    out: O,
) -> (other: Option<Q>) where
    E: Fn(StillHevcConfig, Option<G>, bool) -> (O, Option<Q>),
    M: Fn(Q) -> Option<G>,
    Z: Fn(&O) -> usize,
    N: Fn(&O, &O) -> bool,
    K: Fn(&O, &O, &O) -> bool,

    requires
        picture_encoded::<O, Q, G, E, M, Z, N, K>(t, config, mode, compare, out),
        mode != AqMode::TwoPassMeasured || config.chroma == ChromaFormat::Gray,
    ensures
        call_ensures(t.encode, (*config, None::<G>, false), (out, other)),
{
    choose|other: Option<Q>| #[trigger]
        second_pass(out, other) && call_ensures(
            t.encode,
            (*config, None::<G>, false),
            (out, other),
        )
}

/// Measured adaptation encodes uniformly first. Where its measurements lead to no offsets,
/// that encode is the result; else the configuration is encoded with the offsets, and
/// without a comparison that is the result.
pub proof fn law_two_passes_without_comparison<O, Q, G, E, M, Z, N, K>(
    t: &TwoPass<E, M, Z, N, K>,
    config: &StillHevcConfig,
    out: O,
) -> (r: (O, Option<Q>, Option<G>, Option<Q>)) where
    E: Fn(StillHevcConfig, Option<G>, bool) -> (O, Option<Q>),
    M: Fn(Q) -> Option<G>,
    Z: Fn(&O) -> usize,
    N: Fn(&O, &O) -> bool,
    K: Fn(&O, &O, &O) -> bool,

    requires
        picture_encoded::<O, Q, G, E, M, Z, N, K>(t, config, AqMode::TwoPassMeasured, false, out),
        config.chroma != ChromaFormat::Gray,
    ensures
        ({
            let (uniform, measured, map, other) = r;
            let plain = StillHevcConfig { aq_mode: AqMode::Off, adaptive_qp: false, ..*config };
            &&& call_ensures(t.encode, (plain, None::<G>, true), (uniform, measured))
            &&& measured matches Some(q) ==> call_ensures(t.map, (q,), map)
            &&& measured is None ==> map is None
            &&& map is None ==> out == uniform
            &&& map is Some ==> call_ensures(t.encode, (*config, map, false), (out, other))
        }),
{
    let (uniform, measured, map) = choose|uniform: O, measured: Option<Q>, map: Option<G>|
        {
            &&& #[trigger] first_pass(uniform, measured, map)
            &&& call_ensures(
                t.encode,
                (uniform_of(config), None::<G>, true),
                (uniform, measured),
            )
            &&& match measured {
                Some(q) => call_ensures(t.map, (q,), map),
                None => map is None,
            }
            &&& match map {
                None => out == uniform,
                Some(g) => adaptive_made::<O, Q, G, E, M, Z, N, K>(
                    t,
                    config,
                    false,
                    uniform,
                    g,
                    out,
                ),
            }
        };
    match map {
        None => (uniform, measured, map, None),
        Some(g) => {
            let (adaptive, other) = choose|adaptive: O, other: Option<Q>|
                {
                    &&& #[trigger] second_pass(adaptive, other)
                    &&& call_ensures(t.encode, (*config, Some(g), false), (adaptive, other))
                    &&& out == adaptive
                };
            (uniform, measured, map, other)
        },
    }
}

/// With a comparison, the adaptive encode stands where it is kept against the uniform
/// ones, and the uniform one where it is not. It is held against a third encode, uniform
/// and one QP off on the side that the sizes point to; at the end of the range, where there
/// is no such QP, against the uniform one alone.
pub proof fn law_comparison_decides<O, Q, G, E, M, Z, N, K>(
    t: &TwoPass<E, M, Z, N, K>,
    config: &StillHevcConfig,
    uniform: O,
    map: G,
    out: O,
) -> (r: (O, Option<Q>, usize, usize, (O, Option<Q>))) where
    E: Fn(StillHevcConfig, Option<G>, bool) -> (O, Option<Q>),
    M: Fn(Q) -> Option<G>,
    Z: Fn(&O) -> usize,
    N: Fn(&O, &O) -> bool,
    K: Fn(&O, &O, &O) -> bool,

    requires
        adaptive_made::<O, Q, G, E, M, Z, N, K>(t, config, true, uniform, map, out),
        config.qp <= 51,
    ensures
        ({
            let (adaptive, other, uniform_size, adaptive_size, third) = r;
            let up = adaptive_size <= uniform_size;
            let at_end = if up {
                config.qp == 51
            } else {
                config.qp == 0
            };
            &&& call_ensures(t.encode, (*config, Some(map), false), (adaptive, other))
            &&& call_ensures(t.size, (&uniform,), uniform_size)
            &&& call_ensures(t.size, (&adaptive,), adaptive_size)
            &&& out == adaptive || out == uniform
            &&& at_end ==> {
                ||| out == adaptive && call_ensures(t.no_worse, (&uniform, &adaptive), true)
                ||| out == uniform && call_ensures(t.no_worse, (&uniform, &adaptive), false)
            }
            &&& !at_end ==> {
                &&& call_ensures(
                    t.encode,
                    (
                        StillHevcConfig {
                            qp: if up {
                                (config.qp + 1) as u8
                            } else {
                                (config.qp - 1) as u8
                            },
                            aq_mode: AqMode::Off,
                            adaptive_qp: false,
                            ..*config
                        },
                        None::<G>,
                        false,
                    ),
                    third,
                )
                &&& {
                    ||| out == adaptive && call_ensures(t.keeps, (&uniform, &adaptive, &third.0), true)
                    ||| out == uniform && call_ensures(t.keeps, (&uniform, &adaptive, &third.0), false)
                }
            }
        }),
{
    let (adaptive, other) = choose|adaptive: O, other: Option<Q>|
        {
            &&& #[trigger] second_pass(adaptive, other)
            &&& call_ensures(t.encode, (*config, Some(map), false), (adaptive, other))
            &&& {
                ||| out == adaptive && keep_decided::<O, Q, G, E, M, Z, N, K>(
                    t,
                    config,
                    uniform,
                    adaptive,
                    true,
                )
                ||| out == uniform && keep_decided::<O, Q, G, E, M, Z, N, K>(
                    t,
                    config,
                    uniform,
                    adaptive,
                    false,
                )
            }
        };
    let kept = out == adaptive && keep_decided::<O, Q, G, E, M, Z, N, K>(
        t,
        config,
        uniform,
        adaptive,
        true,
    );
    let (uniform_size, adaptive_size, bracket, keep) = choose|
        uniform_size: usize,
        adaptive_size: usize,
        bracket: Option<(O, Option<Q>)>,
        keep: bool,
    |
        {
            let q3 = bracket_of(config.qp, adaptive_size as int, uniform_size as int);
            &&& #[trigger] third_pass(uniform_size, adaptive_size, bracket, keep)
            &&& call_ensures(t.size, (&uniform,), uniform_size)
            &&& call_ensures(t.size, (&adaptive,), adaptive_size)
            &&& bracket is Some == (q3 != config.qp)
            &&& match bracket {
                Some(b) => {
                    &&& call_ensures(
                        t.encode,
                        (
                            StillHevcConfig { qp: q3 as u8, ..uniform_of(config) },
                            None::<G>,
                            false,
                        ),
                        b,
                    )
                    &&& call_ensures(t.keeps, (&uniform, &adaptive, &b.0), keep)
                },
                None => call_ensures(t.no_worse, (&uniform, &adaptive), keep),
            }
            &&& kept == keep
        };
    match bracket {
        Some(b) => (adaptive, other, uniform_size, adaptive_size, b),
        None => (adaptive, other, uniform_size, adaptive_size, (out, other)),
    }
}

/// A stream is the video, sequence and picture parameter sets and then the slice, which is
/// its header and its data.
pub proof fn law_units_of_a_stream<Sp, Pp, H, N>(
    w: &StreamWriter<Sp, Pp, H, N>,
    config: &StillHevcConfig,
    stream_wpp: bool,
    slice: &SliceData,
    bytes: Vec<u8>,
    units: spec_fn(Vec<u8>) -> Seq<(NalType, Seq<u8>)>,
) -> (r: (Vec<u8>, Vec<u8>, Vec<u8>)) where
    Sp: Fn(&StillHevcConfig) -> Vec<u8>,
    Pp: Fn(&StillHevcConfig, bool) -> Vec<u8>,
    H: Fn(&StillHevcConfig, bool, &Vec<usize>) -> Vec<u8>,
    N: Fn(Vec<u8>, NalType, &Vec<u8>) -> Vec<u8>,

    requires
        stream_made(w, config, stream_wpp, slice, bytes),
        forall|v: Vec<u8>| v@.len() == 0 ==> (#[trigger] units(v)).len() == 0,
        forall|v: Vec<u8>, kind: NalType, payload: &Vec<u8>, o: Vec<u8>| #[trigger]
            call_ensures(w.nal, (v, kind, payload), o) ==> units(o) == units(v).push(
                (kind, payload@),
            ),
    ensures
        ({
            let (sps, pps, header) = r;
            &&& call_ensures(w.sps, (config,), sps)
            &&& call_ensures(w.pps, (config, stream_wpp), pps)
            &&& call_ensures(w.header, (config, stream_wpp, &slice.entry_sizes), header)
            &&& units(bytes) == seq![
                (NalType::Vps, w.vps@),
                (NalType::Sps, sps@),
                (NalType::Pps, pps@),
                (NalType::IdrWRadl, header@ + slice.data@),
            ]
        }),
{
    let (sps, pps, header, payload, none, one, two, three) = choose|
        sps: Vec<u8>,
        pps: Vec<u8>,
        header: Vec<u8>,
        payload: Vec<u8>,
        none: Vec<u8>,
        one: Vec<u8>,
        two: Vec<u8>,
        three: Vec<u8>,
    |
        {
            &&& #[trigger] stream_parts(sps, pps, header, payload, none, one, two, three)
            &&& call_ensures(w.sps, (config,), sps)
            &&& call_ensures(w.pps, (config, stream_wpp), pps)
            &&& call_ensures(w.header, (config, stream_wpp, &slice.entry_sizes), header)
            &&& payload@ == header@ + slice.data@
            &&& none@.len() == 0
            &&& call_ensures(w.nal, (none, NalType::Vps, &w.vps), one)
            &&& call_ensures(w.nal, (one, NalType::Sps, &sps), two)
            &&& call_ensures(w.nal, (two, NalType::Pps, &pps), three)
            &&& call_ensures(w.nal, (three, NalType::IdrWRadl, &payload), bytes)
        };
    assert(units(none).len() == 0);
    assert(units(bytes) =~= seq![
        (NalType::Vps, w.vps@),
        (NalType::Sps, sps@),
        (NalType::Pps, pps@),
        (NalType::IdrWRadl, header@ + slice.data@),
    ]);
    (sps, pps, header)
}

/// Chroma adds half, all or twice as many samples as luma has, by its format; sides that
/// are odd count as the next even ones.
pub proof fn law_samples_of_a_picture(w: int, h: int)
    requires
        w >= 0,
        h >= 0,
        w % 2 == 0,
        h % 2 == 0,
    ensures
        samples(w, h, ChromaFormat::Gray) == w * h,
        2 * samples(w, h, ChromaFormat::Yuv420) == 3 * (w * h),
        samples(w, h, ChromaFormat::Yuv422) == 2 * (w * h),
        samples(w, h, ChromaFormat::Yuv444) == 3 * (w * h),
{
    let (a, b) = (w / 2, h / 2);
    assert((2 * a) * (2 * b) == 4 * (a * b)) by (nonlinear_arith);
    assert((2 * a) * h == 2 * (a * h)) by (nonlinear_arith);
}

/// A picture of whole coding tree blocks needs two bytes per sample for its source, and a
/// quarter more than that for its frame. Every worker with a frame of its own takes as much
/// again; serial encodes have none. What all that comes to is raised by a seventh.
pub proof fn law_memory_of_an_encode(config: &StillHevcConfig, run: &RunSettings)
    requires
        config.width % 64 == 0,
        config.height % 64 == 0,
        !(run.frameless && run.import_one_row),
    ensures
        ({
            let e = exact_estimate(config, run);
            let n = samples(config.width as int, config.height as int, config.chroma);
            let sum = e.frame + e.source + e.workers;
            &&& e.source == 2 * n
            &&& e.frame == 2 * n + (2 * n) / 4
            &&& !runs_parallel(config, run) ==> e.workers == 0 && e.worker_frames == 0
            &&& runs_parallel(config, run) ==> e.workers == workers_for(config.height as int, run)
                * e.frame && e.worker_frames == workers_for(config.height as int, run)
            &&& 7 * e.peak <= 8 * sum < 7 * e.peak + 7
        }),
{
}

/// Workers are as many as threads asked for, and at least one, but no more than rows of
/// coding tree blocks.
pub proof fn law_workers_have_rows(coded_h: int, run: &RunSettings)
    requires
        coded_h >= 64,
    ensures
        1 <= workers_for(coded_h, run),
        64 * workers_for(coded_h, run) <= coded_h,
        workers_for(coded_h, run) <= run.threads || workers_for(coded_h, run) == 1,
        64 * (run.threads as int) <= coded_h && run.threads >= 1 ==> workers_for(coded_h, run)
            == run.threads,
{
}

/// Adaptive encodes run workers if their trees may be built by them; others unless the
/// parallel path is switched off, and the slowest effort always.
pub proof fn law_who_runs_workers(config: &StillHevcConfig, run: &RunSettings)
    ensures
        run.aq_active ==> (runs_parallel(config, run) <==> run.aq_parallel_build),
        !run.aq_active && config.effort == Effort::Placebo ==> runs_parallel(config, run),
        !run.aq_active && config.effort != Effort::Placebo ==> (runs_parallel(config, run) <==>
            run.parallel),
{
}

} // verus!
