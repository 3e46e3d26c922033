//! One pass over a picture, from its configuration to the stream.

use vstd::prelude::*;

use crate::config::{DeblockMode, SaoMode, StillHevcConfig};
use crate::encode_pass::{
    config_coded, pass_made, pass_setup, phases_ok, run_phases, setup_of, PassFlags, PassOut,
    PassRun, PassSetup, Phases,
};
use crate::math::{ceil_div, max_int, max_u32};
use crate::stats::EncodeStats;
use crate::still_encoder::{bit_depth_coded, supports_bit_depth};

verus! {

/// The units of a stream.
#[derive(Clone, Copy, Debug, PartialEq, Eq, Structural)]
pub enum NalType {
    Vps,
    Sps,
    Pps,
    IdrWRadl,
}

/// A coded slice, and the sizes of its substreams.
pub struct SliceData {
    pub data: Vec<u8>,
    pub entry_sizes: Vec<usize>,
}

/// How the process divides a picture.
#[derive(Clone, Copy, Debug, PartialEq, Eq, Structural)]
pub struct Division {
    pub single_tile: bool,
    /// The stream is made of substreams, one per row.
    pub stream_wpp: bool,
    /// Trees are built by a row of workers.
    pub build_wpp: bool,
}

/// How a pass runs.
pub open spec fn flags_of(
    config: &StillHevcConfig,
    run: PassRun,
    div: Division,
    collect: bool,
) -> PassFlags {
    PassFlags {
        sao: config.sao == SaoMode::On,
        single_tile: div.single_tile,
        stream_wpp: div.stream_wpp,
        build_wpp: div.build_wpp,
        deblock: config.deblock == DeblockMode::On,
        aq_active: run.aq_active,
        collect,
    }
}

/// Writes the units of a stream.
pub struct StreamWriter<Sp, Pp, H, N> {
    pub vps: Vec<u8>,
    pub sps: Sp,
    /// With substreams or without.
    pub pps: Pp,
    /// The header of a slice with substreams or without.
    pub header: H,
    /// Appends a unit to a stream.
    pub nal: N,
}

/// The caller writes the units of a picture.
pub open spec fn writer_ok<Sp, Pp, H, N>(
    w: &StreamWriter<Sp, Pp, H, N>,
    config: &StillHevcConfig,
    stream_wpp: bool,
) -> bool where
    Sp: Fn(&StillHevcConfig) -> Vec<u8>,
    Pp: Fn(&StillHevcConfig, bool) -> Vec<u8>,
    H: Fn(&StillHevcConfig, bool, &Vec<usize>) -> Vec<u8>,
    N: Fn(Vec<u8>, NalType, &Vec<u8>) -> Vec<u8>,
 {
    &&& call_requires(w.sps, (config,))
    &&& call_requires(w.pps, (config, stream_wpp))
    &&& forall|e: &Vec<usize>| #[trigger] call_requires(w.header, (config, stream_wpp, e))
    &&& forall|out: Vec<u8>, t: NalType, b: &Vec<u8>| #[trigger]
        call_requires(w.nal, (out, t, b))
}

/// Names the parts of a stream, and the stream as it grows.
pub open spec fn stream_parts(
    sps: Vec<u8>,
    pps: Vec<u8>,
    header: Vec<u8>,
    payload: Vec<u8>,
    none: Vec<u8>,
    one: Vec<u8>,
    two: Vec<u8>,
    three: Vec<u8>,
) -> bool {
    true
}

/// A stream: the parameter sets, and then the slice behind its header.
pub open spec fn stream_made<Sp, Pp, H, N>(
    w: &StreamWriter<Sp, Pp, H, N>,
    config: &StillHevcConfig,
    stream_wpp: bool,
    slice: &SliceData,
    bytes: Vec<u8>,
) -> bool where
    Sp: Fn(&StillHevcConfig) -> Vec<u8>,
    Pp: Fn(&StillHevcConfig, bool) -> Vec<u8>,
    H: Fn(&StillHevcConfig, bool, &Vec<usize>) -> Vec<u8>,
    N: Fn(Vec<u8>, NalType, &Vec<u8>) -> Vec<u8>,
 {
    exists|
        sps: Vec<u8>,
        pps: Vec<u8>,
        header: Vec<u8>,
        payload: Vec<u8>,
        none: Vec<u8>,
        one: Vec<u8>,
        two: Vec<u8>,
        three: Vec<u8>,
    |
        {
            &&& #[trigger] stream_parts(sps, pps, header, payload, none, one, two, three)
            &&& call_ensures(w.sps, (config,), sps)
            &&& call_ensures(w.pps, (config, stream_wpp), pps)
            &&& call_ensures(w.header, (config, stream_wpp, &slice.entry_sizes), header)
            &&& payload@ == header@ + slice.data@
            &&& none@.len() == 0
            &&& call_ensures(w.nal, (none, NalType::Vps, &w.vps), one)
            &&& call_ensures(w.nal, (one, NalType::Sps, &sps), two)
            &&& call_ensures(w.nal, (two, NalType::Pps, &pps), three)
            &&& call_ensures(w.nal, (three, NalType::IdrWRadl, &payload), bytes)
        }
}

/// Writes a stream.
pub fn write_stream<Sp, Pp, H, N>(
    w: &StreamWriter<Sp, Pp, H, N>,
    config: &StillHevcConfig,
    stream_wpp: bool,
    slice: &SliceData,
) -> (bytes: Vec<u8>) where
    Sp: Fn(&StillHevcConfig) -> Vec<u8>,
    Pp: Fn(&StillHevcConfig, bool) -> Vec<u8>,
    H: Fn(&StillHevcConfig, bool, &Vec<usize>) -> Vec<u8>,
    N: Fn(Vec<u8>, NalType, &Vec<u8>) -> Vec<u8>,

    requires
        writer_ok(w, config, stream_wpp),
    ensures
        stream_made(w, config, stream_wpp, slice, bytes),
{
    let header = (w.header)(config, stream_wpp, &slice.entry_sizes);
    let ghost first = header;
    let mut payload: Vec<u8> = Vec::new();
    let h: usize = header.len();
    for i in 0..h
        invariant
            h == header@.len(),
            payload@ == header@.take(i as int),
    {
        payload.push(header[i]);
        assert(payload@ =~= header@.take(i + 1));
    }
    let n: usize = slice.data.len();
    assert(payload@ =~= header@ + slice.data@.take(0));
    for i in 0..n
        invariant
            n == slice.data@.len(),
            payload@ == header@ + slice.data@.take(i as int),
    {
        payload.push(slice.data[i]);
        assert(payload@ =~= header@ + slice.data@.take(i + 1));
    }
    assert(payload@ =~= header@ + slice.data@);
    let sps = (w.sps)(config);
    let pps = (w.pps)(config, stream_wpp);
    let none: Vec<u8> = Vec::new();
    let ghost n0 = none;
    let one = (w.nal)(none, NalType::Vps, &w.vps);
    let ghost n1 = one;
    let two = (w.nal)(one, NalType::Sps, &sps);
    let ghost n2 = two;
    let three = (w.nal)(two, NalType::Pps, &pps);
    let ghost n3 = three;
    let bytes = (w.nal)(three, NalType::IdrWRadl, &payload);
    assert(stream_parts(sps, pps, first, payload, n0, n1, n2, n3));
    bytes
}

/// The reconstruction of a picture, or the size and depth of an empty one in 4:2:0 where
/// the picture cannot be coded.
pub enum Reconstruction<St> {
    Coded(St),
    Empty { width: u32, height: u32, bit_depth: u8 },
}

/// What an encode leaves.
pub struct Encoded<St, Q, V> {
    pub bytes: Vec<u8>,
    pub reconstruction: Reconstruction<St>,
    pub stats: EncodeStats,
    /// What the trees code, and the error of the reconstruction.
    pub measured: Option<(Q, V)>,
}

/// The empty picture in the place of one that cannot be coded: no side is zero, and the
/// depth is eight where it is none that can be coded.
pub open spec fn empty_of<St>(config: &StillHevcConfig) -> Reconstruction<St> {
    Reconstruction::Empty {
        width: max_int(config.width as int, 1) as u32,
        height: max_int(config.height as int, 1) as u32,
        bit_depth: if bit_depth_coded(config.bit_depth) {
            config.bit_depth
        } else {
            8
        },
    }
}

/// What an encode asks of its caller.
pub struct PassEnv<B, M, D, S, W, A, C, I, E, Z, Sp, Pp, H, N> {
    pub phases: Phases<B, M, D, S, W, A, C>,
    /// The state that a search begins with.
    pub begin: I,
    /// The error of a reconstruction, over the groups that a measurement has.
    pub error: E,
    /// The counters of a state.
    pub counters: Z,
    pub writer: StreamWriter<Sp, Pp, H, N>,
}

/// Names what an encode goes through.
pub open spec fn pass_steps<St, Q>(start: St, pass: PassOut<St, SliceData, Q>) -> bool {
    true
}

/// A picture was encoded in one pass. One that cannot be coded gives an empty stream. The
/// error is measured on the reconstruction as it is in the end.
pub open spec fn encoded_once<St, T, Q, O, V, B, M, D, S, W, A, C, I, E, Z, Sp, Pp, H, N>(
    env: &PassEnv<B, M, D, S, W, A, C, I, E, Z, Sp, Pp, H, N>,
    config: &StillHevcConfig,
    run: PassRun,
    div: Division,
    collect: bool,
    out: Encoded<St, Q, V>,
) -> bool where
    B: Fn(St, bool, bool) -> (St, T),
    M: Fn(&T) -> Q,
    D: Fn(St) -> St,
    S: Fn(&St) -> O,
    W: Fn(St, &T, &Option<O>, bool) -> (St, SliceData),
    A: Fn(St, &O) -> St,
    C: Fn(St) -> (St, SliceData),
    I: Fn(PassSetup) -> St,
    E: Fn(&St, &Q) -> V,
    Z: Fn(&St) -> EncodeStats,
    Sp: Fn(&StillHevcConfig) -> Vec<u8>,
    Pp: Fn(&StillHevcConfig, bool) -> Vec<u8>,
    H: Fn(&StillHevcConfig, bool, &Vec<usize>) -> Vec<u8>,
    N: Fn(Vec<u8>, NalType, &Vec<u8>) -> Vec<u8>,
 {
    if config_coded(config) {
        exists|start: St, pass: PassOut<St, SliceData, Q>|
            {
                &&& #[trigger] pass_steps(start, pass)
                &&& call_ensures(env.begin, (setup_of(config, run),), start)
                &&& pass_made(&env.phases, flags_of(config, run, div, collect), start, pass)
                &&& stream_made(&env.writer, config, div.stream_wpp, &pass.slice, out.bytes)
                &&& out.reconstruction == Reconstruction::Coded(pass.state)
                &&& call_ensures(env.counters, (&pass.state,), out.stats)
                &&& match pass.measured {
                    Some(q) => {
                        &&& out.measured matches Some(m)
                        &&& m.0 == q
                        &&& call_ensures(env.error, (&pass.state, &q), m.1)
                    },
                    None => out.measured is None,
                }
            }
    } else {
        &&& out.bytes@.len() == 0
        &&& out.reconstruction == empty_of::<St>(config)
        &&& out.stats == EncodeStats::none()
        &&& out.measured is None
    }
}

/// The caller answers for what a pass over a picture comes to.
pub open spec fn pass_ready<St, T, Q, O, V, B, M, D, S, W, A, C, I, E, Z, Sp, Pp, H, N>(
    env: &PassEnv<B, M, D, S, W, A, C, I, E, Z, Sp, Pp, H, N>,
    config: &StillHevcConfig,
    run: PassRun,
    div: Division,
    collect: bool,
) -> bool where
    B: Fn(St, bool, bool) -> (St, T),
    M: Fn(&T) -> Q,
    D: Fn(St) -> St,
    S: Fn(&St) -> O,
    W: Fn(St, &T, &Option<O>, bool) -> (St, SliceData),
    A: Fn(St, &O) -> St,
    C: Fn(St) -> (St, SliceData),
    I: Fn(PassSetup) -> St,
    E: Fn(&St, &Q) -> V,
    Z: Fn(&St) -> EncodeStats,
    Sp: Fn(&StillHevcConfig) -> Vec<u8>,
    Pp: Fn(&StillHevcConfig, bool) -> Vec<u8>,
    H: Fn(&StillHevcConfig, bool, &Vec<usize>) -> Vec<u8>,
    N: Fn(Vec<u8>, NalType, &Vec<u8>) -> Vec<u8>,
 {
    let flags = flags_of(config, run, div, collect);
    &&& call_requires(env.begin, (setup_of(config, run),))
    &&& forall|start: St| #[trigger]
        call_ensures(env.begin, (setup_of(config, run),), start) ==> phases_ok(
            &env.phases,
            flags,
            start,
        )
    &&& forall|start: St, pass: PassOut<St, SliceData, Q>| #[trigger]
        pass_steps(start, pass) && call_ensures(env.begin, (setup_of(config, run),), start)
            && pass_made(&env.phases, flags, start, pass) ==> {
            &&& call_requires(env.counters, (&pass.state,))
            &&& pass.measured matches Some(q) ==> call_requires(env.error, (&pass.state, &q))
        }
    &&& writer_ok(&env.writer, config, div.stream_wpp)
}

/// Encodes a picture in one pass.
pub fn encode_inner<St, T, Q, O, V, B, M, D, S, W, A, C, I, E, Z, Sp, Pp, H, N>(
    env: &PassEnv<B, M, D, S, W, A, C, I, E, Z, Sp, Pp, H, N>,
    config: &StillHevcConfig,
    run: PassRun,
    div: Division,
    collect: bool,
) -> (out: Encoded<St, Q, V>) where
    B: Fn(St, bool, bool) -> (St, T),
    M: Fn(&T) -> Q,
    D: Fn(St) -> St,
    S: Fn(&St) -> O,
    W: Fn(St, &T, &Option<O>, bool) -> (St, SliceData),
    A: Fn(St, &O) -> St,
    C: Fn(St) -> (St, SliceData),
    I: Fn(PassSetup) -> St,
    E: Fn(&St, &Q) -> V,
    Z: Fn(&St) -> EncodeStats,
    Sp: Fn(&StillHevcConfig) -> Vec<u8>,
    Pp: Fn(&StillHevcConfig, bool) -> Vec<u8>,
    H: Fn(&StillHevcConfig, bool, &Vec<usize>) -> Vec<u8>,
    N: Fn(Vec<u8>, NalType, &Vec<u8>) -> Vec<u8>,

    requires
        config_coded(config) ==> {
            &&& ceil_div(config.width as int, 8) * 8 <= u32::MAX
            &&& ceil_div(config.height as int, 8) * 8 <= u32::MAX
            &&& config.qp + run.chroma_qp_offset <= i32::MAX
        },
        config_coded(config) ==> pass_ready(env, config, run, div, collect),
    ensures
        encoded_once(env, config, run, div, collect, out),
{
    let setup = match pass_setup(config, run) {
        Some(setup) => setup,
        None => {
            let bit_depth: u8 = if supports_bit_depth(config.bit_depth) {
                config.bit_depth
            } else {
                8
            };
            return Encoded {
                bytes: Vec::new(),
                reconstruction: Reconstruction::Empty {
                    width: max_u32(config.width, 1),
                    height: max_u32(config.height, 1),
                    bit_depth,
                },
                stats: EncodeStats::default(),
                measured: None,
            };
        },
    };
    let start = (env.begin)(setup);
    let ghost begun = start;
    let flags = PassFlags {
        sao: config.sao == SaoMode::On,
        single_tile: div.single_tile,
        stream_wpp: div.stream_wpp,
        build_wpp: div.build_wpp,
        deblock: config.deblock == DeblockMode::On,
        aq_active: run.aq_active,
        collect,
    };
    let pass = run_phases(&env.phases, flags, start);
    let ghost made = pass;
    assert(pass_steps(begun, made));
    let bytes = write_stream(&env.writer, config, div.stream_wpp, &pass.slice);
    let measured = match pass.measured {
        Some(q) => {
            let v = (env.error)(&pass.state, &q);
            Some((q, v))
        },
        None => None,
    };
    let stats = (env.counters)(&pass.state);
    Encoded { bytes, reconstruction: Reconstruction::Coded(pass.state), stats, measured }
}

} // verus!
