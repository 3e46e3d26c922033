//! Encoding a picture: the parameters of a pass, the order of its phases, and the choice
//! between the candidates of two-pass adaptive quantisation.

use vstd::prelude::*;

use crate::aq::{AqState, NO_GROUP};
use crate::config::{AqMode, ChromaFormat, DeblockMode, StillHevcConfig};
use crate::frame::{Frame, Plane};
use crate::geometry::{chroma_array_type, chroma_qp_from_luma, spec_chroma_array_type, spec_chroma_qp};
use crate::maps::{BlockMaps, TileGrid, DC_MODE, NO_DEPTH};
use crate::math::{ceil_div, ceil_div_u32, clip3, clip3_i32, max_int, min_int};
use crate::quadtree::frame_covers;
use crate::search_state::SearchState;
use crate::source::SourcePicture;
use crate::stats::EncodeStats;
use crate::still_encoder::{bit_depth_coded, supports_bit_depth};

verus! {

/// What the process and the preset add to a configuration.
#[derive(Clone, Copy, Debug, PartialEq, Eq, Structural)]
pub struct PassRun {
    /// Adaptive quantisation is active.
    pub aq_active: bool,
    pub chroma_qp_offset: i32,
    /// The preset needs no analysis of the picture.
    pub oracle: bool,
}

/// The parameters of a pass.
#[derive(Clone, Copy, Debug, PartialEq, Eq, Structural)]
pub struct PassSetup {
    pub cat: u8,
    pub bit_depth: u8,
    pub coded_width: u32,
    pub coded_height: u32,
    pub qp_bd_offset: i32,
    pub slice_qp_y: i32,
    /// The luma and chroma QPs with the bit depth offset.
    pub qp_y: i32,
    pub qp_c: i32,
    pub deblock: bool,
    pub aq_active: bool,
    /// The picture is analysed before the search.
    pub analyse: bool,
}

/// A configuration that can be coded.
pub open spec fn config_coded(config: &StillHevcConfig) -> bool {
    bit_depth_coded(config.bit_depth) && config.width != 0 && config.height != 0
}

/// The parameters that a configuration leads to.
pub open spec fn setup_of(config: &StillHevcConfig, run: PassRun) -> PassSetup {
    let cat = spec_chroma_array_type(config.chroma);
    let off = 6 * (config.bit_depth - 8);
    PassSetup {
        cat,
        bit_depth: config.bit_depth,
        coded_width: (ceil_div(config.width as int, 8) * 8) as u32,
        coded_height: (ceil_div(config.height as int, 8) * 8) as u32,
        qp_bd_offset: off as i32,
        slice_qp_y: config.qp as i32,
        qp_y: (config.qp + off) as i32,
        qp_c: (spec_chroma_qp(clip3(-off, 57, config.qp + run.chroma_qp_offset), cat) + off)
            as i32,
        deblock: config.deblock == DeblockMode::On,
        aq_active: run.aq_active,
        analyse: run.aq_active || !run.oracle,
    }
}

/// The parameters of a pass; none for a configuration that cannot be coded, which gives an
/// empty stream.
pub fn pass_setup(config: &StillHevcConfig, run: PassRun) -> (s: Option<PassSetup>)
    requires
        config_coded(config) ==> {
            &&& ceil_div(config.width as int, 8) * 8 <= u32::MAX
            &&& ceil_div(config.height as int, 8) * 8 <= u32::MAX
            &&& config.qp + run.chroma_qp_offset <= i32::MAX
        },
    ensures
        s == if config_coded(config) {
            Some(setup_of(config, run))
        } else {
            None
        },
{
    if !supports_bit_depth(config.bit_depth) || config.width == 0 || config.height == 0 {
        return None;
    }
    let cat: u8 = chroma_array_type(config.chroma);
    let off: i32 = 6 * (config.bit_depth as i32 - 8);
    let slice_qp_y: i32 = config.qp as i32;
    let qpi_c: i32 = clip3_i32(-off, 57, slice_qp_y + run.chroma_qp_offset);
    let qp_c: i32 = chroma_qp_from_luma(qpi_c, cat) + off;
    Some(
        PassSetup {
            cat,
            bit_depth: config.bit_depth,
            coded_width: ceil_div_u32(config.width, 8) * 8,
            coded_height: ceil_div_u32(config.height, 8) * 8,
            qp_bd_offset: off,
            slice_qp_y,
            qp_y: slice_qp_y + off,
            qp_c,
            deblock: config.deblock == DeblockMode::On,
            aq_active: run.aq_active,
            analyse: run.aq_active || !run.oracle,
        },
    )
}

/// The state of adaptive quantisation at the start of a picture: the slice QP is current,
/// and no group was met yet.
pub fn start_aq(s: &PassSetup) -> (aq: AqState)
    requires
        0 <= s.qp_bd_offset <= 48,
        -1000 <= s.slice_qp_y <= 1000,
    ensures
        aq.well_formed(),
        aq == (AqState {
            active: s.aq_active,
            qp_bd_offset: s.qp_bd_offset,
            slice_qp_y: s.slice_qp_y,
            current_qpy: s.slice_qp_y,
            last_qpy_prev_qg: s.slice_qp_y,
            qg_x: NO_GROUP,
            qg_y: NO_GROUP,
            coded: false,
            cu_qp_delta: 0,
            pred: s.slice_qp_y,
            cu_target: s.slice_qp_y,
            target_qg: (NO_GROUP, NO_GROUP),
            target: s.slice_qp_y,
        }),
{
    AqState {
        active: s.aq_active,
        qp_bd_offset: s.qp_bd_offset,
        slice_qp_y: s.slice_qp_y,
        current_qpy: s.slice_qp_y,
        last_qpy_prev_qg: s.slice_qp_y,
        qg_x: NO_GROUP,
        qg_y: NO_GROUP,
        coded: false,
        cu_qp_delta: 0,
        pred: s.slice_qp_y,
        cu_target: s.slice_qp_y,
        target_qg: (NO_GROUP, NO_GROUP),
        target: s.slice_qp_y,
    }
}

/// The dimensions of the chroma planes of a reconstruction.
pub open spec fn chroma_plane(cat: u8, width: int, height: int) -> (int, int) {
    if cat == 1 {
        (width / 2, height / 2)
    } else if cat == 2 {
        (width / 2, height)
    } else if cat == 3 {
        (width, height)
    } else {
        (0, 0)
    }
}

/// A plane of a size without content.
pub open spec fn blank_plane(p: &Plane, width: int, height: int) -> bool {
    &&& p.width == width
    &&& p.height == height
    &&& p.stride == width
    &&& p.data@ == Seq::new((width * height) as nat, |i: int| 0u16)
}

/// A map of a size that holds one value.
pub open spec fn filled(map: Seq<u8>, n: int, value: u8) -> bool {
    map == Seq::new(n as nat, |i: int| value)
}

/// The state that a search begins with: planes of the coded size, every mode DC, and no
/// depth known.
pub open spec fn fresh_state(
    st: &SearchState,
    s: &PassSetup,
    width: int,
    height: int,
    grid: &TileGrid,
) -> bool {
    let (w, h) = (s.coded_width as int, s.coded_height as int);
    let (cw, ch) = chroma_plane(s.cat, w, h);
    &&& st.frame.bit_depth == s.bit_depth
    &&& st.frame.cat == s.cat
    &&& st.frame.planes@.len() == 3
    &&& blank_plane(&st.frame.planes@[0], w, h)
    &&& blank_plane(&st.frame.planes@[1], cw, ch)
    &&& blank_plane(&st.frame.planes@[2], cw, ch)
    &&& st.maps.width == width
    &&& st.maps.height == height
    &&& st.maps.tile_grid == *grid
    &&& st.maps.mode_stride == ceil_div(width, 4)
    &&& filled(st.maps.mode_map@, ceil_div(width, 4) * ceil_div(height, 4), DC_MODE)
    &&& st.maps.ct_depth_stride == ceil_div(width, 8)
    &&& filled(st.maps.ct_depth_map@, ceil_div(width, 8) * ceil_div(height, 8), NO_DEPTH)
    &&& st.tu_depth_stride == ceil_div(width, 4)
    &&& st.stats == EncodeStats::none()
    &&& filled(st.tu_depth_map@, ceil_div(width, 4) * ceil_div(height, 4), 0)
}

fn make_plane(width: u32, height: u32) -> (p: Plane)
    requires
        width * height <= usize::MAX,
    ensures
        blank_plane(&p, width as int, height as int),
        p.well_formed(),
{
    assert(width * height >= 0) by (nonlinear_arith);
    let n: usize = width as usize * height as usize;
    let data: Vec<u16> = vec![0u16; n];
    assert(data@ =~= Seq::new((width * height) as nat, |i: int| 0u16));
    Plane { data, stride: width as usize, width: width as usize, height: height as usize }
}

fn make_map(cols: u32, rows: u32, value: u8) -> (map: Vec<u8>)
    requires
        cols * rows <= usize::MAX,
    ensures
        filled(map@, cols * rows, value),
        cols > 0 ==> map@.len() % cols as nat == 0,
{
    assert(cols * rows >= 0) by (nonlinear_arith);
    let n: usize = cols as usize * rows as usize;
    let map: Vec<u8> = vec![value; n];
    proof {
        assert(map@ =~= Seq::new((cols * rows) as nat, |i: int| value));
        if cols > 0 {
            vstd::arithmetic::div_mod::lemma_mod_multiples_basic(rows as int, cols as int);
            assert(rows * cols == cols * rows) by (nonlinear_arith);
        }
    }
    map
}

/// Makes the state that a search begins with.
pub fn start_state(s: &PassSetup, width: u32, height: u32, grid: TileGrid) -> (st: SearchState)
    requires
        0 < width <= s.coded_width,
        0 < height <= s.coded_height,
        s.coded_width == ceil_div(width as int, 8) * 8,
        s.coded_height == ceil_div(height as int, 8) * 8,
        s.coded_width * s.coded_height <= usize::MAX,
    ensures
        fresh_state(&st, s, width as int, height as int, &grid),
        st.well_formed(),
{
    let (w, h): (u32, u32) = (s.coded_width, s.coded_height);
    let (cw, ch): (u32, u32) = if s.cat == 1 {
        (w / 2, h / 2)
    } else if s.cat == 2 {
        (w / 2, h)
    } else if s.cat == 3 {
        (w, h)
    } else {
        (0, 0)
    };
    let modes_x: u32 = ceil_div_u32(width, 4);
    let modes_y: u32 = ceil_div_u32(height, 4);
    let depths_x: u32 = ceil_div_u32(width, 8);
    let depths_y: u32 = ceil_div_u32(height, 8);
    proof {
        lemma_smaller(cw as int, ch as int, w as int, h as int);
        lemma_smaller(modes_x as int, modes_y as int, w as int, h as int);
        lemma_smaller(depths_x as int, depths_y as int, w as int, h as int);
    }
    let luma = make_plane(w, h);
    let cb = make_plane(cw, ch);
    let cr = make_plane(cw, ch);
    let mut planes: Vec<Plane> = Vec::new();
    planes.push(luma);
    planes.push(cb);
    planes.push(cr);
    let mode_map = make_map(modes_x, modes_y, DC_MODE);
    let ct_depth_map = make_map(depths_x, depths_y, NO_DEPTH);
    let tu_depth_map = make_map(modes_x, modes_y, 0);
    SearchState {
        frame: Frame { bit_depth: s.bit_depth, cat: s.cat, planes },
        maps: BlockMaps {
            width,
            height,
            tile_grid: grid,
            mode_map,
            mode_stride: modes_x as usize,
            ct_depth_map,
            ct_depth_stride: depths_x as usize,
        },
        tu_depth_map,
        tu_depth_stride: modes_x as usize,
        stats: EncodeStats::default(),
    }
}

proof fn lemma_smaller(a: int, b: int, w: int, h: int)
    requires
        0 <= a <= w,
        0 <= b <= h,
        w * h <= usize::MAX,
    ensures
        0 <= a * b <= usize::MAX,
{
    assert(0 <= a * b <= w * h) by (nonlinear_arith)
        requires
            0 <= a <= w,
            0 <= b <= h,
    ;
}

/// The planes of a fresh state hold the picture in whole blocks, so that every coding tree
/// block of it can be searched.
pub proof fn law_fresh_state_covers(
    st: &SearchState,
    s: &PassSetup,
    pic: &SourcePicture,
    grid: &TileGrid,
)
    requires
        pic.cat <= 3,
        s.cat == pic.cat,
        s.coded_width == ceil_div(pic.width as int, 8) * 8,
        s.coded_height == ceil_div(pic.height as int, 8) * 8,
        fresh_state(st, s, pic.width as int, pic.height as int, grid),
    ensures
        frame_covers(pic, &st.frame),
{
}

/// What decides how a pass runs.
#[derive(Clone, Copy, Debug, PartialEq, Eq, Structural)]
pub struct PassFlags {
    pub sao: bool,
    pub single_tile: bool,
    /// The stream is made of substreams, one per row.
    pub stream_wpp: bool,
    /// Trees are built by a row of workers.
    pub build_wpp: bool,
    pub deblock: bool,
    pub aq_active: bool,
    /// What was coded is measured.
    pub collect: bool,
}

impl PassFlags {
    /// Trees are built first and written afterwards; else the slice is coded directly.
    pub open spec fn by_trees(self) -> bool {
        self.sao || !self.single_tile || self.stream_wpp || self.build_wpp || self.collect
    }

    pub fn builds_trees(self) -> (r: bool)
        ensures
            r == self.by_trees(),
    {
        self.sao || !self.single_tile || self.stream_wpp || self.build_wpp || self.collect
    }
}

/// The phases of a pass.
pub struct Phases<B, M, D, S, W, A, C> {
    /// Builds the trees, by a row of workers or serially; with adaptive quantisation or
    /// without.
    pub build: B,
    /// Measures what trees code.
    pub measure: M,
    pub deblock: D,
    /// Decides the sample adaptive offsets.
    pub decide_sao: S,
    /// Writes the slice of the trees, and its substreams.
    pub write: W,
    /// Applies sample adaptive offsets.
    pub apply_sao: A,
    /// Codes the slice directly.
    pub code: C,
}

/// Trees were built.
pub open spec fn after_build<St, T, Q, O, L, B, M, D, S, W, A, C>(
    p: &Phases<B, M, D, S, W, A, C>,
    flags: PassFlags,
    start: St,
    built: St,
    trees: T,
) -> bool where
    B: Fn(St, bool, bool) -> (St, T),
    M: Fn(&T) -> Q,
    D: Fn(St) -> St,
    S: Fn(&St) -> O,
    W: Fn(St, &T, &Option<O>, bool) -> (St, L),
    A: Fn(St, &O) -> St,
    C: Fn(St) -> (St, L),
 {
    call_ensures(p.build, (start, flags.build_wpp, flags.aq_active), (built, trees))
}

/// Trees were built, and the state deblocked where that is asked for.
pub open spec fn after_deblock<St, T, Q, O, L, B, M, D, S, W, A, C>(
    p: &Phases<B, M, D, S, W, A, C>,
    flags: PassFlags,
    start: St,
    built: St,
    trees: T,
    smooth: St,
) -> bool where
    B: Fn(St, bool, bool) -> (St, T),
    M: Fn(&T) -> Q,
    D: Fn(St) -> St,
    S: Fn(&St) -> O,
    W: Fn(St, &T, &Option<O>, bool) -> (St, L),
    A: Fn(St, &O) -> St,
    C: Fn(St) -> (St, L),
 {
    &&& after_build(p, flags, start, built, trees)
    &&& deblocked(p.deblock, flags.deblock, built, smooth)
}

/// Trees were built and offsets decided on.
pub open spec fn after_offsets<St, T, Q, O, L, B, M, D, S, W, A, C>(
    p: &Phases<B, M, D, S, W, A, C>,
    flags: PassFlags,
    start: St,
    built: St,
    trees: T,
    smooth: St,
    sao: Option<O>,
) -> bool where
    B: Fn(St, bool, bool) -> (St, T),
    M: Fn(&T) -> Q,
    D: Fn(St) -> St,
    S: Fn(&St) -> O,
    W: Fn(St, &T, &Option<O>, bool) -> (St, L),
    A: Fn(St, &O) -> St,
    C: Fn(St) -> (St, L),
 {
    &&& after_deblock(p, flags, start, built, trees, smooth)
    &&& sao is Some == flags.sao
    &&& sao matches Some(o) ==> call_ensures(p.decide_sao, (&smooth,), o)
}

/// Each phase of a pass accepts what the phases before it leave.
pub open spec fn phases_ok<St, T, Q, O, L, B, M, D, S, W, A, C>(
    p: &Phases<B, M, D, S, W, A, C>,
    flags: PassFlags,
    start: St,
) -> bool where
    B: Fn(St, bool, bool) -> (St, T),
    M: Fn(&T) -> Q,
    D: Fn(St) -> St,
    S: Fn(&St) -> O,
    W: Fn(St, &T, &Option<O>, bool) -> (St, L),
    A: Fn(St, &O) -> St,
    C: Fn(St) -> (St, L),
 {
    if flags.by_trees() {
        &&& call_requires(p.build, (start, flags.build_wpp, flags.aq_active))
        &&& forall|built: St, trees: T| #[trigger]
            after_build(p, flags, start, built, trees) ==> {
                &&& flags.collect ==> call_requires(p.measure, (&trees,))
                &&& flags.deblock ==> call_requires(p.deblock, (built,))
            }
        &&& forall|built: St, trees: T, smooth: St| #[trigger]
            after_deblock(p, flags, start, built, trees, smooth) && flags.sao ==> call_requires(
                p.decide_sao,
                (&smooth,),
            )
        &&& forall|built: St, trees: T, smooth: St, sao: Option<O>| #[trigger]
            after_offsets(p, flags, start, built, trees, smooth, sao) ==> call_requires(
                p.write,
                (smooth, &trees, &sao, flags.stream_wpp),
            )
        &&& forall|built: St, trees: T, smooth: St, o: O, written: St, slice: L|
            after_offsets(p, flags, start, built, trees, smooth, Some(o)) && #[trigger]
            call_ensures(
                p.write,
                (smooth, &trees, &Some(o), flags.stream_wpp),
                (written, slice),
            ) && #[trigger] after_build(p, flags, start, built, trees) ==> call_requires(
                p.apply_sao,
                (written, &o),
            )
    } else {
        &&& call_requires(p.code, (start,))
        &&& forall|coded: St, slice: L| #[trigger]
            call_ensures(p.code, (start,), (coded, slice)) && flags.deblock ==> call_requires(
                p.deblock,
                (coded,),
            )
    }
}

/// What a pass leaves.
pub struct PassOut<St, L, Q> {
    pub state: St,
    pub slice: L,
    pub measured: Option<Q>,
}

/// A state was deblocked where that is asked for.
pub open spec fn deblocked<St, D>(deblock: D, on: bool, before: St, after: St) -> bool where
    D: Fn(St) -> St,
 {
    if on {
        call_ensures(deblock, (before,), after)
    } else {
        after == before
    }
}

/// Names the steps of a pass that builds trees.
pub open spec fn tree_steps<St, T, O>(
    built: St,
    trees: T,
    smooth: St,
    sao: Option<O>,
    written: St,
) -> bool {
    true
}

/// Names the state that a direct pass leaves before deblocking.
pub open spec fn direct_steps<St>(coded: St) -> bool {
    true
}

/// A pass was made. Deblocking comes before the offsets are decided, and the slice is
/// written before they are applied. Without trees, deblocking comes last.
pub open spec fn pass_made<St, T, Q, O, L, B, M, D, S, W, A, C>(
    p: &Phases<B, M, D, S, W, A, C>,
    flags: PassFlags,
    start: St,
    out: PassOut<St, L, Q>,
) -> bool where
    B: Fn(St, bool, bool) -> (St, T),
    M: Fn(&T) -> Q,
    D: Fn(St) -> St,
    S: Fn(&St) -> O,
    W: Fn(St, &T, &Option<O>, bool) -> (St, L),
    A: Fn(St, &O) -> St,
    C: Fn(St) -> (St, L),
 {
    if flags.by_trees() {
        exists|built: St, trees: T, smooth: St, sao: Option<O>, written: St|
            {
                &&& #[trigger] tree_steps(built, trees, smooth, sao, written)
                &&& call_ensures(
                    p.build,
                    (start, flags.build_wpp, flags.aq_active),
                    (built, trees),
                )
                &&& out.measured is Some == flags.collect
                &&& out.measured matches Some(q) ==> call_ensures(p.measure, (&trees,), q)
                &&& deblocked(p.deblock, flags.deblock, built, smooth)
                &&& sao is Some == flags.sao
                &&& sao matches Some(o) ==> call_ensures(p.decide_sao, (&smooth,), o)
                &&& call_ensures(
                    p.write,
                    (smooth, &trees, &sao, flags.stream_wpp),
                    (written, out.slice),
                )
                &&& match sao {
                    Some(o) => call_ensures(p.apply_sao, (written, &o), out.state),
                    None => out.state == written,
                }
            }
    } else {
        exists|coded: St|
            {
                &&& #[trigger] direct_steps(coded)
                &&& call_ensures(p.code, (start,), (coded, out.slice))
                &&& deblocked(p.deblock, flags.deblock, coded, out.state)
                &&& out.measured is None
            }
    }
}

/// Runs the phases of a pass.
pub fn run_phases<St, T, Q, O, L, B, M, D, S, W, A, C>(
    p: &Phases<B, M, D, S, W, A, C>,
    flags: PassFlags,
    start: St,
) -> (out: PassOut<St, L, Q>) where
    B: Fn(St, bool, bool) -> (St, T),
    M: Fn(&T) -> Q,
    D: Fn(St) -> St,
    S: Fn(&St) -> O,
    W: Fn(St, &T, &Option<O>, bool) -> (St, L),
    A: Fn(St, &O) -> St,
    C: Fn(St) -> (St, L),

    requires
        phases_ok(p, flags, start),
    ensures
        pass_made(p, flags, start, out),
{
    if !flags.builds_trees() {
        let (coded, slice) = (p.code)(start);
        assert(direct_steps(coded));
        let state = if flags.deblock {
            (p.deblock)(coded)
        } else {
            coded
        };
        return PassOut { state, slice, measured: None };
    }
    let (built, trees) = (p.build)(start, flags.build_wpp, flags.aq_active);
    let ghost first = built;
    assert(after_build(p, flags, start, built, trees));
    let measured = if flags.collect {
        Some((p.measure)(&trees))
    } else {
        None
    };
    let smooth = if flags.deblock {
        (p.deblock)(built)
    } else {
        built
    };
    let ghost second = smooth;
    assert(after_deblock(p, flags, start, first, trees, smooth));
    let sao = if flags.sao {
        Some((p.decide_sao)(&smooth))
    } else {
        None
    };
    assert(after_offsets(p, flags, start, first, trees, second, sao));
    let (written, slice) = (p.write)(smooth, &trees, &sao, flags.stream_wpp);
    assert(tree_steps(first, trees, second, sao, written));
    let state = match &sao {
        Some(o) => (p.apply_sao)(written, o),
        None => written,
    };
    PassOut { state, slice, measured }
}

/// Two passes are made: for measured adaptive quantisation, of pictures with chroma.
pub open spec fn two_passes(mode: AqMode, chroma: ChromaFormat) -> bool {
    mode == AqMode::TwoPassMeasured && chroma != ChromaFormat::Gray
}

pub fn uses_two_passes(mode: AqMode, chroma: ChromaFormat) -> (r: bool)
    ensures
        r == two_passes(mode, chroma),
{
    match mode {
        AqMode::TwoPassMeasured => chroma != ChromaFormat::Gray,
        AqMode::Off => false,
    }
}

/// The configuration of the uniform pass.
pub open spec fn uniform_of(config: &StillHevcConfig) -> StillHevcConfig {
    StillHevcConfig { aq_mode: AqMode::Off, adaptive_qp: false, ..*config }
}

pub fn uniform_config(config: &StillHevcConfig) -> (c: StillHevcConfig)
    ensures
        c == uniform_of(config),
{
    let mut c = *config;
    c.aq_mode = AqMode::Off;
    c.adaptive_qp = false;
    c
}

/// The QP of the uniform encode that brackets the adaptive one: the next higher where that
/// saved bytes, else the next lower, within range.
pub open spec fn bracket_of(qp: u8, adaptive_bytes: int, uniform_bytes: int) -> int {
    if adaptive_bytes <= uniform_bytes {
        min_int(qp + 1, 51)
    } else {
        max_int(qp - 1, 0)
    }
}

pub fn bracket_qp(qp: u8, adaptive_bytes: usize, uniform_bytes: usize) -> (q: i32)
    ensures
        q == bracket_of(qp, adaptive_bytes as int, uniform_bytes as int),
        0 <= q <= 255,
{
    if adaptive_bytes <= uniform_bytes {
        if qp < 51 {
            qp as i32 + 1
        } else {
            51
        }
    } else if qp > 0 {
        qp as i32 - 1
    } else {
        0
    }
}

/// What two-pass encoding asks of its caller.
pub struct TwoPass<E, M, Z, N, K> {
    /// Encodes with a configuration, an offset map or none, and measures what was coded.
    pub encode: E,
    /// The offset map that measurements lead to; none where the picture has no usable
    /// spread.
    pub map: M,
    /// The size of an encode.
    pub size: Z,
    /// Whether the adaptive encode (second) is no worse than the uniform one (first).
    pub no_worse: N,
    /// Whether the adaptive encode (second) is kept against the uniform ones around it.
    pub keeps: K,
}

/// The configurations that a picture is encoded with: its own, and uniform ones.
pub open spec fn pass_config(config: &StillHevcConfig, c: StillHevcConfig) -> bool {
    c == *config || c == (StillHevcConfig { qp: c.qp, ..uniform_of(config) })
}

/// An encode of a picture.
pub open spec fn produced<O, Q, G, E, M, Z, N, K>(
    t: &TwoPass<E, M, Z, N, K>,
    config: &StillHevcConfig,
    o: O,
    q: Option<Q>,
) -> bool where
    E: Fn(StillHevcConfig, Option<G>, bool) -> (O, Option<Q>),
    M: Fn(Q) -> Option<G>,
    Z: Fn(&O) -> usize,
    N: Fn(&O, &O) -> bool,
    K: Fn(&O, &O, &O) -> bool,
 {
    exists|c: StillHevcConfig, g: Option<G>, m: bool|
        pass_config(config, c) && #[trigger] call_ensures(t.encode, (c, g, m), (o, q))
}

/// The caller encodes a picture and compares its encodes.
pub open spec fn two_pass_ok<O, Q, G, E, M, Z, N, K>(
    t: &TwoPass<E, M, Z, N, K>,
    config: &StillHevcConfig,
) -> bool where
    E: Fn(StillHevcConfig, Option<G>, bool) -> (O, Option<Q>),
    M: Fn(Q) -> Option<G>,
    Z: Fn(&O) -> usize,
    N: Fn(&O, &O) -> bool,
    K: Fn(&O, &O, &O) -> bool,
 {
    &&& forall|c: StillHevcConfig, g: Option<G>, m: bool|
        pass_config(config, c) ==> #[trigger] call_requires(t.encode, (c, g, m))
    &&& forall|o: O, q: Q| #[trigger]
        produced(t, config, o, Some(q)) ==> call_requires(t.map, (q,))
    &&& forall|o: O, q: Option<Q>| #[trigger]
        produced(t, config, o, q) ==> call_requires(t.size, (&o,))
    &&& forall|a: O, aq: Option<Q>, b: O, bq: Option<Q>|
        #[trigger] produced(t, config, a, aq) && #[trigger] produced(t, config, b, bq)
            ==> call_requires(t.no_worse, (&a, &b))
    &&& forall|a: O, aq: Option<Q>, b: O, bq: Option<Q>, c: O, cq: Option<Q>|
        #[trigger] produced(t, config, a, aq) && #[trigger] produced(t, config, b, bq)
            && #[trigger] produced(t, config, c, cq) ==> call_requires(t.keeps, (&a, &b, &c))
}

/// Names the uniform encode and the offset map that it leads to.
pub open spec fn first_pass<O, Q, G>(uniform: O, measured: Option<Q>, map: Option<G>) -> bool {
    true
}

/// Names the adaptive encode.
pub open spec fn second_pass<O, Q>(adaptive: O, other: Option<Q>) -> bool {
    true
}

/// Names what is compared: the sizes, and a third encode where there is one.
pub open spec fn third_pass<O, Q>(
    uniform_size: usize,
    adaptive_size: usize,
    bracket: Option<(O, Option<Q>)>,
    keep: bool,
) -> bool {
    true
}

/// A comparison decided whether the adaptive encode is kept.
pub open spec fn keep_decided<O, Q, G, E, M, Z, N, K>(
    t: &TwoPass<E, M, Z, N, K>,
    config: &StillHevcConfig,
    uniform: O,
    adaptive: O,
    kept: bool,
) -> bool where
    E: Fn(StillHevcConfig, Option<G>, bool) -> (O, Option<Q>),
    M: Fn(Q) -> Option<G>,
    Z: Fn(&O) -> usize,
    N: Fn(&O, &O) -> bool,
    K: Fn(&O, &O, &O) -> bool,
 {
    exists|uniform_size: usize, adaptive_size: usize, bracket: Option<(O, Option<Q>)>, keep: bool|
        {
            let q3 = bracket_of(config.qp, adaptive_size as int, uniform_size as int);
            &&& #[trigger] third_pass(uniform_size, adaptive_size, bracket, keep)
            &&& call_ensures(t.size, (&uniform,), uniform_size)
            &&& call_ensures(t.size, (&adaptive,), adaptive_size)
            &&& bracket is Some == (q3 != config.qp)
            &&& match bracket {
                Some(b) => {
                    &&& call_ensures(
                        t.encode,
                        (
                            StillHevcConfig { qp: q3 as u8, ..uniform_of(config) },
                            None::<G>,
                            false,
                        ),
                        b,
                    )
                    &&& call_ensures(t.keeps, (&uniform, &adaptive, &b.0), keep)
                },
                None => call_ensures(t.no_worse, (&uniform, &adaptive), keep),
            }
            &&& kept == keep
        }
}

/// A picture was encoded in two passes: uniform and measured, then with the offsets that
/// the measurements lead to. With a comparison, the adaptive encode is kept only where it
/// wins over the uniform ones.
pub open spec fn two_pass_made<O, Q, G, E, M, Z, N, K>(
    t: &TwoPass<E, M, Z, N, K>,
    config: &StillHevcConfig,
    compare: bool,
    out: O,
) -> bool where
    E: Fn(StillHevcConfig, Option<G>, bool) -> (O, Option<Q>),
    M: Fn(Q) -> Option<G>,
    Z: Fn(&O) -> usize,
    N: Fn(&O, &O) -> bool,
    K: Fn(&O, &O, &O) -> bool,
 {
    exists|uniform: O, measured: Option<Q>, map: Option<G>|
        {
            &&& #[trigger] first_pass(uniform, measured, map)
            &&& call_ensures(
                t.encode,
                (uniform_of(config), None::<G>, true),
                (uniform, measured),
            )
            &&& match measured {
                Some(q) => call_ensures(t.map, (q,), map),
                None => map is None,
            }
            &&& match map {
                None => out == uniform,
                Some(g) => adaptive_made(t, config, compare, uniform, g, out),
            }
        }
}

/// The second pass was made, and one of both encodes chosen.
pub open spec fn adaptive_made<O, Q, G, E, M, Z, N, K>(
    t: &TwoPass<E, M, Z, N, K>,
    config: &StillHevcConfig,
    compare: bool,
    uniform: O,
    map: G,
    out: O,
) -> bool where
    E: Fn(StillHevcConfig, Option<G>, bool) -> (O, Option<Q>),
    M: Fn(Q) -> Option<G>,
    Z: Fn(&O) -> usize,
    N: Fn(&O, &O) -> bool,
    K: Fn(&O, &O, &O) -> bool,
 {
    exists|adaptive: O, other: Option<Q>|
        {
            &&& #[trigger] second_pass(adaptive, other)
            &&& call_ensures(t.encode, (*config, Some(map), false), (adaptive, other))
            &&& {
                ||| !compare && out == adaptive
                ||| compare && out == adaptive && keep_decided(t, config, uniform, adaptive, true)
                ||| compare && out == uniform && keep_decided(t, config, uniform, adaptive, false)
            }
        }
}

/// Encodes a picture in two passes.
pub fn encode_two_pass<O, Q, G, E, M, Z, N, K>(
    t: &TwoPass<E, M, Z, N, K>,
    config: &StillHevcConfig,
    compare: bool,
) -> (out: O) where
    E: Fn(StillHevcConfig, Option<G>, bool) -> (O, Option<Q>),
    M: Fn(Q) -> Option<G>,
    Z: Fn(&O) -> usize,
    N: Fn(&O, &O) -> bool,
    K: Fn(&O, &O, &O) -> bool,

    requires
        two_pass_ok(t, config),
    ensures
        two_pass_made(t, config, compare, out),
{
    let pass1 = uniform_config(config);
    let (uniform, measured) = (t.encode)(pass1, None, true);
    let ghost told = measured;
    assert(produced(t, config, uniform, told));
    let map = match measured {
        Some(q) => (t.map)(q),
        None => None,
    };
    assert(first_pass(uniform, told, map));
    let g = match map {
        None => {
            return uniform;
        },
        Some(g) => g,
    };
    let (adaptive, other) = (t.encode)(*config, Some(g), false);
    assert(second_pass(adaptive, other));
    assert(produced(t, config, adaptive, other));
    if !compare {
        return adaptive;
    }
    let uniform_size: usize = (t.size)(&uniform);
    let adaptive_size: usize = (t.size)(&adaptive);
    let q3: i32 = bracket_qp(config.qp, adaptive_size, uniform_size);
    let keep: bool = if q3 == config.qp as i32 {
        let k: bool = (t.no_worse)(&uniform, &adaptive);
        assert(third_pass(uniform_size, adaptive_size, None::<(O, Option<Q>)>, k));
        k
    } else {
        let mut pass3 = pass1;
        pass3.qp = q3 as u8;
        let bracket = (t.encode)(pass3, None, false);
        assert(produced(t, config, bracket.0, bracket.1));
        let k: bool = (t.keeps)(&uniform, &adaptive, &bracket.0);
        assert(third_pass(uniform_size, adaptive_size, Some(bracket), k));
        k
    };
    assert(keep_decided(t, config, uniform, adaptive, keep));
    if keep {
        adaptive
    } else {
        uniform
    }
}

/// A picture was encoded: in two passes where its mode asks for that, else in one.
pub open spec fn picture_encoded<O, Q, G, E, M, Z, N, K>(
    t: &TwoPass<E, M, Z, N, K>,
    config: &StillHevcConfig,
    mode: AqMode,
    compare: bool,
    out: O,
) -> bool where
    E: Fn(StillHevcConfig, Option<G>, bool) -> (O, Option<Q>),
    M: Fn(Q) -> Option<G>,
    Z: Fn(&O) -> usize,
    N: Fn(&O, &O) -> bool,
    K: Fn(&O, &O, &O) -> bool,
 {
    if two_passes(mode, config.chroma) {
        two_pass_made(t, config, compare, out)
    } else {
        exists|other: Option<Q>| #[trigger]
            second_pass(out, other) && call_ensures(
                t.encode,
                (*config, None::<G>, false),
                (out, other),
            )
    }
}

/// Encodes a picture.
pub fn encode_with_stats<O, Q, G, E, M, Z, N, K>(
    t: &TwoPass<E, M, Z, N, K>,
    config: &StillHevcConfig,
    mode: AqMode,
    compare: bool,
) -> (out: O) where
    E: Fn(StillHevcConfig, Option<G>, bool) -> (O, Option<Q>),
    M: Fn(Q) -> Option<G>,
    Z: Fn(&O) -> usize,
    N: Fn(&O, &O) -> bool,
    K: Fn(&O, &O, &O) -> bool,

    requires
        two_pass_ok(t, config),
    ensures
        picture_encoded(t, config, mode, compare, out),
{
    if uses_two_passes(mode, config.chroma) {
        return encode_two_pass(t, config, compare);
    }
    let (out, other) = (t.encode)(*config, None, false);
    assert(second_pass(out, other));
    out
}

/// With a comparison, what comes out is the uniform encode unless the comparison kept the
/// adaptive one: two passes never leave a picture worse than that allows.
pub proof fn law_comparison_keeps_uniform<O, Q, G, E, M, Z, N, K>(
    t: &TwoPass<E, M, Z, N, K>,
    config: &StillHevcConfig,
    uniform: O,
    map: G,
    out: O,
) where
    E: Fn(StillHevcConfig, Option<G>, bool) -> (O, Option<Q>),
    M: Fn(Q) -> Option<G>,
    Z: Fn(&O) -> usize,
    N: Fn(&O, &O) -> bool,
    K: Fn(&O, &O, &O) -> bool,

    requires
        adaptive_made(t, config, true, uniform, map, out),
    ensures
        out == uniform || keep_decided(t, config, uniform, out, true),
{
}

/// The bracketing QP stays in the range of QPs, and differs from the picture's own unless
/// that is at the end of the range.
pub proof fn law_bracket_in_range(qp: u8, adaptive_bytes: int, uniform_bytes: int)
    requires
        qp <= 51,
    ensures
        0 <= bracket_of(qp, adaptive_bytes, uniform_bytes) <= 51,
        bracket_of(qp, adaptive_bytes, uniform_bytes) == qp ==> qp == 0 || qp == 51,
{
}

} // verus!
