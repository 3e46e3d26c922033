//! What holds of the rules that steer trials, of what is noted of trees, and of what a
//! caller's settings lead to.

use vstd::prelude::*;

use crate::batch::batch_threads;
use crate::block_eval::{quantiser_of, Quantiser};
use crate::budget::{smooth_threshold, BlockSearchBudget};
use crate::cabac::bin_cost;
use crate::candidate_cost::kind_policy;
use crate::config::Effort;
use crate::cost::luma_trial_cost;
use crate::cu_tree::{depths_noted, kids_depths_noted};
use crate::effort::TrialQuality;
use crate::frame::Frame;
use crate::geometry::side;
use crate::maps::BlockMaps;
use crate::mode_search::{screen_of, LumaScreen};
use crate::policy::{
    block_counted, block_optimised, luma_quality, EvalKind, EvalPolicy, RdoqPolicy,
    ResidualBitPolicy, TrialGates, TrialRdoqGate, WorkBucket, WorkStage,
};
use crate::rough::{narrow_screen_size, rough_sum, screen_size};
use crate::source::{cu_distortion, cu_kids_distortion, tt_distortion, SourcePicture};
use crate::stats::{count_sum, EncodeStats};
use crate::still_encoder::{HevcEncodeParams, RustStillHevcEncoder};
use crate::syntax::{CuNode, Tt};
use crate::unit_modes::{mpm_at, mpm_of};

verus! {

/// A screen keeps eight modes at the root and one more for every two depths. A narrow one
/// keeps three fewer until it keeps eight, where it stops.
pub proof fn law_screens_widen_with_depth(depth: u8)
    requires
        depth <= 253,
    ensures
        screen_size(0) == 8 && screen_size(1) == 8,
        screen_size((depth + 2) as u8) == screen_size(depth) + 1,
        narrow_screen_size(depth) <= 8,
        narrow_screen_size(depth) == screen_size(depth) - 3 || (narrow_screen_size(depth) == 8
            && screen_size(depth) > 11),
{
}

/// In a rough score a unit of transformed difference weighs as much as one bit, and bits
/// are counted in parts of 32768.
pub proof fn law_rough_scores_weigh_bits(satd: int, bits: int)
    ensures
        rough_sum(satd + 1, bits) == rough_sum(satd, bits + 32768),
        rough_sum(0, bits) == bits,
        rough_sum(satd, bits + 1) == rough_sum(satd, bits) + 1,
{
    assert((satd + 1) * 32768 == satd * 32768 + 32768) by (nonlinear_arith);
}

/// Units above 32x32 are screened as trees, all others as single blocks: cheaply where
/// that is asked for, and exactly else.
pub proof fn law_screens_by_size(log2_size: u8, cheap: bool)
    ensures
        screen_of(log2_size, cheap) == LumaScreen::Subtree <==> log2_size >= 6,
        screen_of(log2_size, cheap) == LumaScreen::Block(EvalKind::CheapTrial) <==> log2_size
            < 6 && cheap,
        screen_of(log2_size, cheap) == LumaScreen::Block(EvalKind::ExactTrial) <==> log2_size
            < 6 && !cheap,
{
}

/// Final code is always optimised and counted exactly. Rough and fast trials never are.
/// Better ones are as the budget says; a final one is optimised whatever it says, and a
/// full one counted.
pub proof fn law_quality_decides_the_effort(
    stage: WorkStage,
    quality: TrialQuality,
    budget: &BlockSearchBudget,
)
    ensures
        stage == WorkStage::FinalCode ==> block_optimised(stage, quality, budget)
            && block_counted(stage, quality, budget),
        stage != WorkStage::FinalCode && (quality == TrialQuality::Rough || quality
            == TrialQuality::FastRd) ==> !block_optimised(stage, quality, budget)
            && !block_counted(stage, quality, budget),
        quality == TrialQuality::Final ==> block_optimised(stage, quality, budget),
        quality == TrialQuality::FullRd ==> block_counted(stage, quality, budget),
        stage != WorkStage::FinalCode && quality == TrialQuality::FullRd ==> block_optimised(
            stage,
            quality,
            budget,
        ) == budget.rdoq_for_trials,
        stage != WorkStage::FinalCode && quality == TrialQuality::Final ==> block_counted(
            stage,
            quality,
            budget,
        ) == budget.exact_residual_bits_for_trials,
{
}

/// Switches never touch final code. A cheap switch turns both off in every trial, whatever
/// else is set; an exact one restores both, whatever else is set but that.
pub proof fn law_switches_of_trials(
    g: TrialGates,
    stage: WorkStage,
    quality: TrialQuality,
    budget: &BlockSearchBudget,
    c_idx: u8,
    log2_size: u8,
)
    ensures
        stage == WorkStage::FinalCode ==> g.optimises(stage, quality, budget, c_idx, log2_size)
            && g.prices_exactly(stage, quality, budget),
        stage != WorkStage::FinalCode && g.cheap ==> !g.optimises(
            stage,
            quality,
            budget,
            c_idx,
            log2_size,
        ) && !g.prices_exactly(stage, quality, budget),
        stage != WorkStage::FinalCode && !g.cheap && g.exact ==> g.optimises(
            stage,
            quality,
            budget,
            c_idx,
            log2_size,
        ) == block_optimised(stage, quality, budget) && g.prices_exactly(stage, quality, budget)
            == block_counted(stage, quality, budget),
        stage != WorkStage::FinalCode && !g.exact && g.approx_bits ==> !g.prices_exactly(
            stage,
            quality,
            budget,
        ),
        g.prices_exactly(stage, quality, budget) ==> block_counted(stage, quality, budget),
        g.rdoq != TrialRdoqGate::SmallLuma && g.optimises(
            stage,
            quality,
            budget,
            c_idx,
            log2_size,
        ) ==> block_optimised(stage, quality, budget),
{
}

/// Of the restrictions one spares chroma, one 32x32 luma and one luma above 8x8; they leave
/// all other blocks as they are. The last allows 4x4 and 8x8 luma alone, whatever the
/// quality.
pub proof fn law_restrictions_of_trials(
    g: TrialGates,
    stage: WorkStage,
    quality: TrialQuality,
    budget: &BlockSearchBudget,
    c_idx: u8,
    log2_size: u8,
)
    requires
        !g.cheap,
        !g.exact,
        stage != WorkStage::FinalCode,
        c_idx <= 2,
        2 <= log2_size <= 5,
    ensures
        ({
            let free = block_optimised(stage, quality, budget);
            let now = g.optimises(stage, quality, budget, c_idx, log2_size);
            &&& g.rdoq == TrialRdoqGate::Off ==> now == free
            &&& g.rdoq == TrialRdoqGate::Chroma && c_idx > 0 ==> !now
            &&& g.rdoq == TrialRdoqGate::Chroma && c_idx == 0 ==> now == free
            &&& g.rdoq == TrialRdoqGate::Luma32 && c_idx == 0 && log2_size == 5 ==> !now
            &&& g.rdoq == TrialRdoqGate::Luma32 && !(c_idx == 0 && log2_size == 5) ==> now == free
            &&& g.rdoq == TrialRdoqGate::Large && c_idx == 0 && log2_size >= 4 ==> !now
            &&& g.rdoq == TrialRdoqGate::Large && !(c_idx == 0 && log2_size >= 4) ==> now == free
            &&& g.rdoq == TrialRdoqGate::SmallLuma ==> (now <==> c_idx == 0 && log2_size <= 3)
        }),
{
}

/// A quality that is forced comes first, then the switch for fast trials, then the budget.
pub proof fn law_quality_of_luma_trials(
    forced: Option<TrialQuality>,
    fast: bool,
    budget: &BlockSearchBudget,
)
    ensures
        forced is Some ==> Some(luma_quality(forced, fast, budget)) == forced,
        forced is None && fast ==> luma_quality(forced, fast, budget) == TrialQuality::FastRd,
        forced is None && !fast ==> luma_quality(forced, fast, budget)
            == budget.luma_trial_quality,
{
}

/// A cheap trial is plain and rough, others optimised and exact, and only final code is
/// committed; it alone has a bucket of its own. A bucket that is named changes nothing
/// else, and is where the work is booked.
pub proof fn law_policies_of_kinds(kind: EvalKind, bucket: WorkBucket)
    ensures
        kind_policy(kind, bucket) == (EvalPolicy {
            work_bucket: Some(bucket),
            ..EvalPolicy::of_kind(kind)
        }),
        EvalPolicy::of_kind(kind).rdoq == RdoqPolicy::Off <==> kind == EvalKind::CheapTrial,
        EvalPolicy::of_kind(kind).bits == ResidualBitPolicy::Approx <==> kind
            == EvalKind::CheapTrial,
        EvalPolicy::of_kind(kind).commit <==> kind == EvalKind::Final,
        EvalPolicy::of_kind(kind).work_bucket is Some <==> kind == EvalKind::Final,
        kind_policy(kind, bucket).booked() == bucket,
        EvalPolicy::of_kind(EvalKind::Final).booked() == WorkBucket::FinalReplay,
        EvalPolicy::of_kind(EvalKind::CheapTrial).booked() == WorkBucket::TtLeafCheap,
        EvalPolicy::of_kind(EvalKind::ExactTrial).booked() == WorkBucket::TtLeafExact,
{
}

/// Levels come out of what is committed; of trials only where they are plain and counted.
pub proof fn law_levels_handed_out(p: EvalPolicy)
    ensures
        p.commit ==> p.hands_out(),
        EvalPolicy::of_kind(EvalKind::Final).hands_out(),
        !EvalPolicy::of_kind(EvalKind::CheapTrial).hands_out(),
        !EvalPolicy::of_kind(EvalKind::ExactTrial).hands_out(),
        !p.commit && p.hands_out() ==> p.rdoq == RdoqPolicy::Off && p.bits
            == ResidualBitPolicy::Exact,
        p.rdoq == RdoqPolicy::Off && p.bits == ResidualBitPolicy::Exact ==> p.hands_out(),
{
}

/// One scan takes both: a search that scans once, and a block that is optimised.
pub proof fn law_one_scan_takes_both(single: bool, optimised: bool)
    ensures
        quantiser_of(single, optimised) == Quantiser::SingleScan <==> single && optimised,
        quantiser_of(single, optimised) == Quantiser::Plain <==> !(single && optimised),
{
}

/// Only the fast preset drops directions by texture.
pub proof fn law_fast_drops_directions(effort: Effort)
    ensures
        smooth_threshold(effort) is Some <==> effort == Effort::Fast,
        smooth_threshold(effort) matches Some(t) ==> t == 32,
{
}

/// A batch has no more threads than jobs or than it may have, but one at least.
pub proof fn law_threads_of_a_batch(jobs: int, concurrency: int)
    requires
        jobs > 0,
        concurrency >= 0,
    ensures
        1 <= batch_threads(jobs, concurrency) <= jobs,
        batch_threads(jobs, concurrency) > 1 ==> batch_threads(jobs, concurrency) <= concurrency,
        batch_threads(jobs, concurrency) < jobs && concurrency > 0 ==> batch_threads(
            jobs,
            concurrency,
        ) == concurrency,
{
}

/// What a unit's luma costs grows by its partition in a unit of 8x8, and by nothing else
/// with its size.
pub proof fn law_luma_cost_by_size(
    states: Seq<int>,
    mpm: [u8; 3],
    mode: u8,
    tt: &Tt,
    log2_size: u8,
)
    requires
        log2_size > 3,
        bin_cost(states[crate::contexts::PART_MODE as int], 1) >= 0,
    ensures
        luma_trial_cost(states, mpm, mode, tt, 3) == luma_trial_cost(
            states,
            mpm,
            mode,
            tt,
            log2_size,
        ) + bin_cost(states[crate::contexts::PART_MODE as int], 1),
        luma_trial_cost(states, mpm, mode, tt, log2_size) == luma_trial_cost(
            states,
            mpm,
            mode,
            tt,
            6,
        ),
{
}

/// The neighbours that a map names are those that the most probable modes follow from.
pub proof fn law_neighbours_make_probable_modes(maps: &BlockMaps, x0: u32, y0: u32)
    ensures
        mpm_at(maps, maps.mode_map@, x0, y0) == mpm_of(
            maps.left_mode(x0, y0),
            maps.above_mode(x0, y0),
        ),
        maps.left_mode(0, y0) == 1,
        y0 % 64 == 0 ==> maps.above_mode(x0, y0) == 1,
        maps.left_mode(x0, y0) <= 34 && maps.above_mode(x0, y0) <= 34,
{
}

/// A split quadtree in the picture is as far from the source as its quadrants together,
/// and a unit as far as its square.
pub proof fn law_error_of_quadrants(
    pic: &SourcePicture,
    frame: &Frame,
    node: &CuNode,
    x0: u32,
    y0: u32,
    log2_size: u8,
)
    requires
        4 <= log2_size <= 6,
        x0 + side(log2_size) <= pic.width,
        y0 + side(log2_size) <= pic.height,
        node is Split ==> node->kids@.len() == 4,
    ensures
        node is Leaf ==> cu_distortion(pic, frame, node, x0, y0, log2_size) == tt_distortion(
            pic,
            frame,
            x0,
            y0,
            log2_size,
        ),
        node is Split ==> {
            let h = side(log2_size) / 2;
            let k = node->kids@;
            let s = (log2_size - 1) as u8;
            let (x1, y1) = ((x0 + h) as u32, (y0 + h) as u32);
            cu_distortion(pic, frame, node, x0, y0, log2_size) == cu_distortion(
                pic,
                frame,
                &k[0],
                x0,
                y0,
                s,
            ) + cu_distortion(pic, frame, &k[1], x1, y0, s) + cu_distortion(
                pic,
                frame,
                &k[2],
                x0,
                y1,
                s,
            ) + cu_distortion(pic, frame, &k[3], x1, y1, s)
        },
{
    vstd::arithmetic::power2::lemma2_to64();
    assert(side(4) == 16 && side(5) == 32 && side(6) == 64);
    if node is Split {
        let h = side(log2_size) / 2;
        let k = node->kids@;
        let s = (log2_size - 1) as u8;
        let (x1, y1) = ((x0 + h) as u32, (y0 + h) as u32);
        let places = crate::geometry::kid_positions(
            x0 as int,
            y0 as int,
            h,
            pic.width as int,
            pic.height as int,
        );
        assert(places =~= seq![
            (x0 as int, y0 as int),
            (x0 + h, y0 as int),
            (x0 as int, y0 + h),
            (x0 + h, y0 + h),
        ]);
        let sum = |n: nat| cu_kids_distortion(pic, frame, k, places, n, s);
        assert(sum(0) == 0);
        assert(sum(1) == sum(0) + cu_distortion(pic, frame, &k[0], x0, y0, s));
        assert(sum(2) == sum(1) + cu_distortion(pic, frame, &k[1], x1, y0, s));
        assert(sum(3) == sum(2) + cu_distortion(pic, frame, &k[2], x0, y1, s));
        assert(sum(4) == sum(3) + cu_distortion(pic, frame, &k[3], x1, y1, s));
        assert(*node == CuNode::Split { kids: node->kids });
    }
}

/// A leaf's depth is found at every 4x4 cell that it covers, and no other cell changes.
pub proof fn law_depth_of_a_leaf(
    tt: &Tt,
    map: Seq<u8>,
    stride: int,
    x0: int,
    y0: int,
    cx: int,
    cy: int,
)
    requires
        tt is Leaf,
        2 <= tt.size() <= 5,
        x0 >= 0,
        y0 >= 0,
        x0 % 4 == 0,
        y0 % 4 == 0,
        x0 + side(tt.size()) <= 4 * stride,
        0 <= cx < stride,
        0 <= cy,
        cy * stride + cx < map.len(),
    ensures
        ({
            let i = cy * stride + cx;
            let inside = x0 <= 4 * cx < x0 + side(tt.size()) && y0 <= 4 * cy < y0 + side(
                tt.size(),
            );
            depths_noted(tt, map, stride, x0, y0)[i] == if inside {
                tt->Leaf_0.trafo_depth
            } else {
                map[i]
            }
        }),
{
    vstd::arithmetic::power2::lemma2_to64();
    assert(side(2) == 4 && side(3) == 8 && side(4) == 16 && side(5) == 32);
    let s = tt.size();
    assert(s == 2 || s == 3 || s == 4 || s == 5);
    let n = side(s) / 4;
    let i = cy * stride + cx;
    assert(i >= 0) by (nonlinear_arith)
        requires
            i == cy * stride + cx,
            cy >= 0,
            cx >= 0,
            stride > cx,
    ;
    let (sx, sy) = (x0 / 4, y0 / 4);
    let inside = x0 <= 4 * cx < x0 + side(s) && y0 <= 4 * cy < y0 + side(s);
    if inside {
        assert(i == crate::maps::cell_index(stride, cx, cy));
    } else if crate::maps::covers(stride, sx, sy, n, i) {
        let (x, y) = choose|x: int, y: int|
            sx <= x < sx + n && sy <= y < sy + n && i == #[trigger] crate::maps::cell_index(
                stride,
                x,
                y,
            );
        vstd::arithmetic::div_mod::lemma_fundamental_div_mod_converse(i, stride, cy, cx);
        vstd::arithmetic::div_mod::lemma_fundamental_div_mod_converse(i, stride, y, x);
    }
}

/// The depths of a split tree are those of its quadrants, each at its own corner.
pub proof fn law_depths_of_quadrants(tt: &Tt, map: Seq<u8>, stride: int, x0: int, y0: int)
    requires
        tt is Split,
        tt->kids@.len() == 4,
    ensures
        ({
            let h = side(tt.size()) / 2;
            let k = tt->kids@;
            let one = depths_noted(&k[0], map, stride, x0, y0);
            let two = depths_noted(&k[1], one, stride, x0 + h, y0);
            let three = depths_noted(&k[2], two, stride, x0, y0 + h);
            depths_noted(tt, map, stride, x0, y0) == depths_noted(
                &k[3],
                three,
                stride,
                x0 + h,
                y0 + h,
            )
        }),
{
    let h = side(tt.size()) / 2;
    let k = tt->kids@;
    assert(0 * h == 0 && 1 * h == h);
    let noted = |n: nat| kids_depths_noted(k, map, stride, x0, y0, h, n);
    assert(noted(0) == map);
    assert(noted(1) == depths_noted(&k[0], noted(0), stride, x0, y0));
    assert(noted(2) == depths_noted(&k[1], noted(1), stride, x0 + h, y0));
    assert(noted(3) == depths_noted(&k[2], noted(2), stride, x0, y0 + h));
    assert(noted(4) == depths_noted(&k[3], noted(3), stride, x0 + h, y0 + h));
}

/// Counts add up, and start again at zero behind their last value.
pub proof fn law_counts_add_up(a: u64, b: u64)
    ensures
        a + b <= u64::MAX ==> count_sum(a, b) == a + b,
        a + b > u64::MAX ==> count_sum(a, b) == a + b - 0x1_0000_0000_0000_0000,
{
}

/// The report of some counters shows each at the place of its name.
pub proof fn law_report_shows_each_counter(s: EncodeStats)
    ensures
        s.listed()[0] == s.ctu_count,
        s.listed()[1] == s.cu_trials,
        s.listed()[2] == s.luma_rough_predictions,
        s.listed()[3] == s.chroma_rough_predictions,
        s.listed()[4] == s.code_block_calls,
        s.listed()[5] == s.forward_transforms,
        s.listed()[6] == s.inverse_transforms,
        s.listed()[7] == s.residual_bit_estimates,
        s.listed()[8] == s.cache_builds,
        s.listed()[9] == s.cache_fast_hits,
        s.listed()[10] == s.cache_fallbacks,
        s.listed()[11] == s.frame_snapshots,
        s.listed()[12] == s.frame_restores,
        s.listed()[13] == s.map_snapshots,
        s.listed()[14] == s.map_restores,
        s.listed()[15] == s.bytes_snapshotted,
        EncodeStats::names()[0] == "ctu_count"@ && EncodeStats::names()[1] == "cu_trials"@,
        EncodeStats::names()[2] == "luma_rough_predictions"@,
        EncodeStats::names()[3] == "chroma_rough_predictions"@,
        EncodeStats::names()[4] == "code_block_calls"@,
        EncodeStats::names()[5] == "forward_transforms"@,
        EncodeStats::names()[6] == "inverse_transforms"@,
        EncodeStats::names()[7] == "residual_bit_estimates"@,
        EncodeStats::names()[8] == "cache_builds"@,
        EncodeStats::names()[9] == "cache_fast_hits"@,
        EncodeStats::names()[10] == "cache_fallbacks"@,
        EncodeStats::names()[11] == "frame_snapshots"@,
        EncodeStats::names()[12] == "frame_restores"@,
        EncodeStats::names()[13] == "map_snapshots"@,
        EncodeStats::names()[14] == "map_restores"@,
        EncodeStats::names()[15] == "bytes_snapshotted"@,
{
}

/// The picture's shape comes from what is asked for, and how it is coded from the encoder.
pub proof fn law_settings_reach_the_encode(
    a: &RustStillHevcEncoder,
    b: &RustStillHevcEncoder,
    params: HevcEncodeParams,
)
    ensures
        a.config_of(params).width == params.width && a.config_of(params).height == params.height,
        a.config_of(params).bit_depth == params.bit_depth,
        a.config_of(params).chroma == params.chroma_format,
        a.config_of(params).qp == params.qp,
        a.config_of(params) == b.config_of(params) <==> ({
            &&& a.effort == b.effort
            &&& a.sao == b.sao
            &&& a.deblock == b.deblock
            &&& a.adaptive_qp == b.adaptive_qp
            &&& a.aq_mode == b.aq_mode
            &&& a.aq_strength_milli == b.aq_strength_milli
            &&& a.aq_clamp == b.aq_clamp
            &&& a.two_pass_gate == b.two_pass_gate
        }),
        a.config_of(params).effort == a.effort && a.config_of(params).aq_mode == a.aq_mode,
        a.config_of(params).adaptive_qp == a.adaptive_qp,
        a.config_of(params).two_pass_gate == a.two_pass_gate,
        a.config_of(params).aq_strength_milli == a.aq_strength_milli,
        a.config_of(params).aq_clamp == a.aq_clamp,
        a.config_of(params).sao == a.sao && a.config_of(params).deblock == a.deblock,
{
}

} // verus!
