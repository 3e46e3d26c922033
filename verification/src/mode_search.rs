//! Choosing among candidate modes on the costs of their trials.
//!
//! Costs are order keys: the caller maps a rate-distortion cost to an integer that is
//! the less, the less the cost. Whether two costs are close is the caller's to say.

use vstd::prelude::*;

use crate::budget::RegionClass;
use crate::cabac::CabacEstimator;
use crate::geometry::{
    chroma_mode_from_idx, chroma_tb_geom, spec_chroma_mode, spec_chroma_tb_geom, CHROMA_DM_IDX,
    MAX_TB_LOG2,
};
use crate::math::{max_int, min_int};
use crate::policy::EvalKind;
use crate::ranking::{
    by_cost, law_best_is_cheapest, law_sorted, place_of, sort_by_cost, Podium, Scored, NO_COST,
};
use crate::rough::{modes_of, rough_sum, scored_modes, Place};
use crate::stats::{EncodeStats, Tried};

verus! {

/// How a luma candidate of a coding unit is tried.
#[derive(Clone, Copy, Debug, PartialEq, Eq, Structural)]
pub enum LumaScreen {
    /// As one transform block.
    Block(EvalKind),
    /// As a transform tree: the unit is larger than a transform block can be.
    Subtree,
}

/// How the luma candidates of a unit are tried first.
pub open spec fn screen_of(log2_cb_size: u8, cheap: bool) -> LumaScreen {
    if log2_cb_size > MAX_TB_LOG2 {
        LumaScreen::Subtree
    } else if cheap {
        LumaScreen::Block(EvalKind::CheapTrial)
    } else {
        LumaScreen::Block(EvalKind::ExactTrial)
    }
}

pub fn luma_screen(log2_cb_size: u8, cheap: bool) -> (s: LumaScreen)
    ensures
        s == screen_of(log2_cb_size, cheap),
{
    if log2_cb_size <= MAX_TB_LOG2 {
        LumaScreen::Block(
            if cheap {
                EvalKind::CheapTrial
            } else {
                EvalKind::ExactTrial
            },
        )
    } else {
        LumaScreen::Subtree
    }
}

/// What a screen of luma candidates is followed by.
#[derive(Clone, Copy, Debug, PartialEq, Eq, Structural)]
pub struct LumaScreening {
    /// The candidates were tried as single blocks, so that exact trials can follow.
    pub single_block: bool,
    /// The trials were cheap.
    pub cheap: bool,
    /// The budget's trials are of the fast quality.
    pub fast: bool,
}

/// The modes that are tried exactly behind a screen; none where the screen's winner
/// stands.
pub open spec fn recheck_modes(
    s: LumaScreening,
    best: u8,
    runner_up: u8,
    third: u8,
    close_runner_up: bool,
    close_third: bool,
) -> Seq<u8> {
    if s.single_block && (s.fast || s.cheap) && best != runner_up && close_runner_up {
        if s.cheap && third != best && third != runner_up && close_third {
            seq![best, runner_up, third]
        } else {
            seq![best, runner_up]
        }
    } else {
        Seq::empty()
    }
}

/// The modes to try exactly once all candidates have been screened.
pub fn luma_recheck(
    screen: LumaScreening,
    podium: &Podium<(u8, usize)>,
    close_runner_up: bool,
    close_third: bool,
) -> (modes: Vec<u8>)
    requires
        podium.well_formed(),
    ensures
        modes@ == recheck_modes(
            screen,
            place_of(podium.seen(), 0, podium.filler()).item.0,
            place_of(podium.seen(), 1, podium.filler()).item.0,
            place_of(podium.seen(), 2, podium.filler()).item.0,
            close_runner_up,
            close_third,
        ),
{
    let best: u8 = podium.best().item.0;
    let runner_up: u8 = podium.runner_up().item.0;
    let third: u8 = podium.third().item.0;
    let mut modes: Vec<u8> = Vec::new();
    if screen.single_block && (screen.fast || screen.cheap) && best != runner_up
        && close_runner_up {
        modes.push(best);
        modes.push(runner_up);
        if screen.cheap && third != best && third != runner_up && close_third {
            modes.push(third);
            assert(modes@ =~= seq![best, runner_up, third]);
        } else {
            assert(modes@ =~= seq![best, runner_up]);
        }
    }
    modes
}

/// The winner of exact trials: the first of the cheapest.
pub open spec fn exact_winner(modes: Seq<u8>, costs: Seq<u64>) -> u8 {
    by_cost(scored_modes(modes, costs))[0].item
}

/// The cheapest of some modes.
pub fn cheapest_mode(modes: &Vec<u8>, costs: &Vec<u64>) -> (mode: u8)
    requires
        modes@.len() > 0,
        costs@.len() == modes@.len(),
        forall|i: int| 0 <= i < costs@.len() ==> #[trigger] costs@[i] < NO_COST,
    ensures
        mode == exact_winner(modes@, costs@),
{
    let mut podium = Podium::new(modes[0]);
    let n: usize = modes.len();
    for i in 0..n
        invariant
            n == modes@.len(),
            costs@.len() == n,
            forall|k: int| 0 <= k < n ==> #[trigger] costs@[k] < NO_COST,
            podium.well_formed(),
            podium.seen() == scored_modes(modes@, costs@).take(i as int),
    {
        podium.note(Scored { cost: costs[i], item: modes[i] });
        assert(podium.seen() =~= scored_modes(modes@, costs@).take(i + 1));
    }
    assert(podium.seen() =~= scored_modes(modes@, costs@));
    podium.best().item
}

/// The winner of a screen and of the exact trials that followed it.
pub fn luma_winner(podium: &Podium<(u8, usize)>, recheck: &Vec<u8>, exact_costs: &Vec<u64>) -> (mode:
    u8)
    requires
        podium.well_formed(),
        exact_costs@.len() == recheck@.len(),
        forall|i: int| 0 <= i < exact_costs@.len() ==> #[trigger] exact_costs@[i] < NO_COST,
    ensures
        mode == if recheck@.len() == 0 {
            place_of(podium.seen(), 0, podium.filler()).item.0
        } else {
            exact_winner(recheck@, exact_costs@)
        },
{
    if recheck.len() == 0 {
        podium.best().item.0
    } else {
        cheapest_mode(recheck, exact_costs)
    }
}

/// A cheap screen does not decide a close case: the two closest modes are then both tried
/// exactly, and the winner costs no more than either.
pub proof fn law_close_luma_decided_exactly(
    s: LumaScreening,
    best: u8,
    runner_up: u8,
    third: u8,
    close_third: bool,
    exact_costs: Seq<u64>,
)
    requires
        s.single_block,
        s.cheap,
        best != runner_up,
        exact_costs.len() == recheck_modes(s, best, runner_up, third, true, close_third).len(),
    ensures
        ({
            let modes = recheck_modes(s, best, runner_up, third, true, close_third);
            let winner = exact_winner(modes, exact_costs);
            &&& modes[0] == best
            &&& modes[1] == runner_up
            &&& exists|w: int|
                {
                    &&& 0 <= w < modes.len()
                    &&& #[trigger] modes[w] == winner
                    &&& forall|i: int|
                        0 <= i < modes.len() ==> exact_costs[w] <= #[trigger] exact_costs[i]
                }
        }),
{
    let modes = recheck_modes(s, best, runner_up, third, true, close_third);
    let scored = scored_modes(modes, exact_costs);
    law_sorted(scored);
    law_best_is_cheapest(scored, 0u8, 0);
    let first = by_cost(scored)[0];
    assert(place_of(scored, 0, 0u8) == first);
    let w = choose|w: int| 0 <= w < scored.len() && scored[w] == first;
    assert(modes[w] == exact_winner(modes, exact_costs));
    assert forall|i: int| 0 <= i < modes.len() implies exact_costs[w]
        <= #[trigger] exact_costs[i] by {
        law_best_is_cheapest(scored, 0u8, i);
        assert(scored[i].cost == exact_costs[i]);
        assert(scored[w].cost == exact_costs[w]);
    }
}

/// The rough cost of a chroma mode.
pub fn chroma_rough_cost(cb_satd: u64, cr_satd: u64, mode_bits: u64) -> (cost: u64)
    requires
        cb_satd + cr_satd <= 0xff_ffff_ffff,
        mode_bits <= u64::MAX / 2,
    ensures
        cost == rough_sum(cb_satd + cr_satd, mode_bits as int),
{
    (cb_satd + cr_satd) * CabacEstimator::SCALE + mode_bits
}

/// The chroma mode of a block: its number and the place in the syntax.
#[derive(Clone, Copy, Debug, PartialEq, Eq, Structural)]
pub struct ChromaModePlan {
    pub mode: u8,
    pub mode_idx: u8,
}

pub open spec fn chroma_plan(luma_mode: u8, mode_idx: u8) -> ChromaModePlan {
    ChromaModePlan { mode: spec_chroma_mode(luma_mode, mode_idx), mode_idx }
}

fn make_chroma_plan(luma_mode: u8, mode_idx: u8) -> (p: ChromaModePlan)
    requires
        mode_idx <= CHROMA_DM_IDX,
    ensures
        p == chroma_plan(luma_mode, mode_idx),
{
    ChromaModePlan { mode: chroma_mode_from_idx(luma_mode, mode_idx), mode_idx }
}

/// How many of the first `n` sorted modes lie within a margin of the best.
pub open spec fn within_margin(
    sorted: Seq<Scored<u8>>,
    n: int,
    margin_milli: u32,
) -> nat
    decreases n,
{
    if n <= 0 {
        0
    } else {
        within_margin(sorted, n - 1, margin_milli) + if sorted[n - 1].cost * 1000
            <= sorted[0].cost * (1000 + margin_milli) {
            1nat
        } else {
            0
        }
    }
}

/// How many chroma modes are tried: the budget's number, less those whose cost is too far
/// above the best. Regions whose chroma is critical keep them.
pub open spec fn chroma_trials(
    sorted: Seq<Scored<u8>>,
    n: int,
    gate_milli: Option<u32>,
    critical: bool,
) -> int {
    match gate_milli {
        Some(margin) if !critical => max_int(
            within_margin(sorted, min_int(n, sorted.len() as int), margin) as int,
            1,
        ),
        _ => min_int(n, sorted.len() as int),
    }
}

/// What a chroma search does after the rough pass.
pub enum ChromaNext {
    /// The mode is decided.
    Decided(ChromaModePlan),
    /// The modes in this order are tried.
    Try(Vec<u8>),
}

/// The chroma mode where there is no search: that of luma.
pub fn derived_chroma(luma_mode: u8) -> (p: ChromaModePlan)
    ensures
        p == (ChromaModePlan { mode: luma_mode, mode_idx: CHROMA_DM_IDX }),
        p == chroma_plan(luma_mode, CHROMA_DM_IDX),
{
    ChromaModePlan { mode: luma_mode, mode_idx: CHROMA_DM_IDX }
}

/// Sorts the rough costs of the chroma modes and narrows the search to the cheapest.
/// `scored` holds every mode index once.
pub fn narrow_chroma(
    scored: &Vec<Scored<u8>>,
    luma_mode: u8,
    candidates: u8,
    gate_milli: Option<u32>,
    region: Option<RegionClass>,
) -> (next: ChromaNext)
    requires
        scored@.len() == 5,
        forall|i: int| 0 <= i < scored@.len() ==> (#[trigger] scored@[i]).item <= CHROMA_DM_IDX,
        candidates > 0,
    ensures
        ({
            let sorted = by_cost(scored@);
            let n = chroma_trials(
                sorted,
                candidates as int,
                gate_milli,
                region == Some(RegionClass::ChromaCritical),
            );
            match next {
                ChromaNext::Decided(plan) => n <= 1 && plan == chroma_plan(
                    luma_mode,
                    sorted[0].item,
                ),
                ChromaNext::Try(modes) => n > 1 && modes@ == modes_of(sorted.take(n)),
            }
        }),
        match next {
            ChromaNext::Decided(plan) => plan.mode_idx <= CHROMA_DM_IDX,
            ChromaNext::Try(modes) => modes@.len() > 1 && forall|i: int|
                0 <= i < modes@.len() ==> #[trigger] modes@[i] <= CHROMA_DM_IDX,
        },
{
    let sorted = sort_by_cost(scored);
    proof {
        law_sorted(scored@);
        lemma_items_bounded(scored@);
    }
    let len: usize = sorted.len();
    let cap: usize = if (candidates as usize) < len {
        candidates as usize
    } else {
        len
    };
    let critical: bool = match region {
        Some(RegionClass::ChromaCritical) => true,
        _ => false,
    };
    let mut n: usize = cap;
    if let Some(margin) = gate_milli {
        if !critical {
            let best: u64 = sorted[0].cost;
            let limit: u128 = 1000 + margin as u128;
            assert(best as u128 * limit <= 0xffff_ffff_ffff_ffff * 0x1_0000_03e7)
                by (nonlinear_arith)
                requires
                    best <= 0xffff_ffff_ffff_ffff,
                    limit <= 0x1_0000_03e7,
            ;
            let bound: u128 = best as u128 * limit;
            let mut within: usize = 0;
            for i in 0..cap
                invariant
                    cap <= sorted@.len(),
                    best == sorted@[0].cost,
                    bound == best * (1000 + margin),
                    within == within_margin(sorted@, i as int, margin),
                    within <= i,
            {
                if sorted[i].cost as u128 * 1000 <= bound {
                    within = within + 1;
                }
            }
            n = if within < 1 {
                1
            } else {
                within
            };
        }
    }
    if n <= 1 {
        assert(sorted@[0].item <= CHROMA_DM_IDX);
        return ChromaNext::Decided(make_chroma_plan(luma_mode, sorted[0].item));
    }
    let mut modes: Vec<u8> = Vec::new();
    for i in 0..n
        invariant
            n <= sorted@.len(),
            modes@.len() == i,
            forall|k: int| 0 <= k < i ==> #[trigger] modes@[k] == sorted@[k].item,
    {
        modes.push(sorted[i].item);
    }
    assert(modes@ =~= modes_of(sorted@.take(n as int)));
    ChromaNext::Try(modes)
}

proof fn lemma_items_bounded(s: Seq<Scored<u8>>)
    requires
        forall|i: int| 0 <= i < s.len() ==> (#[trigger] s[i]).item <= CHROMA_DM_IDX,
    ensures
        forall|i: int|
            0 <= i < by_cost(s).len() ==> (#[trigger] by_cost(s)[i]).item <= CHROMA_DM_IDX,
{
    assert forall|i: int| 0 <= i < by_cost(s).len() implies (#[trigger] by_cost(s)[i]).item
        <= CHROMA_DM_IDX by {
        let e = by_cost(s)[i];
        assert(by_cost(s).contains(e));
        crate::ranking::lemma_sorted_contains(s, e);
        let k = choose|k: int| 0 <= k < s.len() && s[k] == e;
        assert(s[k].item <= CHROMA_DM_IDX);
    }
}

/// Whether the two cheapest chroma modes are tried again, exactly.
pub fn chroma_recheck(cheap: bool, podium: &Podium<(u8, usize)>, close: bool) -> (again: bool)
    requires
        podium.well_formed(),
    ensures
        again == (cheap && close && place_of(podium.seen(), 0, podium.filler()).item.0 != place_of(
            podium.seen(),
            1,
            podium.filler(),
        ).item.0),
{
    cheap && podium.runner_up().item.0 != podium.best().item.0 && close
}

/// The chroma decision and the rank of its winner. `exact` holds the costs of the two
/// cheapest modes where they were tried again.
pub fn chroma_winner(podium: &Podium<(u8, usize)>, exact: Option<(u64, u64)>, luma_mode: u8) -> (r: (
    ChromaModePlan,
    usize,
))
    requires
        podium.well_formed(),
        place_of(podium.seen(), 0, podium.filler()).item.0 <= CHROMA_DM_IDX,
        place_of(podium.seen(), 1, podium.filler()).item.0 <= CHROMA_DM_IDX,
    ensures
        ({
            let best = place_of(podium.seen(), 0, podium.filler()).item;
            let runner_up = place_of(podium.seen(), 1, podium.filler()).item;
            let won = match exact {
                Some((best_cost, runner_up_cost)) => if runner_up_cost < best_cost {
                    runner_up
                } else {
                    best
                },
                None => best,
            };
            r == (chroma_plan(luma_mode, won.0), won.1)
        }),
{
    let mut won = podium.best().item;
    if let Some((best_cost, runner_up_cost)) = exact {
        if runner_up_cost < best_cost {
            won = podium.runner_up().item;
        }
    }
    (make_chroma_plan(luma_mode, won.0), won.1)
}

/// Candidates with their costs and ranks.
pub open spec fn ranked(modes: Seq<u8>, costs: Seq<u64>) -> Seq<Scored<(u8, usize)>> {
    Seq::new(
        modes.len(),
        |i: int| Scored { cost: costs[i], item: (modes[i], (i + 1) as usize) },
    )
}

/// The costs of trials.
pub open spec fn costs_of(outs: Seq<Tried>) -> Seq<u64> {
    Seq::new(outs.len(), |i: int| outs[i].cost)
}

/// The work of trials.
pub open spec fn tried_work(outs: Seq<Tried>) -> EncodeStats
    decreases outs.len(),
{
    if outs.len() == 0 {
        EncodeStats::none()
    } else {
        tried_work(outs.drop_last()).plus(outs.last().work)
    }
}

/// Lists the costs of trials, and adds up their work.
fn split_trials(outs: &Vec<Tried>) -> (r: (Vec<u64>, EncodeStats))
    ensures
        r.0@ == costs_of(outs@),
        r.1 == tried_work(outs@),
{
    let n: usize = outs.len();
    let mut costs: Vec<u64> = Vec::new();
    let mut work = EncodeStats::default();
    assert(outs@.take(0) =~= Seq::empty());
    for i in 0..n
        invariant
            n == outs@.len(),
            costs@.len() == i,
            forall|k: int| 0 <= k < i ==> #[trigger] costs@[k] == outs@[k].cost,
            work == tried_work(outs@.take(i as int)),
    {
        let o = outs[i];
        proof {
            assert(outs@.take(i + 1).drop_last() =~= outs@.take(i as int));
            assert(outs@.take(i + 1).last() == o);
        }
        costs.push(o.cost);
        work = work.joined(o.work);
    }
    assert(outs@.take(n as int) =~= outs@);
    assert(costs@ =~= costs_of(outs@));
    (costs, work)
}

/// Each mode was tried.
pub open spec fn tried_by<W, T>(
    world: &W,
    at: Place,
    trial: T,
    screen: LumaScreen,
    modes: Seq<u8>,
    outs: Seq<Tried>,
) -> bool where T: Fn(&W, Place, u8, LumaScreen) -> Tried {
    &&& outs.len() == modes.len()
    &&& forall|i: int|
        0 <= i < modes.len() ==> call_ensures(
            trial,
            (world, at, modes[i], screen),
            #[trigger] outs[i],
        )
}

fn try_modes<W, T>(
    world: &W,
    at: Place,
    trial: &T,
    screen: LumaScreen,
    modes: &Vec<u8>,
) -> (outs: Vec<Tried>) where T: Fn(&W, Place, u8, LumaScreen) -> Tried
    requires
        modes@.len() > 0 ==> forall|m: u8| #[trigger]
            call_requires(*trial, (world, at, m, screen)),
        modes@.len() > 0 ==> forall|m: u8, c: Tried| #[trigger]
            call_ensures(*trial, (world, at, m, screen), c) ==> c.cost < NO_COST,
    ensures
        tried_by(world, at, *trial, screen, modes@, outs@),
        forall|i: int| 0 <= i < outs@.len() ==> (#[trigger] outs@[i]).cost < NO_COST,
{
    let n: usize = modes.len();
    let mut outs: Vec<Tried> = Vec::new();
    for i in 0..n
        invariant
            n == modes@.len(),
            n > 0 ==> forall|m: u8| #[trigger] call_requires(*trial, (world, at, m, screen)),
            n > 0 ==> forall|m: u8, c: Tried| #[trigger]
                call_ensures(*trial, (world, at, m, screen), c) ==> c.cost < NO_COST,
            outs@.len() == i,
            forall|j: int|
                0 <= j < i ==> call_ensures(
                    *trial,
                    (world, at, modes@[j], screen),
                    #[trigger] outs@[j],
                ),
            forall|j: int| 0 <= j < i ==> (#[trigger] outs@[j]).cost < NO_COST,
    {
        let out = (*trial)(world, at, modes[i], screen);
        assert(call_ensures(*trial, (world, at, modes@[i as int], screen), out));
        outs.push(out);
    }
    outs
}

fn rank_costs(modes: &Vec<u8>, costs: &Vec<u64>) -> (p: Podium<(u8, usize)>)
    requires
        modes@.len() > 0,
        costs@.len() == modes@.len(),
        forall|i: int| 0 <= i < costs@.len() ==> #[trigger] costs@[i] < NO_COST,
    ensures
        p.well_formed(),
        p.seen() == ranked(modes@, costs@),
        p.filler() == (modes@[0], 1usize),
{
    let n: usize = modes.len();
    let mut podium = Podium::new((modes[0], 1usize));
    for i in 0..n
        invariant
            n == modes@.len(),
            costs@.len() == n,
            forall|k: int| 0 <= k < n ==> #[trigger] costs@[k] < NO_COST,
            podium.well_formed(),
            podium.filler() == (modes@[0], 1usize),
            podium.seen() == ranked(modes@, costs@).take(i as int),
    {
        podium.note(Scored { cost: costs[i], item: (modes[i], i + 1) });
        assert(podium.seen() =~= ranked(modes@, costs@).take(i + 1));
    }
    assert(podium.seen() =~= ranked(modes@, costs@));
    podium
}

/// Names what a ranking knew.
pub open spec fn ranking_known(
    outs: Seq<Tried>,
    close_runner_up: bool,
    close_third: bool,
    exact: Seq<Tried>,
) -> bool {
    true
}

/// The trials of the candidates of a coding unit.
pub open spec fn screening_work(n: nat) -> EncodeStats {
    EncodeStats { cu_trials: n as u64, ..EncodeStats::none() }
}

/// A luma mode was chosen: the candidates were screened, the close ones of a cheap or
/// fast screen tried again exactly, and the cheapest kept.
pub open spec fn luma_ranked<W, T, K>(
    world: &W,
    at: Place,
    trial: T,
    close: K,
    s: LumaScreening,
    screen: LumaScreen,
    candidates: Seq<u8>,
    mode: u8,
    work: EncodeStats,
) -> bool where T: Fn(&W, Place, u8, LumaScreen) -> Tried, K: Fn(&W, Place, u64, u64) -> bool {
    exists|outs: Seq<Tried>, close_runner_up: bool, close_third: bool, exact: Seq<Tried>|
        {
            let seen = ranked(candidates, costs_of(outs));
            let filler = (candidates[0], 1usize);
            let best = place_of(seen, 0, filler);
            let runner_up = place_of(seen, 1, filler);
            let third = place_of(seen, 2, filler);
            let again = recheck_modes(
                s,
                best.item.0,
                runner_up.item.0,
                third.item.0,
                close_runner_up,
                close_third,
            );
            &&& #[trigger] ranking_known(outs, close_runner_up, close_third, exact)
            &&& tried_by(world, at, trial, screen, candidates, outs)
            &&& best.item.0 != runner_up.item.0 ==> call_ensures(
                close,
                (world, at, best.cost, runner_up.cost),
                close_runner_up,
            )
            &&& third.item.0 != best.item.0 && third.item.0 != runner_up.item.0 ==> call_ensures(
                close,
                (world, at, best.cost, third.cost),
                close_third,
            )
            &&& tried_by(
                world,
                at,
                trial,
                LumaScreen::Block(EvalKind::ExactTrial),
                again,
                exact,
            )
            &&& mode == if again.len() == 0 {
                best.item.0
            } else {
                exact_winner(again, costs_of(exact))
            }
            &&& work == screening_work(candidates.len()).plus(tried_work(outs)).plus(
                tried_work(exact),
            )
        }
}

/// Chooses a luma mode among candidates, and counts the work that it takes.
pub fn rank_luma<W, T, K>(
    world: &W,
    at: Place,
    trial: &T,
    close: &K,
    candidates: &Vec<u8>,
    cheap: bool,
    fast: bool,
) -> (r: (u8, EncodeStats)) where T: Fn(&W, Place, u8, LumaScreen) -> Tried, K: Fn(&W, Place, u64, u64) -> bool
    requires
        candidates@.len() > 0,
        forall|m: u8, k: LumaScreen|
            at.log2_size <= MAX_TB_LOG2 || k is Subtree ==> #[trigger] call_requires(
                *trial,
                (world, at, m, k),
            ),
        forall|m: u8, k: LumaScreen, c: Tried| #[trigger]
            call_ensures(*trial, (world, at, m, k), c) && (at.log2_size <= MAX_TB_LOG2
                || k is Subtree) ==> c.cost < NO_COST,
        forall|a: u64, b: u64| #[trigger] call_requires(*close, (world, at, a, b)),
    ensures
        luma_ranked(
            world,
            at,
            *trial,
            *close,
            LumaScreening { single_block: at.log2_size <= MAX_TB_LOG2, cheap, fast },
            if at.log2_size > MAX_TB_LOG2 {
                LumaScreen::Subtree
            } else if cheap {
                LumaScreen::Block(EvalKind::CheapTrial)
            } else {
                LumaScreen::Block(EvalKind::ExactTrial)
            },
            candidates@,
            r.0,
            r.1,
        ),
{
    let s = LumaScreening { single_block: at.log2_size <= MAX_TB_LOG2, cheap, fast };
    let screen = luma_screen(at.log2_size, cheap);
    let outs = try_modes(world, at, trial, screen, candidates);
    let (costs, first_work) = split_trials(&outs);
    let podium = rank_costs(candidates, &costs);
    let best = podium.best();
    let runner_up = podium.runner_up();
    let third = podium.third();
    let mut close_runner_up: bool = false;
    let mut close_third: bool = false;
    if best.item.0 != runner_up.item.0 {
        close_runner_up = (*close)(world, at, best.cost, runner_up.cost);
    }
    if third.item.0 != best.item.0 && third.item.0 != runner_up.item.0 {
        close_third = (*close)(world, at, best.cost, third.cost);
    }
    let again = luma_recheck(s, &podium, close_runner_up, close_third);
    let exact = try_modes(world, at, trial, LumaScreen::Block(EvalKind::ExactTrial), &again);
    let (exact_costs, exact_work) = split_trials(&exact);
    assert(ranking_known(outs@, close_runner_up, close_third, exact@));
    let tries: usize = candidates.len();
    let screening = EncodeStats { cu_trials: tries as u64, ..EncodeStats::default() };
    let work = screening.joined(first_work).joined(exact_work);
    (luma_winner(&podium, &again, &exact_costs), work)
}

/// Names the rough costs of the chroma modes.
pub open spec fn rough_costs(costs: Seq<u64>) -> bool {
    true
}

/// Names what a chroma search knew.
pub open spec fn chroma_known(
    outs: Seq<Tried>,
    close: bool,
    exact: Option<(Tried, Tried)>,
) -> bool {
    true
}

/// The chroma modes with their rough costs.
pub open spec fn chroma_scored(costs: Seq<u64>) -> Seq<Scored<u8>> {
    Seq::new(5, |i: int| Scored { cost: costs[i], item: i as u8 })
}

/// A chroma mode was chosen among candidates: each was tried, the two cheapest again
/// exactly where the trials were cheap and their costs close, and the cheaper kept.
pub open spec fn chroma_ranked<W, T, K>(
    world: &W,
    at: Place,
    luma_mode: u8,
    trial: T,
    close: K,
    cheap: bool,
    candidates: Seq<u8>,
    plan: ChromaModePlan,
    work: EncodeStats,
) -> bool where
    T: Fn(&W, Place, u8, u8, EvalKind) -> Tried,
    K: Fn(&W, Place, u64, u64) -> bool,
 {
    exists|outs: Seq<Tried>, is_close: bool, exact: Option<(Tried, Tried)>|
        {
            let kind = if cheap {
                EvalKind::CheapTrial
            } else {
                EvalKind::ExactTrial
            };
            let seen = ranked(candidates, costs_of(outs));
            let filler = (candidates[0], 1usize);
            let best = place_of(seen, 0, filler);
            let runner_up = place_of(seen, 1, filler);
            &&& #[trigger] chroma_known(outs, is_close, exact)
            &&& outs.len() == candidates.len()
            &&& forall|i: int|
                0 <= i < candidates.len() ==> call_ensures(
                    trial,
                    (world, at, luma_mode, candidates[i], kind),
                    #[trigger] outs[i],
                )
            &&& if cheap && runner_up.item.0 != best.item.0 {
                &&& call_ensures(close, (world, at, best.cost, runner_up.cost), is_close)
                &&& is_close ==> {
                    &&& exact matches Some((b, r))
                    &&& call_ensures(
                        trial,
                        (world, at, luma_mode, best.item.0, EvalKind::ExactTrial),
                        b,
                    )
                    &&& call_ensures(
                        trial,
                        (world, at, luma_mode, runner_up.item.0, EvalKind::ExactTrial),
                        r,
                    )
                }
                &&& !is_close ==> exact is None
            } else {
                exact is None
            }
            &&& plan == chroma_plan(
                luma_mode,
                match exact {
                    Some((b, r)) => if r.cost < b.cost {
                        runner_up.item.0
                    } else {
                        best.item.0
                    },
                    None => best.item.0,
                },
            )
            &&& work == tried_work(outs).plus(
                match exact {
                    Some((b, r)) => b.work.plus(r.work),
                    None => EncodeStats::none(),
                },
            )
        }
}

fn rank_chroma<W, T, K>(
    world: &W,
    at: Place,
    luma_mode: u8,
    trial: &T,
    close: &K,
    cheap: bool,
    candidates: &Vec<u8>,
) -> (d: (ChromaModePlan, EncodeStats)) where
    T: Fn(&W, Place, u8, u8, EvalKind) -> Tried,
    K: Fn(&W, Place, u64, u64) -> bool,

    requires
        candidates@.len() > 0,
        forall|i: int| 0 <= i < candidates@.len() ==> #[trigger] candidates@[i] <= CHROMA_DM_IDX,
        forall|l: u8, m: u8, k: EvalKind| #[trigger] call_requires(*trial, (world, at, l, m, k)),
        forall|l: u8, m: u8, k: EvalKind, c: Tried| #[trigger]
            call_ensures(*trial, (world, at, l, m, k), c) ==> c.cost < NO_COST,
        forall|a: u64, b: u64| #[trigger] call_requires(*close, (world, at, a, b)),
    ensures
        chroma_ranked(
            world,
            at,
            luma_mode,
            *trial,
            *close,
            cheap,
            candidates@,
            d.0,
            d.1,
        ),
        d.0.mode_idx <= CHROMA_DM_IDX,
        d.0 == chroma_plan(luma_mode, d.0.mode_idx),
{
    let kind = if cheap {
        EvalKind::CheapTrial
    } else {
        EvalKind::ExactTrial
    };
    let n: usize = candidates.len();
    let mut outs: Vec<Tried> = Vec::new();
    for i in 0..n
        invariant
            n == candidates@.len(),
            forall|l: u8, m: u8, k: EvalKind| #[trigger]
                call_requires(*trial, (world, at, l, m, k)),
            forall|l: u8, m: u8, k: EvalKind, c: Tried| #[trigger]
                call_ensures(*trial, (world, at, l, m, k), c) ==> c.cost < NO_COST,
            outs@.len() == i,
            forall|j: int|
                0 <= j < i ==> call_ensures(
                    *trial,
                    (world, at, luma_mode, candidates@[j], kind),
                    #[trigger] outs@[j],
                ),
            forall|j: int| 0 <= j < i ==> (#[trigger] outs@[j]).cost < NO_COST,
    {
        let out = (*trial)(world, at, luma_mode, candidates[i], kind);
        assert(call_ensures(*trial, (world, at, luma_mode, candidates@[i as int], kind), out));
        outs.push(out);
    }
    let (costs, mut work) = split_trials(&outs);
    let podium = rank_costs(candidates, &costs);
    let best = podium.best();
    let runner_up = podium.runner_up();
    proof {
        lemma_ranked_items(candidates@, costs@, 0);
        lemma_ranked_items(candidates@, costs@, 1);
    }
    let mut is_close: bool = false;
    let mut exact: Option<(u64, u64)> = None;
    let mut again = EncodeStats::default();
    let ghost mut exact_outs: Option<(Tried, Tried)> = None;
    if cheap && runner_up.item.0 != best.item.0 {
        is_close = (*close)(world, at, best.cost, runner_up.cost);
        if chroma_recheck(cheap, &podium, is_close) {
            let b = (*trial)(world, at, luma_mode, best.item.0, EvalKind::ExactTrial);
            let r = (*trial)(world, at, luma_mode, runner_up.item.0, EvalKind::ExactTrial);
            exact = Some((b.cost, r.cost));
            again = b.work.joined(r.work);
            proof {
                exact_outs = Some((b, r));
            }
        }
    }
    assert(chroma_known(outs@, is_close, exact_outs));
    work = work.joined(again);
    (chroma_winner(&podium, exact, luma_mode).0, work)
}

/// The places of a ranking hold candidates.
proof fn lemma_ranked_items(modes: Seq<u8>, costs: Seq<u64>, k: int)
    requires
        modes.len() > 0,
        k >= 0,
        forall|i: int| 0 <= i < modes.len() ==> #[trigger] modes[i] <= CHROMA_DM_IDX,
    ensures
        place_of(ranked(modes, costs), k, (modes[0], 1usize)).item.0 <= CHROMA_DM_IDX,
{
    let seen = ranked(modes, costs);
    law_sorted(seen);
    if k < seen.len() {
        let e = by_cost(seen)[k];
        assert(by_cost(seen).contains(e));
        crate::ranking::lemma_sorted_contains(seen, e);
        let i = choose|i: int| 0 <= i < seen.len() && seen[i] == e;
        assert(e.item.0 == modes[i]);
    }
}

/// How a chroma search is narrowed.
#[derive(Clone, Copy, Debug, PartialEq, Eq, Structural)]
pub struct ChromaLimits {
    /// How many modes are tried; none keeps the luma mode.
    pub candidates: u8,
    pub gate_milli: Option<u32>,
    pub region: Option<RegionClass>,
    pub cheap: bool,
}

/// The rough predictions of the five chroma modes.
pub open spec fn chroma_scan_work() -> EncodeStats {
    EncodeStats { chroma_rough_predictions: 5, ..EncodeStats::none() }
}

/// A chroma mode was decided.
pub open spec fn chroma_decided<W, R, T, K>(
    world: &W,
    at: Place,
    cat: u8,
    luma_mode: u8,
    rough: R,
    trial: T,
    close: K,
    limits: ChromaLimits,
    plan: ChromaModePlan,
    work: EncodeStats,
) -> bool where
    R: Fn(&W, Place, u8, u8) -> u64,
    T: Fn(&W, Place, u8, u8, EvalKind) -> Tried,
    K: Fn(&W, Place, u64, u64) -> bool,
 {
    if spec_chroma_tb_geom(cat, at.x, at.y, at.log2_size) is None || limits.candidates == 0 {
        plan == chroma_plan(luma_mode, CHROMA_DM_IDX) && work == EncodeStats::none()
    } else {
        exists|costs: Seq<u64>|
            {
                let sorted = by_cost(chroma_scored(costs));
                let n = chroma_trials(
                    sorted,
                    limits.candidates as int,
                    limits.gate_milli,
                    limits.region == Some(RegionClass::ChromaCritical),
                );
                &&& #[trigger] rough_costs(costs)
                &&& costs.len() == 5
                &&& forall|i: int|
                    0 <= i < 5 ==> call_ensures(
                        rough,
                        (world, at, luma_mode, i as u8),
                        #[trigger] costs[i],
                    )
                &&& if n <= 1 {
                    plan == chroma_plan(luma_mode, sorted[0].item) && work == chroma_scan_work()
                } else {
                    exists|more: EncodeStats|
                        {
                            &&& #[trigger] chroma_ranked(
                                world,
                                at,
                                luma_mode,
                                trial,
                                close,
                                limits.cheap,
                                modes_of(sorted.take(n)),
                                plan,
                                more,
                            )
                            &&& work == chroma_scan_work().plus(more)
                        }
                }
            }
    }
}

/// Decides the chroma mode of a block: rough costs of the five modes, trials of the
/// cheapest, and exact trials of the two that are close. Counts the work that it takes.
pub fn decide_chroma_mode<W, R, T, K>(
    world: &W,
    at: Place,
    cat: u8,
    luma_mode: u8,
    rough: &R,
    trial: &T,
    close: &K,
    limits: ChromaLimits,
) -> (d: (ChromaModePlan, EncodeStats)) where
    R: Fn(&W, Place, u8, u8) -> u64,
    T: Fn(&W, Place, u8, u8, EvalKind) -> Tried,
    K: Fn(&W, Place, u64, u64) -> bool,

    requires
        forall|l: u8, m: u8| #[trigger] call_requires(*rough, (world, at, l, m)),
        forall|l: u8, m: u8, k: EvalKind| #[trigger] call_requires(*trial, (world, at, l, m, k)),
        forall|l: u8, m: u8, k: EvalKind, c: Tried| #[trigger]
            call_ensures(*trial, (world, at, l, m, k), c) ==> c.cost < NO_COST,
        forall|a: u64, b: u64| #[trigger] call_requires(*close, (world, at, a, b)),
    ensures
        chroma_decided(
            world,
            at,
            cat,
            luma_mode,
            *rough,
            *trial,
            *close,
            limits,
            d.0,
            d.1,
        ),
        d.0.mode_idx <= CHROMA_DM_IDX,
        d.0 == chroma_plan(luma_mode, d.0.mode_idx),
{
    if chroma_tb_geom(cat, at.x, at.y, at.log2_size).is_none() || limits.candidates == 0 {
        return (derived_chroma(luma_mode), EncodeStats::default());
    }
    let mut scored: Vec<Scored<u8>> = Vec::new();
    let ghost mut costs: Seq<u64> = Seq::empty();
    for i in 0..5u8
        invariant
            forall|l: u8, m: u8| #[trigger] call_requires(*rough, (world, at, l, m)),
            costs.len() == i,
            scored@.len() == i,
            forall|k: int|
                0 <= k < i ==> call_ensures(
                    *rough,
                    (world, at, luma_mode, k as u8),
                    #[trigger] costs[k],
                ),
            forall|k: int|
                0 <= k < i ==> #[trigger] scored@[k] == (Scored { cost: costs[k], item: k as u8 }),
    {
        let cost: u64 = (*rough)(world, at, luma_mode, i);
        proof {
            costs = costs.push(cost);
        }
        scored.push(Scored { cost, item: i });
    }
    assert(scored@ =~= chroma_scored(costs));
    assert(rough_costs(costs));
    let next = narrow_chroma(
        &scored,
        luma_mode,
        limits.candidates,
        limits.gate_milli,
        limits.region,
    );
    proof {
        law_sorted(scored@);
        lemma_items_bounded(scored@);
    }
    let scan = EncodeStats { chroma_rough_predictions: 5, ..EncodeStats::default() };
    match next {
        ChromaNext::Decided(plan) => (plan, scan),
        ChromaNext::Try(modes) => {
            let (plan, more) = rank_chroma(
                world,
                at,
                luma_mode,
                trial,
                close,
                limits.cheap,
                &modes,
            );
            (plan, scan.joined(more))
        },
    }
}

/// When a coding unit of 8x8 is tried as four luma blocks.
#[derive(Clone, Copy, Debug, PartialEq, Eq, Structural)]
pub enum PartNxnPrune {
    Off,
    Conservative,
    Aggressive,
}

/// Classes of directions: planar, DC, and the angular modes by the side that they lean to.
pub open spec fn mode_family(mode: u8) -> u8 {
    if mode <= 1 {
        mode
    } else if mode <= 9 {
        2
    } else if mode == 10 {
        3
    } else if mode <= 17 {
        4
    } else if mode <= 25 {
        5
    } else if mode == 26 {
        6
    } else if mode <= 34 {
        7
    } else {
        8
    }
}

pub fn rough_mode_family(mode: u8) -> (f: u8)
    ensures
        f == mode_family(mode),
{
    match mode {
        0 | 1 => mode,
        2..=9 => 2,
        10 => 3,
        11..=17 => 4,
        18..=25 => 5,
        26 => 6,
        27..=34 => 7,
        _ => 8,
    }
}

/// Four prediction units are tried without asking for rough costs.
pub open spec fn unconditional_parts(prune: PartNxnPrune, region: RegionClass) -> bool {
    ||| prune == PartNxnPrune::Off
    ||| prune == PartNxnPrune::Conservative && (region == RegionClass::TextLike || region
        == RegionClass::DirectionalEdge || region == RegionClass::ChromaCritical)
}

/// Whether the four trials are made without asking for rough costs.
pub fn partnxn_unconditional(prune: PartNxnPrune, region: RegionClass) -> (r: bool)
    ensures
        r == unconditional_parts(prune, region),
{
    match prune {
        PartNxnPrune::Off => true,
        PartNxnPrune::Conservative => matches!(
            region,
            RegionClass::TextLike | RegionClass::DirectionalEdge | RegionClass::ChromaCritical
        ),
        PartNxnPrune::Aggressive => false,
    }
}

/// The sum of four costs, as far as costs go.
pub open spec fn capped_sum(costs: Seq<u64>) -> int {
    min_int(costs[0] + costs[1] + costs[2] + costs[3], u64::MAX as int)
}

/// Two of the four blocks lean to different sides.
pub open spec fn diverse_modes(modes: Seq<u8>) -> bool {
    exists|i: int, j: int|
        0 <= i < 4 && 0 <= j < 4 && mode_family(#[trigger] modes[i]) >= 2 && mode_family(
            #[trigger] modes[j],
        ) >= 2 && mode_family(modes[i]) != mode_family(modes[j])
}

/// Whether the four trials are made, from the rough costs of the unit and of its quarters.
pub open spec fn partnxn_promising(
    prune: PartNxnPrune,
    cost_8x8: u64,
    costs: Seq<u64>,
    modes: Seq<u8>,
) -> bool {
    let gain = capped_sum(costs) * 100 <= cost_8x8 * 96;
    match prune {
        PartNxnPrune::Off => true,
        PartNxnPrune::Aggressive => gain || diverse_modes(modes),
        PartNxnPrune::Conservative => gain || (diverse_modes(modes) && capped_sum(costs) * 100
            <= cost_8x8 * 125),
    }
}

fn add_capped(a: u64, b: u64) -> (s: u64)
    ensures
        s == min_int(a + b, u64::MAX as int),
{
    if a <= u64::MAX - b {
        a + b
    } else {
        u64::MAX
    }
}

/// Whether the four trials are made after the rough pass.
pub fn should_try_partnxn(
    prune: PartNxnPrune,
    cost_8x8: u64,
    costs: [u64; 4],
    modes: [u8; 4],
) -> (r: bool)
    ensures
        r == partnxn_promising(prune, cost_8x8, costs@, modes@),
{
    let total: u64 = add_capped(
        add_capped(add_capped(costs[0], costs[1]), costs[2]),
        costs[3],
    );
    assert(total == capped_sum(costs@));
    let f0: u8 = rough_mode_family(modes[0]);
    let f1: u8 = rough_mode_family(modes[1]);
    let f2: u8 = rough_mode_family(modes[2]);
    let f3: u8 = rough_mode_family(modes[3]);
    let diverse: bool = (f0 >= 2 && f1 >= 2 && f0 != f1) || (f0 >= 2 && f2 >= 2 && f0 != f2) || (f0
        >= 2 && f3 >= 2 && f0 != f3) || (f1 >= 2 && f2 >= 2 && f1 != f2) || (f1 >= 2 && f3 >= 2
        && f1 != f3) || (f2 >= 2 && f3 >= 2 && f2 != f3);
    proof {
        let (m0, m1, m2, m3) = (modes@[0], modes@[1], modes@[2], modes@[3]);
        if diverse_modes(modes@) {
            let (i, j) = choose|i: int, j: int|
                0 <= i < 4 && 0 <= j < 4 && mode_family(#[trigger] modes@[i]) >= 2 && mode_family(
                    #[trigger] modes@[j],
                ) >= 2 && mode_family(modes@[i]) != mode_family(modes@[j]);
            assert(i == 0 || i == 1 || i == 2 || i == 3);
            assert(j == 0 || j == 1 || j == 2 || j == 3);
        }
    }
    let rough_gain: bool = total as u128 * 100 <= cost_8x8 as u128 * 96;
    match prune {
        PartNxnPrune::Off => true,
        PartNxnPrune::Aggressive => rough_gain || diverse,
        PartNxnPrune::Conservative => rough_gain || (diverse && total as u128 * 100
            <= cost_8x8 as u128 * 125),
    }
}

/// The mode of one of four luma blocks that were screened with plain quantisation: among
/// the candidates close to the cheapest, the first of those that cost least in exact
/// trials; the first candidate where none is close.
pub open spec fn nxn_winner(modes: Seq<u8>, close: Seq<bool>, exact: Seq<u64>, n: nat) -> Scored<u8>
    decreases n,
{
    if n == 0 {
        Scored { cost: NO_COST, item: modes[0] }
    } else {
        let before = nxn_winner(modes, close, exact, (n - 1) as nat);
        if close[n - 1] && exact[n - 1] < before.cost {
            Scored { cost: exact[n - 1], item: modes[n - 1] }
        } else {
            before
        }
    }
}

pub fn nxn_pu_winner(modes: &Vec<u8>, close: &Vec<bool>, exact: &Vec<u64>) -> (mode: u8)
    requires
        modes@.len() > 0,
        close@.len() == modes@.len(),
        exact@.len() == modes@.len(),
    ensures
        mode == nxn_winner(modes@, close@, exact@, modes@.len()).item,
{
    let mut best = Scored { cost: NO_COST, item: modes[0] };
    let n: usize = modes.len();
    for i in 0..n
        invariant
            n == modes@.len(),
            close@.len() == n,
            exact@.len() == n,
            best == nxn_winner(modes@, close@, exact@, i as nat),
    {
        if close[i] && exact[i] < best.cost {
            best = Scored { cost: exact[i], item: modes[i] };
        }
    }
    best.item
}

} // verus!
