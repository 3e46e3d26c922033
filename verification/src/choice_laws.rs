//! What holds of the modes that are chosen: the winner is the cheapest of what was tried.

use vstd::prelude::*;

use crate::budget::RegionClass;
use crate::geometry::{spec_chroma_mode, spec_chroma_tb_geom};
use crate::mode_search::{
    capped_sum, chroma_decided, chroma_known, chroma_ranked, chroma_scored, chroma_trials,
    costs_of, diverse_modes, exact_winner, luma_ranked, mode_family, nxn_winner, partnxn_promising,
    ranked, ranking_known, recheck_modes, rough_costs, tried_by, unconditional_parts,
    within_margin, ChromaLimits, ChromaModePlan, LumaScreen, LumaScreening, PartNxnPrune,
};
use crate::policy::EvalKind;
use crate::ranking::{by_cost, costs_ascend, insert_by_cost, law_sorted, place_of, Scored};
use crate::rough::{scored_modes, Place};
use crate::stats::{EncodeStats, Tried};

verus! {

/// A trial costs no more than any other, and less than those before it.
pub open spec fn cheapest_at(outs: Seq<Tried>, w: int) -> bool {
    &&& 0 <= w < outs.len()
    &&& forall|j: int| 0 <= j < outs.len() ==> outs[w].cost <= (#[trigger] outs[j]).cost
    &&& forall|j: int| 0 <= j < w ==> outs[w].cost < (#[trigger] outs[j]).cost
}

/// The first in order of cost is the first of the cheapest.
proof fn lemma_first<T>(s: Seq<Scored<T>>) -> (w: int)
    requires
        s.len() > 0,
    ensures
        0 <= w < s.len(),
        by_cost(s)[0] == s[w],
        forall|j: int| 0 <= j < s.len() ==> s[w].cost <= (#[trigger] s[j]).cost,
        forall|j: int| 0 <= j < w ==> s[w].cost < (#[trigger] s[j]).cost,
    decreases s.len(),
{
    let rest = s.drop_last();
    if s.len() == 1 {
        assert(by_cost(rest).len() == 0);
        0
    } else {
        let v = lemma_first(rest);
        law_sorted(rest);
        lemma_insert_first(by_cost(rest), s.last());
        assert forall|j: int| 0 <= j < rest.len() implies s[j] == #[trigger] rest[j] by {}
        let w = if s.last().cost < s[v].cost {
            s.len() - 1
        } else {
            v
        };
        assert forall|j: int| 0 <= j < s.len() implies s[w].cost <= (#[trigger] s[j]).cost by {
            if j < rest.len() {
                assert(rest[j] == s[j]);
            }
        }
        assert forall|j: int| 0 <= j < w implies s[w].cost < (#[trigger] s[j]).cost by {
            if j < rest.len() {
                assert(rest[j] == s[j]);
            }
        }
        w
    }
}

proof fn lemma_insert_first<T>(s: Seq<Scored<T>>, e: Scored<T>)
    requires
        s.len() > 0,
        costs_ascend(s),
    ensures
        insert_by_cost(s, e).len() == s.len() + 1,
        insert_by_cost(s, e)[0] == if e.cost < s[0].cost {
            e
        } else {
            s[0]
        },
    decreases s.len(),
{
    assert(s[0].cost <= s.last().cost);
    if s.last().cost <= e.cost {
    } else if s.len() == 1 {
        assert(insert_by_cost(s.drop_last(), e) =~= seq![e]);
    } else {
        lemma_insert_first(s.drop_last(), e);
    }
}

/// The mode of a coding unit is one of the candidates. Where its trials are full ones, or
/// where it is not a single block, it is the first of those that cost least.
pub proof fn law_luma_mode_is_cheapest<W, T, K>(
    world: &W,
    at: Place,
    trial: T,
    close: K,
    s: LumaScreening,
    screen: LumaScreen,
    candidates: Seq<u8>,
    mode: u8,
    work: EncodeStats,
) -> (r: (Seq<Tried>, int)) where
    T: Fn(&W, Place, u8, LumaScreen) -> Tried,
    K: Fn(&W, Place, u64, u64) -> bool,

    requires
        luma_ranked(world, at, trial, close, s, screen, candidates, mode, work),
        candidates.len() > 0,
        !s.single_block || !(s.fast || s.cheap),
    ensures
        r.0.len() == candidates.len(),
        forall|i: int|
            0 <= i < candidates.len() ==> call_ensures(
                trial,
                (world, at, candidates[i], screen),
                #[trigger] r.0[i],
            ),
        cheapest_at(r.0, r.1),
        mode == candidates[r.1],
{
    let (outs, close_runner_up, close_third, exact) = choose|
        outs: Seq<Tried>,
        close_runner_up: bool,
        close_third: bool,
        exact: Seq<Tried>,
    |
        {
            let seen = ranked(candidates, costs_of(outs));
            &&& #[trigger] ranking_known(outs, close_runner_up, close_third, exact)
            &&& tried_by(world, at, trial, screen, candidates, outs)
            &&& mode == place_of(seen, 0, (candidates[0], 1usize)).item.0
        };
    let seen = ranked(candidates, costs_of(outs));
    let w = lemma_first(seen);
    assert forall|j: int| 0 <= j < outs.len() implies outs[w].cost <= (#[trigger] outs[j]).cost by {
        assert(seen[j].cost == outs[j].cost);
    }
    assert forall|j: int| 0 <= j < w implies outs[w].cost < (#[trigger] outs[j]).cost by {
        assert(seen[j].cost == outs[j].cost);
    }
    (outs, w)
}

/// Only a single block that was screened fast or cheaply is tried again, and only if the
/// second is another mode and close. The third joins a cheap screen alone.
pub proof fn law_who_is_tried_again(
    s: LumaScreening,
    best: u8,
    runner_up: u8,
    third: u8,
    close_runner_up: bool,
    close_third: bool,
)
    ensures
        ({
            let again = recheck_modes(s, best, runner_up, third, close_runner_up, close_third);
            &&& again.len() > 0 ==> s.single_block && best != runner_up && close_runner_up
            &&& again.len() > 0 ==> s.fast || s.cheap
            &&& again.len() > 0 ==> again[0] == best && again[1] == runner_up
            &&& again.len() > 2 ==> s.cheap && close_third && third != best && third != runner_up
            &&& again.len() > 2 ==> again[2] == third
            &&& again.len() == 0 || again.len() == 2 || again.len() == 3
            &&& s.single_block && (s.fast || s.cheap) && best != runner_up && close_runner_up
                ==> again.len() >= 2
            &&& again.len() == 2 && s.cheap && close_third ==> third == best || third == runner_up
        }),
{
}

/// Exact trials are won by the first of the cheapest.
pub proof fn law_exact_trials_decide(modes: Seq<u8>, costs: Seq<u64>) -> (w: int)
    requires
        modes.len() > 0,
        costs.len() == modes.len(),
    ensures
        0 <= w < modes.len(),
        exact_winner(modes, costs) == modes[w],
        forall|j: int| 0 <= j < modes.len() ==> costs[w] <= #[trigger] costs[j],
        forall|j: int| 0 <= j < w ==> costs[w] < #[trigger] costs[j],
{
    let s = scored_modes(modes, costs);
    let w = lemma_first(s);
    assert forall|j: int| 0 <= j < modes.len() implies costs[w] <= #[trigger] costs[j] by {
        assert(s[j].cost == costs[j]);
    }
    assert forall|j: int| 0 <= j < w implies costs[w] < #[trigger] costs[j] by {
        assert(s[j].cost == costs[j]);
    }
    w
}

/// A chroma mode that was chosen in exact trials is the first of the candidates that cost
/// least, and so is one of cheap trials where nothing is close.
pub proof fn law_chroma_mode_is_cheapest<W, T, K>(
    world: &W,
    at: Place,
    luma_mode: u8,
    trial: T,
    close: K,
    cheap: bool,
    candidates: Seq<u8>,
    plan: ChromaModePlan,
    work: EncodeStats,
) -> (r: (Seq<Tried>, int)) where
    T: Fn(&W, Place, u8, u8, EvalKind) -> Tried,
    K: Fn(&W, Place, u64, u64) -> bool,

    requires
        chroma_ranked(world, at, luma_mode, trial, close, cheap, candidates, plan, work),
        candidates.len() > 0,
        cheap ==> forall|a: u64, b: u64| !#[trigger] call_ensures(close, (world, at, a, b), true),
    ensures
        r.0.len() == candidates.len(),
        forall|i: int|
            0 <= i < candidates.len() ==> call_ensures(
                trial,
                (
                    world,
                    at,
                    luma_mode,
                    candidates[i],
                    if cheap {
                        EvalKind::CheapTrial
                    } else {
                        EvalKind::ExactTrial
                    },
                ),
                #[trigger] r.0[i],
            ),
        cheapest_at(r.0, r.1),
        plan.mode_idx == candidates[r.1],
        plan.mode == spec_chroma_mode(luma_mode, candidates[r.1]),
{
    let kind = if cheap {
        EvalKind::CheapTrial
    } else {
        EvalKind::ExactTrial
    };
    let (outs, is_close, exact) = choose|
        outs: Seq<Tried>,
        is_close: bool,
        exact: Option<(Tried, Tried)>,
    |
        {
            let seen = ranked(candidates, costs_of(outs));
            let best = place_of(seen, 0, (candidates[0], 1usize));
            &&& #[trigger] chroma_known(outs, is_close, exact)
            &&& outs.len() == candidates.len()
            &&& forall|i: int|
                0 <= i < candidates.len() ==> call_ensures(
                    trial,
                    (world, at, luma_mode, candidates[i], kind),
                    #[trigger] outs[i],
                )
            &&& plan.mode_idx == best.item.0
            &&& plan.mode == spec_chroma_mode(luma_mode, best.item.0)
        };
    let seen = ranked(candidates, costs_of(outs));
    let w = lemma_first(seen);
    assert forall|j: int| 0 <= j < outs.len() implies outs[w].cost <= (#[trigger] outs[j]).cost by {
        assert(seen[j].cost == outs[j].cost);
    }
    assert forall|j: int| 0 <= j < w implies outs[w].cost < (#[trigger] outs[j]).cost by {
        assert(seen[j].cost == outs[j].cost);
    }
    (outs, w)
}

/// Cheap trials of different candidates that are always close are decided by two exact
/// ones: the winner was tried exactly and costs no more than another candidate.
pub proof fn law_close_chroma_decided_exactly<W, T, K>(
    world: &W,
    at: Place,
    luma_mode: u8,
    trial: T,
    close: K,
    candidates: Seq<u8>,
    plan: ChromaModePlan,
    work: EncodeStats,
) -> (r: (Tried, Tried, u8)) where
    T: Fn(&W, Place, u8, u8, EvalKind) -> Tried,
    K: Fn(&W, Place, u64, u64) -> bool,

    requires
        chroma_ranked(world, at, luma_mode, trial, close, true, candidates, plan, work),
        candidates.len() >= 2,
        forall|i: int, j: int|
            0 <= i < j < candidates.len() ==> #[trigger] candidates[i] != #[trigger] candidates[j],
        forall|a: u64, b: u64| !#[trigger] call_ensures(close, (world, at, a, b), false),
    ensures
        call_ensures(trial, (world, at, luma_mode, plan.mode_idx, EvalKind::ExactTrial), r.0),
        call_ensures(trial, (world, at, luma_mode, r.2, EvalKind::ExactTrial), r.1),
        r.2 != plan.mode_idx,
        r.0.cost <= r.1.cost,
{
    let (outs, is_close, exact) = choose|
        outs: Seq<Tried>,
        is_close: bool,
        exact: Option<(Tried, Tried)>,
    |
        {
            let seen = ranked(candidates, costs_of(outs));
            let filler = (candidates[0], 1usize);
            let best = place_of(seen, 0, filler);
            let runner_up = place_of(seen, 1, filler);
            &&& #[trigger] chroma_known(outs, is_close, exact)
            &&& outs.len() == candidates.len()
            &&& runner_up.item.0 != best.item.0 ==> {
                &&& exact matches Some((b, r))
                &&& call_ensures(
                    trial,
                    (world, at, luma_mode, best.item.0, EvalKind::ExactTrial),
                    b,
                )
                &&& call_ensures(
                    trial,
                    (world, at, luma_mode, runner_up.item.0, EvalKind::ExactTrial),
                    r,
                )
                &&& plan.mode_idx == if r.cost < b.cost {
                    runner_up.item.0
                } else {
                    best.item.0
                }
            }
        };
    let seen = ranked(candidates, costs_of(outs));
    let filler = (candidates[0], 1usize);
    let best = place_of(seen, 0, filler);
    let runner_up = place_of(seen, 1, filler);
    lemma_two_apart(seen, candidates);
    let (b, t) = exact.unwrap();
    if t.cost < b.cost {
        (t, b, best.item.0)
    } else {
        (b, t, runner_up.item.0)
    }
}

/// Different candidates stand on the first two places.
proof fn lemma_two_apart(seen: Seq<Scored<(u8, usize)>>, candidates: Seq<u8>)
    requires
        candidates.len() >= 2,
        seen.len() == candidates.len(),
        forall|i: int| 0 <= i < seen.len() ==> (#[trigger] seen[i]).item.0 == candidates[i],
        forall|i: int, j: int|
            0 <= i < j < candidates.len() ==> #[trigger] candidates[i] != #[trigger] candidates[j],
    ensures
        by_cost(seen).len() == seen.len(),
        by_cost(seen)[0].item.0 != by_cost(seen)[1].item.0,
{
    broadcast use vstd::seq_lib::group_to_multiset_ensures;

    law_sorted(seen);
    let sorted = by_cost(seen);
    assert(seen.no_duplicates()) by {
        assert forall|i: int, j: int| 0 <= i < seen.len() && 0 <= j < seen.len() && i
            != j implies seen[i] != seen[j] by {
            assert(seen[i].item.0 == candidates[i]);
            assert(seen[j].item.0 == candidates[j]);
            if i < j {
                assert(candidates[i] != candidates[j]);
            } else {
                assert(candidates[j] != candidates[i]);
            }
        }
    }
    crate::ranking::lemma_sorted_contains(seen, sorted[0]);
    crate::ranking::lemma_sorted_contains(seen, sorted[1]);
    assert(sorted.contains(sorted[0]));
    assert(sorted.contains(sorted[1]));
    let i = choose|i: int| 0 <= i < seen.len() && seen[i] == sorted[0];
    let j = choose|j: int| 0 <= j < seen.len() && seen[j] == sorted[1];
    if i == j {
        let e = sorted[0];
        seen.lemma_multiset_has_no_duplicates();
        assert(sorted.to_multiset().count(e) <= 1);
        lemma_twice(sorted, e);
    }
    assert(seen[i].item.0 == candidates[i]);
    assert(seen[j].item.0 == candidates[j]);
    if i < j {
        assert(candidates[i] != candidates[j]);
    } else if j < i {
        assert(candidates[j] != candidates[i]);
    }
}

proof fn lemma_twice<A>(s: Seq<A>, e: A)
    requires
        s.len() >= 2,
        s[0] == e,
        s[1] == e,
    ensures
        s.to_multiset().count(e) >= 2,
    decreases s.len(),
{
    broadcast use vstd::seq_lib::group_to_multiset_ensures;

    let rest = s.drop_last();
    assert(rest.push(s.last()) =~= s);
    if s.len() > 2 {
        lemma_twice(rest, e);
    } else {
        assert(rest =~= Seq::<A>::empty().push(e));
    }
}

/// Without chroma to code, or without candidates, chroma takes the luma mode. With one
/// candidate it is the first of the five that cost least in a rough comparison.
pub proof fn law_chroma_without_trials<W, R, T, K>(
    world: &W,
    at: Place,
    cat: u8,
    luma_mode: u8,
    rough: R,
    trial: T,
    close: K,
    limits: ChromaLimits,
    plan: ChromaModePlan,
    work: EncodeStats,
) -> (costs: Seq<u64>) where
    R: Fn(&W, Place, u8, u8) -> u64,
    T: Fn(&W, Place, u8, u8, EvalKind) -> Tried,
    K: Fn(&W, Place, u64, u64) -> bool,

    requires
        chroma_decided(world, at, cat, luma_mode, rough, trial, close, limits, plan, work),
        limits.candidates <= 1,
    ensures
        limits.candidates == 0 || spec_chroma_tb_geom(cat, at.x, at.y, at.log2_size) is None
            ==> plan.mode_idx == 4 && plan.mode == luma_mode,
        limits.candidates == 1 && spec_chroma_tb_geom(cat, at.x, at.y, at.log2_size) is Some ==> {
            &&& costs.len() == 5
            &&& forall|i: int|
                0 <= i < 5 ==> call_ensures(
                    rough,
                    (world, at, luma_mode, i as u8),
                    #[trigger] costs[i],
                )
            &&& plan.mode_idx < 5
            &&& plan.mode == spec_chroma_mode(luma_mode, plan.mode_idx)
            &&& forall|i: int| 0 <= i < 5 ==> costs[plan.mode_idx as int] <= #[trigger] costs[i]
            &&& forall|i: int|
                0 <= i < plan.mode_idx ==> costs[plan.mode_idx as int] < #[trigger] costs[i]
        },
{
    if limits.candidates == 0 || spec_chroma_tb_geom(cat, at.x, at.y, at.log2_size) is None {
        Seq::empty()
    } else {
        let costs = choose|costs: Seq<u64>|
            {
                let sorted = by_cost(chroma_scored(costs));
                &&& #[trigger] rough_costs(costs)
                &&& costs.len() == 5
                &&& forall|i: int|
                    0 <= i < 5 ==> call_ensures(
                        rough,
                        (world, at, luma_mode, i as u8),
                        #[trigger] costs[i],
                    )
                &&& chroma_trials(
                    sorted,
                    1,
                    limits.gate_milli,
                    limits.region == Some(RegionClass::ChromaCritical),
                ) <= 1 ==> plan.mode_idx == sorted[0].item && plan.mode == spec_chroma_mode(
                    luma_mode,
                    sorted[0].item,
                )
            };
        let s = chroma_scored(costs);
        let sorted = by_cost(s);
        law_sorted(s);
        if limits.gate_milli is Some {
            reveal_with_fuel(within_margin, 3);
        }
        let w = lemma_first(s);
        assert forall|i: int| 0 <= i < 5 implies costs[w] <= #[trigger] costs[i] by {
            assert(s[i].cost == costs[i]);
        }
        assert forall|i: int| 0 <= i < w implies costs[w] < #[trigger] costs[i] by {
            assert(s[i].cost == costs[i]);
        }
        costs
    }
}

/// The chroma modes that are tried are the cheapest of the sorted: as many as the budget
/// has, or, behind a margin, just those of them whose cost lies within it, and at least
/// one.
pub proof fn law_margin_cuts_the_dear(
    sorted: Seq<Scored<u8>>,
    n: int,
    margin: u32,
    i: int,
)
    requires
        costs_ascend(sorted),
        1 <= n <= sorted.len(),
        0 <= i < n,
    ensures
        chroma_trials(sorted, n, None, false) == n,
        chroma_trials(sorted, n, Some(margin), true) == n,
        1 <= chroma_trials(sorted, n, Some(margin), false) <= n,
        i > 0 ==> (i < chroma_trials(sorted, n, Some(margin), false) <==> 1000 * sorted[i].cost
            <= (1000 + margin) * sorted[0].cost),
{
    lemma_within(sorted, n, margin);
    let k = within_margin(sorted, n, margin) as int;
    assert(sorted[0].cost * 1000 <= sorted[0].cost * (1000 + margin)) by (nonlinear_arith);
    if k == 0 {
        assert(false);
    }
    assert((1000 + margin) * sorted[0].cost == sorted[0].cost * (1000 + margin))
        by (nonlinear_arith);
}

proof fn lemma_within(sorted: Seq<Scored<u8>>, n: int, margin: u32)
    requires
        costs_ascend(sorted),
        0 <= n <= sorted.len(),
    ensures
        ({
            let k = within_margin(sorted, n, margin) as int;
            &&& 0 <= k <= n
            &&& forall|i: int|
                0 <= i < k ==> (#[trigger] sorted[i]).cost * 1000 <= sorted[0].cost * (1000
                    + margin)
            &&& forall|i: int|
                k <= i < n ==> (#[trigger] sorted[i]).cost * 1000 > sorted[0].cost * (1000
                    + margin)
        }),
    decreases n,
{
    if n > 0 {
        lemma_within(sorted, n - 1, margin);
        let k = within_margin(sorted, n - 1, margin) as int;
        if sorted[n - 1].cost * 1000 <= sorted[0].cost * (1000 + margin) {
            if k < n - 1 {
                assert(sorted[k].cost <= sorted[n - 1].cost);
                assert(false);
            }
        }
    }
}

/// Two directions are of one family unless one of these limits parts them: horizontal and
/// vertical themselves, and the diagonal between them. Planar and DC are no directions.
pub proof fn law_families_of_directions(a: u8, b: u8)
    requires
        2 <= a <= b <= 34,
    ensures
        mode_family(a) == mode_family(b) <==> !(a < 10 <= b || a < 11 <= b || a < 18 <= b || a
            < 26 <= b || a < 27 <= b),
        mode_family(a) >= 2,
        mode_family(0) < 2 && mode_family(1) < 2 && mode_family(0) != mode_family(1),
{
}

/// Four prediction units are tried where their quarters together cost at most 24/25 of the
/// unit. Quarters of different directions are tried always by an aggressive pruning, and
/// up to 5/4 of the unit's cost by a conservative one. Without pruning they are always
/// tried.
pub proof fn law_when_quarters_are_tried(cost: u64, costs: Seq<u64>, modes: Seq<u8>, sum: int)
    requires
        costs.len() == 4,
        sum == costs[0] + costs[1] + costs[2] + costs[3],
        sum <= u64::MAX,
    ensures
        partnxn_promising(PartNxnPrune::Off, cost, costs, modes),
        25 * sum <= 24 * cost ==> partnxn_promising(PartNxnPrune::Aggressive, cost, costs, modes)
            && partnxn_promising(PartNxnPrune::Conservative, cost, costs, modes),
        25 * sum > 24 * cost && !diverse_modes(modes) ==> !partnxn_promising(
            PartNxnPrune::Aggressive,
            cost,
            costs,
            modes,
        ) && !partnxn_promising(PartNxnPrune::Conservative, cost, costs, modes),
        diverse_modes(modes) ==> partnxn_promising(PartNxnPrune::Aggressive, cost, costs, modes),
        diverse_modes(modes) && 25 * sum > 24 * cost ==> (partnxn_promising(
            PartNxnPrune::Conservative,
            cost,
            costs,
            modes,
        ) <==> 4 * sum <= 5 * cost),
        (forall|i: int| 0 <= i < 4 ==> #[trigger] modes[i] == modes[0]) ==> !diverse_modes(modes),
        2 <= modes[0] < 10 && 10 <= modes[1] <= 34 ==> diverse_modes(modes),
{
    assert(capped_sum(costs) == sum);
    if 2 <= modes[0] < 10 && 10 <= modes[1] <= 34 {
        assert(mode_family(modes[0]) != mode_family(modes[1]));
    }
}

/// Quarters are tried without a look at rough costs where nothing is pruned, and under a
/// conservative pruning for text, for edges and where chroma is critical.
pub proof fn law_quarters_without_asking(region: RegionClass)
    ensures
        unconditional_parts(PartNxnPrune::Off, region),
        !unconditional_parts(PartNxnPrune::Aggressive, region),
        unconditional_parts(PartNxnPrune::Conservative, RegionClass::TextLike),
        unconditional_parts(PartNxnPrune::Conservative, RegionClass::DirectionalEdge),
        unconditional_parts(PartNxnPrune::Conservative, RegionClass::ChromaCritical),
        unconditional_parts(PartNxnPrune::Conservative, region) ==> region
            == RegionClass::TextLike || region == RegionClass::DirectionalEdge || region
            == RegionClass::ChromaCritical,
{
}

/// The mode of a quarter costs no more than any that was close, and is the first of those
/// that cost as little; it is the first candidate where none was close.
pub proof fn law_quarter_winner(modes: Seq<u8>, close: Seq<bool>, exact: Seq<u64>, n: nat, i: int)
    requires
        modes.len() > 0,
        n <= modes.len(),
        close.len() == modes.len(),
        exact.len() == modes.len(),
        forall|j: int| 0 <= j < n ==> #[trigger] exact[j] < 0xffff_ffff_ffff_ffff,
        0 <= i < n,
    ensures
        close[i] ==> nxn_winner(modes, close, exact, n).cost <= exact[i],
        close[i] ==> exists|w: int|
            {
                &&& 0 <= w < n
                &&& #[trigger] close[w]
                &&& nxn_winner(modes, close, exact, n).item == modes[w]
                &&& nxn_winner(modes, close, exact, n).cost == exact[w]
                &&& w <= i || exact[w] < exact[i]
            },
        (forall|j: int| 0 <= j < n ==> !#[trigger] close[j]) ==> nxn_winner(
            modes,
            close,
            exact,
            n,
        ).item == modes[0],
    decreases n,
{
    assert(exact[n - 1] < 0xffff_ffff_ffff_ffff);
    lemma_quarter_none(modes, close, exact, (n - 1) as nat);
    if i < n - 1 {
        law_quarter_winner(modes, close, exact, (n - 1) as nat, i);
        if close[i] && close[n - 1] && exact[n - 1] < nxn_winner(
            modes,
            close,
            exact,
            (n - 1) as nat,
        ).cost {
            assert(close[n - 1]);
        }
    } else {
        if close[i] {
            let before = nxn_winner(modes, close, exact, (n - 1) as nat);
            if exact[n - 1] < before.cost {
                assert(close[n - 1]);
            } else {
                let w = choose|w: int|
                    0 <= w < n - 1 && #[trigger] close[w] && before.item == modes[w]
                        && before.cost == exact[w];
                assert(close[w]);
            }
        }
        if n > 1 {
            law_quarter_winner(modes, close, exact, (n - 1) as nat, 0);
        }
    }
}

proof fn lemma_quarter_none(modes: Seq<u8>, close: Seq<bool>, exact: Seq<u64>, n: nat)
    requires
        modes.len() > 0,
        n <= modes.len(),
        close.len() == modes.len(),
        exact.len() == modes.len(),
    ensures
        ({
            let r = nxn_winner(modes, close, exact, n);
            ||| r.cost == 0xffff_ffff_ffff_ffff && r.item == modes[0]
            ||| exists|w: int|
                0 <= w < n && #[trigger] close[w] && r.item == modes[w] && r.cost == exact[w]
        }),
    decreases n,
{
    if n > 0 {
        lemma_quarter_none(modes, close, exact, (n - 1) as nat);
        let r = nxn_winner(modes, close, exact, (n - 1) as nat);
        if close[n - 1] && exact[n - 1] < r.cost {
            assert(close[n - 1]);
        } else if !(r.cost == 0xffff_ffff_ffff_ffff && r.item == modes[0]) {
            let w = choose|w: int|
                0 <= w < n - 1 && #[trigger] close[w] && r.item == modes[w] && r.cost == exact[w];
            assert(close[w]);
        }
    }
}

} // verus!
