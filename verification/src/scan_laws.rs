//! What holds of rough scans, of the candidates they leave, and of refined levels.

use vstd::prelude::*;

use crate::budget::BlockSearchBudget;
use crate::cabac::bin_cost;
use crate::candidate_cost::{
    bits_of, chroma_block, chroma_bucket, error_of, kind_policy, luma_bits, luma_bucket, satd_sum,
};
use crate::effort::{
    join_mode, join_range, join_refined, refine_len, refine_lo, scan_modes, stepped, AngularFamily,
    RmdModeSet,
};
use crate::final_code::{chroma_tasks, CodeSettings};
use crate::geometry::{side, spec_chroma_tb_geom};
use crate::policy::{EvalKind, RdoqPolicy, ResidualBitPolicy, WorkBucket};
use crate::ranking::{by_cost, costs_ascend, law_sorted, Scored};
use crate::refine::{error_sum, leaves_none, level_winner, other_levels};
use crate::rough::{
    chosen_from, coarse_centers, near_limit, padded, steered_pruning, within_factor, LumaSelection,
};
use crate::tu_search::BlockOutcome;

verus! {

/// A scan in steps scores planar, DC, and the directions from 2 on that many steps apart.
/// A dense scan and an exhaustive one score every mode, the least one planar and DC alone.
pub proof fn law_modes_of_a_scan(m: u8)
    ensures
        scan_modes(RmdModeSet::MpmPlanarDcOnly).contains(m) <==> m <= 1,
        scan_modes(RmdModeSet::Step4).contains(m) <==> m <= 1 || (m <= 34 && m % 4 == 2),
        scan_modes(RmdModeSet::Step3).contains(m) <==> m <= 1 || (m <= 34 && m % 3 == 2),
        scan_modes(RmdModeSet::Step2).contains(m) <==> m <= 1 || (m <= 34 && m % 2 == 0),
        scan_modes(RmdModeSet::Dense).contains(m) <==> m <= 34,
        scan_modes(RmdModeSet::Exhaustive).contains(m) <==> m <= 34,
{
    lemma_stepped(m, 1);
    lemma_stepped(m, 2);
    lemma_stepped(m, 3);
    lemma_stepped(m, 4);
    let base = seq![0u8, 1u8];
    assert(base.contains(m) <==> m <= 1) by {
        if m <= 1 {
            assert(base[m as int] == m);
        }
    }
    lemma_joined(base, stepped(4), m);
    lemma_joined(base, stepped(3), m);
    lemma_joined(base, stepped(2), m);
    lemma_joined(base, stepped(1), m);
    let every = Seq::new(35, |i: int| i as u8);
    lemma_joined(base, every, m);
    if m <= 34 {
        assert(every[m as int] == m);
    }
}

proof fn lemma_joined(a: Seq<u8>, b: Seq<u8>, m: u8)
    ensures
        (a + b).contains(m) <==> a.contains(m) || b.contains(m),
{
    if a.contains(m) {
        let i = choose|i: int| 0 <= i < a.len() && a[i] == m;
        assert((a + b)[i] == m);
    }
    if b.contains(m) {
        let i = choose|i: int| 0 <= i < b.len() && b[i] == m;
        assert((a + b)[a.len() + i] == m);
    }
}

proof fn lemma_stepped(m: u8, step: int)
    requires
        1 <= step <= 4,
    ensures
        stepped(step).contains(m) <==> 2 <= m <= 34 && (m - 2) % step == 0,
{
    let s = stepped(step);
    let last = 32int / step;
    assert(last * step <= 32 < (last + 1) * step) by (nonlinear_arith)
        requires
            1 <= step <= 4,
            last == 32int / step,
    ;
    assert(s.len() == last + 1) by (nonlinear_arith)
        requires
            s.len() == (32int / step + 1) as nat,
            1 <= step <= 4,
            last == 32int / step,
    ;
    if 2 <= m <= 34 && (m - 2) % step == 0 {
        let i = (m - 2) / step;
        assert(i * step == m - 2 && 0 <= i) by (nonlinear_arith)
            requires
                i == (m - 2) / step,
                (m - 2) % step == 0,
                1 <= step <= 4,
                m >= 2,
        ;
        assert(i <= last) by (nonlinear_arith)
            requires
                i * step <= 32,
                32 < (last + 1) * step,
                step >= 1,
        ;
        assert(s[i] == m);
    }
    if s.contains(m) {
        let i = choose|i: int| 0 <= i < s.len() && s[i] == m;
        assert(0 <= i * step <= 32) by (nonlinear_arith)
            requires
                0 <= i <= last,
                last * step <= 32,
                step >= 1,
        ;
        assert(m == 2 + i * step);
        vstd::arithmetic::div_mod::lemma_mod_multiples_basic(i, step);
    }
}

/// The directions fall into three families, parted at horizontal and at vertical. Planar,
/// DC and numbers that are no modes are in none.
pub proof fn law_angular_families(a: u8, b: u8)
    requires
        2 <= a <= b <= 34,
    ensures
        AngularFamily::of(a) == AngularFamily::of(b) <==> !(a < 10 <= b) && !(a < 26 <= b),
        AngularFamily::of(2) == Some(AngularFamily::Horizontal),
        AngularFamily::of(18) == Some(AngularFamily::Diagonal),
        AngularFamily::of(34) == Some(AngularFamily::Vertical),
        AngularFamily::of(0) is None && AngularFamily::of(1) is None,
        forall|m: u8| m > 34 ==> #[trigger] AngularFamily::of(m) is None,
{
}

/// A mode joins a list once, whether it was there or not.
proof fn lemma_join_range(modes: Seq<u8>, lo: int, n: nat, m: u8)
    requires
        0 <= lo,
        lo + n <= 256,
    ensures
        join_range(modes, lo, n).contains(m) <==> modes.contains(m) || lo <= m < lo + n,
    decreases n,
{
    if n > 0 {
        let before = join_range(modes, lo, (n - 1) as nat);
        let e = (lo + n - 1) as u8;
        lemma_join_range(modes, lo, (n - 1) as nat, m);
        lemma_join(before, e, m);
    }
}

proof fn lemma_join(modes: Seq<u8>, e: u8, m: u8)
    ensures
        join_mode(modes, e).contains(m) <==> modes.contains(m) || m == e,
{
    if !modes.contains(e) {
        let s = modes.push(e);
        assert(s[modes.len() as int] == e);
        if modes.contains(m) {
            let i = choose|i: int| 0 <= i < modes.len() && modes[i] == m;
            assert(s[i] == m);
        }
        if s.contains(m) && m != e {
            let i = choose|i: int| 0 <= i < s.len() && s[i] == m;
            assert(modes[i] == m);
        }
    }
}

/// A direction lies in the neighbourhood of one of the first `n` centres.
pub open spec fn near_center(centers: Seq<u8>, radius: u8, n: nat, m: u8) -> bool {
    2 <= m <= 34 && exists|i: int|
        0 <= i < n && (#[trigger] centers[i]) - radius <= m <= centers[i] + radius
}

/// Refining a list adds the directions around its centres and nothing else.
pub proof fn law_refining_adds_neighbours(
    modes: Seq<u8>,
    centers: Seq<u8>,
    radius: u8,
    n: nat,
    m: u8,
)
    requires
        n <= centers.len(),
    ensures
        join_refined(modes, centers, radius, n).contains(m) <==> modes.contains(m) || near_center(
            centers,
            radius,
            n,
            m,
        ),
    decreases n,
{
    if n > 0 {
        let c = centers[n - 1];
        law_refining_adds_neighbours(modes, centers, radius, (n - 1) as nat, m);
        let before = join_refined(modes, centers, radius, (n - 1) as nat);
        lemma_join_range(before, refine_lo(c, radius), refine_len(c, radius), m);
        if near_center(centers, radius, n, m) {
            let i = choose|i: int|
                0 <= i < n && (#[trigger] centers[i]) - radius <= m <= centers[i] + radius;
            assert(centers[i] == centers[i]);
            if i < n - 1 {
                assert(near_center(centers, radius, (n - 1) as nat, m));
            }
        }
        if near_center(centers, radius, (n - 1) as nat, m) {
            let i = choose|i: int|
                0 <= i < n - 1 && (#[trigger] centers[i]) - radius <= m <= centers[i] + radius;
            assert(centers[i] == centers[i]);
        }
        if 2 <= m <= 34 && c - radius <= m <= c + radius {
            assert(centers[n - 1] == c);
            assert(near_center(centers, radius, n, m));
        }
    }
}

/// The centres of a refinement are the cheapest of the coarse modes, and as many as the
/// scan asks for, at least one.
pub proof fn law_centers_are_cheapest(coarse: Seq<Scored<u8>>, top_regions: u8, k: int) -> (sorted:
    Seq<Scored<u8>>)
    requires
        coarse.len() > 0,
        0 <= k < coarse.len(),
    ensures
        sorted.to_multiset() == coarse.to_multiset(),
        costs_ascend(sorted),
        sorted.len() == coarse.len(),
        ({
            let n = coarse_centers(coarse, top_regions).len();
            &&& n >= 1
            &&& top_regions >= 1 ==> n <= top_regions
            &&& n == top_regions || n == coarse.len() || (n == 1 && top_regions == 0)
            &&& k < n ==> coarse_centers(coarse, top_regions)[k] == sorted[k].item
        }),
{
    law_sorted(coarse);
    by_cost(coarse)
}

/// What a region asks of angular modes goes before what the block's texture says; where
/// they differ it is noted which way.
pub proof fn law_steering_goes_first(steered: Option<bool>, local: bool)
    ensures
        ({
            let p = steered_pruning(steered, local);
            &&& steered is None ==> p.prune == local
            &&& steered is Some ==> Some(p.prune) == steered
            &&& p.forced <==> p.prune && !local
            &&& p.guarded <==> !p.prune && local
        }),
{
}

/// A cost lies within a factor of the best if it does not exceed that many thousandths of
/// it: the best lies within any factor from 1000 on.
pub proof fn law_factor_in_thousandths(cost: u64, best: u64, factor: u32)
    ensures
        within_factor(cost, best, 1000) <==> cost <= best,
        within_factor(cost, best, 2000) <==> cost <= 2 * best,
        within_factor(cost, best, factor) && factor < u32::MAX ==> within_factor(
            cost,
            best,
            (factor + 1) as u32,
        ),
{
    assert(best * (factor + 1) >= best * factor) by (nonlinear_arith);
}

/// Without a screen or a factor the candidates are the first of the modes in order of
/// cost, as many as the budget has. None that is left out costs less than one that is kept.
pub proof fn law_budget_keeps_the_cheapest(
    budget: &BlockSearchBudget,
    scored: Seq<Scored<u8>>,
    mpm0: u8,
    s: &LumaSelection,
    expansions: int,
    i: int,
) -> (sorted: Seq<Scored<u8>>)
    requires
        chosen_from(budget, scored, mpm0, None, s, expansions),
        budget.rmd_prune_factor_milli is None,
        0 <= i < s.candidates@.len(),
    ensures
        sorted.to_multiset() == scored.to_multiset(),
        costs_ascend(sorted),
        s.candidates@[i] == sorted[i].item,
        s.candidates@.len() == budget.luma_rd_candidates || (s.candidates@.len() == scored.len()
            && s.candidates@.len() <= budget.luma_rd_candidates),
        s.pruned == 0,
        expansions == 1 <==> budget.luma_rd_candidates > budget.luma_rd_candidates_base,
        expansions == 0 <==> budget.luma_rd_candidates <= budget.luma_rd_candidates_base,
{
    law_sorted(scored);
    by_cost(scored)
}

/// A factor keeps candidates within it, the best always, and only from the cheap end.
pub proof fn law_factor_keeps_the_near(
    budget: &BlockSearchBudget,
    scored: Seq<Scored<u8>>,
    mpm0: u8,
    s: &LumaSelection,
    expansions: int,
    i: int,
) -> (sorted: Seq<Scored<u8>>)
    requires
        chosen_from(budget, scored, mpm0, None, s, expansions),
        budget.rmd_prune_factor_milli is Some,
        scored.len() > 0,
        budget.luma_rd_candidates >= 1,
        0 <= i < scored.len(),
    ensures
        sorted.to_multiset() == scored.to_multiset(),
        costs_ascend(sorted),
        sorted.len() == scored.len(),
        ({
            let n = s.candidates@.len();
            let f = budget.rmd_prune_factor_milli.unwrap();
            &&& 1 <= n <= budget.luma_rd_candidates
            &&& i < n ==> s.candidates@[i] == sorted[i].item
            &&& 1 <= i < n ==> 1000 * sorted[i].cost <= f * sorted[0].cost
            &&& i == n && n < budget.luma_rd_candidates ==> 1000 * sorted[i].cost > f
                * sorted[0].cost
            &&& s.pruned == if budget.luma_rd_candidates < scored.len() {
                budget.luma_rd_candidates - n
            } else {
                scored.len() - n
            }
        }),
{
    law_sorted(scored);
    let sorted = by_cost(scored);
    let f = budget.rmd_prune_factor_milli.unwrap();
    assert(f * sorted[0].cost == sorted[0].cost * f) by (nonlinear_arith);
    sorted
}

/// A screen's limit is a quarter above the best, as far as costs go.
pub proof fn law_screen_limit(best: u64)
    ensures
        best <= padded(best),
        4 * padded(best) <= 5 * best,
        padded(best) < 0xffff_ffff_ffff_ffff ==> 4 * padded(best) > 5 * best - 4,
{
}

/// What is near a limit costs no more than it or is the most probable mode, and everything
/// that does is near.
pub proof fn law_near_a_limit(s: Seq<Scored<u8>>, limit: u64, mpm0: u8, e: Scored<u8>)
    ensures
        near_limit(s, limit, mpm0).contains(e) <==> s.contains(e) && (e.cost <= limit || e.item
            == mpm0),
    decreases s.len(),
{
    if s.len() == 0 {
        assert(!s.contains(e));
    } else {
        let rest = s.drop_last();
        law_near_a_limit(rest, limit, mpm0, e);
        assert(s =~= rest.push(s.last()));
        lemma_pushed(rest, s.last(), e);
        lemma_pushed(near_limit(rest, limit, mpm0), s.last(), e);
    }
}

proof fn lemma_pushed<T>(s: Seq<T>, last: T, e: T)
    ensures
        s.push(last).contains(e) <==> s.contains(e) || e == last,
{
    let p = s.push(last);
    assert(p[s.len() as int] == last);
    if s.contains(e) {
        let i = choose|i: int| 0 <= i < s.len() && s[i] == e;
        assert(p[i] == e);
    }
    if p.contains(e) && e != last {
        let i = choose|i: int| 0 <= i < p.len() && p[i] == e;
        assert(s[i] == e);
    }
}

/// A level may become zero, or one step smaller or larger, and never changes its sign. It
/// is never tried as itself. Both signs are treated alike.
pub proof fn law_what_a_level_may_become(level: i16, i: int)
    requires
        level > i16::MIN,
        level != 0,
        0 <= i < other_levels(level).len(),
    ensures
        ({
            let o = other_levels(level)[i];
            let back = other_levels((-level) as i16);
            &&& other_levels(level)[0] == 0
            &&& i > 0 ==> o == level - 1 || o == level + 1
            &&& i > 0 ==> (o > 0 <==> level > 0) && o != 0
            &&& back.len() == other_levels(level).len() && back[i] == -o
            &&& 1 < level < i16::MAX ==> other_levels(level).len() == 3 && other_levels(level)[1]
                == level - 1 && other_levels(level)[2] == level + 1
            &&& level == 1 ==> other_levels(level).len() == 2 && other_levels(level)[1] == 2
        }),
        other_levels(0).len() == 0,
{
}

/// Every error counts once.
pub proof fn law_errors_count_once(errors: Seq<u64>, n: nat, i: int, v: u64)
    requires
        0 <= i < n <= errors.len(),
    ensures
        error_sum(errors.update(i, v), n) - error_sum(errors, n) == v - errors[i],
        error_sum(errors, 0) == 0,
    decreases n,
{
    if i < n - 1 {
        law_errors_count_once(errors, (n - 1) as nat, i, v);
    } else {
        lemma_same_errors(errors, errors.update(i, v), (n - 1) as nat);
    }
}

proof fn lemma_same_errors(a: Seq<u64>, b: Seq<u64>, n: nat)
    requires
        n <= a.len(),
        n <= b.len(),
        forall|i: int| 0 <= i < n ==> a[i] == b[i],
    ensures
        error_sum(a, n) == error_sum(b, n),
    decreases n,
{
    if n > 0 {
        lemma_same_errors(a, b, (n - 1) as nat);
    }
}

/// The best of some levels costs no more than any that was tried, nor than the level as it
/// was, which stays unless another costs less.
pub proof fn law_best_level_wins(
    own: (i16, u64, u64),
    others: Seq<i16>,
    errors: Seq<u64>,
    costs: Seq<u64>,
    n: nat,
    i: int,
)
    requires
        0 <= i < n,
        n <= others.len(),
        errors.len() == others.len(),
        costs.len() == others.len(),
    ensures
        ({
            let w = level_winner(own, others, errors, costs, n);
            &&& w.2 <= own.2 && w.2 <= costs[i]
            &&& w == own || w.2 < own.2
            &&& w == own || exists|k: int|
                0 <= k < n && #[trigger] others[k] == w.0 && errors[k] == w.1 && costs[k] == w.2
        }),
    decreases n,
{
    let before = level_winner(own, others, errors, costs, (n - 1) as nat);
    if n > 1 {
        law_best_level_wins(own, others, errors, costs, (n - 1) as nat, if i < n - 1 {
            i
        } else {
            0
        });
    }
    if costs[n - 1] < before.2 {
        assert(others[n - 1] == others[n - 1]);
    } else if before != own {
        let k = choose|k: int|
            0 <= k < n - 1 && #[trigger] others[k] == before.0 && errors[k] == before.1
                && costs[k] == before.2;
        assert(others[k] == before.0);
    }
}

/// A change empties a block exactly if it clears its only level.
pub proof fn law_clearing_the_only_level(levels: Seq<i16>, i: int)
    requires
        0 <= i < levels.len(),
        levels[i] != 0,
        forall|k: int| 0 <= k < levels.len() && k != i ==> #[trigger] levels[k] == 0,
    ensures
        leaves_none(levels, 0),
        forall|v: i16| v != 0 ==> !#[trigger] leaves_none(levels, v),
{
    let zeros = levels.update(i, 0);
    crate::block_laws::law_nonzeros_count_once(levels, levels.len(), i, levels[i]);
    assert(levels.update(i, levels[i]) =~= levels);
    lemma_zeros(zeros, levels.len());
}

proof fn lemma_zeros(levels: Seq<i16>, n: nat)
    requires
        n <= levels.len(),
        forall|k: int| 0 <= k < n ==> #[trigger] levels[k] == 0,
    ensures
        crate::block_eval::nonzeros(levels, n) == 0,
    decreases n,
{
    if n > 0 {
        lemma_zeros(levels, (n - 1) as nat);
        assert(levels[n - 1] == 0);
    }
}

/// Cheap candidates are quantised plainly and priced roughly, all others optimised and
/// priced exactly. Only a final evaluation is committed. Cheap and exact work on luma and
/// chroma is booked apart.
pub proof fn law_kinds_of_evaluation(kind: EvalKind, bucket: WorkBucket)
    ensures
        kind_policy(kind, bucket).rdoq == RdoqPolicy::Off <==> kind == EvalKind::CheapTrial,
        kind_policy(kind, bucket).bits == ResidualBitPolicy::Approx <==> kind
            == EvalKind::CheapTrial,
        kind_policy(kind, bucket).commit <==> kind == EvalKind::Final,
        kind_policy(kind, bucket).work_bucket == Some(bucket),
        luma_bucket(EvalKind::CheapTrial) == WorkBucket::LumaCandidateCheap,
        luma_bucket(EvalKind::ExactTrial) == WorkBucket::LumaCandidateExact,
        chroma_bucket(EvalKind::CheapTrial) == WorkBucket::ChromaCheap,
        chroma_bucket(EvalKind::ExactTrial) == WorkBucket::ChromaExact,
        luma_bucket(EvalKind::Final) == WorkBucket::FinalReplay,
        chroma_bucket(EvalKind::Final) == WorkBucket::FinalReplay,
{
}

/// A luma candidate pays for its levels only if any is coded, and for its partition only
/// in a unit of 8x8.
pub proof fn law_bits_of_a_luma_candidate(
    states: Seq<int>,
    mpm: [u8; 3],
    mode: u8,
    log2_size: u8,
    bits: u64,
)
    requires
        log2_size > 3,
    ensures
        luma_bits(states, mpm, mode, log2_size, true, bits) - luma_bits(
            states,
            mpm,
            mode,
            log2_size,
            true,
            0,
        ) == bits,
        luma_bits(states, mpm, mode, log2_size, false, bits) == luma_bits(
            states,
            mpm,
            mode,
            log2_size,
            false,
            0,
        ),
        luma_bits(states, mpm, mode, 3, true, bits) - luma_bits(
            states,
            mpm,
            mode,
            log2_size,
            true,
            bits,
        ) == luma_bits(states, mpm, mode, 3, false, 0) - luma_bits(
            states,
            mpm,
            mode,
            log2_size,
            false,
            0,
        ),
        luma_bits(states, mpm, mode, 3, true, bits) - luma_bits(
            states,
            mpm,
            mode,
            log2_size,
            true,
            bits,
        ) == bin_cost(states[crate::contexts::PART_MODE as int], 1),
        luma_bits(states, mpm, mode, log2_size, true, 0) - luma_bits(
            states,
            mpm,
            mode,
            log2_size,
            false,
            0,
        ) == bin_cost(states[crate::contexts::CBF_LUMA + 1], 1) - bin_cost(
            states[crate::contexts::CBF_LUMA + 1],
            0,
        ),
{
}

/// The blocks of a chroma candidate are those that its leaf would code, in the same order.
pub proof fn law_chroma_candidate_is_its_leaf(
    s: CodeSettings,
    x0: u32,
    y0: u32,
    log2_size: u8,
    i: int,
)
    requires
        2 <= log2_size <= 5,
        0 <= i < chroma_tasks(s, x0 as int, y0 as int, log2_size).len(),
        x0 <= 0x7fff_ffff,
        y0 <= 0x7fff_ffff,
    ensures
        spec_chroma_tb_geom(s.cat, x0, y0, log2_size) matches Some(g) && chroma_tasks(
            s,
            x0 as int,
            y0 as int,
            log2_size,
        )[i] == chroma_block(g.0 as int, g.1 as int, g.2, s.chroma_pred, s.qp_c, i) && chroma_tasks(
            s,
            x0 as int,
            y0 as int,
            log2_size,
        ).len() == 2 * g.3,
{
    let tasks = chroma_tasks(s, x0 as int, y0 as int, log2_size);
    assert(i == 0 || i == 1 || i == 2 || i == 3);
    let g = spec_chroma_tb_geom(s.cat, x0, y0, log2_size).unwrap();
    assert(0 * side(g.2) == 0);
    assert(1 * side(g.2) == side(g.2));
}

/// Every block of a chroma candidate counts once, in its error and in its bits, and every
/// transformed difference once in its sum.
pub proof fn law_candidates_add_up(
    outs: Seq<BlockOutcome>,
    o: BlockOutcome,
    satds: Seq<u32>,
    v: u32,
    n: nat,
    i: int,
)
    requires
        0 <= i < n,
        n <= outs.len(),
        n <= satds.len(),
    ensures
        error_of(outs.update(i, o), n) - error_of(outs, n) == o.distortion - outs[i].distortion,
        bits_of(outs.update(i, o), n) - bits_of(outs, n) == o.coded.frac_bits
            - outs[i].coded.frac_bits,
        satd_sum(satds.update(i, v), n) - satd_sum(satds, n) == v - satds[i],
        error_of(outs, 0) == 0 && bits_of(outs, 0) == 0 && satd_sum(satds, 0) == 0,
    decreases n,
{
    if i < n - 1 {
        law_candidates_add_up(outs, o, satds, v, (n - 1) as nat, i);
    } else {
        lemma_same_sums(
            outs,
            outs.update(i, o),
            satds,
            satds.update(i, v),
            (n - 1) as nat,
        );
    }
}

proof fn lemma_same_sums(
    a: Seq<BlockOutcome>,
    b: Seq<BlockOutcome>,
    c: Seq<u32>,
    d: Seq<u32>,
    n: nat,
)
    requires
        n <= a.len(),
        n <= b.len(),
        n <= c.len(),
        n <= d.len(),
        forall|i: int| 0 <= i < n ==> a[i] == b[i],
        forall|i: int| 0 <= i < n ==> c[i] == d[i],
    ensures
        error_of(a, n) == error_of(b, n),
        bits_of(a, n) == bits_of(b, n),
        satd_sum(c, n) == satd_sum(d, n),
    decreases n,
{
    if n > 0 {
        lemma_same_sums(a, b, c, d, (n - 1) as nat);
    }
}

} // verus!
