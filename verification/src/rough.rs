//! Rough luma mode selection: which modes are scored, and which scored modes go on to
//! trials.
//!
//! Scoring itself is done by the caller, one mode at a time, between these steps.

use vstd::prelude::*;

use crate::budget::BlockSearchBudget;
use crate::cabac::CabacEstimator;
use crate::effort::{
    contains_mode, join_mode, join_range, join_refined,
    law_scan_has_base_modes, lemma_join_refined_prefix, push_joined, push_stepped, refine_len, refine_lo, scan_modes,
    stepped, RmdModeSet,
};
use crate::math::{max_int, min_int};
use crate::ranking::{
    by_cost, law_sorted, lemma_sorted_contains, sort_by_cost, Scored,
};
use crate::stats::EncodeStats;

verus! {

/// Whether the angular modes of a block are dropped, and how a region's steering bore on
/// that.
#[derive(Clone, Copy, Debug, PartialEq, Eq, Structural)]
pub struct AngularPruning {
    pub prune: bool,
    /// Steering dropped them against the block's own texture.
    pub forced: bool,
    /// Steering kept them against the block's own texture.
    pub guarded: bool,
}

/// A region's steering comes before the block's own texture.
pub open spec fn steered_pruning(steered: Option<bool>, local_prune: bool) -> AngularPruning {
    match steered {
        Some(forced) => AngularPruning {
            prune: forced,
            forced: forced && !local_prune,
            guarded: !forced && local_prune,
        },
        None => AngularPruning { prune: local_prune, forced: false, guarded: false },
    }
}

/// Whether angular modes are dropped: as steered, and else by the block's own texture.
pub fn angular_pruning(steered: Option<bool>, local_prune: bool) -> (p: AngularPruning)
    ensures
        p == steered_pruning(steered, local_prune),
{
    match steered {
        Some(forced) => AngularPruning {
            prune: forced,
            forced: forced && !local_prune,
            guarded: !forced && local_prune,
        },
        None => AngularPruning { prune: local_prune, forced: false, guarded: false },
    }
}

/// Modes to score.
pub struct RoughScan {
    pub modes: Vec<u8>,
    /// The modes from here on are the coarse sweep of a progressive scan.
    pub coarse_from: usize,
}

/// The first `n` modes of a list join another.
pub open spec fn join_modes(modes: Seq<u8>, more: Seq<u8>, n: nat) -> Seq<u8>
    decreases n,
{
    if n == 0 {
        modes
    } else {
        join_mode(join_modes(modes, more, (n - 1) as nat), more[n - 1])
    }
}

/// The modes that every progressive scan scores: planar, DC and the most probable.
pub open spec fn scan_base(mpm: Seq<u8>) -> Seq<u8> {
    let all = scan_modes(RmdModeSet::MpmPlanarDcOnly) + mpm;
    join_modes(Seq::empty(), all, all.len())
}

/// What is scored first.
pub open spec fn first_modes(set: RmdModeSet, prune_angular: bool, mpm: Seq<u8>) -> Seq<u8> {
    match set {
        RmdModeSet::Progressive { coarse_step, .. } if !prune_angular => {
            let coarse = stepped(max_int(coarse_step as int, 1));
            join_modes(scan_base(mpm), coarse, coarse.len())
        },
        _ => scan_modes(
            if prune_angular {
                RmdModeSet::MpmPlanarDcOnly
            } else {
                set
            },
        ) + mpm,
    }
}

/// Where the coarse sweep starts: nowhere, where there is none.
pub open spec fn coarse_start(set: RmdModeSet, prune_angular: bool, mpm: Seq<u8>) -> nat {
    match set {
        RmdModeSet::Progressive { .. } if !prune_angular => scan_base(mpm).len(),
        _ => first_modes(set, prune_angular, mpm).len(),
    }
}

fn push_new_modes(modes: &mut Vec<u8>, more: &Vec<u8>)
    ensures
        final(modes)@ == join_modes(old(modes)@, more@, more@.len()),
{
    let n: usize = more.len();
    for i in 0..n
        invariant
            n == more@.len(),
            modes@ == join_modes(old(modes)@, more@, i as nat),
    {
        if !contains_mode(modes, more[i]) {
            modes.push(more[i]);
        }
    }
}

/// The modes to score first.
pub fn first_scan(set: RmdModeSet, prune_angular: bool, mpm: [u8; 3]) -> (scan: RoughScan)
    ensures
        scan.modes@ == first_modes(set, prune_angular, mpm@),
        scan.coarse_from == coarse_start(set, prune_angular, mpm@),
        scan.coarse_from <= scan.modes@.len(),
{
    if !prune_angular {
        if let RmdModeSet::Progressive { coarse_step, .. } = set {
            let mut modes: Vec<u8> = Vec::new();
            let listed = RmdModeSet::MpmPlanarDcOnly.modes(mpm);
            push_new_modes(&mut modes, &listed);
            let coarse_from: usize = modes.len();
            let step: u8 = if coarse_step < 1 {
                1
            } else {
                coarse_step
            };
            let mut coarse: Vec<u8> = Vec::new();
            push_stepped(&mut coarse, step);
            assert(coarse@ =~= stepped(step as int));
            proof {
                lemma_join_modes_prefix(modes@, coarse@, coarse@.len());
            }
            push_new_modes(&mut modes, &coarse);
            return RoughScan { modes, coarse_from };
        }
    }
    let modes = if prune_angular {
        RmdModeSet::MpmPlanarDcOnly.modes(mpm)
    } else {
        set.modes(mpm)
    };
    let coarse_from: usize = modes.len();
    RoughScan { modes, coarse_from }
}

/// Scored modes: the costs come in the order of the modes.
pub open spec fn scored_modes(modes: Seq<u8>, costs: Seq<u64>) -> Seq<Scored<u8>> {
    Seq::new(modes.len(), |i: int| Scored { cost: costs[i], item: modes[i] })
}

/// The modes of scored modes.
pub open spec fn modes_of(scored: Seq<Scored<u8>>) -> Seq<u8> {
    Seq::new(scored.len(), |i: int| scored[i].item)
}

/// The cheapest modes of a coarse sweep.
pub open spec fn coarse_centers(coarse: Seq<Scored<u8>>, top_regions: u8) -> Seq<u8> {
    modes_of(by_cost(coarse).take(min_int(max_int(top_regions as int, 1), coarse.len() as int)))
}

/// What is scored second: the neighbourhoods of the cheapest coarse modes, without the
/// modes scored already.
pub open spec fn second_modes(
    first: Seq<u8>,
    coarse: Seq<Scored<u8>>,
    top_regions: u8,
    radius: u8,
) -> Seq<u8> {
    let centers = coarse_centers(coarse, top_regions);
    join_refined(first, centers, radius, centers.len()).skip(first.len() as int)
}

/// The modes to score second.
pub fn second_scan(first: &RoughScan, costs: &Vec<u64>, top_regions: u8, refine_radius: u8) -> (modes:
    Vec<u8>)
    requires
        costs@.len() == first.modes@.len(),
        first.coarse_from <= first.modes@.len(),
    ensures
        modes@ == second_modes(
            first.modes@,
            scored_modes(first.modes@, costs@).skip(first.coarse_from as int),
            top_regions,
            refine_radius,
        ),
{
    let n: usize = first.modes.len();
    let mut coarse: Vec<Scored<u8>> = Vec::new();
    let ghost scored = scored_modes(first.modes@, costs@);
    let ghost from = first.coarse_from as int;
    for i in first.coarse_from..n
        invariant
            n == first.modes@.len(),
            costs@.len() == n,
            from == first.coarse_from <= n,
            scored == scored_modes(first.modes@, costs@),
            coarse@.len() == i - from,
            forall|k: int| 0 <= k < coarse@.len() ==> #[trigger] coarse@[k] == scored[from + k],
    {
        coarse.push(Scored { cost: costs[i], item: first.modes[i] });
    }
    assert(coarse@ =~= scored.skip(from));
    let sorted = sort_by_cost(&coarse);
    proof {
        law_sorted(coarse@);
    }
    let mut all: Vec<u8> = Vec::new();
    let wanted: usize = if top_regions < 1 {
        1
    } else {
        top_regions as usize
    };
    let regions: usize = if wanted < sorted.len() {
        wanted
    } else {
        sorted.len()
    };
    let ghost centers = coarse_centers(coarse@, top_regions);
    for i in 0..n
        invariant
            n == first.modes@.len(),
            all@ == first.modes@.take(i as int),
    {
        all.push(first.modes[i]);
        assert(all@ =~= first.modes@.take(i + 1));
    }
    assert(all@ =~= first.modes@);
    for r in 0..regions
        invariant
            regions <= sorted@.len(),
            sorted@ == by_cost(coarse@),
            centers.len() == regions,
            centers == modes_of(sorted@.take(regions as int)),
            all@ == join_refined(first.modes@, centers, refine_radius, r as nat),
    {
        let center: u8 = sorted[r].item;
        assert(center == centers[r as int]);
        let lo: u8 = if center > refine_radius && center - refine_radius > 2 {
            center - refine_radius
        } else {
            2
        };
        let hi: u8 = if (center as u16) + (refine_radius as u16) < 34 {
            center + refine_radius
        } else {
            34
        };
        let len: u8 = if hi < lo {
            0
        } else {
            hi - lo + 1
        };
        assert(lo == refine_lo(center, refine_radius));
        assert(len == refine_len(center, refine_radius));
        push_joined(&mut all, lo, len);
    }
    proof {
        lemma_join_refined_prefix(first.modes@, centers, refine_radius, centers.len());
    }
    let mut modes: Vec<u8> = Vec::new();
    let len: usize = all.len();
    for i in n..len
        invariant
            len == all@.len(),
            n <= len,
            modes@.len() == i - n,
            forall|k: int| 0 <= k < modes@.len() ==> #[trigger] modes@[k] == all@[n + k],
    {
        modes.push(all[i]);
    }
    assert(modes@ =~= all@.skip(n as int));
    modes
}

pub proof fn lemma_join_modes_prefix(modes: Seq<u8>, more: Seq<u8>, n: nat)
    requires
        n <= more.len(),
    ensures
        modes.is_prefix_of(join_modes(modes, more, n)),
        modes.len() <= join_modes(modes, more, n).len(),
    decreases n,
{
    if n > 0 {
        lemma_join_modes_prefix(modes, more, (n - 1) as nat);
    }
}

/// A cost is within a factor, in thousandths, of the best.
pub open spec fn within_factor(cost: u64, best: u64, factor_milli: u32) -> bool {
    cost * 1000 <= best * factor_milli
}

/// `keep` is how many of the first `n` sorted modes lie within a factor of the best, the
/// best itself included.
pub open spec fn keeps_within(
    sorted: Seq<Scored<u8>>,
    n: int,
    factor_milli: u32,
    keep: int,
) -> bool {
    &&& 1 <= keep <= sorted.len()
    &&& keep <= max_int(n, 1)
    &&& forall|i: int|
        1 <= i < keep ==> within_factor(
            (#[trigger] sorted[i]).cost,
            sorted[0].cost,
            factor_milli,
        )
    &&& keep < n && keep < sorted.len() ==> !within_factor(
        sorted[keep].cost,
        sorted[0].cost,
        factor_milli,
    )
}

/// Modes that go on to trials.
pub struct LumaSelection {
    pub candidates: Vec<u8>,
    /// Candidates that the factor cut.
    pub pruned: u64,
    /// The first most probable mode is a candidate against its cost.
    pub mpm0_forced: bool,
}

/// Sorts scored modes and keeps the cheapest.
pub fn select_cheapest(scored: &Vec<Scored<u8>>, n: usize, factor_milli: Option<u32>) -> (s:
    LumaSelection)
    ensures
        !s.mpm0_forced,
        match factor_milli {
            Some(f) if scored@.len() > 0 => exists|keep: int|
                {
                    &&& #[trigger] keeps_within(by_cost(scored@), n as int, f, keep)
                    &&& s.candidates@ == modes_of(by_cost(scored@).take(keep))
                    &&& s.pruned == max_int(min_int(n as int, scored@.len() as int) - keep, 0)
                },
            _ => {
                &&& s.candidates@ == modes_of(
                    by_cost(scored@).take(min_int(n as int, scored@.len() as int)),
                )
                &&& s.pruned == 0
            },
        },
{
    let sorted = sort_by_cost(scored);
    proof {
        law_sorted(scored@);
    }
    let len: usize = sorted.len();
    let cap: usize = if n < len {
        n
    } else {
        len
    };
    match factor_milli {
        Some(f) => {
            if len > 0 {
                let best: u64 = sorted[0].cost;
                let mut keep: usize = 1;
                assert(best as u128 * f as u128 <= 0xffff_ffff_ffff_ffff * 0xffff_ffff)
                    by (nonlinear_arith)
                    requires
                        best <= 0xffff_ffff_ffff_ffff,
                        f <= 0xffff_ffff,
                ;
                while keep < n && keep < len && sorted[keep].cost as u128 * 1000 <= best as u128
                    * f as u128
                    invariant
                        len == sorted@.len(),
                        1 <= keep <= len,
                        keep <= max_int(n as int, 1),
                        best == sorted@[0].cost,
                        best as u128 * f as u128 <= 0xffff_ffff_ffff_ffff * 0xffff_ffff,
                        forall|i: int|
                            1 <= i < keep ==> within_factor(
                                (#[trigger] sorted@[i]).cost,
                                sorted@[0].cost,
                                f,
                            ),
                    decreases len - keep,
                {
                    keep = keep + 1;
                }
                proof {
                    assert(keeps_within(sorted@, n as int, f, keep as int));
                }
                let pruned: u64 = if cap > keep {
                    (cap - keep) as u64
                } else {
                    0
                };
                let candidates = take_modes(&sorted, keep);
                return LumaSelection { candidates, pruned, mpm0_forced: false };
            }
        },
        None => {},
    }
    let candidates = take_modes(&sorted, cap);
    LumaSelection { candidates, pruned: 0, mpm0_forced: false }
}

fn take_modes(sorted: &Vec<Scored<u8>>, n: usize) -> (modes: Vec<u8>)
    requires
        n <= sorted@.len(),
    ensures
        modes@ == modes_of(sorted@.take(n as int)),
{
    let mut modes: Vec<u8> = Vec::new();
    for i in 0..n
        invariant
            n <= sorted@.len(),
            modes@.len() == i,
            forall|k: int| 0 <= k < i ==> #[trigger] modes@[k] == sorted@[k].item,
    {
        modes.push(sorted[i].item);
    }
    assert(modes@ =~= modes_of(sorted@.take(n as int)));
    modes
}

/// A quarter above a cost, as far as costs go.
pub open spec fn padded(best: u64) -> u64 {
    min_int(best + best / 4, u64::MAX as int) as u64
}

/// The scored modes that cost at most `limit`, and the first most probable mode whatever
/// it costs.
pub open spec fn near_limit(s: Seq<Scored<u8>>, limit: u64, mpm0: u8) -> Seq<Scored<u8>>
    decreases s.len(),
{
    if s.len() == 0 {
        s
    } else if s.last().cost <= limit || s.last().item == mpm0 {
        near_limit(s.drop_last(), limit, mpm0).push(s.last())
    } else {
        near_limit(s.drop_last(), limit, mpm0)
    }
}

/// The sorted modes that cost at most a quarter more than the best, and the first most
/// probable mode whatever it costs.
pub open spec fn near_best(sorted: Seq<Scored<u8>>, mpm0: u8) -> Seq<Scored<u8>> {
    near_limit(sorted, padded(sorted[0].cost), mpm0)
}

/// A mode is in a list against its cost.
pub open spec fn dear_mode(s: Seq<Scored<u8>>, mode: u8, limit: u64) -> bool {
    exists|i: int| 0 <= i < s.len() && (#[trigger] s[i]).item == mode && s[i].cost > limit
}

pub open spec fn has_mode(s: Seq<Scored<u8>>, mode: u8) -> bool {
    exists|i: int| 0 <= i < s.len() && (#[trigger] s[i]).item == mode
}

/// The first scored entry of a mode.
pub open spec fn first_of(s: Seq<Scored<u8>>, mode: u8) -> Scored<u8>
    decreases s.len(),
{
    if s.len() == 0 {
        Scored { cost: 0, item: mode }
    } else if s[0].item == mode {
        s[0]
    } else {
        first_of(s.skip(1), mode)
    }
}

/// The modes that a screen of at most `max_cands` keeps: those near the best, the last of
/// them making way for the first most probable mode where it would be cut.
pub open spec fn screened(sorted: Seq<Scored<u8>>, mpm0: u8, max_cands: int) -> Seq<Scored<u8>> {
    let near = near_best(sorted, mpm0);
    let cut = near.take(min_int(max_cands, near.len() as int));
    if has_mode(cut, mpm0) || !has_mode(sorted, mpm0) {
        cut
    } else {
        by_cost(cut.update(cut.len() - 1, first_of(sorted, mpm0)))
    }
}

/// A screen keeps the first most probable mode against its cost, or against the cut.
pub open spec fn mode_forced(sorted: Seq<Scored<u8>>, mpm0: u8, max_cands: int) -> bool {
    let near = near_best(sorted, mpm0);
    ||| dear_mode(near, mpm0, padded(sorted[0].cost))
    ||| has_mode(sorted, mpm0) && !has_mode(
        near.take(min_int(max_cands, near.len() as int)),
        mpm0,
    )
}

/// How many modes the screen keeps at a coding depth.
pub open spec fn screen_size(ct_depth: u8) -> int {
    8 + ct_depth as int / 2
}

pub fn screen_limit(ct_depth: u8) -> (n: usize)
    ensures
        n == screen_size(ct_depth),
{
    8 + (ct_depth / 2) as usize
}

/// How many modes the narrow screen keeps at a coding depth.
pub open spec fn narrow_screen_size(ct_depth: u8) -> int {
    min_int(5 + ct_depth as int / 2, 8)
}

pub fn narrow_screen_limit(ct_depth: u8) -> (n: usize)
    ensures
        n == narrow_screen_size(ct_depth),
{
    let n: usize = 5 + (ct_depth / 2) as usize;
    if n < 8 {
        n
    } else {
        8
    }
}

fn find_mode(s: &Vec<Scored<u8>>, mode: u8) -> (r: Option<Scored<u8>>)
    ensures
        r is Some == has_mode(s@, mode),
        r is Some ==> r.unwrap() == first_of(s@, mode),
{
    let n: usize = s.len();
    assert(s@.skip(0) =~= s@);
    for i in 0..n
        invariant
            n == s@.len(),
            forall|k: int| 0 <= k < i ==> (#[trigger] s@[k]).item != mode,
            first_of(s@, mode) == first_of(s@.skip(i as int), mode),
    {
        if s[i].item == mode {
            assert(s@.skip(i as int)[0] == s@[i as int]);
            assert(has_mode(s@, mode));
            return Some(s[i]);
        }
        assert(s@.skip(i as int).skip(1) =~= s@.skip(i + 1));
    }
    None
}

/// Sorts scored modes and screens them.
pub fn select_screened(scored: &Vec<Scored<u8>>, mpm0: u8, max_cands: usize) -> (s: LumaSelection)
    requires
        scored@.len() > 0,
        max_cands > 0,
    ensures
        s.candidates@ == modes_of(screened(by_cost(scored@), mpm0, max_cands as int)),
        s.pruned == 0,
        s.mpm0_forced == mode_forced(by_cost(scored@), mpm0, max_cands as int),
{
    let sorted = sort_by_cost(scored);
    proof {
        law_sorted(scored@);
    }
    let best: u64 = sorted[0].cost;
    let quarter: u64 = best / 4;
    let limit: u64 = if best <= u64::MAX - quarter {
        best + quarter
    } else {
        u64::MAX
    };
    let ghost near = near_best(sorted@, mpm0);
    assert(limit == padded(best));
    let n: usize = sorted.len();
    let mut cut: Vec<Scored<u8>> = Vec::new();
    let mut mpm0_forced: bool = false;
    let mut near_len: usize = 0;
    assert(sorted@.take(0) =~= Seq::<Scored<u8>>::empty());
    for i in 0..n
        invariant
            n == sorted@.len(),
            near_len == near_limit(sorted@.take(i as int), limit, mpm0).len(),
            near_len <= i,
            cut@ == near_limit(sorted@.take(i as int), limit, mpm0).take(
                min_int(max_cands as int, near_len as int),
            ),
            mpm0_forced == dear_mode(
                near_limit(sorted@.take(i as int), limit, mpm0),
                mpm0,
                limit,
            ),
    {
        let ghost before = near_limit(sorted@.take(i as int), limit, mpm0);
        let ghost after = near_limit(sorted@.take(i + 1), limit, mpm0);
        let e = sorted[i];
        proof {
            assert(sorted@.take(i + 1).drop_last() =~= sorted@.take(i as int));
            assert(sorted@.take(i + 1).last() == e);
        }
        if e.cost <= limit || e.item == mpm0 {
            assert(after == before.push(e));
            proof {
                lemma_dear_push(before, e, mpm0, limit);
            }
            if cut.len() < max_cands {
                cut.push(e);
            }
            if e.item == mpm0 && e.cost > limit {
                mpm0_forced = true;
            }
            near_len = near_len + 1;
            assert(cut@ =~= after.take(min_int(max_cands as int, near_len as int)));
        } else {
            assert(after == before);
        }
    }
    assert(sorted@.take(n as int) =~= sorted@);
    let ghost first_cut = cut@;
    assert(first_cut == near.take(min_int(max_cands as int, near.len() as int)));
    let in_cut = find_mode(&cut, mpm0);
    let mut selected: Vec<Scored<u8>> = cut;
    match in_cut {
        Some(_) => {},
        None => {
            let known = find_mode(&sorted, mpm0);
            match known {
                Some(rec) => {
                    mpm0_forced = true;
                    proof {
                        lemma_near_has(sorted@, limit, mpm0);
                        let k = choose|k: int| 0 <= k < near.len() && (#[trigger] near[k]).item == mpm0;
                        assert(near.len() > 0);
                    }
                    let last: usize = selected.len() - 1;
                    selected.set(last, rec);
                    selected = sort_by_cost(&selected);
                    proof {
                        law_sorted(first_cut.update(last as int, rec));
                    }
                },
                None => {},
            }
        },
    }
    let len: usize = selected.len();
    let candidates = take_modes(&selected, len);
    assert(selected@.take(len as int) =~= selected@);
    LumaSelection { candidates, pruned: 0, mpm0_forced }
}

proof fn lemma_dear_push(s: Seq<Scored<u8>>, e: Scored<u8>, mode: u8, limit: u64)
    ensures
        dear_mode(s.push(e), mode, limit) == (dear_mode(s, mode, limit) || (e.item == mode && e.cost
            > limit)),
{
    if dear_mode(s, mode, limit) {
        let i = choose|i: int|
            0 <= i < s.len() && (#[trigger] s[i]).item == mode && s[i].cost > limit;
        assert(s.push(e)[i] == s[i]);
    }
    if e.item == mode && e.cost > limit {
        assert(s.push(e)[s.len() as int] == e);
    }
    if dear_mode(s.push(e), mode, limit) {
        let i = choose|i: int|
            0 <= i < s.push(e).len() && (#[trigger] s.push(e)[i]).item == mode && s.push(e)[i].cost
                > limit;
        if i < s.len() {
            assert(s[i] == s.push(e)[i]);
        }
    }
}

/// The screen never drops the first most probable mode before it cuts.
proof fn lemma_near_has(s: Seq<Scored<u8>>, limit: u64, mpm0: u8)
    requires
        has_mode(s, mpm0),
    ensures
        has_mode(near_limit(s, limit, mpm0), mpm0),
    decreases s.len(),
{
    let i = choose|i: int| 0 <= i < s.len() && (#[trigger] s[i]).item == mpm0;
    let near = near_limit(s, limit, mpm0);
    if s.last().item == mpm0 {
        assert(near[near.len() - 1].item == mpm0);
    } else {
        assert(s.drop_last()[i] == s[i]);
        lemma_near_has(s.drop_last(), limit, mpm0);
        let inner = near_limit(s.drop_last(), limit, mpm0);
        let k = choose|k: int| 0 <= k < inner.len() && (#[trigger] inner[k]).item == mpm0;
        assert(near[k] == inner[k]);
    }
}

/// What a budget makes of scored modes. A screen, where there is one, takes the place of
/// the budget's number and factor.
pub open spec fn chosen_from(
    budget: &BlockSearchBudget,
    scored: Seq<Scored<u8>>,
    mpm0: u8,
    screen: Option<usize>,
    s: &LumaSelection,
    expansions: int,
) -> bool {
    let n = budget.luma_rd_candidates as int;
    let base = budget.luma_rd_candidates_base as int;
    let grown = if n > base {
        1int
    } else {
        0
    };
    if screen is Some && scored.len() > 0 {
        &&& s.candidates@ == modes_of(screened(by_cost(scored), mpm0, screen.unwrap() as int))
        &&& s.pruned == 0
        &&& s.mpm0_forced == mode_forced(by_cost(scored), mpm0, screen.unwrap() as int)
        &&& expansions == grown + max_int(s.candidates@.len() - base, 0)
    } else if screen is None && budget.rmd_prune_factor_milli is Some && scored.len() > 0 {
        &&& exists|keep: int|
            {
                &&& #[trigger] keeps_within(
                    by_cost(scored),
                    n,
                    budget.rmd_prune_factor_milli.unwrap(),
                    keep,
                )
                &&& s.candidates@ == modes_of(by_cost(scored).take(keep))
                &&& s.pruned == max_int(min_int(n, scored.len() as int) - keep, 0)
            }
        &&& !s.mpm0_forced
        &&& expansions == grown
    } else {
        &&& s.candidates@ == modes_of(by_cost(scored).take(min_int(n, scored.len() as int)))
        &&& s.pruned == 0
        &&& !s.mpm0_forced
        &&& expansions == grown
    }
}

/// Chooses candidates among scored modes, and counts those beyond the budget's base.
pub fn luma_candidates(
    budget: &BlockSearchBudget,
    scored: &Vec<Scored<u8>>,
    mpm0: u8,
    screen: Option<usize>,
) -> (r: (LumaSelection, u64))
    requires
        screen is Some ==> 0 < screen.unwrap() <= u32::MAX,
    ensures
        chosen_from(budget, scored@, mpm0, screen, &r.0, r.1 as int),
{
    let n: usize = budget.luma_rd_candidates as usize;
    let base: usize = budget.luma_rd_candidates_base as usize;
    let grown: u64 = if n > base {
        1
    } else {
        0
    };
    if let Some(max_cands) = screen {
        if scored.len() > 0 {
            let s = select_screened(scored, mpm0, max_cands);
            let len: usize = s.candidates.len();
            proof {
                lemma_screened_len(scored@, mpm0, max_cands as int);
            }
            let more: u64 = if len > base {
                (len - base) as u64
            } else {
                0
            };
            return (s, grown + more);
        }
        return (select_cheapest(scored, n, None), grown);
    }
    (select_cheapest(scored, n, budget.rmd_prune_factor_milli), grown)
}

/// A luma block.
#[derive(Clone, Copy, Debug, PartialEq, Eq, Structural)]
pub struct Place {
    pub x: u32,
    pub y: u32,
    pub log2_size: u8,
}

/// Each mode was scored.
pub open spec fn scored_by<W, S>(
    world: &W,
    at: Place,
    score: S,
    modes: Seq<u8>,
    costs: Seq<u64>,
) -> bool where S: Fn(&W, Place, u8) -> u64 {
    &&& costs.len() == modes.len()
    &&& forall|i: int|
        0 <= i < modes.len() ==> call_ensures(score, (world, at, modes[i]), #[trigger] costs[i])
}

fn score_modes<W, S>(world: &W, at: Place, score: &S, modes: &Vec<u8>) -> (costs: Vec<u64>) where
    S: Fn(&W, Place, u8) -> u64,

    requires
        forall|m: u8| #[trigger] call_requires(*score, (world, at, m)),
    ensures
        scored_by(world, at, *score, modes@, costs@),
{
    let n: usize = modes.len();
    let mut costs: Vec<u64> = Vec::new();
    for i in 0..n
        invariant
            n == modes@.len(),
            forall|m: u8| #[trigger] call_requires(*score, (world, at, m)),
            costs@.len() == i,
            forall|k: int|
                0 <= k < i ==> call_ensures(*score, (world, at, modes@[k]), #[trigger] costs@[k]),
    {
        let cost: u64 = (*score)(world, at, modes[i]);
        costs.push(cost);
    }
    costs
}

/// What is scored second under a mode set: nothing, where the scan is not progressive.
pub open spec fn refined_modes(
    set: RmdModeSet,
    prune_angular: bool,
    mpm: Seq<u8>,
    costs: Seq<u64>,
) -> Seq<u8> {
    match set {
        RmdModeSet::Progressive { top_regions, refine_radius, .. } if !prune_angular => {
            let first = first_modes(set, prune_angular, mpm);
            second_modes(
                first,
                scored_modes(first, costs).skip(coarse_start(set, prune_angular, mpm) as int),
                top_regions,
                refine_radius,
            )
        },
        _ => Seq::empty(),
    }
}

/// The candidate modes of a block.
pub struct LumaModePlan {
    pub selection: LumaSelection,
    pub pruning: AngularPruning,
    pub expansions: u64,
    pub scored: usize,
}

/// The rough predictions of so many modes.
pub open spec fn scan_work(n: nat) -> EncodeStats {
    EncodeStats { luma_rough_predictions: n as u64, ..EncodeStats::none() }
}

/// Counts the rough predictions of so many modes.
pub fn count_scan(n: usize) -> (work: EncodeStats)
    ensures
        work == scan_work(n as nat),
{
    EncodeStats { luma_rough_predictions: n as u64, ..EncodeStats::default() }
}

/// Names the scores of the two steps of a scan.
pub open spec fn scan_costs(first: Seq<u64>, second: Seq<u64>) -> bool {
    true
}

/// Candidate modes were chosen from a scan.
pub open spec fn modes_decided<W, S>(
    world: &W,
    at: Place,
    score: S,
    budget: &BlockSearchBudget,
    mpm: Seq<u8>,
    screen: Option<usize>,
    plan: &LumaModePlan,
) -> bool where S: Fn(&W, Place, u8) -> u64 {
    exists|first_costs: Seq<u64>, second_costs: Seq<u64>|
        {
            let set = budget.rmd_mode_set;
            let prune = plan.pruning.prune;
            let first = first_modes(set, prune, mpm);
            let second = refined_modes(set, prune, mpm, first_costs);
            let all = scored_modes(first, first_costs) + scored_modes(second, second_costs);
            &&& #[trigger] scan_costs(first_costs, second_costs)
            &&& scored_by(world, at, score, first, first_costs)
            &&& scored_by(world, at, score, second, second_costs)
            &&& chosen_from(
                budget,
                all,
                mpm[0],
                screen,
                &plan.selection,
                plan.expansions as int,
            )
            &&& plan.scored == all.len()
        }
}

/// Scores modes, the neighbourhoods of the best of a coarse sweep after it, and chooses
/// the candidates. `local_prune` says that the block is too smooth for angular modes.
pub fn decide_luma_modes<W, S>(
    world: &W,
    at: Place,
    score: &S,
    budget: &BlockSearchBudget,
    mpm: [u8; 3],
    local_prune: bool,
    screen: Option<usize>,
) -> (plan: LumaModePlan) where S: Fn(&W, Place, u8) -> u64
    requires
        forall|m: u8| #[trigger] call_requires(*score, (world, at, m)),
        screen is Some ==> 0 < screen.unwrap() <= u32::MAX,
    ensures
        modes_decided(world, at, *score, budget, mpm@, screen, &plan),
        plan.pruning == steered_pruning(budget.angular_prune, local_prune),
        budget.luma_rd_candidates > 0 ==> plan.selection.candidates@.len() > 0,
{
    let pruning = angular_pruning(budget.angular_prune, local_prune);
    let set = budget.rmd_mode_set;
    let first = first_scan(set, pruning.prune, mpm);
    let first_costs = score_modes(world, at, score, &first.modes);
    let mut second: Vec<u8> = Vec::new();
    if !pruning.prune {
        if let RmdModeSet::Progressive { top_regions, refine_radius, .. } = set {
            second = second_scan(&first, &first_costs, top_regions, refine_radius);
        }
    }
    assert(second@ =~= refined_modes(set, pruning.prune, mpm@, first_costs@));
    let second_costs = score_modes(world, at, score, &second);
    let mut scored: Vec<Scored<u8>> = Vec::new();
    let n: usize = first.modes.len();
    for i in 0..n
        invariant
            n == first.modes@.len(),
            first_costs@.len() == n,
            scored@ == scored_modes(first.modes@, first_costs@).take(i as int),
    {
        scored.push(Scored { cost: first_costs[i], item: first.modes[i] });
        assert(scored@ =~= scored_modes(first.modes@, first_costs@).take(i + 1));
    }
    assert(scored@ =~= scored_modes(first.modes@, first_costs@));
    let ghost head = scored@;
    let m: usize = second.len();
    for i in 0..m
        invariant
            m == second@.len(),
            second_costs@.len() == m,
            scored@ == head + scored_modes(second@, second_costs@).take(i as int),
    {
        scored.push(Scored { cost: second_costs[i], item: second[i] });
        assert(scored@ =~= head + scored_modes(second@, second_costs@).take(i + 1));
    }
    assert(scored@ =~= head + scored_modes(second@, second_costs@));
    let (selection, expansions) = luma_candidates(budget, &scored, mpm[0], screen);
    assert(scan_costs(first_costs@, second_costs@));
    proof {
        lemma_first_scored(set, pruning.prune, mpm@);
        if budget.luma_rd_candidates > 0 {
            lemma_some_chosen(budget, scored@, mpm@[0], screen, &selection, expansions as int);
        }
    }
    LumaModePlan { selection, pruning, expansions, scored: scored.len() }
}

/// A transformed difference and some bits on one scale.
pub open spec fn rough_sum(satd: int, mode_bits: int) -> int {
    satd * CabacEstimator::SCALE + mode_bits
}

/// The rough score of a mode outside the reference cost model: the transformed
/// difference of its prediction, and the bits of its number.
pub fn luma_rough_score(satd: u32, mode_bits: u64) -> (score: u64)
    requires
        mode_bits <= u64::MAX / 2,
    ensures
        score == rough_sum(satd as int, mode_bits as int),
{
    assert(satd * CabacEstimator::SCALE <= 0xffff_ffff * 0x8000) by (nonlinear_arith)
        requires
            satd <= 0xffff_ffff,
            CabacEstimator::SCALE == 0x8000,
    ;
    satd as u64 * CabacEstimator::SCALE + mode_bits
}

proof fn lemma_screened_len(scored: Seq<Scored<u8>>, mpm0: u8, max_cands: int)
    requires
        max_cands > 0,
    ensures
        screened(by_cost(scored), mpm0, max_cands).len() <= scored.len(),
        screened(by_cost(scored), mpm0, max_cands).len() <= max_cands,
{
    let sorted = by_cost(scored);
    law_sorted(scored);
    let near = near_best(sorted, mpm0);
    lemma_near_len(sorted, padded(sorted[0].cost), mpm0);
    let cut = near.take(min_int(max_cands, near.len() as int));
    if has_mode(sorted, mpm0) {
        lemma_near_has(sorted, padded(sorted[0].cost), mpm0);
    }
    law_sorted(cut.update(cut.len() - 1, first_of(sorted, mpm0)));
}

proof fn lemma_near_len(s: Seq<Scored<u8>>, limit: u64, mpm0: u8)
    ensures
        near_limit(s, limit, mpm0).len() <= s.len(),
        forall|k: int|
            0 <= k < near_limit(s, limit, mpm0).len() ==> s.contains(
                #[trigger] near_limit(s, limit, mpm0)[k],
            ),
    decreases s.len(),
{
    if s.len() > 0 {
        let rest = s.drop_last();
        lemma_near_len(rest, limit, mpm0);
        assert forall|k: int| 0 <= k < near_limit(s, limit, mpm0).len() implies s.contains(
            #[trigger] near_limit(s, limit, mpm0)[k],
        ) by {
            let e = near_limit(s, limit, mpm0)[k];
            if k < near_limit(rest, limit, mpm0).len() {
                assert(e == near_limit(rest, limit, mpm0)[k]);
                assert(rest.contains(e));
                let i = choose|i: int| 0 <= i < rest.len() && rest[i] == e;
                assert(s[i] == e);
            } else {
                assert(e == s[s.len() - 1]);
            }
        }
    }
}

proof fn lemma_first_of(s: Seq<Scored<u8>>, mode: u8)
    requires
        has_mode(s, mode),
    ensures
        s.contains(first_of(s, mode)),
        first_of(s, mode).item == mode,
    decreases s.len(),
{
    let i = choose|i: int| 0 <= i < s.len() && (#[trigger] s[i]).item == mode;
    if s[0].item == mode {
    } else {
        assert(s.skip(1)[i - 1] == s[i]);
        lemma_first_of(s.skip(1), mode);
        let k = choose|k: int| 0 <= k < s.skip(1).len() && s.skip(1)[k] == first_of(s.skip(1), mode);
        assert(s[k + 1] == first_of(s, mode));
    }
}

/// The screen keeps scored modes alone, never more than it may, and always the first most
/// probable mode where that was scored.
pub proof fn law_screen_keeps_probable_mode(scored: Seq<Scored<u8>>, mpm0: u8, max_cands: int)
    requires
        scored.len() > 0,
        max_cands > 0,
    ensures
        ({
            let kept = screened(by_cost(scored), mpm0, max_cands);
            &&& kept.len() <= max_cands
            &&& forall|i: int| 0 <= i < kept.len() ==> scored.contains(#[trigger] kept[i])
            &&& has_mode(scored, mpm0) ==> has_mode(kept, mpm0)
        }),
{
    let sorted = by_cost(scored);
    let limit = padded(sorted[0].cost);
    let near = near_best(sorted, mpm0);
    let cut = near.take(min_int(max_cands, near.len() as int));
    let kept = screened(sorted, mpm0, max_cands);
    law_sorted(scored);
    lemma_screened_len(scored, mpm0, max_cands);
    lemma_near_len(sorted, limit, mpm0);
    if has_mode(scored, mpm0) {
        let i = choose|i: int| 0 <= i < scored.len() && (#[trigger] scored[i]).item == mpm0;
        assert(scored.contains(scored[i]));
        lemma_sorted_contains(scored, scored[i]);
        let k = choose|k: int| 0 <= k < sorted.len() && sorted[k] == scored[i];
        assert(sorted[k].item == mpm0);
        lemma_near_has(sorted, limit, mpm0);
    }
    let swapped = cut.update(cut.len() - 1, first_of(sorted, mpm0));
    law_sorted(swapped);
    if !(has_mode(cut, mpm0) || !has_mode(sorted, mpm0)) {
        let rec = first_of(sorted, mpm0);
        lemma_near_has(sorted, limit, mpm0);
        lemma_first_of(sorted, mpm0);
        assert(swapped[cut.len() - 1] == rec);
        assert(swapped.contains(rec));
        lemma_sorted_contains(swapped, rec);
        let k = choose|k: int| 0 <= k < kept.len() && kept[k] == rec;
        assert(kept[k].item == mpm0);
    }
    assert forall|i: int| 0 <= i < kept.len() implies scored.contains(#[trigger] kept[i]) by {
        let e = kept[i];
        if has_mode(cut, mpm0) || !has_mode(sorted, mpm0) {
            assert(e == near[i]);
            assert(sorted.contains(e));
        } else {
            assert(kept.contains(e));
            lemma_sorted_contains(swapped, e);
            let k = choose|k: int| 0 <= k < swapped.len() && swapped[k] == e;
            lemma_first_of(sorted, mpm0);
            if k < cut.len() - 1 {
                assert(e == near[k]);
            }
            assert(sorted.contains(e));
        }
        lemma_sorted_contains(scored, e);
    }
}

proof fn lemma_join_mode_distinct(modes: Seq<u8>, m: u8)
    requires
        modes.no_duplicates(),
    ensures
        join_mode(modes, m).no_duplicates(),
        join_mode(modes, m).contains(m),
        forall|x: u8| modes.contains(x) ==> #[trigger] join_mode(modes, m).contains(x),
{
    let after = join_mode(modes, m);
    if !modes.contains(m) {
        assert(after[modes.len() as int] == m);
        assert forall|x: u8| modes.contains(x) implies #[trigger] after.contains(x) by {
            let i = choose|i: int| 0 <= i < modes.len() && modes[i] == x;
            assert(after[i] == x);
        }
    }
}

proof fn lemma_join_modes_distinct(modes: Seq<u8>, more: Seq<u8>, n: nat)
    requires
        modes.no_duplicates(),
        n <= more.len(),
    ensures
        join_modes(modes, more, n).no_duplicates(),
        forall|x: u8| modes.contains(x) ==> #[trigger] join_modes(modes, more, n).contains(x),
        forall|i: int|
            0 <= i < n ==> join_modes(modes, more, n).contains(#[trigger] more[i]),
    decreases n,
{
    if n > 0 {
        lemma_join_modes_distinct(modes, more, (n - 1) as nat);
        lemma_join_mode_distinct(join_modes(modes, more, (n - 1) as nat), more[n - 1]);
    }
}

proof fn lemma_join_range_distinct(modes: Seq<u8>, lo: int, n: nat)
    requires
        modes.no_duplicates(),
    ensures
        join_range(modes, lo, n).no_duplicates(),
    decreases n,
{
    if n > 0 {
        lemma_join_range_distinct(modes, lo, (n - 1) as nat);
        lemma_join_mode_distinct(join_range(modes, lo, (n - 1) as nat), (lo + n - 1) as u8);
    }
}

proof fn lemma_join_refined_distinct(modes: Seq<u8>, kept: Seq<u8>, radius: u8, n: nat)
    requires
        modes.no_duplicates(),
        n <= kept.len(),
    ensures
        join_refined(modes, kept, radius, n).no_duplicates(),
    decreases n,
{
    if n > 0 {
        lemma_join_refined_distinct(modes, kept, radius, (n - 1) as nat);
        lemma_join_range_distinct(
            join_refined(modes, kept, radius, (n - 1) as nat),
            refine_lo(kept[n - 1], radius),
            refine_len(kept[n - 1], radius),
        );
    }
}

/// A progressive scan scores no mode twice, in either step.
pub proof fn law_progressive_scores_once(
    coarse_step: u8,
    top_regions: u8,
    refine_radius: u8,
    mpm: Seq<u8>,
    coarse: Seq<Scored<u8>>,
)
    ensures
        ({
            let set = RmdModeSet::Progressive { coarse_step, top_regions, refine_radius };
            let first = first_modes(set, false, mpm);
            (first + second_modes(first, coarse, top_regions, refine_radius)).no_duplicates()
        }),
{
    let set = RmdModeSet::Progressive { coarse_step, top_regions, refine_radius };
    let first = first_modes(set, false, mpm);
    let all = scan_modes(RmdModeSet::MpmPlanarDcOnly) + mpm;
    let sweep = stepped(max_int(coarse_step as int, 1));
    lemma_join_modes_distinct(Seq::empty(), all, all.len());
    lemma_join_modes_distinct(scan_base(mpm), sweep, sweep.len());
    let centers = coarse_centers(coarse, top_regions);
    lemma_join_refined_distinct(first, centers, refine_radius, centers.len());
    lemma_join_refined_prefix(first, centers, refine_radius, centers.len());
    let joined = join_refined(first, centers, refine_radius, centers.len());
    assert(joined.take(first.len() as int) =~= first);
    assert(first + joined.skip(first.len() as int) =~= joined);
}

proof fn lemma_first_scored(set: RmdModeSet, prune_angular: bool, mpm: Seq<u8>)
    requires
        mpm.len() == 3,
    ensures
        first_modes(set, prune_angular, mpm).len() > 0,
{
    if !prune_angular && set is Progressive {
        let all = scan_modes(RmdModeSet::MpmPlanarDcOnly) + mpm;
        let sweep = stepped(max_int(set->coarse_step as int, 1));
        lemma_join_modes_distinct(Seq::empty(), all, all.len());
        lemma_join_modes_distinct(scan_base(mpm), sweep, sweep.len());
        assert(scan_base(mpm).contains(all[0]));
        assert(first_modes(set, prune_angular, mpm).contains(all[0]));
    }
}

proof fn lemma_near_some(s: Seq<Scored<u8>>, limit: u64, mpm0: u8)
    requires
        s.len() > 0,
        s[0].cost <= limit,
    ensures
        near_limit(s, limit, mpm0).len() > 0,
    decreases s.len(),
{
    if s.len() > 1 {
        lemma_near_some(s.drop_last(), limit, mpm0);
    }
}

/// Where modes were scored, one is chosen.
proof fn lemma_some_chosen(
    budget: &BlockSearchBudget,
    scored: Seq<Scored<u8>>,
    mpm0: u8,
    screen: Option<usize>,
    s: &LumaSelection,
    expansions: int,
)
    requires
        chosen_from(budget, scored, mpm0, screen, s, expansions),
        scored.len() > 0,
        budget.luma_rd_candidates > 0,
        screen is Some ==> screen.unwrap() > 0,
    ensures
        s.candidates@.len() > 0,
{
    let sorted = by_cost(scored);
    law_sorted(scored);
    if screen is Some {
        lemma_near_some(sorted, padded(sorted[0].cost), mpm0);
        let near = near_best(sorted, mpm0);
        let cut = near.take(min_int(screen.unwrap() as int, near.len() as int));
        law_sorted(cut.update(cut.len() - 1, first_of(sorted, mpm0)));
    }
}

/// Planar, DC and the most probable modes are always scored, also where angular modes are
/// dropped.
pub proof fn law_base_modes_scored(set: RmdModeSet, prune_angular: bool, mpm: Seq<u8>, i: int)
    requires
        set.well_formed(),
        0 <= i < mpm.len(),
    ensures
        first_modes(set, prune_angular, mpm).contains(0),
        first_modes(set, prune_angular, mpm).contains(1),
        first_modes(set, prune_angular, mpm).contains(mpm[i]),
{
    let first = first_modes(set, prune_angular, mpm);
    let used = if prune_angular {
        RmdModeSet::MpmPlanarDcOnly
    } else {
        set
    };
    if !prune_angular && set is Progressive {
        let coarse_step = set->coarse_step;
        let all = scan_modes(RmdModeSet::MpmPlanarDcOnly) + mpm;
        let sweep = stepped(max_int(coarse_step as int, 1));
        lemma_join_modes_distinct(Seq::empty(), all, all.len());
        lemma_join_modes_distinct(scan_base(mpm), sweep, sweep.len());
        assert(all[0] == 0 && all[1] == 1 && all[2 + i] == mpm[i]);
        assert(scan_base(mpm).contains(all[0]));
        assert(scan_base(mpm).contains(all[1]));
        assert(scan_base(mpm).contains(all[2 + i]));
    } else {
        law_scan_has_base_modes(used);
        let scanned = scan_modes(used);
        assert(first == scanned + mpm);
        assert(first[0] == 0 && first[1] == 1 && first[scanned.len() + i] == mpm[i]);
    }
}

} // verus!
