//! Refining quantised levels one by one while that lowers the cost of the block.

use vstd::prelude::*;

use crate::block_eval::{count_nonzero, nonzeros};
use crate::stats::EncodeStats;

verus! {

/// What refining levels asks of its caller.
pub struct RefineEnv<D, T, O, F, A, C> {
    /// The squared error of a coefficient that is quantised to a level.
    pub error: D,
    /// What the levels cost, in fractional bits.
    pub total: T,
    /// What the levels cost with one of them changed, where the tables of the levels tell.
    pub changed: O,
    /// What the levels cost with one of them changed, counted anew.
    pub full: F,
    /// Whether the tables follow a level that was changed; else they are built anew.
    pub follows: A,
    /// The cost of distortion and bits.
    pub price: C,
}

/// The caller answers for the levels of a block of `n`.
pub open spec fn refine_env_ok<D, T, O, F, A, C>(env: &RefineEnv<D, T, O, F, A, C>, n: int) -> bool where
    D: Fn(usize, i16) -> u64,
    T: Fn(&Vec<i16>) -> u64,
    O: Fn(&Vec<i16>, usize, i16) -> Option<u64>,
    F: Fn(&Vec<i16>, usize, i16) -> u64,
    A: Fn(&Vec<i16>, usize) -> bool,
    C: Fn(u64, u64) -> u64,
 {
    &&& forall|i: usize, l: i16| i < n ==> #[trigger] call_requires(env.error, (i, l))
    &&& forall|i: usize, l: i16, e: u64| #[trigger]
        call_ensures(env.error, (i, l), e) && i < n ==> e <= 0xffff_ffff
    &&& forall|v: &Vec<i16>| v@.len() == n ==> #[trigger] call_requires(env.total, (v,))
    &&& forall|v: &Vec<i16>, i: usize, l: i16|
        v@.len() == n && i < n ==> #[trigger] call_requires(env.changed, (v, i, l))
    &&& forall|v: &Vec<i16>, i: usize, l: i16|
        v@.len() == n && i < n ==> #[trigger] call_requires(env.full, (v, i, l))
    &&& forall|v: &Vec<i16>, i: usize|
        v@.len() == n && i < n ==> #[trigger] call_requires(env.follows, (v, i))
    &&& forall|d: u64, b: u64| #[trigger] call_requires(env.price, (d, b))
}

/// The sum of the first `n` errors.
pub open spec fn error_sum(errors: Seq<u64>, n: nat) -> int
    decreases n,
{
    if n == 0 {
        0
    } else {
        error_sum(errors, (n - 1) as nat) + errors[n - 1]
    }
}

/// The levels that a level may become: none, one nearer to zero, one farther. The lowest
/// level has no magnitude of its own and may become the highest.
pub open spec fn other_levels(level: i16) -> Seq<i16> {
    if level == 0 {
        Seq::empty()
    } else if level == i16::MIN {
        seq![0i16, i16::MAX]
    } else if level > 0 {
        seq![0i16] + (if level > 1 {
            seq![(level - 1) as i16]
        } else {
            Seq::empty()
        }) + (if level < i16::MAX {
            seq![(level + 1) as i16]
        } else {
            Seq::empty()
        })
    } else {
        seq![0i16] + (if level < -1 {
            seq![(level + 1) as i16]
        } else {
            Seq::empty()
        }) + (if level > -i16::MAX {
            seq![(level - 1) as i16]
        } else {
            Seq::empty()
        })
    }
}

fn list_other_levels(level: i16) -> (v: Vec<i16>)
    requires
        level != 0,
    ensures
        v@ == other_levels(level),
        v@.len() <= 3,
{
    let mut v: Vec<i16> = Vec::new();
    v.push(0);
    if level == i16::MIN {
        v.push(i16::MAX);
    } else if level > 0 {
        if level > 1 {
            v.push(level - 1);
        }
        if level < i16::MAX {
            v.push(level + 1);
        }
    } else {
        if level < -1 {
            v.push(level + 1);
        }
        if level > -i16::MAX {
            v.push(level - 1);
        }
    }
    assert(v@ =~= other_levels(level));
    v
}

/// Levels on the way of refinement.
pub struct Refining {
    pub levels: Vec<i16>,
    /// The error of each coefficient.
    pub errors: Vec<u64>,
    /// The block's error.
    pub error: u64,
    /// The lowest cost so far.
    pub best: u64,
    /// Some level was changed.
    pub changed: bool,
    pub work: EncodeStats,
}

/// Refined levels, how many of them are not zero, and the work that refining them took.
pub struct Refined {
    pub levels: Vec<i16>,
    pub nonzeros: u32,
    pub work: EncodeStats,
}

/// A change of the only level that is not zero leaves none.
pub open spec fn leaves_none(levels: Seq<i16>, other: i16) -> bool {
    other == 0 && nonzeros(levels, levels.len()) == 1
}

/// What a change costs: as the tables tell, and else counted anew, where anything is left.
pub open spec fn change_priced<D, T, O, F, A, C>(
    env: &RefineEnv<D, T, O, F, A, C>,
    levels: &Vec<i16>,
    idx: usize,
    other: i16,
    told: Option<u64>,
    bits: u64,
) -> bool where
    D: Fn(usize, i16) -> u64,
    T: Fn(&Vec<i16>) -> u64,
    O: Fn(&Vec<i16>, usize, i16) -> Option<u64>,
    F: Fn(&Vec<i16>, usize, i16) -> u64,
    A: Fn(&Vec<i16>, usize) -> bool,
    C: Fn(u64, u64) -> u64,
 {
    &&& call_ensures(env.changed, (levels, idx, other), told)
    &&& match told {
        Some(b) => bits == b,
        None => if leaves_none(levels@, other) {
            bits == 0
        } else {
            call_ensures(env.full, (levels, idx, other), bits)
        },
    }
}

/// The work of pricing a change.
pub open spec fn change_work(levels: Seq<i16>, other: i16, told: Option<u64>) -> EncodeStats {
    match told {
        Some(_) => EncodeStats { cache_fast_hits: 1, ..EncodeStats::none() },
        None => EncodeStats {
            cache_fallbacks: 1,
            residual_bit_estimates: if leaves_none(levels, other) {
                0
            } else {
                1
            },
            ..EncodeStats::none()
        },
    }
}

/// Work with that of pricing the first `n` changes added.
pub open spec fn changes_counted(
    work: EncodeStats,
    levels: Seq<i16>,
    others: Seq<i16>,
    told: Seq<Option<u64>>,
    n: nat,
) -> EncodeStats
    decreases n,
{
    if n == 0 {
        work
    } else {
        changes_counted(work, levels, others, told, (n - 1) as nat).plus(
            change_work(levels, others[n - 1], told[n - 1]),
        )
    }
}

proof fn lemma_changes_prefix(
    work: EncodeStats,
    levels: Seq<i16>,
    others: Seq<i16>,
    told: Seq<Option<u64>>,
    next: Option<u64>,
    n: nat,
)
    requires
        n <= told.len(),
    ensures
        changes_counted(work, levels, others, told.push(next), n) == changes_counted(
            work,
            levels,
            others,
            told,
            n,
        ),
    decreases n,
{
    if n > 0 {
        lemma_changes_prefix(work, levels, others, told, next, (n - 1) as nat);
        assert(told.push(next)[n - 1] == told[n - 1]);
    }
}

/// Building the tables of levels.
pub open spec fn table_built() -> EncodeStats {
    EncodeStats { cache_builds: 1, ..EncodeStats::none() }
}

fn price_change<D, T, O, F, A, C>(
    env: &RefineEnv<D, T, O, F, A, C>,
    levels: &Vec<i16>,
    idx: usize,
    other: i16,
) -> (r: (Option<u64>, u64, EncodeStats)) where
    D: Fn(usize, i16) -> u64,
    T: Fn(&Vec<i16>) -> u64,
    O: Fn(&Vec<i16>, usize, i16) -> Option<u64>,
    F: Fn(&Vec<i16>, usize, i16) -> u64,
    A: Fn(&Vec<i16>, usize) -> bool,
    C: Fn(u64, u64) -> u64,

    requires
        refine_env_ok(env, levels@.len() as int),
        idx < levels@.len() <= 0x1_0000,
    ensures
        change_priced(env, levels, idx, other, r.0, r.1),
        r.2 == change_work(levels@, other, r.0),
{
    let told: Option<u64> = (env.changed)(levels, idx, other);
    let mut work = EncodeStats::default();
    let bits: u64 = match told {
        Some(b) => {
            work.cache_fast_hits = 1;
            b
        },
        None => {
            work.cache_fallbacks = 1;
            if other == 0 && count_nonzero(levels) == 1 {
                0
            } else {
                work.residual_bit_estimates = 1;
                (env.full)(levels, idx, other)
            }
        },
    };
    (told, bits, work)
}

/// The best of the first `n` levels that were tried, and its error: the first of the
/// cheapest below the lowest cost so far, and else the level as it was.
pub open spec fn level_winner(
    own: (i16, u64, u64),
    others: Seq<i16>,
    errors: Seq<u64>,
    costs: Seq<u64>,
    n: nat,
) -> (i16, u64, u64)
    decreases n,
{
    if n == 0 {
        own
    } else {
        let before = level_winner(own, others, errors, costs, (n - 1) as nat);
        if costs[n - 1] < before.2 {
            (others[n - 1], errors[n - 1], costs[n - 1])
        } else {
            before
        }
    }
}

/// Names the errors, bits and costs of the levels that were tried.
pub open spec fn tried_costs(errors: Seq<u64>, bits: Seq<u64>, costs: Seq<u64>) -> bool {
    true
}

/// Names what the tables told of the levels that were tried, and whether they followed the
/// change.
pub open spec fn tables_told(told: Seq<Option<u64>>, followed: bool) -> bool {
    true
}

/// One level was refined.
pub open spec fn level_refined<D, T, O, F, A, C>(env: &RefineEnv<D, T, O, F, A, C>, idx: usize, p: Refining, r: Refining) -> bool where
    D: Fn(usize, i16) -> u64,
    T: Fn(&Vec<i16>) -> u64,
    O: Fn(&Vec<i16>, usize, i16) -> Option<u64>,
    F: Fn(&Vec<i16>, usize, i16) -> u64,
    A: Fn(&Vec<i16>, usize) -> bool,
    C: Fn(u64, u64) -> u64,
 {
    let i = idx as int;
    let level = p.levels@[i];
    let others = other_levels(level);
    if level == 0 {
        r == p
    } else {
        exists|
            errors: Seq<u64>,
            bits: Seq<u64>,
            costs: Seq<u64>,
            told: Seq<Option<u64>>,
            followed: bool,
        |
            {
                let won = level_winner(
                    (level, p.errors@[i], p.best),
                    others,
                    errors,
                    costs,
                    others.len(),
                );
                &&& #[trigger] tried_costs(errors, bits, costs)
                &&& #[trigger] tables_told(told, followed)
                &&& errors.len() == others.len()
                &&& bits.len() == others.len()
                &&& told.len() == others.len()
                &&& costs.len() == others.len()
                &&& forall|k: int|
                    0 <= k < others.len() ==> call_ensures(
                        env.error,
                        (idx, others[k]),
                        #[trigger] errors[k],
                    )
                &&& forall|k: int|
                    0 <= k < others.len() ==> change_priced(
                        env,
                        &p.levels,
                        idx,
                        others[k],
                        told[k],
                        #[trigger] bits[k],
                    )
                &&& forall|k: int|
                    0 <= k < others.len() ==> call_ensures(
                        env.price,
                        ((p.error - p.errors@[i] + errors[k]) as u64, bits[k]),
                        #[trigger] costs[k],
                    )
                &&& r.levels@ == p.levels@.update(i, won.0)
                &&& r.errors@ == p.errors@.update(i, won.1)
                &&& r.error == p.error - p.errors@[i] + won.1
                &&& r.best == won.2
                &&& r.changed == (p.changed || won.0 != level)
                &&& won.0 != level ==> call_ensures(env.follows, (&r.levels, idx), followed)
                &&& r.work == ({
                    let priced = changes_counted(p.work, p.levels@, others, told, others.len());
                    if won.0 != level && !followed {
                        priced.plus(table_built())
                    } else {
                        priced
                    }
                })
            }
    }
}

pub open spec fn refining(r: Refining) -> bool {
    true
}

/// The first `n` levels were refined in turn.
pub open spec fn levels_refined<D, T, O, F, A, C>(env: &RefineEnv<D, T, O, F, A, C>, n: nat, start: Refining, r: Refining) -> bool where
    D: Fn(usize, i16) -> u64,
    T: Fn(&Vec<i16>) -> u64,
    O: Fn(&Vec<i16>, usize, i16) -> Option<u64>,
    F: Fn(&Vec<i16>, usize, i16) -> u64,
    A: Fn(&Vec<i16>, usize) -> bool,
    C: Fn(u64, u64) -> u64,

    decreases n,
{
    if n == 0 {
        r == start
    } else {
        exists|p: Refining|
            {
                &&& #[trigger] refining(p)
                &&& levels_refined(env, (n - 1) as nat, start, p)
                &&& level_refined(env, (n - 1) as usize, p, r)
            }
    }
}

/// Names what a pass begins with.
pub open spec fn pass_start(bits: u64, start: Refining) -> bool {
    true
}

/// A pass over all levels was made.
pub open spec fn pass_refined<D, T, O, F, A, C>(env: &RefineEnv<D, T, O, F, A, C>, p: Refining, r: Refining) -> bool where
    D: Fn(usize, i16) -> u64,
    T: Fn(&Vec<i16>) -> u64,
    O: Fn(&Vec<i16>, usize, i16) -> Option<u64>,
    F: Fn(&Vec<i16>, usize, i16) -> u64,
    A: Fn(&Vec<i16>, usize) -> bool,
    C: Fn(u64, u64) -> u64,
 {
    exists|bits: u64, start: Refining|
        {
            &&& #[trigger] pass_start(bits, start)
            &&& call_ensures(env.total, (&p.levels,), bits)
            &&& call_ensures(env.price, (p.error, bits), start.best)
            &&& start == (Refining { best: start.best, changed: false, ..p })
            &&& levels_refined(env, p.levels@.len(), start, r)
        }
}

/// `n` passes were made, each but the last with a change.
pub open spec fn passes_refined<D, T, O, F, A, C>(env: &RefineEnv<D, T, O, F, A, C>, n: nat, first: Refining, r: Refining) -> bool where
    D: Fn(usize, i16) -> u64,
    T: Fn(&Vec<i16>) -> u64,
    O: Fn(&Vec<i16>, usize, i16) -> Option<u64>,
    F: Fn(&Vec<i16>, usize, i16) -> u64,
    A: Fn(&Vec<i16>, usize) -> bool,
    C: Fn(u64, u64) -> u64,

    decreases n,
{
    if n == 0 {
        r == first
    } else {
        exists|p: Refining|
            {
                &&& #[trigger] refining(p)
                &&& passes_refined(env, (n - 1) as nat, first, p)
                &&& n > 1 ==> p.changed
                &&& pass_refined(env, p, r)
            }
    }
}

/// Names the passes that were made and what they began with.
pub open spec fn refined_in(n: nat, first: Refining, last: Refining) -> bool {
    true
}

/// Levels were refined in at most so many passes, until one changed nothing.
pub open spec fn block_refined<D, T, O, F, A, C>(
    env: &RefineEnv<D, T, O, F, A, C>,
    levels: Seq<i16>,
    max_passes: u8,
    refined: Seq<i16>,
    nnz: int,
    work: EncodeStats,
) -> bool where
    D: Fn(usize, i16) -> u64,
    T: Fn(&Vec<i16>) -> u64,
    O: Fn(&Vec<i16>, usize, i16) -> Option<u64>,
    F: Fn(&Vec<i16>, usize, i16) -> u64,
    A: Fn(&Vec<i16>, usize) -> bool,
    C: Fn(u64, u64) -> u64,
 {
    exists|n: nat, first: Refining, last: Refining|
        {
            &&& #[trigger] refined_in(n, first, last)
            &&& first.levels@ == levels
            &&& first.errors@.len() == levels.len()
            &&& forall|i: int|
                0 <= i < levels.len() ==> call_ensures(
                    env.error,
                    (i as usize, levels[i]),
                    #[trigger] first.errors@[i],
                )
            &&& first.error == error_sum(first.errors@, levels.len())
            &&& first.work == table_built()
            &&& n <= max_passes
            &&& passes_refined(env, n, first, last)
            &&& n < max_passes ==> n > 0 && !last.changed
            &&& refined == last.levels@
            &&& nnz == nonzeros(refined, refined.len())
            &&& work == last.work
        }
}

/// The running error is the sum of the coefficients' errors.
pub open spec fn refining_ok(r: &Refining) -> bool {
    &&& r.levels@.len() <= 0x1_0000
    &&& r.errors@.len() == r.levels@.len()
    &&& forall|i: int| 0 <= i < r.errors@.len() ==> #[trigger] r.errors@[i] <= 0xffff_ffff
    &&& r.error == error_sum(r.errors@, r.errors@.len())
}

proof fn lemma_sum_bound(errors: Seq<u64>, n: nat, i: int)
    requires
        n <= errors.len(),
        n <= 0x1_0000,
        forall|k: int| 0 <= k < errors.len() ==> #[trigger] errors[k] <= 0xffff_ffff,
    ensures
        0 <= error_sum(errors, n) <= n * 0xffff_ffff,
        0 <= i < n ==> errors[i] <= error_sum(errors, n),
    decreases n,
{
    if n > 0 {
        lemma_sum_bound(errors, (n - 1) as nat, i);
    }
}

proof fn lemma_sum_update(errors: Seq<u64>, n: nat, i: int, e: u64)
    requires
        n <= errors.len(),
        0 <= i < errors.len(),
    ensures
        error_sum(errors.update(i, e), n) == error_sum(errors, n) + if i < n {
            e - errors[i]
        } else {
            0
        },
    decreases n,
{
    if n > 0 {
        lemma_sum_update(errors, (n - 1) as nat, i, e);
    }
}

proof fn lemma_sum_prefix(a: Seq<u64>, b: Seq<u64>, n: nat)
    requires
        n <= a.len() <= b.len(),
        forall|i: int| 0 <= i < a.len() ==> a[i] == b[i],
    ensures
        error_sum(a, n) == error_sum(b, n),
    decreases n,
{
    if n > 0 {
        lemma_sum_prefix(a, b, (n - 1) as nat);
    }
}

fn refine_level<D, T, O, F, A, C>(env: &RefineEnv<D, T, O, F, A, C>, idx: usize, state: Refining) -> (r: Refining) where
    D: Fn(usize, i16) -> u64,
    T: Fn(&Vec<i16>) -> u64,
    O: Fn(&Vec<i16>, usize, i16) -> Option<u64>,
    F: Fn(&Vec<i16>, usize, i16) -> u64,
    A: Fn(&Vec<i16>, usize) -> bool,
    C: Fn(u64, u64) -> u64,

    requires
        refine_env_ok(env, state.levels@.len() as int),
        refining_ok(&state),
        idx < state.levels@.len(),
    ensures
        level_refined(env, idx, state, r),
        refining_ok(&r),
        r.levels@.len() == state.levels@.len(),
{
    let ghost p = state;
    let level: i16 = state.levels[idx];
    if level == 0 {
        return state;
    }
    let Refining { mut levels, errors: mut own_errors, error, best, changed, mut work } = state;
    let others = list_other_levels(level);
    let n: usize = others.len();
    let own: u64 = own_errors[idx];
    proof {
        lemma_sum_bound(p.errors@, p.errors@.len(), idx as int);
    }
    let rest: u64 = error - own;
    let mut won: i16 = level;
    let mut won_error: u64 = own;
    let mut won_cost: u64 = best;
    let ghost mut errors: Seq<u64> = Seq::empty();
    let ghost mut bits: Seq<u64> = Seq::empty();
    let ghost mut costs: Seq<u64> = Seq::empty();
    let ghost mut told: Seq<Option<u64>> = Seq::empty();
    let ghost first = (level, own, best);
    for k in 0..n
        invariant
            n == others@.len(),
            others@ == other_levels(level),
            refine_env_ok(env, p.levels@.len() as int),
            idx < p.levels@.len(),
            levels == p.levels,
            levels@.len() <= 0x1_0000,
            told.len() == k,
            work == changes_counted(p.work, p.levels@, others@, told, k as nat),
            own == p.errors@[idx as int],
            rest == p.error - own,
            rest <= 0x1_0000 * 0xffff_ffff,
            won_error <= 0xffff_ffff,
            errors.len() == k,
            bits.len() == k,
            costs.len() == k,
            forall|j: int|
                0 <= j < k ==> call_ensures(env.error, (idx, others@[j]), #[trigger] errors[j]),
            forall|j: int|
                0 <= j < k ==> change_priced(
                    env,
                    &p.levels,
                    idx,
                    others@[j],
                    told[j],
                    #[trigger] bits[j],
                ),
            forall|j: int|
                0 <= j < k ==> call_ensures(
                    env.price,
                    ((p.error - own + errors[j]) as u64, bits[j]),
                    #[trigger] costs[j],
                ),
            (won, won_error, won_cost) == level_winner(first, others@, errors, costs, k as nat),
    {
        let other: i16 = others[k];
        let (tell, b, more): (Option<u64>, u64, EncodeStats) = price_change(env, &levels, idx, other);
        let e: u64 = (env.error)(idx, other);
        let cost: u64 = (env.price)(rest + e, b);
        let ghost (old_errors, old_costs) = (errors, costs);
        proof {
            errors = errors.push(e);
            bits = bits.push(b);
            costs = costs.push(cost);
            lemma_changes_prefix(p.work, p.levels@, others@, told, tell, k as nat);
            told = told.push(tell);
            lemma_winner_prefix(
                first,
                others@,
                old_errors,
                old_costs,
                errors,
                costs,
                k as nat,
            );
        }
        work = work.joined(more);
        if cost < won_cost {
            won = other;
            won_error = e;
            won_cost = cost;
        }
    }
    assert(tried_costs(errors, bits, costs));
    proof {
        lemma_sum_update(p.errors@, p.errors@.len(), idx as int, won_error);
    }
    levels.set(idx, won);
    own_errors.set(idx, won_error);
    let mut followed: bool = true;
    if won != level {
        followed = (env.follows)(&levels, idx);
        if !followed {
            work = work.joined(EncodeStats { cache_builds: 1, ..EncodeStats::default() });
        }
    }
    assert(tables_told(told, followed));
    Refining {
        levels,
        errors: own_errors,
        error: rest + won_error,
        best: won_cost,
        changed: changed || won != level,
        work,
    }
}

proof fn lemma_winner_prefix(
    own: (i16, u64, u64),
    others: Seq<i16>,
    a_errors: Seq<u64>,
    a_costs: Seq<u64>,
    b_errors: Seq<u64>,
    b_costs: Seq<u64>,
    n: nat,
)
    requires
        n <= a_costs.len() <= b_costs.len(),
        n <= a_errors.len() <= b_errors.len(),
        forall|i: int| 0 <= i < a_costs.len() ==> a_costs[i] == b_costs[i],
        forall|i: int| 0 <= i < a_errors.len() ==> a_errors[i] == b_errors[i],
    ensures
        level_winner(own, others, a_errors, a_costs, n) == level_winner(
            own,
            others,
            b_errors,
            b_costs,
            n,
        ),
    decreases n,
{
    if n > 0 {
        lemma_winner_prefix(own, others, a_errors, a_costs, b_errors, b_costs, (n - 1) as nat);
    }
}

fn refine_pass<D, T, O, F, A, C>(env: &RefineEnv<D, T, O, F, A, C>, state: Refining) -> (r: Refining) where
    D: Fn(usize, i16) -> u64,
    T: Fn(&Vec<i16>) -> u64,
    O: Fn(&Vec<i16>, usize, i16) -> Option<u64>,
    F: Fn(&Vec<i16>, usize, i16) -> u64,
    A: Fn(&Vec<i16>, usize) -> bool,
    C: Fn(u64, u64) -> u64,

    requires
        refine_env_ok(env, state.levels@.len() as int),
        refining_ok(&state),
    ensures
        pass_refined(env, state, r),
        refining_ok(&r),
        r.levels@.len() == state.levels@.len(),
{
    let ghost before = state;
    let bits: u64 = (env.total)(&state.levels);
    let best: u64 = (env.price)(state.error, bits);
    let mut state = Refining {
        levels: state.levels,
        errors: state.errors,
        error: state.error,
        best,
        changed: false,
        work: state.work,
    };
    let ghost start = state;
    assert(pass_start(bits, start));
    let n: usize = state.levels.len();
    for i in 0..n
        invariant
            refine_env_ok(env, n as int),
            refining_ok(&state),
            state.levels@.len() == n,
            levels_refined(env, i as nat, start, state),
    {
        let ghost p = state;
        state = refine_level(env, i, state);
        assert(refining(p));
    }
    state
}

/// Refines levels in passes while that lowers the block's cost, and counts those left.
pub fn refine_levels_rdoq_limited<D, T, O, F, A, C>(
    env: &RefineEnv<D, T, O, F, A, C>,
    levels: Vec<i16>,
    max_passes: u8,
) -> (r: Refined) where
    D: Fn(usize, i16) -> u64,
    T: Fn(&Vec<i16>) -> u64,
    O: Fn(&Vec<i16>, usize, i16) -> Option<u64>,
    F: Fn(&Vec<i16>, usize, i16) -> u64,
    A: Fn(&Vec<i16>, usize) -> bool,
    C: Fn(u64, u64) -> u64,

    requires
        refine_env_ok(env, levels@.len() as int),
        levels@.len() <= 0x1_0000,
    ensures
        r.levels@.len() == levels@.len(),
        r.nonzeros == nonzeros(r.levels@, r.levels@.len()),
        block_refined(env, levels@, max_passes, r.levels@, r.nonzeros as int, r.work),
{
    let ghost before = levels@;
    let n: usize = levels.len();
    let mut errors: Vec<u64> = Vec::new();
    let mut error: u64 = 0;
    for i in 0..n
        invariant
            n == levels@.len(),
            n <= 0x1_0000,
            refine_env_ok(env, n as int),
            errors@.len() == i,
            forall|k: int|
                0 <= k < i ==> call_ensures(
                    env.error,
                    (k as usize, levels@[k]),
                    #[trigger] errors@[k],
                ),
            forall|k: int| 0 <= k < i ==> #[trigger] errors@[k] <= 0xffff_ffff,
            error == error_sum(errors@, i as nat),
            error <= i * 0xffff_ffff,
    {
        let e: u64 = (env.error)(i, levels[i]);
        let ghost old_errors = errors@;
        errors.push(e);
        proof {
            lemma_sum_prefix(old_errors, errors@, i as nat);
        }
        error = error + e;
    }
    let work = EncodeStats { cache_builds: 1, ..EncodeStats::default() };
    let mut state = Refining { levels, errors, error, best: 0, changed: true, work };
    let ghost first = state;
    let mut made: u8 = 0;
    while made < max_passes && state.changed
        invariant
            refine_env_ok(env, n as int),
            refining_ok(&state),
            state.levels@.len() == n,
            n <= 0x1_0000,
            made <= max_passes,
            made == 0 ==> state.changed,
            passes_refined(env, made as nat, first, state),
        decreases max_passes - made,
    {
        let ghost p = state;
        state = refine_pass(env, state);
        assert(refining(p));
        made = made + 1;
    }
    assert(refined_in(made as nat, first, state));
    let nnz: u32 = count_nonzero(&state.levels);
    Refined { levels: state.levels, nonzeros: nnz, work: state.work }
}

/// Refining a level never raises the lowest cost, and a change lowers it.
pub proof fn law_refinement_improves<D, T, O, F, A, C>(env: &RefineEnv<D, T, O, F, A, C>, idx: usize, p: Refining, r: Refining) where
    D: Fn(usize, i16) -> u64,
    T: Fn(&Vec<i16>) -> u64,
    O: Fn(&Vec<i16>, usize, i16) -> Option<u64>,
    F: Fn(&Vec<i16>, usize, i16) -> u64,
    A: Fn(&Vec<i16>, usize) -> bool,
    C: Fn(u64, u64) -> u64,

    requires
        level_refined(env, idx, p, r),
        !p.changed,
    ensures
        r.best <= p.best,
        r.changed ==> r.best < p.best,
{
    let i = idx as int;
    let level = p.levels@[i];
    let others = other_levels(level);
    if level != 0 {
        let (errors, bits, costs, told, followed) = choose|
            errors: Seq<u64>,
            bits: Seq<u64>,
            costs: Seq<u64>,
            told: Seq<Option<u64>>,
            followed: bool,
        |
            {
                let won = level_winner(
                    (level, p.errors@[i], p.best),
                    others,
                    errors,
                    costs,
                    others.len(),
                );
                &&& #[trigger] tried_costs(errors, bits, costs)
                &&& #[trigger] tables_told(told, followed)
                &&& r.levels@ == p.levels@.update(i, won.0)
                &&& r.best == won.2
                &&& r.changed == (p.changed || won.0 != level)
            };
        lemma_winner_lower((level, p.errors@[i], p.best), others, errors, costs, others.len());
    }
}

proof fn lemma_winner_lower(
    own: (i16, u64, u64),
    others: Seq<i16>,
    errors: Seq<u64>,
    costs: Seq<u64>,
    n: nat,
)
    ensures
        ({
            let won = level_winner(own, others, errors, costs, n);
            won.2 <= own.2 && (won.0 != own.0 ==> won.2 < own.2)
        }),
    decreases n,
{
    if n > 0 {
        lemma_winner_lower(own, others, errors, costs, (n - 1) as nat);
    }
}

} // verus!
