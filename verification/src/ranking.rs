//! Ordering candidates by cost.

use vstd::prelude::*;

verus! {

/// A candidate and what it costs.
#[derive(Debug)]
pub struct Scored<T> {
    pub cost: u64,
    pub item: T,
}

impl<T: Copy> Clone for Scored<T> {
    fn clone(&self) -> (e: Self)
        ensures
            e == *self,
    {
        *self
    }
}

impl<T: Copy> Copy for Scored<T> {

}

/// What stands for the cost of a candidate that does not exist. Every real cost is less.
pub const NO_COST: u64 = 0xffff_ffff_ffff_ffff;

/// A list that is sorted by cost, with one more candidate behind all that cost no more.
pub open spec fn insert_by_cost<T>(s: Seq<Scored<T>>, e: Scored<T>) -> Seq<Scored<T>>
    decreases s.len(),
{
    if s.len() == 0 || s.last().cost <= e.cost {
        s.push(e)
    } else {
        insert_by_cost(s.drop_last(), e).push(s.last())
    }
}

/// A list in order of cost. Candidates of equal cost stay in the order they came in.
pub open spec fn by_cost<T>(s: Seq<Scored<T>>) -> Seq<Scored<T>>
    decreases s.len(),
{
    if s.len() == 0 {
        s
    } else {
        insert_by_cost(by_cost(s.drop_last()), s.last())
    }
}

pub open spec fn costs_ascend<T>(s: Seq<Scored<T>>) -> bool {
    forall|i: int, j: int| 0 <= i <= j < s.len() ==> (#[trigger] s[i]).cost <= (#[trigger] s[j]).cost
}

spec fn costs_at_most<T>(s: Seq<Scored<T>>, k: u64) -> bool {
    forall|i: int| 0 <= i < s.len() ==> (#[trigger] s[i]).cost <= k
}

/// The candidates of one cost, in order.
pub open spec fn of_cost<T>(s: Seq<Scored<T>>, cost: u64) -> Seq<Scored<T>>
    decreases s.len(),
{
    if s.len() == 0 {
        s
    } else if s.last().cost == cost {
        of_cost(s.drop_last(), cost).push(s.last())
    } else {
        of_cost(s.drop_last(), cost)
    }
}

proof fn lemma_of_cost_push<T>(s: Seq<Scored<T>>, e: Scored<T>, cost: u64)
    ensures
        of_cost(s.push(e), cost) == if e.cost == cost {
            of_cost(s, cost).push(e)
        } else {
            of_cost(s, cost)
        },
{
    assert(s.push(e).drop_last() =~= s);
}

proof fn lemma_insert<T>(s: Seq<Scored<T>>, e: Scored<T>)
    requires
        costs_ascend(s),
    ensures
        costs_ascend(insert_by_cost(s, e)),
        insert_by_cost(s, e).len() == s.len() + 1,
        insert_by_cost(s, e).to_multiset() == s.to_multiset().insert(e),
        forall|cost: u64| #[trigger]
            of_cost(insert_by_cost(s, e), cost) == of_cost(s.push(e), cost),
        forall|k: u64| #[trigger]
            costs_at_most(s, k) && e.cost <= k ==> costs_at_most(insert_by_cost(s, e), k),
    decreases s.len(),
{
    broadcast use vstd::seq_lib::group_to_multiset_ensures;

    if s.len() == 0 || s.last().cost <= e.cost {
    } else {
        let rest = s.drop_last();
        lemma_insert(rest, e);
        assert(rest.push(s.last()) =~= s);
        let inner = insert_by_cost(rest, e);
        assert(costs_at_most(rest, s.last().cost)) by {
            assert forall|i: int| 0 <= i < rest.len() implies (#[trigger] rest[i]).cost
                <= s.last().cost by {
                assert(rest[i] == s[i]);
            }
        }
        assert(insert_by_cost(s, e) == inner.push(s.last()));
        assert(rest.to_multiset().insert(e).insert(s.last()) =~= rest.to_multiset().insert(
            s.last(),
        ).insert(e));
        assert forall|cost: u64| #[trigger]
            of_cost(insert_by_cost(s, e), cost) == of_cost(s.push(e), cost) by {
            lemma_of_cost_push(inner, s.last(), cost);
            lemma_of_cost_push(s, e, cost);
            lemma_of_cost_push(rest, e, cost);
            lemma_of_cost_push(rest, s.last(), cost);
            assert(of_cost(inner, cost) == of_cost(rest.push(e), cost));
        }
        assert forall|k: u64| #[trigger] costs_at_most(s, k) && e.cost <= k implies costs_at_most(
            insert_by_cost(s, e),
            k,
        ) by {
            assert(s[s.len() - 1].cost <= k);
            assert(costs_at_most(rest, k)) by {
                assert forall|i: int| 0 <= i < rest.len() implies (#[trigger] rest[i]).cost
                    <= k by {
                    assert(rest[i] == s[i]);
                }
            }
        }
    }
}

/// Sorting keeps the candidates, puts their costs in ascending order, and leaves those of
/// equal cost in the order they came in.
pub proof fn law_sorted<T>(s: Seq<Scored<T>>)
    ensures
        by_cost(s).to_multiset() == s.to_multiset(),
        by_cost(s).len() == s.len(),
        costs_ascend(by_cost(s)),
        forall|cost: u64| #[trigger] of_cost(by_cost(s), cost) == of_cost(s, cost),
    decreases s.len(),
{
    broadcast use vstd::seq_lib::group_to_multiset_ensures;

    if s.len() > 0 {
        let rest = s.drop_last();
        law_sorted(rest);
        lemma_insert(by_cost(rest), s.last());
        assert(rest.push(s.last()) =~= s);
        assert forall|cost: u64| #[trigger] of_cost(by_cost(s), cost) == of_cost(s, cost) by {
            lemma_of_cost_push(by_cost(rest), s.last(), cost);
            lemma_of_cost_push(rest, s.last(), cost);
            assert(of_cost(by_cost(rest), cost) == of_cost(rest, cost));
            assert(of_cost(insert_by_cost(by_cost(rest), s.last()), cost) == of_cost(
                by_cost(rest).push(s.last()),
                cost,
            ));
        }
    }
}

/// A candidate is in the sorted list exactly where it was in the list.
pub proof fn lemma_sorted_contains<T>(s: Seq<Scored<T>>, e: Scored<T>)
    ensures
        by_cost(s).contains(e) == s.contains(e),
{
    broadcast use vstd::seq_lib::group_to_multiset_ensures;

    law_sorted(s);
    assert(by_cost(s).contains(e) == (by_cost(s).to_multiset().count(e) > 0));
    assert(s.contains(e) == (s.to_multiset().count(e) > 0));
}

proof fn lemma_insert_place<T>(s: Seq<Scored<T>>, e: Scored<T>, p: int)
    requires
        0 <= p <= s.len(),
        p > 0 ==> s[p - 1].cost <= e.cost,
        forall|i: int| p <= i < s.len() ==> (#[trigger] s[i]).cost > e.cost,
    ensures
        insert_by_cost(s, e) == s.insert(p, e),
    decreases s.len(),
{
    if p == s.len() {
        assert(s.insert(p, e) =~= s.push(e));
    } else {
        let rest = s.drop_last();
        assert(s.last() == s[s.len() - 1]);
        assert forall|i: int| p <= i < rest.len() implies (#[trigger] rest[i]).cost > e.cost by {
            assert(rest[i] == s[i]);
        }
        lemma_insert_place(rest, e, p);
        assert(s.insert(p, e) =~= rest.insert(p, e).push(s.last()));
    }
}

/// Sorts candidates by cost.
pub fn sort_by_cost<T: Copy>(v: &Vec<Scored<T>>) -> (sorted: Vec<Scored<T>>)
    ensures
        sorted@ == by_cost(v@),
{
    let mut sorted: Vec<Scored<T>> = Vec::new();
    let n: usize = v.len();
    assert(v@.take(0) =~= Seq::empty());
    for i in 0..n
        invariant
            n == v@.len(),
            sorted@ == by_cost(v@.take(i as int)),
    {
        let e = v[i];
        proof {
            law_sorted(v@.take(i as int));
        }
        let mut p: usize = sorted.len();
        while p > 0 && sorted[p - 1].cost > e.cost
            invariant
                p <= sorted@.len(),
                costs_ascend(sorted@),
                forall|k: int| p <= k < sorted@.len() ==> (#[trigger] sorted@[k]).cost > e.cost,
            decreases p,
        {
            p = p - 1;
        }
        proof {
            lemma_insert_place(sorted@, e, p as int);
            assert(v@.take(i + 1).drop_last() =~= v@.take(i as int));
            assert(v@.take(i + 1).last() == e);
        }
        sorted.insert(p, e);
    }
    assert(v@.take(n as int) =~= v@);
    sorted
}

/// The three cheapest candidates of a list that is seen one by one.
pub struct Podium<T> {
    best: Scored<T>,
    runner_up: Scored<T>,
    third: Scored<T>,
    filler: T,
    seen: Ghost<Seq<Scored<T>>>,
}

/// The candidate at a place of the order by cost; the filler where there are fewer.
pub open spec fn place_of<T>(seen: Seq<Scored<T>>, k: int, filler: T) -> Scored<T> {
    if k < seen.len() {
        by_cost(seen)[k]
    } else {
        Scored { cost: NO_COST, item: filler }
    }
}

impl<T: Copy> Podium<T> {
    /// The candidates seen.
    pub closed spec fn seen(&self) -> Seq<Scored<T>> {
        self.seen@
    }

    /// What stands where there is no candidate.
    pub closed spec fn filler(&self) -> T {
        self.filler
    }

    pub closed spec fn well_formed(&self) -> bool {
        &&& self.best == place_of(self.seen@, 0, self.filler)
        &&& self.runner_up == place_of(self.seen@, 1, self.filler)
        &&& self.third == place_of(self.seen@, 2, self.filler)
        &&& forall|i: int| 0 <= i < self.seen@.len() ==> (#[trigger] self.seen@[i]).cost < NO_COST
    }

    pub fn new(filler: T) -> (p: Self)
        ensures
            p.well_formed(),
            p.seen() == Seq::<Scored<T>>::empty(),
            p.filler() == filler,
    {
        let none = Scored { cost: NO_COST, item: filler };
        Podium { best: none, runner_up: none, third: none, filler, seen: Ghost(Seq::empty()) }
    }

    /// One more candidate. Of candidates of equal cost the earlier stands higher.
    pub fn note(&mut self, e: Scored<T>)
        requires
            old(self).well_formed(),
            e.cost < NO_COST,
        ensures
            final(self).well_formed(),
            final(self).seen() == old(self).seen().push(e),
            final(self).filler() == old(self).filler(),
    {
        let ghost before = self.seen@;
        let ghost sorted = by_cost(before);
        proof {
            law_sorted(before);
            assert(before.push(e).drop_last() =~= before);
            assert(before.push(e).last() == e);
            lemma_podium_step(sorted, e);
            lemma_costs_below(before);
        }
        if e.cost < self.best.cost {
            self.third = self.runner_up;
            self.runner_up = self.best;
            self.best = e;
        } else if e.cost < self.runner_up.cost {
            self.third = self.runner_up;
            self.runner_up = e;
        } else if e.cost < self.third.cost {
            self.third = e;
        }
        self.seen = Ghost(before.push(e));
    }

    pub fn best(&self) -> (e: Scored<T>)
        requires
            self.well_formed(),
        ensures
            e == place_of(self.seen(), 0, self.filler()),
    {
        self.best
    }

    pub fn runner_up(&self) -> (e: Scored<T>)
        requires
            self.well_formed(),
        ensures
            e == place_of(self.seen(), 1, self.filler()),
    {
        self.runner_up
    }

    pub fn third(&self) -> (e: Scored<T>)
        requires
            self.well_formed(),
        ensures
            e == place_of(self.seen(), 2, self.filler()),
    {
        self.third
    }
}

/// Sorting a list of real costs gives real costs.
proof fn lemma_costs_below<T>(s: Seq<Scored<T>>)
    requires
        forall|i: int| 0 <= i < s.len() ==> (#[trigger] s[i]).cost < NO_COST,
    ensures
        by_cost(s).len() == s.len(),
        forall|i: int| 0 <= i < s.len() ==> (#[trigger] by_cost(s)[i]).cost < NO_COST,
{
    law_sorted(s);
    assert forall|i: int| 0 <= i < s.len() implies (#[trigger] by_cost(s)[i]).cost < NO_COST by {
        let e = by_cost(s)[i];
        assert(by_cost(s).contains(e));
        lemma_sorted_contains(s, e);
        let k = choose|k: int| 0 <= k < s.len() && s[k] == e;
        assert(s[k].cost < NO_COST);
    }
}

/// The first three places after one more candidate.
proof fn lemma_podium_step<T>(s: Seq<Scored<T>>, e: Scored<T>)
    requires
        costs_ascend(s),
    ensures
        ({
            let t = insert_by_cost(s, e);
            &&& t.len() == s.len() + 1
            &&& s.len() == 0 || e.cost < s[0].cost ==> t[0] == e && forall|i: int|
                0 <= i < s.len() ==> t[i + 1] == #[trigger] s[i]
            &&& s.len() >= 1 && s[0].cost <= e.cost && (s.len() == 1 || e.cost < s[1].cost)
                ==> t[0] == s[0] && t[1] == e && (s.len() >= 2 ==> t[2] == s[1])
            &&& s.len() >= 2 && s[1].cost <= e.cost && (s.len() == 2 || e.cost < s[2].cost)
                ==> t[0] == s[0] && t[1] == s[1] && t[2] == e
            &&& s.len() >= 3 && s[2].cost <= e.cost ==> t[0] == s[0] && t[1] == s[1] && t[2]
                == s[2]
        }),
{
    lemma_insert(s, e);
    if s.len() == 0 || e.cost < s[0].cost {
        lemma_insert_place(s, e, 0);
    } else if s.len() == 1 || e.cost < s[1].cost {
        lemma_insert_place(s, e, 1);
    } else if s.len() == 2 || e.cost < s[2].cost {
        lemma_insert_place(s, e, 2);
    } else {
        lemma_insert_keeps(s, e, 3);
    }
}

/// A candidate that costs no less than the first `n` leaves them in their places.
proof fn lemma_insert_keeps<T>(s: Seq<Scored<T>>, e: Scored<T>, n: int)
    requires
        0 < n <= s.len(),
        s[n - 1].cost <= e.cost,
    ensures
        forall|i: int| 0 <= i < n ==> #[trigger] insert_by_cost(s, e)[i] == s[i],
        insert_by_cost(s, e).len() == s.len() + 1,
    decreases s.len(),
{
    if s.last().cost <= e.cost {
    } else {
        let rest = s.drop_last();
        lemma_insert_keeps(rest, e, n);
        assert forall|i: int| 0 <= i < n implies #[trigger] insert_by_cost(s, e)[i] == s[i] by {
            assert(insert_by_cost(rest, e)[i] == rest[i]);
        }
    }
}

/// The candidate in first place costs no more than any that was seen.
pub proof fn law_best_is_cheapest<T>(seen: Seq<Scored<T>>, filler: T, i: int)
    requires
        0 <= i < seen.len(),
    ensures
        place_of(seen, 0, filler).cost <= seen[i].cost,
        seen.contains(place_of(seen, 0, filler)),
{
    law_sorted(seen);
    let e = seen[i];
    lemma_sorted_contains(seen, e);
    assert(seen.contains(e));
    let k = choose|k: int| 0 <= k < by_cost(seen).len() && by_cost(seen)[k] == e;
    assert(by_cost(seen)[0].cost <= by_cost(seen)[k].cost);
    lemma_sorted_contains(seen, by_cost(seen)[0]);
    assert(by_cost(seen).contains(by_cost(seen)[0]));
}

} // verus!
