//! The solver as a mathematical state machine: a distance table and a
//! multiset of pending candidates, with the steps that change them and the
//! invariant that the steps keep.

use crate::state::State;
use vstd::multiset::Multiset;
use vstd::prelude::*;

verus! {

/// The table entry of a node that no candidate has reached yet.
pub const UNREACHED: usize = usize::MAX;

/// Sum of the entries of a distance table.
pub open spec fn total(d: Seq<usize>) -> nat
    decreases d.len(),
{
    if d.len() == 0 {
        0
    } else {
        total(d.drop_last()) + d.last() as nat
    }
}

/// Abstract state of a solver.
pub struct SolverModel {
    /// Best known cost per node, `UNREACHED` where none is known.
    pub distances: Seq<usize>,
    /// Candidates waiting to be extracted.
    pub pending: Multiset<State>,
}

impl SolverModel {
    /// Number of nodes.
    pub open spec fn len(self) -> nat {
        self.distances.len()
    }

    /// The state right after construction for `n` nodes.
    pub open spec fn initial(n: nat) -> SolverModel {
        SolverModel {
            distances: Seq::new(n, |i: int| if i == 0 { 0usize } else { UNREACHED }),
            pending: Multiset::singleton(State { cost: 0, position: 0 }),
        }
    }

    /// The candidate that matches the table entry of node `p`.
    pub open spec fn candidate_at(self, p: int) -> State {
        State { cost: self.distances[p], position: p as usize }
    }

    /// A candidate is fresh when its cost is the table entry of its node,
    /// and stale otherwise.
    pub open spec fn is_fresh(self, s: State) -> bool {
        s.position < self.len() && s.cost == self.distances[s.position as int]
    }

    /// No pending candidate is fresh.
    pub open spec fn exhausted(self) -> bool {
        forall|e: State| #[trigger] self.pending.count(e) > 0 ==> !self.is_fresh(e)
    }

    /// `s` is the pending fresh candidate that comes first.
    pub open spec fn is_next(self, s: State) -> bool {
        &&& self.pending.count(s) > 0
        &&& self.is_fresh(s)
        &&& forall|e: State| #[trigger] self.pending.count(e) > 0 && e.before(s) ==> !self.is_fresh(e)
    }

    /// Both line neighbours of `p` are at most one step further than `p`.
    pub open spec fn line_relaxed(self, p: int) -> bool {
        &&& p + 1 < self.len() ==> self.distances[p + 1] <= self.distances[p] + 1
        &&& p > 0 ==> self.distances[p - 1] <= self.distances[p] + 1
    }

    /// Node `p` either still waits in the queue at its current cost, or its
    /// line neighbours have already been offered that cost plus one.
    pub open spec fn accounted(self, p: int) -> bool {
        self.pending.count(self.candidate_at(p)) > 0 || self.line_relaxed(p)
    }

    /// A pending candidate names a node of the table, does not beat the
    /// table, and leaves room for one more step.
    pub open spec fn entry_ok(self, e: State) -> bool {
        e.position < self.len() && self.distances[e.position as int] <= e.cost < UNREACHED
    }

    /// The invariant of every reachable solver state.
    pub open spec fn inv(self) -> bool {
        &&& 0 < self.len() <= usize::MAX
        &&& self.distances[0] == 0
        &&& forall|e: State| #[trigger] self.pending.count(e) > 0 ==> self.entry_ok(e)
        &&& forall|e: State| #[trigger] self.pending.count(e) <= 1
        &&& forall|p: int| 0 <= p < self.len() ==> #[trigger] self.accounted(p)
    }

    /// Proposing candidate `s`: it is recorded and queued if it beats the
    /// table entry of its node, and dropped otherwise.
    pub open spec fn offer(self, s: State) -> SolverModel {
        if s.position < self.len() && s.cost < self.distances[s.position as int] {
            SolverModel {
                distances: self.distances.update(s.position as int, s.cost),
                pending: self.pending.insert(s),
            }
        } else {
            self
        }
    }

    /// The candidate one step to the right of `s`.
    pub open spec fn right_of(s: State) -> State {
        State { cost: (s.cost + 1) as usize, position: (s.position + 1) as usize }
    }

    /// The candidate one step to the left of `s`.
    pub open spec fn left_of(s: State) -> State {
        State { cost: (s.cost + 1) as usize, position: (s.position - 1) as usize }
    }

    /// The queue once everything up to and including `s` has left it.
    pub open spec fn drop_through(self, s: State) -> SolverModel {
        SolverModel { distances: self.distances, pending: self.pending.filter(|e: State| s.before(e)) }
    }

    /// Extracting the fresh candidate `s`: it and everything before it leave
    /// the queue, and both line neighbours of its node are offered its cost
    /// plus one, the right one first.
    pub open spec fn settle(self, s: State) -> SolverModel {
        let rest = self.drop_through(s);
        let right = if s.position + 1 < self.len() {
            rest.offer(Self::right_of(s))
        } else {
            rest
        };
        if s.position > 0 {
            right.offer(Self::left_of(s))
        } else {
            right
        }
    }

    /// The state after the queue has run dry: the table stays, nothing waits.
    pub open spec fn drained(self) -> SolverModel {
        SolverModel { distances: self.distances, pending: Multiset::empty() }
    }

    /// A bound on the work left: it never grows under `offer`, and `settle`
    /// lowers it.
    pub open spec fn potential(self) -> nat {
        2 * total(self.distances) + self.pending.len()
    }

    /// Every entry of `self` is at most the matching entry of `earlier`.
    pub open spec fn improves(self, earlier: SolverModel) -> bool {
        &&& self.len() == earlier.len()
        &&& forall|i: int| 0 <= i < self.len() ==> #[trigger] self.distances[i] <= earlier.distances[i]
    }
}

/// Replacing one entry changes the sum by the difference.
proof fn lemma_total_update(d: Seq<usize>, i: int, v: usize)
    requires
        0 <= i < d.len(),
    ensures
        total(d.update(i, v)) + d[i] == total(d) + v,
    decreases d.len(),
{
    let u = d.update(i, v);
    if i == d.len() - 1 {
        assert(u.drop_last() =~= d.drop_last());
    } else {
        assert(u.drop_last() =~= d.drop_last().update(i, v));
        lemma_total_update(d.drop_last(), i, v);
    }
}

/// The initial state satisfies the invariant.
pub proof fn lemma_initial_inv(n: nat)
    requires
        0 < n <= usize::MAX,
    ensures
        SolverModel::initial(n).inv(),
{
    broadcast use vstd::multiset::group_multiset_axioms;

}

/// The invariant but for the accounting of node `q`.
spec fn inv_but(m: SolverModel, q: int) -> bool {
    &&& 0 < m.len() <= usize::MAX
    &&& m.distances[0] == 0
    &&& forall|e: State| #[trigger] m.pending.count(e) > 0 ==> m.entry_ok(e)
    &&& forall|e: State| #[trigger] m.pending.count(e) <= 1
    &&& forall|p: int| 0 <= p < m.len() && p != q ==> #[trigger] m.accounted(p)
}

/// `offer` keeps the invariant but for `q`.
proof fn lemma_offer_inv_but(m: SolverModel, s: State, q: int)
    requires
        inv_but(m, q),
    ensures
        inv_but(m.offer(s), q),
{
    broadcast use vstd::multiset::group_multiset_axioms;

    let a = m.offer(s);
    if s.position < m.len() && s.cost < m.distances[s.position as int] {
        assert forall|p: int| 0 <= p < a.len() && p != q implies #[trigger] a.accounted(p) by {
            assert(m.accounted(p));
        }
    }
}

/// `offer` keeps the invariant.
pub proof fn lemma_offer_inv(m: SolverModel, s: State)
    requires
        m.inv(),
    ensures
        m.offer(s).inv(),
{
    lemma_offer_inv_but(m, s, -1);
}

/// `offer` never raises an entry, and what it changes it queues.
pub proof fn lemma_offer_improves(m: SolverModel, s: State)
    ensures
        m.offer(s).improves(m),
        forall|e: State| m.pending.count(e) <= #[trigger] m.offer(s).pending.count(e),
        forall|p: int|
            0 <= p < m.len() && m.offer(s).distances[p] != m.distances[p] ==> p == s.position && s
                == #[trigger] m.offer(s).candidate_at(p) && m.offer(s).pending.count(s) > 0,
{
    broadcast use vstd::multiset::group_multiset_axioms;

}

/// `offer` never raises the potential.
pub proof fn lemma_offer_potential(m: SolverModel, s: State)
    ensures
        m.offer(s).potential() <= m.potential(),
{
    broadcast use vstd::multiset::group_multiset_axioms;

    if s.position < m.len() && s.cost < m.distances[s.position as int] {
        lemma_total_update(m.distances, s.position as int, s.cost);
    }
}

/// `settle` keeps the invariant.
pub proof fn lemma_settle_inv(m: SolverModel, s: State)
    requires
        m.inv(),
        m.is_next(s),
    ensures
        m.settle(s).inv(),
        m.settle(s).line_relaxed(s.position as int),
        m.settle(s).distances[s.position as int] == s.cost,
{
    broadcast use vstd::multiset::group_multiset_axioms;

    let q: int = s.position as int;
    let rest = m.drop_through(s);
    let right = if s.position + 1 < m.len() {
        rest.offer(SolverModel::right_of(s))
    } else {
        rest
    };
    // Whatever else was fresh comes after `s` and so is still queued.
    assert forall|p: int| 0 <= p < m.len() && p != q implies #[trigger] rest.accounted(p) by {
        assert(m.accounted(p));
    }
    lemma_offer_inv_but(rest, SolverModel::right_of(s), q);
    lemma_offer_inv_but(right, SolverModel::left_of(s), q);
}

/// `settle` never raises an entry; what it changes it queues, and every
/// fresh candidate other than `s` stays queued.
pub proof fn lemma_settle_improves(m: SolverModel, s: State)
    requires
        m.inv(),
        m.is_next(s),
    ensures
        m.settle(s).improves(m),
        forall|p: int|
            0 <= p < m.len() && m.settle(s).distances[p] != m.distances[p] ==> (p == s.position + 1 || p
                == s.position - 1) && m.settle(s).distances[p] == s.cost + 1 && m.settle(s).pending.count(
                #[trigger] m.settle(s).candidate_at(p),
            ) > 0,
        forall|e: State|
            #[trigger] m.pending.count(e) > 0 && m.is_fresh(e) && e != s ==> m.settle(s).pending.count(e) > 0,
{
    broadcast use vstd::multiset::group_multiset_axioms;

    let rest = m.drop_through(s);
    let right = if s.position + 1 < m.len() {
        rest.offer(SolverModel::right_of(s))
    } else {
        rest
    };
    lemma_offer_improves(rest, SolverModel::right_of(s));
    lemma_offer_improves(right, SolverModel::left_of(s));
}

/// Filtering out at least one element shortens a multiset.
proof fn lemma_filter_shrinks(q: Multiset<State>, f: spec_fn(State) -> bool, x: State)
    requires
        q.count(x) > 0,
        !f(x),
    ensures
        q.filter(f).len() < q.len(),
{
    broadcast use vstd::multiset::group_multiset_axioms;

    let g = |e: State| !f(e);
    assert(q =~= q.filter(f).add(q.filter(g)));
}

/// `settle` lowers the potential.
pub proof fn lemma_settle_potential(m: SolverModel, s: State)
    requires
        m.inv(),
        m.is_next(s),
    ensures
        m.settle(s).potential() < m.potential(),
{
    let rest = m.drop_through(s);
    let right = if s.position + 1 < m.len() {
        rest.offer(SolverModel::right_of(s))
    } else {
        rest
    };
    lemma_filter_shrinks(m.pending, |e: State| s.before(e), s);
    lemma_offer_potential(rest, SolverModel::right_of(s));
    lemma_offer_potential(right, SolverModel::left_of(s));
}

/// Improvement carries over any number of steps: whenever the table is
/// looked at again, no entry has risen.
pub proof fn lemma_improves_chains(first: SolverModel, second: SolverModel, third: SolverModel)
    requires
        second.improves(first),
        third.improves(second),
    ensures
        third.improves(first),
        first.improves(first),
{
    assert forall|i: int| 0 <= i < third.len() implies #[trigger] third.distances[i] <= first.distances[i] by {
        assert(second.distances[i] <= first.distances[i]);
    }
}

/// At most one candidate is next, and none is once the queue is exhausted:
/// what `pop` returns does not depend on how equal costs were queued.
pub proof fn lemma_next_is_unique(m: SolverModel, s: State, t: State)
    requires
        m.is_next(s),
    ensures
        !m.exhausted(),
        m.is_next(t) ==> s == t,
{
}

/// The candidate that is next is the cheapest one pending for its node: no
/// cheaper path to that node still waits in the queue.
pub proof fn lemma_next_is_cheapest_for_its_node(m: SolverModel, s: State, e: State)
    requires
        m.inv(),
        m.is_next(s),
        m.pending.count(e) > 0,
        e.position == s.position,
    ensures
        s.cost <= e.cost,
{
}

/// Once no fresh candidate is pending, every node's line neighbours are
/// within one step of it, every node has been reached, and node `p` lies at
/// most `p` steps from the source.
pub proof fn lemma_exhausted_line(m: SolverModel, p: int)
    requires
        m.inv(),
        m.exhausted(),
        0 <= p < m.len(),
    ensures
        m.drained().inv(),
        m.line_relaxed(p),
        m.distances[p] <= p,
    decreases p,
{
    broadcast use vstd::multiset::group_multiset_axioms;

    let d = m.drained();
    assert forall|q: int| 0 <= q < m.len() implies m.line_relaxed(q) by {
        assert(m.accounted(q));
    }
    assert forall|q: int| 0 <= q < d.len() implies #[trigger] d.accounted(q) by {
        assert(m.line_relaxed(q));
    }
    if p > 0 {
        lemma_exhausted_line(m, p - 1);
    }
}

/// A drained solver stays drained until a candidate is proposed that beats
/// the table: with nothing pending, nothing is fresh.
pub proof fn lemma_drained_is_exhausted(m: SolverModel)
    ensures
        m.drained().exhausted(),
        m.drained().drained() == m.drained(),
{
    broadcast use vstd::multiset::group_multiset_axioms;

}

/// Once no fresh candidate is pending, the entries of two nodes next to each
/// other on the line differ by at most one.
pub proof fn lemma_exhausted_neighbours(m: SolverModel, i: int)
    requires
        m.inv(),
        m.exhausted(),
        0 <= i,
        i + 1 < m.len(),
    ensures
        m.distances[i] - m.distances[i + 1] <= 1,
        m.distances[i + 1] - m.distances[i] <= 1,
{
    lemma_exhausted_line(m, i);
    lemma_exhausted_line(m, i + 1);
}

} // verus!
