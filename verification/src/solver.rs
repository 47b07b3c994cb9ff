//! The solver: a distance table and a queue of candidates, advanced one
//! extraction at a time.

use crate::error::SolveError;
use crate::heap::{is_least, MinHeap};
use crate::model::{
    lemma_exhausted_line, lemma_initial_inv, lemma_offer_improves, lemma_offer_inv,
    lemma_offer_potential, lemma_settle_improves, lemma_settle_inv, lemma_settle_potential,
    SolverModel, UNREACHED,
};
use crate::state::State;
use vstd::multiset::Multiset;
use vstd::prelude::*;

verus! {

/// Shortest-distance search from node 0 over the nodes `0 .. n`, each joined
/// to its two neighbours by edges of cost one.
///
/// `pop` advances the search and returns the candidate whose node has just
/// been settled; the caller may then `push` what further edges leave that
/// node. When `pop` returns `None` every proposed path has been examined.
#[derive(Debug)]
pub struct LinearDijkstra {
    distances: Vec<usize>,
    heap: MinHeap,
}

impl View for LinearDijkstra {
    type V = SolverModel;

    closed spec fn view(&self) -> SolverModel {
        SolverModel { distances: self.distances@, pending: self.heap@ }
    }
}

impl LinearDijkstra {
    /// The queue's internal order is intact.
    pub closed spec fn queue_ordered(&self) -> bool {
        self.heap.wf()
    }

    /// What every solver handed out by this module satisfies.
    pub open spec fn wf(&self) -> bool {
        self.queue_ordered() && self@.inv()
    }

    /// A solver for `n` nodes, with node 0 at distance 0 and queued. There is
    /// no solver for zero nodes.
    pub fn new(n: usize) -> (r: Result<LinearDijkstra, SolveError>)
        ensures
            match r {
                Ok(solver) => n > 0 && solver.wf() && solver@ == SolverModel::initial(n as nat),
                Err(e) => n == 0 && e == SolveError::InvalidSize,
            },
    {
        if n == 0 {
            return Err(SolveError::InvalidSize);
        }
        let mut distances: Vec<usize> = vec![UNREACHED; n];
        // The search starts on node 0 at no cost.
        distances[0] = 0;
        let mut heap = MinHeap::new();
        heap.push(State { cost: 0, position: 0 });
        let solver = LinearDijkstra { distances, heap };
        proof {
            broadcast use vstd::multiset::group_multiset_axioms;

            let m = SolverModel::initial(n as nat);
            assert(solver@.distances =~= m.distances);
            assert(solver@.pending =~= m.pending);
            lemma_initial_inv(n as nat);
        }
        Ok(solver)
    }

    /// Number of nodes.
    pub fn len(&self) -> (n: usize)
        ensures
            n == self@.len(),
    {
        self.distances.len()
    }

    /// The distance table as it stands.
    pub fn distances(&self) -> (d: &Vec<usize>)
        ensures
            d@ == self@.distances,
    {
        &self.distances
    }

    /// Gives up the solver for its distance table.
    pub fn into_distances(self) -> (d: Vec<usize>)
        ensures
            d@ == self@.distances,
    {
        self.distances
    }

    /// The table and queue update behind `push`, without the invariant.
    fn relax(&mut self, state: State)
        requires
            old(self).queue_ordered(),
            state.position < old(self)@.len(),
        ensures
            final(self).queue_ordered(),
            final(self)@ == old(self)@.offer(state),
    {
        if state.cost < self.distances[state.position] {
            self.distances[state.position] = state.cost;
            self.heap.push(state);
        }
    }

    /// Proposes a path of length `state.cost` to node `state.position`. It is
    /// recorded and queued if it is shorter than every path proposed to that
    /// node so far, and ignored otherwise.
    pub fn push(&mut self, state: State)
        requires
            old(self).wf(),
            state.position < old(self)@.len(),
        ensures
            final(self).wf(),
            final(self)@ == old(self)@.offer(state),
            final(self)@.improves(old(self)@),
            final(self)@.potential() <= old(self)@.potential(),
    {
        proof {
            lemma_offer_inv(self@, state);
            lemma_offer_improves(self@, state);
            lemma_offer_potential(self@, state);
        }
        self.relax(state);
    }

    /// Extracts candidates in order until a fresh one turns up, offers its
    /// cost plus one to both line neighbours of its node, and returns it.
    /// Stale candidates met on the way are dropped. Returns `None`, with the
    /// queue empty, when no fresh candidate is left.
    pub fn pop(&mut self) -> (r: Option<State>)
        requires
            old(self).wf(),
        ensures
            final(self).wf(),
            final(self)@.improves(old(self)@),
            match r {
                None => old(self)@.exhausted() && final(self)@ == old(self)@.drained(),
                Some(s) => old(self)@.is_next(s) && final(self)@ == old(self)@.settle(s)
                    && final(self)@.potential() < old(self)@.potential(),
            },
    {
        let ghost start = self@;
        loop
            invariant
                self.heap.wf(),
                start == old(self)@,
                start.inv(),
                self.distances@ == start.distances,
                stale_left(start, self.heap@),
            decreases self.heap@.len(),
        {
            let ghost queued = self.heap@;
            match self.heap.pop() {
                None => {
                    proof {
                        lemma_all_left(start, queued);
                        lemma_exhausted_line(start, 0);
                    }
                    return None;
                },
                Some(s) => {
                    proof {
                        lemma_one_more_leaves(start, queued, s);
                    }
                    // A shorter path to that node is known already: skip this one.
                    if s.cost > self.distances[s.position] {
                        continue ;
                    }
                    // Forward, unless at the end.
                    if s.position + 1 < self.distances.len() {
                        self.relax(State { cost: s.cost + 1, position: s.position + 1 });
                    }
                    // Backward, unless at the start.
                    if s.position > 0 {
                        self.relax(State { cost: s.cost + 1, position: s.position - 1 });
                    }
                    proof {
                        lemma_settle_inv(start, s);
                        lemma_settle_improves(start, s);
                        lemma_settle_potential(start, s);
                    }
                    return Some(s);
                },
            }
        }
    }
}

/// `rest` is what is left of the queue of `start` after some of its
/// candidates have left it in extraction order, all of them stale.
spec fn stale_left(start: SolverModel, rest: Multiset<State>) -> bool {
    &&& forall|e: State| #[trigger] rest.count(e) <= start.pending.count(e)
    &&& forall|e: State| #[trigger] start.pending.count(e) > 0 && rest.count(e) == 0 ==> !start.is_fresh(e)
    &&& forall|e: State, f: State|
        #![trigger start.pending.count(e), rest.count(f)]
        start.pending.count(e) > 0 && rest.count(e) == 0 && rest.count(f) > 0 ==> e.before(f)
}

/// If only stale candidates have left and none remains, none was fresh.
proof fn lemma_all_left(start: SolverModel, rest: Multiset<State>)
    requires
        stale_left(start, rest),
        rest.len() == 0,
    ensures
        start.exhausted(),
        rest == Multiset::<State>::empty(),
{
    broadcast use vstd::multiset::group_multiset_axioms;

}

/// The least candidate `s` of what is left names a node of the table. If it
/// is stale, it may leave as those before it did; if it is fresh, it is the
/// next candidate of `start`, and what it leaves behind is the queue of
/// `start` without it and all that came before it.
proof fn lemma_one_more_leaves(start: SolverModel, rest: Multiset<State>, s: State)
    requires
        start.inv(),
        stale_left(start, rest),
        is_least(rest, s),
    ensures
        start.entry_ok(s),
        !start.is_fresh(s) ==> stale_left(start, rest.remove(s)),
        start.is_fresh(s) ==> start.is_next(s) && rest.remove(s) == start.drop_through(s).pending,
{
    broadcast use vstd::multiset::group_multiset_axioms;

    let fewer = rest.remove(s);
    if start.is_fresh(s) {
        assert forall|e: State| fewer.count(e) == start.drop_through(s).pending.count(e) by {
            // What does not come after `s` and is not `s` would have come
            // before it, and `s` is the least of what was left.
            if !s.before(e) && e != s && rest.count(e) > 0 {
                assert(!e.before(s));
            }
        }
    } else {
        assert forall|e: State, f: State|
            #![trigger start.pending.count(e), fewer.count(f)]
            start.pending.count(e) > 0 && fewer.count(e) == 0 && fewer.count(f) > 0 implies e.before(f) by {
            // `s` itself comes before all that it leaves behind.
            if e == s {
                assert(!f.before(s));
            }
        }
    }
}

} // verus!
