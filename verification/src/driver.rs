//! Shortest distances on the line with shortcuts: the solver is run to
//! exhaustion, and after each extraction the shortcut that leaves the
//! extracted node is proposed to it.

use crate::error::SolveError;
use crate::graph::{
    is_distance, is_distance_table, is_edge, is_walk, lemma_reach_extends,
    lemma_relaxed_and_reached_is_distance_table, lemma_source_reached, reaches, valid_shortcuts,
};
use crate::model::{
    lemma_exhausted_line, lemma_initial_inv, lemma_offer_improves, lemma_offer_inv,
    lemma_offer_potential, lemma_settle_improves, lemma_settle_inv, lemma_settle_potential,
    SolverModel, UNREACHED,
};
use crate::solver::LinearDijkstra;
use crate::state::State;
use vstd::prelude::*;

verus! {

/// The candidate that follows the shortcut out of the node of `s`.
pub open spec fn shortcut_of(shortcuts: Seq<usize>, s: State) -> State {
    State { cost: (s.cost + 1) as usize, position: shortcuts[s.position as int] }
}

/// One round of the search: `s` is extracted and its shortcut proposed.
pub open spec fn step(m: SolverModel, shortcuts: Seq<usize>, s: State) -> SolverModel {
    m.settle(s).offer(shortcut_of(shortcuts, s))
}

/// Node `p` either still waits in the queue at its current cost, or the
/// target of its shortcut has been offered that cost plus one.
pub open spec fn covered(m: SolverModel, shortcuts: Seq<usize>, p: int) -> bool {
    m.pending.count(m.candidate_at(p)) > 0 || m.distances[shortcuts[p] as int] <= m.distances[p] + 1
}

/// The entry of node `p`, if it has one, is the length of a walk to `p`.
pub open spec fn witnessed(m: SolverModel, shortcuts: Seq<usize>, p: int) -> bool {
    m.distances[p] < UNREACHED ==> reaches(shortcuts, p, m.distances[p] as nat)
}

/// What holds between the rounds of a search on `shortcuts`.
pub open spec fn search_inv(m: SolverModel, shortcuts: Seq<usize>) -> bool {
    &&& m.inv()
    &&& m.len() == shortcuts.len()
    &&& valid_shortcuts(shortcuts)
    &&& forall|p: int| 0 <= p < m.len() ==> #[trigger] covered(m, shortcuts, p)
    &&& forall|p: int| 0 <= p < m.len() ==> #[trigger] witnessed(m, shortcuts, p)
}

/// A fresh solver starts a search in good order.
pub proof fn lemma_search_starts(shortcuts: Seq<usize>)
    requires
        valid_shortcuts(shortcuts),
        shortcuts.len() <= usize::MAX,
    ensures
        search_inv(SolverModel::initial(shortcuts.len()), shortcuts),
{
    broadcast use vstd::multiset::group_multiset_axioms;

    lemma_initial_inv(shortcuts.len());
    lemma_source_reached(shortcuts);
}

/// A round keeps the search in good order and lowers the potential.
pub proof fn lemma_step_keeps_search(m: SolverModel, shortcuts: Seq<usize>, s: State)
    requires
        search_inv(m, shortcuts),
        m.is_next(s),
    ensures
        search_inv(step(m, shortcuts, s), shortcuts),
        step(m, shortcuts, s).improves(m),
        step(m, shortcuts, s).potential() < m.potential(),
{
    broadcast use vstd::multiset::group_multiset_axioms;

    let q: int = s.position as int;
    let mid = m.settle(s);
    let jump = shortcut_of(shortcuts, s);
    let end = step(m, shortcuts, s);
    lemma_settle_inv(m, s);
    lemma_settle_improves(m, s);
    lemma_settle_potential(m, s);
    lemma_offer_inv(mid, jump);
    lemma_offer_improves(mid, jump);
    lemma_offer_potential(mid, jump);
    assert(witnessed(m, shortcuts, q));
    assert forall|p: int| 0 <= p < end.len() implies #[trigger] witnessed(end, shortcuts, p) by {
        assert(witnessed(m, shortcuts, p));
        // An entry that changed is one edge away from the node of `s`.
        if end.distances[p] != m.distances[p] {
            lemma_reach_extends(shortcuts, q, p, s.cost as nat);
        }
    }
    assert forall|p: int| 0 <= p < end.len() implies #[trigger] covered(end, shortcuts, p) by {
        assert(covered(m, shortcuts, p));
    }
}

/// While `s` is the next candidate, the table already matches every walk
/// shorter than the cost of `s`.
proof fn lemma_short_walks_are_matched(m: SolverModel, shortcuts: Seq<usize>, s: State, w: Seq<int>)
    requires
        search_inv(m, shortcuts),
        m.is_next(s),
        is_walk(shortcuts, w),
        w.len() - 1 < s.cost,
    ensures
        0 <= w.last() < m.len(),
        m.distances[w.last()] <= w.len() - 1,
    decreases w.len(),
{
    if w.len() > 1 {
        let v = w.drop_last();
        lemma_short_walks_are_matched(m, shortcuts, s, v);
        // The last node but one is entered at less than the cost of `s`, so
        // it no longer waits in the queue: its edges have been offered.
        let a: int = v.last();
        assert(m.accounted(a));
        assert(covered(m, shortcuts, a));
    }
}

/// The candidate that `pop` returns during a search carries the shortest
/// distance of its node: that entry of the table is final.
pub proof fn lemma_next_is_final(m: SolverModel, shortcuts: Seq<usize>, s: State)
    requires
        search_inv(m, shortcuts),
        m.is_next(s),
    ensures
        is_distance(shortcuts, s.position as int, s.cost as nat),
{
    let q: int = s.position as int;
    assert(witnessed(m, shortcuts, q));
    assert forall|steps: nat| #[trigger] reaches(shortcuts, q, steps) implies s.cost <= steps by {
        if steps < s.cost {
            let w = choose|w: Seq<int>| #[trigger]
                is_walk(shortcuts, w) && w.last() == q && w.len() == steps + 1;
            lemma_short_walks_are_matched(m, shortcuts, s, w);
        }
    }
}

/// An entry that holds the shortest distance of its node is not improved
/// in the rest of the search.
pub proof fn lemma_final_entry_stays(first: SolverModel, later: SolverModel, shortcuts: Seq<usize>, p: int)
    requires
        search_inv(later, shortcuts),
        later.improves(first),
        0 <= p < first.len(),
        is_distance(shortcuts, p, first.distances[p] as nat),
    ensures
        later.distances[p] == first.distances[p],
{
    assert(witnessed(later, shortcuts, p));
    assert(later.distances[p] <= first.distances[p]);
}

/// When no fresh candidate is left, the table holds the shortest distances.
pub proof fn lemma_search_ends(m: SolverModel, shortcuts: Seq<usize>)
    requires
        search_inv(m, shortcuts),
        m.exhausted(),
    ensures
        is_distance_table(shortcuts, m.distances),
{
    let table = m.distances;
    assert forall|a: int, b: int| #[trigger] is_edge(shortcuts, a, b) implies table[b] <= table[a] + 1 by {
        lemma_exhausted_line(m, a);
        assert(covered(m, shortcuts, a));
    }
    assert forall|p: int| 0 <= p < table.len() implies reaches(shortcuts, p, #[trigger] table[p] as nat) by {
        lemma_exhausted_line(m, p);
        assert(witnessed(m, shortcuts, p));
    }
    lemma_relaxed_and_reached_is_distance_table(shortcuts, table);
}

/// Checks a shortcut table: it must have an entry for at least one node, and
/// every entry must name a node.
pub fn validate(shortcuts: &Vec<usize>) -> (r: Result<(), SolveError>)
    ensures
        match r {
            Ok(_) => valid_shortcuts(shortcuts@),
            Err(SolveError::InvalidSize) => shortcuts@.len() == 0,
            Err(SolveError::IndexOutOfRange) => shortcuts@.len() > 0 && !valid_shortcuts(shortcuts@),
        },
{
    let n: usize = shortcuts.len();
    if n == 0 {
        return Err(SolveError::InvalidSize);
    }
    let mut i: usize = 0;
    while i < n
        invariant
            n == shortcuts@.len(),
            i <= n,
            forall|k: int| 0 <= k < i ==> #[trigger] shortcuts@[k] < n,
        decreases n - i,
    {
        if shortcuts[i] >= n {
            return Err(SolveError::IndexOutOfRange);
        }
        i += 1;
    }
    Ok(())
}

/// The first `n` entries of `raw` are shortcuts for `n` nodes that count the
/// nodes from 1: there is at least one node, and each of these entries names
/// a node.
pub open spec fn valid_one_based(n: nat, raw: Seq<usize>) -> bool {
    &&& 0 < n <= raw.len()
    &&& forall|i: int| 0 <= i < n ==> 1 <= #[trigger] raw[i] <= n
}

/// Turns the shortcuts of `n` nodes that count the nodes from 1 into
/// shortcuts that count them from 0, and checks them on the way. What `raw`
/// holds beyond its first `n` entries is not looked at.
pub fn zero_based(n: usize, raw: &Vec<usize>) -> (r: Result<Vec<usize>, SolveError>)
    ensures
        match r {
            Ok(shortcuts) => {
                &&& valid_one_based(n as nat, raw@)
                &&& valid_shortcuts(shortcuts@)
                &&& shortcuts@ == raw@.take(n as int).map_values(|target: usize| (target - 1) as usize)
            },
            Err(SolveError::InvalidSize) => n == 0,
            Err(SolveError::IndexOutOfRange) => n > 0 && !valid_one_based(n as nat, raw@),
        },
{
    if n == 0 {
        return Err(SolveError::InvalidSize);
    }
    if raw.len() < n {
        return Err(SolveError::IndexOutOfRange);
    }
    let mut shortcuts: Vec<usize> = Vec::new();
    let mut i: usize = 0;
    while i < n
        invariant
            0 < n <= raw@.len(),
            i <= n,
            shortcuts@.len() == i,
            forall|k: int| 0 <= k < i ==> 1 <= #[trigger] raw@[k] <= n,
            forall|k: int| 0 <= k < i ==> #[trigger] shortcuts@[k] == raw@[k] - 1,
        decreases n - i,
    {
        let target: usize = raw[i];
        if target == 0 || target > n {
            return Err(SolveError::IndexOutOfRange);
        }
        shortcuts.push(target - 1);
        i += 1;
    }
    Ok(shortcuts)
}

/// The shortest distance from node 0 to every node of the line with the
/// given shortcuts, counted from 0.
pub fn solve(shortcuts: &Vec<usize>) -> (r: Result<Vec<usize>, SolveError>)
    ensures
        match r {
            Ok(table) => valid_shortcuts(shortcuts@) && is_distance_table(shortcuts@, table@),
            Err(SolveError::InvalidSize) => shortcuts@.len() == 0,
            Err(SolveError::IndexOutOfRange) => shortcuts@.len() > 0 && !valid_shortcuts(shortcuts@),
        },
{
    match validate(shortcuts) {
        Err(e) => {
            return Err(e);
        },
        Ok(_) => {},
    }
    let mut solver = match LinearDijkstra::new(shortcuts.len()) {
        Ok(solver) => solver,
        Err(e) => {
            return Err(e);
        },
    };
    proof {
        lemma_search_starts(shortcuts@);
    }
    loop
        invariant
            solver.wf(),
            search_inv(solver@, shortcuts@),
        decreases solver@.potential(),
    {
        let ghost before = solver@;
        match solver.pop() {
            None => {
                proof {
                    lemma_search_ends(before, shortcuts@);
                }
                return Ok(solver.into_distances());
            },
            Some(s) => {
                proof {
                    lemma_step_keeps_search(before, shortcuts@, s);
                }
                solver.push(State { cost: s.cost + 1, position: shortcuts[s.position] });
            },
        }
    }
}

} // verus!
