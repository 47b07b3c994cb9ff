//! The graph being searched and what its shortest distances are.
//!
//! Node `a` has an edge of cost one to `a + 1`, to `a - 1` and to
//! `shortcuts[a]`, as far as these are nodes.

use vstd::prelude::*;

verus! {

/// A shortcut table for at least one node, every entry of which is a node.
pub open spec fn valid_shortcuts(shortcuts: Seq<usize>) -> bool {
    &&& shortcuts.len() > 0
    &&& forall|i: int| 0 <= i < shortcuts.len() ==> #[trigger] shortcuts[i] < shortcuts.len()
}

/// There is an edge from node `a` to node `b`.
pub open spec fn is_edge(shortcuts: Seq<usize>, a: int, b: int) -> bool {
    &&& 0 <= a < shortcuts.len()
    &&& 0 <= b < shortcuts.len()
    &&& (b == a + 1 || b == a - 1 || b == shortcuts[a])
}

/// `w` lists the nodes of a walk that starts at node 0.
pub open spec fn is_walk(shortcuts: Seq<usize>, w: Seq<int>) -> bool {
    &&& shortcuts.len() > 0
    &&& w.len() > 0
    &&& w[0] == 0
    &&& forall|k: int| 0 <= k < w.len() - 1 ==> is_edge(shortcuts, #[trigger] w[k], w[k + 1])
}

/// Some walk from node 0 arrives at node `p` after exactly `steps` edges.
pub open spec fn reaches(shortcuts: Seq<usize>, p: int, steps: nat) -> bool {
    exists|w: Seq<int>| #[trigger] is_walk(shortcuts, w) && w.last() == p && w.len() == steps + 1
}

/// `d` is the length of a shortest walk from node 0 to node `p`.
pub open spec fn is_distance(shortcuts: Seq<usize>, p: int, d: nat) -> bool {
    &&& reaches(shortcuts, p, d)
    &&& forall|steps: nat| #[trigger] reaches(shortcuts, p, steps) ==> d <= steps
}

/// `table` holds, for every node, the length of a shortest walk to it.
pub open spec fn is_distance_table(shortcuts: Seq<usize>, table: Seq<usize>) -> bool {
    &&& table.len() == shortcuts.len()
    &&& forall|p: int| 0 <= p < shortcuts.len() ==> is_distance(shortcuts, p, #[trigger] table[p] as nat)
}

/// `table` has 0 for node 0 and rises by at most one along every edge.
pub open spec fn is_relaxed(shortcuts: Seq<usize>, table: Seq<usize>) -> bool {
    &&& table.len() == shortcuts.len()
    &&& table.len() > 0
    &&& table[0] == 0
    &&& forall|a: int, b: int| #[trigger] is_edge(shortcuts, a, b) ==> table[b] <= table[a] + 1
}

/// Node 0 is reached by the walk of no edges.
pub proof fn lemma_source_reached(shortcuts: Seq<usize>)
    requires
        shortcuts.len() > 0,
    ensures
        reaches(shortcuts, 0, 0),
{
    let w = seq![0int];
    assert(is_walk(shortcuts, w));
}

/// A walk can be continued along any edge that leaves its last node.
pub proof fn lemma_reach_extends(shortcuts: Seq<usize>, a: int, b: int, steps: nat)
    requires
        reaches(shortcuts, a, steps),
        is_edge(shortcuts, a, b),
    ensures
        reaches(shortcuts, b, steps + 1),
{
    let w = choose|w: Seq<int>| #[trigger] is_walk(shortcuts, w) && w.last() == a && w.len() == steps + 1;
    let v = w.push(b);
    assert(is_walk(shortcuts, v));
}

/// Every node of a walk is a node of the graph.
pub proof fn lemma_walk_stays_inside(shortcuts: Seq<usize>, w: Seq<int>, k: int)
    requires
        is_walk(shortcuts, w),
        0 <= k < w.len(),
    ensures
        0 <= w[k] < shortcuts.len(),
{
    if k > 0 {
        assert(is_edge(shortcuts, w[k - 1], w[k - 1 + 1]));
    }
}

/// In a relaxed table no entry exceeds the length of any walk to its node.
pub proof fn lemma_relaxed_bounds_walk(shortcuts: Seq<usize>, table: Seq<usize>, w: Seq<int>)
    requires
        is_relaxed(shortcuts, table),
        is_walk(shortcuts, w),
    ensures
        0 <= w.last() < table.len(),
        table[w.last()] <= w.len() - 1,
    decreases w.len(),
{
    lemma_walk_stays_inside(shortcuts, w, w.len() - 1);
    if w.len() > 1 {
        let v = w.drop_last();
        lemma_relaxed_bounds_walk(shortcuts, table, v);
    }
}

/// A relaxed table each of whose entries is the length of some walk to its
/// node is the table of shortest distances.
pub proof fn lemma_relaxed_and_reached_is_distance_table(shortcuts: Seq<usize>, table: Seq<usize>)
    requires
        is_relaxed(shortcuts, table),
        forall|p: int| 0 <= p < table.len() ==> reaches(shortcuts, p, #[trigger] table[p] as nat),
    ensures
        is_distance_table(shortcuts, table),
{
    assert forall|p: int| 0 <= p < shortcuts.len() implies is_distance(
        shortcuts,
        p,
        #[trigger] table[p] as nat,
    ) by {
        assert forall|steps: nat| #[trigger] reaches(shortcuts, p, steps) implies table[p] <= steps by {
            let w = choose|w: Seq<int>| #[trigger]
                is_walk(shortcuts, w) && w.last() == p && w.len() == steps + 1;
            lemma_relaxed_bounds_walk(shortcuts, table, w);
        }
    }
}

/// The source lies at distance 0 from itself.
pub proof fn lemma_source_distance_is_zero(shortcuts: Seq<usize>, table: Seq<usize>)
    requires
        shortcuts.len() > 0,
        is_distance_table(shortcuts, table),
    ensures
        table[0] == 0,
{
    lemma_source_reached(shortcuts);
}

/// Shortest distances rise by at most one along every edge.
pub proof fn lemma_distance_table_is_relaxed(shortcuts: Seq<usize>, table: Seq<usize>)
    requires
        shortcuts.len() > 0,
        is_distance_table(shortcuts, table),
    ensures
        is_relaxed(shortcuts, table),
{
    lemma_source_distance_is_zero(shortcuts, table);
    assert forall|a: int, b: int| #[trigger] is_edge(shortcuts, a, b) implies table[b] <= table[a] + 1 by {
        lemma_reach_extends(shortcuts, a, b, table[a] as nat);
    }
}

/// The distances of two nodes next to each other on the line differ by at
/// most one.
pub proof fn lemma_adjacent_distances_differ_by_at_most_one(
    shortcuts: Seq<usize>,
    table: Seq<usize>,
    i: int,
)
    requires
        is_distance_table(shortcuts, table),
        0 <= i,
        i + 1 < shortcuts.len(),
    ensures
        table[i] - table[i + 1] <= 1,
        table[i + 1] - table[i] <= 1,
{
    lemma_distance_table_is_relaxed(shortcuts, table);
    assert(is_edge(shortcuts, i, i + 1));
    assert(is_edge(shortcuts, i + 1, i));
}

/// The target of a node's shortcut is at most one step further than the
/// node itself.
pub proof fn lemma_shortcut_target_is_within_one(shortcuts: Seq<usize>, table: Seq<usize>, i: int)
    requires
        valid_shortcuts(shortcuts),
        is_distance_table(shortcuts, table),
        0 <= i < shortcuts.len(),
    ensures
        table[shortcuts[i] as int] <= table[i] + 1,
{
    lemma_distance_table_is_relaxed(shortcuts, table);
    assert(is_edge(shortcuts, i, shortcuts[i] as int));
}

/// A graph has only one table of shortest distances: whatever computes one
/// computes the same.
pub proof fn lemma_distance_table_is_unique(shortcuts: Seq<usize>, first: Seq<usize>, second: Seq<usize>)
    requires
        is_distance_table(shortcuts, first),
        is_distance_table(shortcuts, second),
    ensures
        first == second,
{
}

} // verus!
