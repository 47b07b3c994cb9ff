//! Candidates and the order in which they leave the queue.

use std::cmp::Ordering;
use vstd::prelude::*;

verus! {

/// A proposed path from node 0 to `position` of length `cost`.
#[derive(Clone, Copy, Debug, PartialEq, Eq, Structural)]
pub struct State {
    pub cost: usize,
    pub position: usize,
}

impl State {
    /// The extraction order: smaller cost first, and among equal costs the
    /// smaller position first.
    pub open spec fn before(self, other: State) -> bool {
        self.cost < other.cost || (self.cost == other.cost && self.position < other.position)
    }

    /// How `self` stands to `other` in extraction order.
    pub open spec fn order(self, other: State) -> Ordering {
        if self.before(other) {
            Ordering::Less
        } else if other.before(self) {
            Ordering::Greater
        } else {
            Ordering::Equal
        }
    }

    /// Three-way comparison in extraction order: `Less` when `self` leaves
    /// the queue before `other`.
    pub fn cmp(&self, other: &State) -> (r: Ordering)
        ensures
            r == self.order(*other),
    {
        if self.cost < other.cost {
            Ordering::Less
        } else if self.cost > other.cost {
            Ordering::Greater
        } else if self.position < other.position {
            Ordering::Less
        } else if self.position > other.position {
            Ordering::Greater
        } else {
            Ordering::Equal
        }
    }
}

impl PartialOrd for State {
    fn partial_cmp(&self, other: &State) -> (r: Option<Ordering>) {
        Some(self.cmp(other))
    }
}

impl vstd::std_specs::cmp::PartialOrdSpecImpl for State {
    open spec fn obeys_partial_cmp_spec() -> bool {
        true
    }

    open spec fn partial_cmp_spec(&self, other: &State) -> Option<Ordering> {
        Some(self.order(*other))
    }
}

/// `before` is a strict total order on candidates: nothing comes before
/// itself, two different candidates are ordered exactly one way, and the
/// order is transitive.
pub proof fn lemma_before_is_strict_total_order(a: State, b: State, c: State)
    ensures
        !a.before(a),
        a.before(b) ==> !b.before(a),
        a.before(b) || b.before(a) || a == b,
        a.before(b) && b.before(c) ==> a.before(c),
{
}

} // verus!
