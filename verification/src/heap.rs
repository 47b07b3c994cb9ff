//! A binary min-heap of candidates, kept in a vector.

use crate::state::State;
use vstd::multiset::Multiset;
use vstd::prelude::*;
use vstd::seq_lib::{to_multiset_build, to_multiset_contains, to_multiset_len, to_multiset_update};

verus! {

/// `m` is in `q` and no element of `q` comes before it.
pub open spec fn is_least(q: Multiset<State>, m: State) -> bool {
    q.contains(m) && forall|e: State| q.contains(e) ==> !e.before(m)
}

/// Index of the parent of slot `i` in the implicit tree.
spec fn parent(i: int) -> int {
    (i - 1) / 2
}

/// The element in slot `i` does not come before the one in its parent slot.
spec fn ordered_at(s: Seq<State>, i: int) -> bool {
    !s[i].before(s[parent(i)])
}

/// Every slot but the root respects its parent.
spec fn heap_ordered(s: Seq<State>) -> bool {
    forall|i: int| 1 <= i < s.len() ==> #[trigger] ordered_at(s, i)
}

/// In a heap-ordered sequence nothing comes before the root.
proof fn lemma_root_is_least(s: Seq<State>, k: int)
    requires
        heap_ordered(s),
        0 <= k < s.len(),
    ensures
        !s[k].before(s[0]),
    decreases k,
{
    if k > 0 {
        assert(ordered_at(s, k));
        lemma_root_is_least(s, parent(k));
    }
}

/// Every slot but `hole` respects its parent, and the slots below `hole`
/// respect the slot above it: the order is whole once `hole` has moved up far
/// enough.
spec fn ordered_but_at(s: Seq<State>, hole: int) -> bool {
    &&& forall|j: int| 1 <= j < s.len() && j != hole ==> #[trigger] ordered_at(s, j)
    &&& forall|j: int|
        1 <= j < s.len() && parent(j) == hole && hole >= 1 ==> !(#[trigger] s[j]).before(s[parent(hole)])
}

/// Every slot but those right below `hole` respects its parent, and these
/// respect the slot above `hole`: the order is whole once `hole` has moved
/// down far enough.
spec fn ordered_but_below(s: Seq<State>, hole: int) -> bool {
    &&& forall|j: int| 1 <= j < s.len() && parent(j) != hole ==> #[trigger] ordered_at(s, j)
    &&& forall|j: int|
        1 <= j < s.len() && parent(j) == hole && hole >= 1 ==> !(#[trigger] s[j]).before(s[parent(hole)])
}

/// Exchanging two slots keeps the contents.
proof fn lemma_swap_keeps_contents(s: Seq<State>, i: int, j: int)
    requires
        0 <= i < s.len(),
        0 <= j < s.len(),
    ensures
        s.update(i, s[j]).update(j, s[i]).to_multiset() == s.to_multiset(),
{
    let t = s.update(i, s[j]);
    to_multiset_update(s, i, s[j]);
    to_multiset_update(t, j, s[i]);
    to_multiset_contains(s, s[i]);
    to_multiset_contains(s, s[j]);
}

/// A priority queue of candidates that hands them out in extraction order.
#[derive(Debug)]
pub struct MinHeap {
    items: Vec<State>,
}

impl View for MinHeap {
    type V = Multiset<State>;

    /// The candidates held, with multiplicity.
    closed spec fn view(&self) -> Multiset<State> {
        self.items@.to_multiset()
    }
}

impl MinHeap {
    /// The stored vector is heap-ordered.
    pub closed spec fn wf(&self) -> bool {
        heap_ordered(self.items@)
    }

    /// An empty queue.
    pub fn new() -> (h: MinHeap)
        ensures
            h.wf(),
            h@ == Multiset::<State>::empty(),
    {
        let h = MinHeap { items: Vec::new() };
        proof {
            to_multiset_len(h.items@);
        }
        h
    }

    /// Number of candidates held.
    pub fn len(&self) -> (n: usize)
        ensures
            n == self@.len(),
    {
        proof {
            to_multiset_len(self.items@);
        }
        self.items.len()
    }

    /// Whether no candidate is held.
    pub fn is_empty(&self) -> (b: bool)
        ensures
            b == (self@.len() == 0),
    {
        self.len() == 0
    }

    /// Exchanges the candidates in slots `i` and `j`.
    fn swap(&mut self, i: usize, j: usize)
        requires
            i < old(self).items@.len(),
            j < old(self).items@.len(),
        ensures
            final(self).items@ == old(self).items@.update(i as int, old(self).items@[j as int]).update(
                j as int,
                old(self).items@[i as int],
            ),
            final(self)@ == old(self)@,
    {
        proof {
            lemma_swap_keeps_contents(self.items@, i as int, j as int);
        }
        let a = self.items[i];
        let b = self.items[j];
        self.items[i] = b;
        self.items[j] = a;
    }

    /// Moves the candidate in slot `start` towards the root until the one
    /// above it no longer comes after it.
    fn sift_up(&mut self, start: usize)
        requires
            start < old(self).items@.len(),
            ordered_but_at(old(self).items@, start as int),
        ensures
            final(self).wf(),
            final(self)@ == old(self)@,
    {
        let mut i: usize = start;
        while i > 0
            invariant
                i < self.items@.len(),
                self@ == old(self)@,
                ordered_but_at(self.items@, i as int),
            ensures
                heap_ordered(self.items@),
                self@ == old(self)@,
            decreases i,
        {
            let above: usize = (i - 1) / 2;
            if !(self.items[i] < self.items[above]) {
                break ;
            }
            let ghost before = self.items@;
            self.swap(i, above);
            proof {
                let after = self.items@;
                assert(ordered_at(before, above as int) || above == 0);
                assert forall|j: int| 1 <= j < after.len() && j != above implies #[trigger] ordered_at(
                    after,
                    j,
                ) by {
                    if j != i && parent(j) != i {
                        assert(ordered_at(before, j));
                    }
                }
                assert forall|j: int|
                    1 <= j < after.len() && parent(j) == above && above >= 1 implies !(#[trigger] after[j]).before(
                    after[parent(above as int)],
                ) by {
                    if j != i {
                        assert(ordered_at(before, j));
                    }
                }
            }
            i = above;
        }
    }

    /// Moves the candidate in the root slot away from the root until neither
    /// of the two below it comes before it.
    fn sift_down(&mut self)
        requires
            old(self).items@.len() > 0,
            ordered_but_below(old(self).items@, 0),
        ensures
            final(self).wf(),
            final(self)@ == old(self)@,
    {
        let n: usize = self.items.len();
        let half: usize = n / 2;
        let mut i: usize = 0;
        while i < half
            invariant
                n == self.items@.len(),
                half == n / 2,
                i < n,
                self@ == old(self)@,
                ordered_but_below(self.items@, i as int),
            ensures
                heap_ordered(self.items@),
                self@ == old(self)@,
            decreases n - i,
        {
            let left: usize = 2 * i + 1;
            let right: usize = left + 1;
            let mut below: usize = left;
            if right < n && self.items[right] < self.items[left] {
                below = right;
            }
            if !(self.items[below] < self.items[i]) {
                break ;
            }
            let ghost before = self.items@;
            self.swap(i, below);
            proof {
                let after = self.items@;
                assert forall|j: int| 1 <= j < n && parent(j) != below implies #[trigger] ordered_at(
                    after,
                    j,
                ) by {
                    if parent(j) != i && j != i {
                        assert(ordered_at(before, j));
                    }
                }
                assert forall|j: int|
                    1 <= j < n && parent(j) == below && below >= 1 implies !(#[trigger] after[j]).before(
                    after[parent(below as int)],
                ) by {
                    assert(ordered_at(before, j));
                }
            }
            i = below;
        }
    }

    /// Adds one candidate.
    pub fn push(&mut self, item: State)
        requires
            old(self).wf(),
        ensures
            final(self).wf(),
            final(self)@ == old(self)@.insert(item),
    {
        proof {
            to_multiset_build(self.items@, item);
        }
        self.items.push(item);
        let last: usize = self.items.len() - 1;
        proof {
            assert forall|j: int| 1 <= j < self.items@.len() && j != last implies #[trigger] ordered_at(
                self.items@,
                j,
            ) by {
                assert(ordered_at(old(self).items@, j));
            }
        }
        self.sift_up(last);
    }

    /// Removes and returns the candidate that comes first, if any.
    pub fn pop(&mut self) -> (r: Option<State>)
        requires
            old(self).wf(),
        ensures
            final(self).wf(),
            match r {
                None => old(self)@.len() == 0 && final(self)@ == old(self)@,
                Some(m) => is_least(old(self)@, m) && final(self)@ == old(self)@.remove(m),
            },
    {
        proof {
            to_multiset_len(self.items@);
        }
        if self.items.len() == 0 {
            return None;
        }
        let ghost initial = self.items@;
        let least = self.items[0];
        proof {
            to_multiset_contains(initial, least);
            assert forall|e: State| initial.to_multiset().contains(e) implies !e.before(least) by {
                to_multiset_contains(initial, e);
                let k = choose|k: int| 0 <= k < initial.len() && initial[k] == e;
                lemma_root_is_least(initial, k);
            }
        }
        let last = self.items.pop().unwrap();
        let ghost rest = self.items@;
        proof {
            assert(initial =~= rest.push(last));
            to_multiset_build(rest, last);
            assert forall|j: int| 1 <= j < rest.len() implies #[trigger] ordered_at(rest, j) by {
                assert(ordered_at(initial, j));
            }
        }
        if self.items.len() == 0 {
            return Some(least);
        }
        self.items[0] = last;
        proof {
            to_multiset_update(rest, 0, last);
            assert forall|j: int| 1 <= j < self.items@.len() && parent(j) != 0 implies #[trigger] ordered_at(
                self.items@,
                j,
            ) by {
                assert(ordered_at(rest, j));
            }
        }
        self.sift_down();
        Some(least)
    }
}

} // verus!
