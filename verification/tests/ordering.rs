use linear_dijkstra::{MinHeap, State};
use std::cmp::Ordering;

fn state(cost: usize, position: usize) -> State {
    State { cost, position }
}

#[test]
fn lower_cost_comes_first() {
    assert!(state(1, 9) < state(2, 0));
    assert!(!(state(2, 0) < state(1, 9)));
    assert_eq!(state(1, 9).cmp(&state(2, 0)), Ordering::Less);
    assert_eq!(state(2, 0).cmp(&state(1, 9)), Ordering::Greater);
}

#[test]
fn equal_cost_is_ordered_by_position() {
    assert!(state(4, 1) < state(4, 2));
    assert!(!(state(4, 2) < state(4, 1)));
    assert_eq!(state(4, 1).cmp(&state(4, 2)), Ordering::Less);
    assert_eq!(state(4, 2).cmp(&state(4, 1)), Ordering::Greater);
}

#[test]
fn comparison_operators_follow_the_order() {
    assert!(state(1, 9) < state(2, 0));
    assert!(state(1, 9) <= state(2, 0));
    assert!(state(2, 0) > state(1, 9));
    assert!(state(2, 0) >= state(2, 0));
    assert!(state(2, 0) <= state(2, 0));
    assert_eq!(state(2, 1).partial_cmp(&state(2, 2)), Some(Ordering::Less));
    assert_eq!(state(2, 2).partial_cmp(&state(2, 2)), Some(Ordering::Equal));
    assert_eq!(state(3, 0).partial_cmp(&state(2, 2)), Some(Ordering::Greater));
}

#[test]
fn a_candidate_does_not_precede_itself() {
    assert!(!(state(3, 3) < state(3, 3)));
    assert_eq!(state(3, 3).cmp(&state(3, 3)), Ordering::Equal);
}

#[test]
fn order_is_total_and_transitive_on_a_grid() {
    let mut all = Vec::new();
    for cost in 0..4 {
        for position in (0..4).rev() {
            all.push(state(cost, position));
        }
    }
    for a in &all {
        for b in &all {
            let forward = a < b;
            let backward = b < a;
            assert!(!(forward && backward));
            assert_eq!(!forward && !backward, a == b);
            for c in &all {
                if forward && b < c {
                    assert!(a < c);
                }
            }
        }
    }
}

#[test]
fn extremes_of_the_range_compare() {
    assert!(state(0, usize::MAX) < state(1, 0));
    assert!(state(usize::MAX, 0) < state(usize::MAX, usize::MAX));
    assert_eq!(state(usize::MAX, usize::MAX).cmp(&state(0, 0)), Ordering::Greater);
}

#[test]
fn new_heap_is_empty() {
    let mut heap = MinHeap::new();
    assert!(heap.is_empty());
    assert_eq!(heap.len(), 0);
    assert_eq!(heap.pop(), None);
    assert!(heap.is_empty());
}

#[test]
fn heap_hands_out_in_extraction_order() {
    let mut heap = MinHeap::new();
    let input = [
        state(5, 0),
        state(1, 7),
        state(3, 2),
        state(1, 2),
        state(9, 9),
        state(0, 4),
        state(3, 1),
        state(2, 8),
    ];
    for s in input {
        heap.push(s);
    }
    assert_eq!(heap.len(), 8);
    let expected = [
        state(0, 4),
        state(1, 2),
        state(1, 7),
        state(2, 8),
        state(3, 1),
        state(3, 2),
        state(5, 0),
        state(9, 9),
    ];
    for e in expected {
        assert_eq!(heap.pop(), Some(e));
    }
    assert_eq!(heap.pop(), None);
    assert!(heap.is_empty());
}

#[test]
fn heap_keeps_duplicates() {
    let mut heap = MinHeap::new();
    heap.push(state(2, 2));
    heap.push(state(1, 1));
    heap.push(state(2, 2));
    heap.push(state(1, 1));
    assert_eq!(heap.len(), 4);
    assert_eq!(heap.pop(), Some(state(1, 1)));
    assert_eq!(heap.pop(), Some(state(1, 1)));
    assert_eq!(heap.pop(), Some(state(2, 2)));
    assert_eq!(heap.len(), 1);
    assert_eq!(heap.pop(), Some(state(2, 2)));
    assert_eq!(heap.pop(), None);
}

#[test]
fn heap_order_does_not_depend_on_insertion_order() {
    let items = [state(2, 1), state(2, 0), state(1, 5), state(2, 3), state(1, 4)];
    let mut forward = MinHeap::new();
    for s in items {
        forward.push(s);
    }
    let mut backward = MinHeap::new();
    for s in items.iter().rev() {
        backward.push(*s);
    }
    for _ in 0..items.len() {
        assert_eq!(forward.pop(), backward.pop());
    }
    assert_eq!(forward.pop(), None);
    assert_eq!(backward.pop(), None);
}

#[test]
fn heap_sorts_a_long_scrambled_run() {
    let mut heap = MinHeap::new();
    let mut x: usize = 12345;
    let mut pushed = Vec::new();
    for _ in 0..500 {
        x = x.wrapping_mul(6364136223846793005).wrapping_add(1442695040888963407);
        let s = state((x >> 33) % 50, (x >> 17) % 50);
        pushed.push((s.cost, s.position));
        heap.push(s);
    }
    pushed.sort();
    for (cost, position) in pushed {
        assert_eq!(heap.pop(), Some(state(cost, position)));
    }
    assert_eq!(heap.pop(), None);
}

#[test]
fn heap_interleaves_pushes_and_pops() {
    let mut heap = MinHeap::new();
    heap.push(state(4, 0));
    heap.push(state(2, 0));
    assert_eq!(heap.pop(), Some(state(2, 0)));
    heap.push(state(1, 0));
    heap.push(state(3, 0));
    assert_eq!(heap.pop(), Some(state(1, 0)));
    assert_eq!(heap.pop(), Some(state(3, 0)));
    heap.push(state(0, 0));
    assert_eq!(heap.pop(), Some(state(0, 0)));
    assert_eq!(heap.pop(), Some(state(4, 0)));
    assert_eq!(heap.pop(), None);
}
