use gistools::covering::{cover_step, CoverStep, CoveringSearch};
use gistools::{PriorityQueue, S2CellId};

#[test]
fn test_priority_queue() {
    let mut queue = PriorityQueue::new(|a: &i32, b: &i32| a.cmp(b));
    assert!(queue.is_empty());
    assert_eq!(queue.peek(), None);
    assert_eq!(queue.pop(), None);
    queue.push(3);
    queue.push(1);
    queue.push(2);
    assert!(!queue.is_empty());
    assert_eq!(queue.peek(), Some(&1));
    assert_eq!(queue.pop(), Some(1));
    assert_eq!(queue.len(), 2);
}

#[test]
fn test_priority_queue_large() {
    let mut queue = PriorityQueue::new(|a: &i32, b: &i32| a.cmp(b));

    for i in 0..200 {
        queue.push(i);
    }

    assert_eq!(queue.pop(), Some(0));
}

#[test]
fn test_priority_queue_large_inverse() {
    let mut queue = PriorityQueue::new(|a: &i32, b: &i32| a.cmp(b));

    for i in 0..200 {
        queue.push(200 - i);
    }

    assert_eq!(queue.pop(), Some(1));
}

#[test]
fn priority_queue_drains_in_order() {
    let mut queue = PriorityQueue::new(|a: &i32, b: &i32| b.cmp(a));
    for x in [5, 9, 1, 7, 3, 9, 2] {
        queue.push(x);
    }
    let mut out = Vec::new();
    while let Some(x) = queue.pop() {
        out.push(x);
    }
    assert_eq!(out, vec![9, 9, 7, 5, 3, 2, 1]);
}

#[test]
fn cover_step_decisions() {
    assert_eq!(cover_step(4, false, false), CoverStep::Emit);
    assert_eq!(cover_step(2, true, false), CoverStep::Emit);
    assert_eq!(cover_step(0, false, true), CoverStep::Descend);
    assert_eq!(cover_step(0, false, false), CoverStep::Skip);
    assert_eq!(cover_step(0, true, true), CoverStep::Skip);
    assert_eq!(cover_step(3, false, false), CoverStep::Descend);
}

#[test]
fn covering_search_start() {
    let empty = CoveringSearch::new(true, false, 5);
    assert!(empty.pending.is_empty() && empty.found.is_empty());
    let full = CoveringSearch::new(false, true, 5);
    assert!(full.pending.is_empty());
    let faces: Vec<S2CellId> = (0..6).map(S2CellId::from_face).collect();
    assert_eq!(full.found, faces);
    let mut partial = CoveringSearch::new(false, false, 1);
    assert_eq!(partial.pending, faces);
    let last = partial.next_cell().unwrap();
    assert_eq!(last, S2CellId::from_face(5));
    assert_eq!(partial.examine(last, 2, false), CoverStep::Descend);
    assert_eq!(partial.pending.len(), 9);
    assert_eq!(partial.pending[5], last.child(0));
    assert_eq!(partial.pending[8], last.child(1));
    let child = partial.next_cell().unwrap();
    assert_eq!(partial.examine(child, 1, false), CoverStep::Emit);
    assert_eq!(partial.found, vec![child]);
}
