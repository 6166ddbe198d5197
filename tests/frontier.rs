use gridpath::distance::{heuristic, isqrt, SCALE};
use gridpath::frontier::Frontier;

#[test]
fn lowest_priority_comes_first() {
    let mut f = Frontier::new(4);
    f.enqueue(2, 30);
    f.enqueue(1, 10);
    f.enqueue(3, 20);
    assert_eq!(f.get_next(), Some(1));
    assert_eq!(f.get_next(), Some(3));
    assert_eq!(f.get_next(), Some(2));
    assert_eq!(f.get_next(), None);
}

#[test]
fn ties_go_to_the_lower_cell() {
    let mut f = Frontier::new(4);
    f.enqueue(3, 5);
    f.enqueue(0, 5);
    f.enqueue(2, 5);
    assert_eq!(f.get_next(), Some(0));
    assert_eq!(f.get_next(), Some(2));
    assert_eq!(f.get_next(), Some(3));
}

#[test]
fn stale_copy_is_skipped_after_improvement() {
    let mut f = Frontier::new(3);
    f.enqueue(0, 10);
    // The cost of cell 0 improves and it is queued again.
    f.enqueue(0, 5);
    f.enqueue(1, 7);
    assert_eq!(f.get_next(), Some(0));
    assert_eq!(f.get_next(), Some(1));
    // The old copy of cell 0 at 10 is stale: it is dropped, not handed out.
    assert_eq!(f.get_next(), None);
}

#[test]
fn better_copy_after_finalizing_is_handed_out() {
    let mut f = Frontier::new(2);
    f.enqueue(1, 8);
    assert_eq!(f.get_next(), Some(1));
    f.enqueue(1, 8);
    f.enqueue(1, 6);
    assert_eq!(f.get_next(), Some(1));
    assert_eq!(f.get_next(), None);
}

#[test]
fn integer_square_roots() {
    assert_eq!(isqrt(0), 0);
    assert_eq!(isqrt(15), 3);
    assert_eq!(isqrt(16), 4);
    assert_eq!(isqrt(u128::MAX), u64::MAX as u128);
}

#[test]
fn heuristic_is_scaled_euclidean_distance() {
    assert_eq!(heuristic((0, 0), (3, 4)), Some(5 * SCALE));
    assert_eq!(heuristic((7, 2), (7, 2)), Some(0));
    // sqrt(2) * 65536 = 92681.9...
    assert_eq!(heuristic((1, 1), (0, 0)), Some(92681));
    assert_eq!(heuristic((0, 0), (usize::MAX, 0)), None);
}

#[test]
fn later_stale_entries_stay_queued() {
    let mut f = Frontier::new(3);
    f.enqueue(0, 4);
    assert_eq!(f.get_next(), Some(0));
    // A copy of cell 0 at 9 is stale, but sits after the live entry at 2.
    f.enqueue(0, 9);
    f.enqueue(1, 2);
    assert_eq!(f.get_next(), Some(1));
    // The stale copy was not dropped by that call; the next one drops it.
    f.enqueue(2, 12);
    assert_eq!(f.get_next(), Some(2));
    assert_eq!(f.get_next(), None);
}
