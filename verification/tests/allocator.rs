use blaise::raptor::allocator::LazyBuffer;
use blaise::raptor::flat_matrix;
use blaise::raptor::state::Target;

#[test]
fn flat_matrix_test() {
    let a = flat_matrix(0, 0, 10);
    let b = flat_matrix(0, 1, 10);
    assert_eq!(a + 1, b);

    let a = flat_matrix(1, 0, 10);
    let b = flat_matrix(1, 1, 10);
    assert_eq!(a + 1, b);

    let a = flat_matrix(2, 0, 10);
    let b = flat_matrix(2, 1, 10);
    assert_eq!(a + 1, b);

    let a = flat_matrix(0, 0, 10);
    let b = flat_matrix(1, 0, 10);
    assert_eq!(a + 10, b);
}

#[test]
fn flat_matrix_values() {
    assert_eq!(flat_matrix(3, 4, 10), 34);
    assert_eq!(flat_matrix(0, 7, 8), 7);
}

#[test]
fn target_new_and_clear() {
    let mut t = Target::new();
    assert!(t.stops.is_empty());
    assert_eq!(t.tau_star.as_seconds(), u32::MAX);
    t.stops.push(3);
    t.best_stop = Some(3);
    t.best_round = Some(1);
    t.clear();
    assert!(t.stops.is_empty());
    assert!(t.best_stop.is_none());
    assert!(t.best_round.is_none());
}

#[test]
fn lazy_buffer_keeps_order() {
    let mut b: LazyBuffer<u32> = LazyBuffer::new(4);
    assert!(b.swap().is_empty());
    b.push(1);
    b.push(2);
    assert_eq!(b.swap(), vec![1, 2]);
    b.push(3);
    assert_eq!(b.take(), Some(vec![3]));
}
