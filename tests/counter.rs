use glomers::counter::{Counter, DeltaOutcome};

fn a() -> String {
    "A".to_string()
}

#[test]
fn local_add_then_read() {
    let mut c = Counter::new("n0".to_string());
    assert_eq!(c.add(5), Some(1));
    assert_eq!(c.read(), 5);
    assert_eq!(c.add(2), Some(2));
    assert_eq!(c.read(), 7);
}

#[test]
fn gap_is_held_until_filled() {
    let mut b = Counter::new("B".to_string());
    assert_eq!(b.on_delta(&a(), 1, 3), DeltaOutcome::Applied);
    assert_eq!(b.read(), 3);
    assert_eq!(b.on_delta(&a(), 3, 2), DeltaOutcome::Stashed);
    assert_eq!(b.read(), 3);
    assert_eq!(b.on_delta(&a(), 2, 4), DeltaOutcome::Applied);
    assert_eq!(b.read(), 9);
    assert_eq!(b.high_of(&a()), 3);
}

#[test]
fn duplicates_are_not_reapplied() {
    let mut b = Counter::new("B".to_string());
    b.on_delta(&a(), 1, 3);
    assert_eq!(b.on_delta(&a(), 1, 3), DeltaOutcome::AlreadyApplied);
    assert_eq!(b.on_delta(&a(), 4, 1), DeltaOutcome::Stashed);
    assert_eq!(b.on_delta(&a(), 4, 1), DeltaOutcome::Stashed);
    assert_eq!(b.read(), 3);
    b.on_delta(&a(), 3, 10);
    b.on_delta(&a(), 2, 100);
    assert_eq!(b.read(), 114);
    assert_eq!(b.on_delta(&a(), 4, 1), DeltaOutcome::AlreadyApplied);
    assert_eq!(b.read(), 114);
}

#[test]
fn any_order_converges_to_the_sum() {
    let deltas = [5u64, 1, 7, 2, 9];
    let orders: [[usize; 5]; 3] = [[4, 3, 2, 1, 0], [2, 0, 4, 1, 3], [1, 1, 3, 0, 4]];
    for order in orders.iter() {
        let mut c = Counter::new("me".to_string());
        for &i in order.iter() {
            c.on_delta(&a(), (i + 1) as u64, deltas[i]);
        }
        c.on_delta(&a(), 3, deltas[2]);
        c.on_delta(&a(), 2, deltas[1]);
        assert_eq!(c.read(), 24);
    }
}

#[test]
fn origins_are_independent() {
    let mut c = Counter::new("me".to_string());
    c.on_delta(&"X".to_string(), 2, 5);
    c.on_delta(&"Y".to_string(), 1, 6);
    assert_eq!(c.read(), 6);
    c.on_delta(&"X".to_string(), 1, 1);
    assert_eq!(c.read(), 12);
    assert_eq!(c.add(1), Some(1));
    assert_eq!(c.read(), 13);
}

#[test]
fn own_delta_echoed_back_is_not_reapplied() {
    let mut c = Counter::new("n0".to_string());
    assert_eq!(c.add(4), Some(1));
    assert_eq!(c.on_delta(&"n0".to_string(), 1, 4), DeltaOutcome::AlreadyApplied);
    assert_eq!(c.read(), 4);
}

#[test]
fn serial_zero_is_ignored() {
    let mut c = Counter::new("n0".to_string());
    assert_eq!(c.on_delta(&a(), 0, 4), DeltaOutcome::AlreadyApplied);
    assert_eq!(c.read(), 0);
}

#[test]
fn overflow_changes_nothing() {
    let mut c = Counter::new("n0".to_string());
    assert_eq!(c.add(u64::MAX), Some(1));
    assert_eq!(c.add(1), None);
    assert_eq!(c.read(), u64::MAX);
    assert_eq!(c.on_delta(&a(), 2, 0), DeltaOutcome::Stashed);
    assert_eq!(c.on_delta(&a(), 1, 1), DeltaOutcome::Overflow);
    assert_eq!(c.high_of(&a()), 0);
    assert_eq!(c.on_delta(&a(), 1, 0), DeltaOutcome::Applied);
    assert_eq!(c.high_of(&a()), 2);
    assert_eq!(c.read(), u64::MAX);
}
