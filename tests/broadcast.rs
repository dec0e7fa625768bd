use glomers::broadcast::DedupBroadcast;

#[test]
fn new_value_goes_to_every_neighbour() {
    let mut b = DedupBroadcast::new();
    b.set_topology(vec!["n1".to_string(), "n2".to_string()]);
    assert_eq!(b.broadcast(7), vec!["n1".to_string(), "n2".to_string()]);
    assert_eq!(b.read(), vec![7]);
}

#[test]
fn repeated_value_is_held_once_and_not_forwarded() {
    let mut b = DedupBroadcast::new();
    b.set_topology(vec!["n1".to_string()]);
    b.broadcast(3);
    b.broadcast(4);
    assert_eq!(b.broadcast(3), Vec::<String>::new());
    assert_eq!(b.broadcast(4), Vec::<String>::new());
    b.broadcast(3);
    assert_eq!(b.read(), vec![3, 4]);
}

#[test]
fn nothing_read_before_any_delivery() {
    let b = DedupBroadcast::new();
    assert_eq!(b.read(), Vec::<u64>::new());
    assert!(!b.has_seen(0));
}

#[test]
fn no_neighbours_means_no_targets() {
    let mut b = DedupBroadcast::new();
    assert_eq!(b.broadcast(1), Vec::<String>::new());
    assert!(b.has_seen(1));
}
