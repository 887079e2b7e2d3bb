use fanout::registry::Registry;

#[test]
fn registration_order_is_kept_in_snapshots() {
    let mut reg = Registry::new();
    assert_eq!(reg.len(), 0);
    reg.register(10);
    reg.register(20);
    reg.register(30);
    assert_eq!(reg.snapshot(), vec![10, 20, 30]);
    assert_eq!(reg.len(), 3);
}

#[test]
fn registering_twice_is_a_no_op() {
    let mut reg = Registry::new();
    reg.register(7);
    reg.register(7);
    assert_eq!(reg.snapshot(), vec![7]);
}

#[test]
fn unregister_removes_only_the_named_sink() {
    let mut reg = Registry::new();
    reg.register(1);
    reg.register(2);
    reg.register(3);
    reg.unregister(2);
    assert_eq!(reg.snapshot(), vec![1, 3]);
    assert!(!reg.contains(2));
    assert!(reg.contains(1));
    assert!(reg.contains(3));
}

#[test]
fn unregister_of_absent_sink_is_idempotent() {
    let mut reg = Registry::new();
    reg.register(1);
    reg.unregister(9);
    reg.unregister(9);
    assert_eq!(reg.snapshot(), vec![1]);
}

#[test]
fn snapshot_is_a_copy_not_a_view() {
    let mut reg = Registry::new();
    reg.register(5);
    let snap = reg.snapshot();
    reg.unregister(5);
    assert_eq!(snap, vec![5]);
    assert_eq!(reg.len(), 0);
}
