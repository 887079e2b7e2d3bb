use fanout::broker::{Broker, StepOutcome, WriteErrorKind};
use fanout::channel::{channel, Sender};
use fanout::message::Message;
use fanout::registry::Registry;

fn msg(text: &str) -> Message {
    Message::new(text.as_bytes().to_vec())
}

fn send(tx: &Sender, text: &str) {
    tx.send(msg(text)).unwrap();
}

/// Drives steps until `Idle`, collecting each delivery as
/// (source id, payload, target ids).
fn drain(broker: &mut Broker) -> Vec<(u64, Vec<u8>, Vec<u64>)> {
    let mut out = Vec::new();
    loop {
        match broker.step() {
            StepOutcome::Dispatched { source, message, targets } => {
                out.push((source, message.bytes().clone(), targets));
            }
            StepOutcome::Idle => return out,
        }
    }
}

#[test]
fn empty_broker_is_idle() {
    let mut broker = Broker::empty();
    assert!(matches!(broker.step(), StepOutcome::Idle));
    assert_eq!(broker.active_count(), 0);
}

#[test]
fn idle_with_receivers_but_no_messages() {
    let (tx, rx) = channel();
    let mut broker = Broker::empty();
    broker.extend_with(vec![rx]);
    assert!(matches!(broker.step(), StepOutcome::Idle));
    assert!(matches!(broker.step(), StepOutcome::Idle));
    assert_eq!(broker.active_count(), 1);
    drop(tx);
}

#[test]
fn broadcast_targets_the_registered_sinks() {
    let (tx, rx) = channel();
    let mut registry = Registry::new();
    registry.register(41);
    registry.register(42);
    let mut broker = Broker::new(registry);
    broker.extend_with(vec![rx]);
    send(&tx, "payload");
    match broker.step() {
        StepOutcome::Dispatched { source, message, targets } => {
            assert_eq!(source, 0);
            assert_eq!(message.bytes().as_slice(), b"payload");
            assert_eq!(targets, vec![41, 42]);
        }
        StepOutcome::Idle => panic!("a message was pending"),
    }
}

#[test]
fn scenario_per_receiver_order_is_kept_across_merge() {
    let (tx1, rx1) = channel();
    let (tx2, rx2) = channel();
    let mut broker = Broker::empty();
    broker.register_sink(1);
    broker.extend_with(vec![rx1, rx2]);
    send(&tx1, "a");
    send(&tx1, "b");
    send(&tx2, "x");
    let deliveries = drain(&mut broker);
    assert_eq!(deliveries.len(), 3);
    let payloads: Vec<&[u8]> = deliveries.iter().map(|d| d.1.as_slice()).collect();
    let pos_a = payloads.iter().position(|p| *p == b"a").unwrap();
    let pos_b = payloads.iter().position(|p| *p == b"b").unwrap();
    let pos_x = payloads.iter().position(|p| *p == b"x").unwrap();
    // "b" comes strictly after "a"; "x" may land on either side of "a".
    assert!(pos_b > pos_a);
    assert!(pos_x != pos_a && pos_x != pos_b);
    // every delivery was broadcast to the one registered sink.
    for (_, _, targets) in &deliveries {
        assert_eq!(targets, &vec![1]);
    }
}

#[test]
fn round_robin_alternates_between_busy_receivers() {
    let (tx1, rx1) = channel();
    let (tx2, rx2) = channel();
    let mut broker = Broker::empty();
    broker.extend_with(vec![rx1, rx2]);
    for _ in 0..5 {
        send(&tx1, "from-one");
        send(&tx2, "from-two");
    }
    let mut sources = Vec::new();
    for _ in 0..10 {
        match broker.step() {
            StepOutcome::Dispatched { source, .. } => sources.push(source),
            StepOutcome::Idle => panic!("both receivers still had messages"),
        }
    }
    // while both receivers have messages pending, no receiver is
    // serviced twice in a row.
    for pair in sources.windows(2) {
        assert_ne!(pair[0], pair[1]);
    }
    assert_eq!(sources.iter().filter(|s| **s == 0).count(), 5);
    assert_eq!(sources.iter().filter(|s| **s == 1).count(), 5);
}

#[test]
fn write_failure_isolates_the_failing_sink() {
    let (tx, rx) = channel();
    let mut broker = Broker::empty();
    broker.register_sink(1);
    broker.register_sink(2);
    broker.register_sink(3);
    broker.extend_with(vec![rx]);
    send(&tx, "m1");
    match broker.step() {
        StepOutcome::Dispatched { targets, .. } => assert_eq!(targets, vec![1, 2, 3]),
        StepOutcome::Idle => panic!("a message was pending"),
    }
    // the write to sink 2 failed; the broker recovers locally.
    let report = broker.apply_write_failure(2, WriteErrorKind::TransportError);
    assert_eq!(report.sink_id, 2);
    assert_eq!(report.kind, WriteErrorKind::TransportError);
    send(&tx, "m2");
    match broker.step() {
        StepOutcome::Dispatched { targets, .. } => assert_eq!(targets, vec![1, 3]),
        StepOutcome::Idle => panic!("a message was pending"),
    }
}

#[test]
fn no_retroactive_delivery_to_late_sinks() {
    let (tx, rx) = channel();
    let mut broker = Broker::empty();
    broker.register_sink(1);
    broker.extend_with(vec![rx]);
    send(&tx, "m1");
    let first_targets = match broker.step() {
        StepOutcome::Dispatched { targets, .. } => targets,
        StepOutcome::Idle => panic!("a message was pending"),
    };
    broker.register_sink(2);
    send(&tx, "m2");
    let second_targets = match broker.step() {
        StepOutcome::Dispatched { targets, .. } => targets,
        StepOutcome::Idle => panic!("a message was pending"),
    };
    // the sink registered between the broadcasts gets the later
    // message's broadcast but was never a target of the earlier one.
    assert!(!first_targets.contains(&2));
    assert_eq!(second_targets, vec![1, 2]);
}

#[test]
fn exhausted_receiver_is_pruned_and_the_rest_serve_on() {
    let (tx1, rx1) = channel();
    let (tx2, rx2) = channel();
    let mut broker = Broker::empty();
    broker.extend_with(vec![rx1, rx2]);
    send(&tx1, "only");
    drop(tx1);
    send(&tx2, "one");
    let deliveries = drain(&mut broker);
    assert_eq!(deliveries.len(), 2);
    // once receiver 0 is drained and its sender gone, a scan prunes it.
    send(&tx2, "two");
    send(&tx2, "three");
    let later = drain(&mut broker);
    assert_eq!(later.len(), 2);
    for (source, _, _) in &later {
        assert_eq!(*source, 1);
    }
    assert_eq!(broker.active_count(), 1);
}

#[test]
fn receivers_attached_while_running_are_served() {
    let (tx1, rx1) = channel();
    let mut broker = Broker::empty();
    broker.register_sink(9);
    broker.extend_with(vec![rx1]);
    send(&tx1, "early");
    assert_eq!(drain(&mut broker).len(), 1);
    let (tx2, rx2) = channel();
    send(&tx2, "late");
    broker.extend_with(vec![rx2]);
    let deliveries = drain(&mut broker);
    assert_eq!(deliveries.len(), 1);
    // the receiver attached second got the next fresh identifier.
    assert_eq!(deliveries[0].0, 1);
    assert_eq!(deliveries[0].1.as_slice(), b"late");
    send(&tx1, "still-served");
    assert_eq!(drain(&mut broker).len(), 1);
}

#[test]
fn sink_bookkeeping_through_the_broker() {
    let mut broker = Broker::empty();
    broker.register_sink(5);
    broker.register_sink(6);
    broker.register_sink(5);
    assert_eq!(broker.sink_count(), 2);
    assert_eq!(broker.sink_snapshot(), vec![5, 6]);
    broker.unregister_sink(5);
    broker.unregister_sink(5);
    assert_eq!(broker.sink_snapshot(), vec![6]);
}

#[test]
fn failure_report_carries_the_error_kind() {
    let mut broker = Broker::empty();
    broker.register_sink(7);
    let report = broker.apply_write_failure(7, WriteErrorKind::ConnectionClosed);
    assert_eq!(report.sink_id, 7);
    assert_eq!(report.kind, WriteErrorKind::ConnectionClosed);
    assert_eq!(broker.sink_count(), 0);
    // recovering from a failure on an already-absent sink is harmless.
    let again = broker.apply_write_failure(7, WriteErrorKind::ConnectionClosed);
    assert_eq!(again.sink_id, 7);
}

#[test]
fn pruning_mid_ring_keeps_the_rotation_going() {
    let (tx1, rx1) = channel();
    let (tx2, rx2) = channel();
    let (tx3, rx3) = channel();
    let mut broker = Broker::empty();
    broker.extend_with(vec![rx1, rx2, rx3]);
    drop(tx2);
    for _ in 0..3 {
        send(&tx1, "left");
        send(&tx3, "right");
    }
    let mut sources = Vec::new();
    for _ in 0..6 {
        match broker.step() {
            StepOutcome::Dispatched { source, .. } => sources.push(source),
            StepOutcome::Idle => panic!("two receivers still had messages"),
        }
    }
    // the exhausted middle receiver is pruned in passing; the outer two
    // keep alternating and are never starved.
    for pair in sources.windows(2) {
        assert_ne!(pair[0], pair[1]);
    }
    assert!(sources.iter().all(|s| *s == 0 || *s == 2));
    assert_eq!(broker.active_count(), 2);
}

#[test]
fn issued_count_tracks_attachment() {
    let (tx, rx) = channel();
    let (tx2, rx2) = channel();
    let mut broker = Broker::empty();
    assert_eq!(broker.issued_count(), 0);
    broker.extend_with(vec![rx, rx2]);
    assert_eq!(broker.issued_count(), 2);
    let (tx3, rx3) = channel();
    broker.extend_with(vec![rx3]);
    assert_eq!(broker.issued_count(), 3);
    drop(tx);
    drop(tx2);
    drop(tx3);
}

#[test]
fn failure_recovery_keeps_registration_order() {
    let mut broker = Broker::empty();
    broker.register_sink(10);
    broker.register_sink(20);
    broker.register_sink(30);
    broker.register_sink(40);
    broker.apply_write_failure(20, WriteErrorKind::TransportError);
    assert_eq!(broker.sink_snapshot(), vec![10, 30, 40]);
}

#[test]
fn attached_receivers_keep_their_order_and_none_is_lost() {
    let (tx1, rx1) = channel();
    let (tx2, rx2) = channel();
    let (tx3, rx3) = channel();
    let mut broker = Broker::empty();
    broker.extend_with(vec![rx1, rx2, rx3]);
    // one distinct message per receiver: each must come out under the
    // identifier of the position its receiver was attached at.
    send(&tx1, "first");
    send(&tx2, "second");
    send(&tx3, "third");
    let mut deliveries = drain(&mut broker);
    deliveries.sort_by_key(|d| d.0);
    let got: Vec<(u64, &[u8])> = deliveries.iter().map(|d| (d.0, d.1.as_slice())).collect();
    assert_eq!(
        got,
        vec![(0, b"first".as_slice()), (1, b"second".as_slice()), (2, b"third".as_slice())]
    );
}
