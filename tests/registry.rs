use fanout_relay::acceptor::IdAllocator;
use fanout_relay::ingress::{on_read, IngressStep, ReadOutcome};
use fanout_relay::registry::Registry;

fn three() -> Registry<Vec<u8>> {
    let mut reg: Registry<Vec<u8>> = Registry::new();
    reg.register(0, Vec::new());
    reg.register(1, Vec::new());
    reg.register(2, Vec::new());
    reg
}

#[test]
fn register_and_lookup() {
    let reg = three();
    assert_eq!(reg.len(), 3);
    assert!(reg.contains(1));
    assert!(!reg.contains(7));
    assert_eq!(reg.endpoint(2), Some(&Vec::new()));
    assert_eq!(reg.endpoint(7), None);
}

#[test]
fn recipients_exclude_the_sender() {
    let reg = three();
    assert_eq!(reg.recipients(1), vec![0, 2]);
    assert_eq!(reg.recipients(9), vec![0, 1, 2]);
    let ids: Vec<u64> = reg.snapshot(0).iter().map(|h| h.id).collect();
    assert_eq!(ids, vec![1, 2]);
}

#[test]
fn unregister_twice_is_a_no_op() {
    let mut reg = three();
    reg.unregister(1);
    assert_eq!(reg.recipients(99), vec![0, 2]);
    reg.unregister(1);
    assert_eq!(reg.recipients(99), vec![0, 2]);
    reg.unregister(42);
    assert_eq!(reg.recipients(99), vec![0, 2]);
    assert_eq!(reg.len(), 2);
}

#[test]
fn broadcast_snapshot_writes_to_everyone_else() {
    let mut reg = three();
    reg.broadcast_snapshot(1, b"abc");
    assert_eq!(reg.endpoint(0), Some(&b"abc".to_vec()));
    assert_eq!(reg.endpoint(1), Some(&Vec::new()));
    assert_eq!(reg.endpoint(2), Some(&b"abc".to_vec()));
    reg.unregister(2);
    reg.broadcast_snapshot(0, b"de");
    assert_eq!(reg.endpoint(1), Some(&b"de".to_vec()));
    assert_eq!(reg.endpoint(0), Some(&b"abc".to_vec()));
    assert_eq!(reg.endpoint(2), None);
}

#[test]
fn ids_are_allocated_in_order() {
    let mut ids = IdAllocator::new();
    assert_eq!(ids.peek(), 0);
    assert_eq!(ids.allocate(), Some(0));
    assert_eq!(ids.allocate(), Some(1));
    assert_eq!(ids.allocate(), Some(2));
    assert_eq!(ids.peek(), 3);
}

#[test]
fn read_outcomes_map_to_steps() {
    assert!(matches!(on_read(4, ReadOutcome::Bytes(Vec::new())), IngressStep::Close));
    assert!(matches!(on_read(4, ReadOutcome::Error), IngressStep::Retry));
    match on_read(4, ReadOutcome::Bytes(b"hey".to_vec())) {
        IngressStep::Forward(m) => {
            assert_eq!(m.sender, 4);
            assert_eq!(m.payload, b"hey".to_vec());
        }
        _ => panic!("expected a forward"),
    }
}
