use fanout_relay::ingress::ReadOutcome;
use fanout_relay::relay::Relay;

fn bytes(s: &str) -> ReadOutcome {
    ReadOutcome::Bytes(s.as_bytes().to_vec())
}

fn inbox(r: &Relay, id: u64) -> Option<Vec<u8>> {
    r.inbox(id)
}

#[test]
fn three_clients_then_a_disconnect() {
    let mut r = Relay::new();
    assert_eq!(r.connect(), Some(0));
    assert_eq!(r.connect(), Some(1));
    assert_eq!(r.connect(), Some(2));
    assert_eq!(r.connect(), Some(3));

    assert!(r.handle_read(0, bytes("hello")));
    assert!(r.deliver_next());
    assert_eq!(inbox(&r, 0), Some(Vec::new()));
    assert_eq!(inbox(&r, 1), Some(b"hello".to_vec()));
    assert_eq!(inbox(&r, 2), Some(b"hello".to_vec()));
    assert_eq!(inbox(&r, 3), Some(b"hello".to_vec()));

    assert!(!r.handle_read(1, ReadOutcome::Bytes(Vec::new())));
    assert_eq!(inbox(&r, 1), None);

    assert!(r.handle_read(2, bytes("ping")));
    assert!(r.deliver_next());
    assert_eq!(inbox(&r, 0), Some(b"ping".to_vec()));
    assert_eq!(inbox(&r, 1), None);
    assert_eq!(inbox(&r, 2), Some(b"hello".to_vec()));
    assert_eq!(inbox(&r, 3), Some(b"helloping".to_vec()));
}

#[test]
fn connected_ids_are_distinct() {
    let mut r = Relay::new();
    let mut seen: Vec<u64> = Vec::new();
    for _ in 0..20 {
        let id = r.connect().unwrap();
        assert!(!seen.contains(&id));
        seen.push(id);
    }
    // A disconnected client's id is not given out again.
    assert!(!r.handle_read(5, ReadOutcome::Bytes(Vec::new())));
    let id = r.connect().unwrap();
    assert_eq!(id, 20);
    assert!(!seen.contains(&id));
}

#[test]
fn sender_never_receives_its_own_payload() {
    let mut r = Relay::new();
    let a = r.connect().unwrap();
    let b = r.connect().unwrap();
    assert!(r.handle_read(a, bytes("x")));
    assert!(r.handle_read(b, bytes("y")));
    assert!(r.deliver_next());
    assert!(r.deliver_next());
    assert_eq!(inbox(&r, a), Some(b"y".to_vec()));
    assert_eq!(inbox(&r, b), Some(b"x".to_vec()));
}

#[test]
fn fan_out_is_byte_identical() {
    let mut r = Relay::new();
    let a = r.connect().unwrap();
    let b = r.connect().unwrap();
    let c = r.connect().unwrap();
    let payload: Vec<u8> = vec![0, 255, 0xc3, 0x28, b'\n', 7];
    assert!(r.handle_read(a, ReadOutcome::Bytes(payload.clone())));
    assert!(r.deliver_next());
    assert_eq!(inbox(&r, b), Some(payload.clone()));
    assert_eq!(inbox(&r, c), Some(payload));
    assert_eq!(inbox(&r, a), Some(Vec::new()));
}

#[test]
fn one_senders_payloads_keep_their_order() {
    let mut r = Relay::new();
    let a = r.connect().unwrap();
    let b = r.connect().unwrap();
    let c = r.connect().unwrap();
    assert!(r.handle_read(a, bytes("first")));
    assert!(r.handle_read(a, bytes("second")));
    assert!(r.deliver_next());
    assert!(r.deliver_next());
    assert!(!r.deliver_next());
    assert_eq!(inbox(&r, b), Some(b"firstsecond".to_vec()));
    assert_eq!(inbox(&r, c), Some(b"firstsecond".to_vec()));
}

#[test]
fn removed_client_gets_no_later_broadcast() {
    let mut r = Relay::new();
    let a = r.connect().unwrap();
    let b = r.connect().unwrap();
    assert!(!r.handle_read(b, ReadOutcome::Bytes(Vec::new())));
    assert!(r.handle_read(a, bytes("late")));
    assert!(r.deliver_next());
    assert_eq!(inbox(&r, b), None);
    assert_eq!(inbox(&r, a), Some(Vec::new()));
}

#[test]
fn failed_read_changes_nothing() {
    let mut r = Relay::new();
    let a = r.connect().unwrap();
    let b = r.connect().unwrap();
    assert!(r.handle_read(a, ReadOutcome::Error));
    assert!(!r.deliver_next());
    assert_eq!(inbox(&r, a), Some(Vec::new()));
    assert_eq!(inbox(&r, b), Some(Vec::new()));
}

#[test]
fn empty_channel_delivers_nothing() {
    let mut r = Relay::new();
    assert!(!r.deliver_next());
    assert_eq!(inbox(&r, 0), None);
}

#[test]
fn message_queued_before_a_connect_reaches_the_newcomer() {
    let mut r = Relay::new();
    let a = r.connect().unwrap();
    assert!(r.handle_read(a, bytes("hi")));
    let b = r.connect().unwrap();
    assert!(r.deliver_next());
    assert_eq!(inbox(&r, b), Some(b"hi".to_vec()));
}
