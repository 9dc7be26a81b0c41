use rpc_mux::correlator::{receiver, Correlator, Delivery, Handle, ReceiverMessage, StepOutcome};
use rpc_mux::error::Error;
use rpc_mux::packet::Packet;

type Msg = ReceiverMessage<u32, Vec<u8>>;

fn register(id: u64, waiter: u32) -> Msg {
    ReceiverMessage::Handle(Handle { id, waiter })
}

fn reply(id: u64, payload: &[u8]) -> Msg {
    ReceiverMessage::Packet(Packet::Message(id, payload.to_vec()))
}

fn ids_of(deliveries: &[Delivery<u32, Vec<u8>>]) -> Vec<u64> {
    deliveries.iter().map(|d| d.id).collect()
}

#[test]
fn register_then_deliver() {
    let (deliveries, end) = receiver(vec![register(0, 77), reply(0, b"\"pong\"")]);
    assert!(end.is_ok());
    assert_eq!(deliveries.len(), 1);
    assert_eq!(deliveries[0].id, 0);
    assert_eq!(deliveries[0].waiter, 77);
    assert_eq!(deliveries[0].payload, b"\"pong\"".to_vec());
}

#[test]
fn out_of_order_replies_reach_their_waiters() {
    // ten outstanding calls, replies arriving scrambled: every id is
    // answered exactly once, and each waiter gets its own payload
    let mut events: Vec<Msg> = Vec::new();
    for id in 0..10u64 {
        events.push(register(id, 100 + id as u32));
    }
    for &id in &[3u64, 0, 9, 5, 1, 7, 2, 8, 4, 6] {
        events.push(reply(id, format!("{}", id).as_bytes()));
    }
    let (deliveries, end) = receiver(events);
    assert!(end.is_ok());
    assert_eq!(deliveries.len(), 10);
    let mut seen = ids_of(&deliveries);
    seen.sort();
    assert_eq!(seen, (0..10u64).collect::<Vec<u64>>());
    for d in &deliveries {
        assert_eq!(d.waiter, 100 + d.id as u32);
        assert_eq!(d.payload, format!("{}", d.id).into_bytes());
    }
}

#[test]
fn unknown_id_is_protocol_violation() {
    let (deliveries, end) = receiver(vec![register(1, 10), reply(5, b"null")]);
    assert_eq!(end, Err(Error::Protocol));
    assert!(deliveries.is_empty());
}

#[test]
fn violation_leaves_other_waiters_untouched() {
    let mut cor: Correlator<u32> = Correlator::new();
    match cor.step::<Vec<u8>>(register(1, 10)) {
        StepOutcome::Registered => {},
        _ => panic!("registration failed"),
    }
    assert_eq!(cor.outstanding(), 1);
    match cor.step(reply(5, b"null")) {
        StepOutcome::Violation => {},
        _ => panic!("expected a violation for the unknown id"),
    }
    // the registered waiter is still there, and still reachable
    assert_eq!(cor.outstanding(), 1);
    match cor.step(reply(1, b"\"late\"")) {
        StepOutcome::Deliver(id, waiter, payload) => {
            assert_eq!(id, 1);
            assert_eq!(waiter, 10);
            assert_eq!(payload, b"\"late\"".to_vec());
        },
        _ => panic!("expected the delivery for the known id"),
    }
    assert_eq!(cor.outstanding(), 0);
}

#[test]
fn stop_order_ends_the_loop_and_drops_waiters() {
    let (deliveries, end) = receiver(vec![register(0, 1), ReceiverMessage::Shutdown]);
    assert!(end.is_ok());
    assert!(deliveries.is_empty());
}

#[test]
fn shutdown_packet_ends_the_loop() {
    let events: Vec<Msg> = vec![
        register(0, 1),
        ReceiverMessage::Packet(Packet::Shutdown),
        reply(0, b"\"too late\""),
    ];
    let (deliveries, end) = receiver(events);
    assert!(end.is_ok());
    // nothing is delivered once the loop has stopped
    assert!(deliveries.is_empty());
}

#[test]
fn empty_queue_ends_quietly() {
    let (deliveries, end) = receiver(Vec::<Msg>::new());
    assert!(end.is_ok());
    assert!(deliveries.is_empty());
}
