use rpc_mux::client::{increment, reader, shutdown_frame, SyncedClientState};
use rpc_mux::codec::{encode_packet, StreamEnd};
use rpc_mux::packet::Packet;

#[test]
fn increment_hands_out_sequential_ids() {
    let mut next: u64 = 0;
    assert_eq!(increment(&mut next), 0);
    assert_eq!(increment(&mut next), 1);
    assert_eq!(increment(&mut next), 2);
    assert_eq!(next, 3);
}

#[test]
fn prepare_call_assigns_monotonic_ids_and_whole_frames() {
    let mut st = SyncedClientState::new();
    let (h0, frame0) = st.prepare_call(7u32, b"\"Increment\"".to_vec());
    let (h1, frame1) = st.prepare_call(8u32, b"\"Increment\"".to_vec());
    assert_eq!(h0.id, 0);
    assert_eq!(h0.waiter, 7);
    assert_eq!(h1.id, 1);
    assert_eq!(h1.waiter, 8);
    assert_eq!(st.next_id, 2);
    // each request is one contiguous frame carrying its own id
    assert_eq!(frame0, b"{\"Message\":[0,\"Increment\"]}".to_vec());
    assert_eq!(frame1, b"{\"Message\":[1,\"Increment\"]}".to_vec());
}

#[test]
fn shutdown_frame_bytes() {
    assert_eq!(shutdown_frame(), b"\"Shutdown\"".to_vec());
}

fn reply_frame(id: u64, payload: &[u8]) -> Vec<u8> {
    encode_packet(&Packet::Message(id, payload.to_vec()))
}

#[test]
fn reader_collects_replies_until_clean_end() {
    let mut input = reply_frame(0, b"\"a\"");
    input.extend_from_slice(&reply_frame(1, b"\"b\""));
    let (msgs, end) = reader(&input);
    assert_eq!(end, StreamEnd::Clean);
    assert_eq!(msgs, vec![(0, b"\"a\"".to_vec()), (1, b"\"b\"".to_vec())]);
}

#[test]
fn reader_stops_at_shutdown_frame() {
    let mut input = reply_frame(0, b"\"a\"");
    input.extend_from_slice(&shutdown_frame());
    input.extend_from_slice(&reply_frame(1, b"\"late\""));
    let (msgs, end) = reader(&input);
    assert_eq!(end, StreamEnd::Shut);
    assert_eq!(msgs, vec![(0, b"\"a\"".to_vec())]);
}

#[test]
fn reader_reports_peer_vanishing_mid_frame() {
    // the peer disappears in the middle of a reply: what was complete is
    // kept, and the ending says the stream broke off inside a frame
    let mut input = reply_frame(0, b"\"a\"");
    let whole = reply_frame(1, b"\"b\"");
    input.extend_from_slice(&whole[..whole.len() - 3]);
    let (msgs, end) = reader(&input);
    assert_eq!(end, StreamEnd::Truncated);
    assert_eq!(msgs, vec![(0, b"\"a\"".to_vec())]);
}

#[test]
fn reader_reports_malformed_reply() {
    let mut input = reply_frame(0, b"\"a\"");
    input.extend_from_slice(b"!!not a frame!!");
    let (msgs, end) = reader(&input);
    assert_eq!(end, StreamEnd::Malformed);
    assert_eq!(msgs, vec![(0, b"\"a\"".to_vec())]);
}

#[test]
fn reader_on_empty_input_ends_clean() {
    let (msgs, end) = reader(b"");
    assert_eq!(end, StreamEnd::Clean);
    assert!(msgs.is_empty());
}
