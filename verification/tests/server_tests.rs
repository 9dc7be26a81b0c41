use std::cell::Cell;
use rpc_mux::codec::encode_packet;
use rpc_mux::error::Error;
use rpc_mux::packet::Packet;
use rpc_mux::server::{answer, handle_conn, Serve};

/// The counter handler of the end-to-end scenarios: replies with the
/// current value, then increments.
struct Counter {
    n: Cell<u64>,
}

impl Counter {
    fn new() -> Counter {
        Counter { n: Cell::new(0) }
    }

    fn count(&self) -> u64 {
        self.n.get()
    }
}

impl Serve<Vec<u8>, Vec<u8>> for Counter {
    fn serve(&self, _request: &Vec<u8>) -> Result<Vec<u8>, Error> {
        let v = self.n.get();
        self.n.set(v + 1);
        Ok(format!("{{\"Increment\":{}}}", v).into_bytes())
    }
}

/// A handler that always fails.
struct Failing;

impl Serve<Vec<u8>, Vec<u8>> for Failing {
    fn serve(&self, _request: &Vec<u8>) -> Result<Vec<u8>, Error> {
        Err(Error::Io)
    }
}

/// A handler whose reply bytes are not one self-delimiting value.
struct BadEncoder;

impl Serve<Vec<u8>, Vec<u8>> for BadEncoder {
    fn serve(&self, _request: &Vec<u8>) -> Result<Vec<u8>, Error> {
        Ok(b"{\"open".to_vec())
    }
}

fn request_frame(id: u64) -> Vec<u8> {
    encode_packet(&Packet::Message(id, b"\"Increment\"".to_vec()))
}

fn reply_frame(id: u64, value: u64) -> Vec<u8> {
    encode_packet(&Packet::Message(id, format!("{{\"Increment\":{}}}", value).into_bytes()))
}

#[test]
fn single_call() {
    let server = Counter::new();
    let input = request_frame(0);
    let out = handle_conn(&input, &server).0.unwrap();
    assert_eq!(out, reply_frame(0, 0));
    assert_eq!(server.count(), 1);
}

#[test]
fn sequential_calls_reply_in_order() {
    let server = Counter::new();
    let mut input = request_frame(0);
    input.extend_from_slice(&request_frame(1));
    let out = handle_conn(&input, &server).0.unwrap();
    let mut expected = reply_frame(0, 0);
    expected.extend_from_slice(&reply_frame(1, 1));
    assert_eq!(out, expected);
    assert_eq!(server.count(), 2);
}

#[test]
fn ten_calls_return_each_count_once() {
    let server = Counter::new();
    let mut input = Vec::new();
    for id in 0..10u64 {
        input.extend_from_slice(&request_frame(id));
    }
    let mut expected = Vec::new();
    for id in 0..10u64 {
        expected.extend_from_slice(&reply_frame(id, id));
    }
    let out = handle_conn(&input, &server).0.unwrap();
    assert_eq!(out, expected);
    assert_eq!(server.count(), 10);
}

#[test]
fn orderly_shutdown_keeps_queued_replies() {
    let server = Counter::new();
    let mut input = request_frame(0);
    input.extend_from_slice(&request_frame(1));
    input.extend_from_slice(&encode_packet(&Packet::<Vec<u8>>::Shutdown));
    // bytes after the shutdown frame no longer matter
    input.extend_from_slice(b"garbage after shutdown");
    let out = handle_conn(&input, &server).0.unwrap();
    let mut expected = reply_frame(0, 0);
    expected.extend_from_slice(&reply_frame(1, 1));
    assert_eq!(out, expected);
    assert_eq!(server.count(), 2);
}

#[test]
fn empty_input_is_clean_termination() {
    let server = Counter::new();
    let out = handle_conn(b"", &server).0.unwrap();
    assert!(out.is_empty());
    assert_eq!(server.count(), 0);
}

#[test]
fn truncated_input_is_decode_error() {
    let server = Counter::new();
    let input = request_frame(0);
    let cut = &input[..input.len() - 2];
    assert_eq!(handle_conn(cut, &server).0, Err(Error::Decode));
    assert_eq!(server.count(), 0);
}

#[test]
fn malformed_input_is_decode_error() {
    let server = Counter::new();
    assert_eq!(handle_conn(b"not a packet", &server).0, Err(Error::Decode));
}

#[test]
fn handler_failure_is_surfaced() {
    let mut input = request_frame(0);
    input.extend_from_slice(&request_frame(1));
    assert_eq!(handle_conn(&input, &Failing).0, Err(Error::Io));
}

#[test]
fn handler_reply_that_cannot_be_framed_fails() {
    let input = request_frame(0);
    assert_eq!(handle_conn(&input, &BadEncoder).0, Err(Error::Handler));
}

#[test]
fn answer_frames_success_and_passes_failures_through() {
    let mut out: Vec<u8> = Vec::new();
    assert_eq!(answer(4, Ok(b"\"ok\"".to_vec()), &mut out), Ok(()));
    let framed = encode_packet(&Packet::Message(4, b"\"ok\"".to_vec()));
    assert_eq!(out, framed);
    // a reply that is not one self-delimiting value is the handler's fault
    assert_eq!(answer(5, Ok(b"{\"open".to_vec()), &mut out), Err(Error::Handler));
    // a handler failure comes back as that failure
    assert_eq!(answer(6, Err(Error::Io), &mut out), Err(Error::Io));
    // neither failure wrote anything
    assert_eq!(out, framed);
}
