use rpc_mux::codec::{decode_packet, encode_packet, payload_ok, Decoded};
use rpc_mux::packet::Packet;

fn msg(id: u64, payload: &[u8]) -> Packet<Vec<u8>> {
    Packet::Message(id, payload.to_vec())
}

#[test]
fn encode_message_exact_bytes() {
    let bytes = encode_packet(&msg(0, b"\"Increment\""));
    assert_eq!(bytes, b"{\"Message\":[0,\"Increment\"]}".to_vec());
}

#[test]
fn encode_shutdown_exact_bytes() {
    let bytes = encode_packet(&Packet::<Vec<u8>>::Shutdown);
    assert_eq!(bytes, b"\"Shutdown\"".to_vec());
}

#[test]
fn encode_large_id_decimal() {
    let bytes = encode_packet(&msg(18446744073709551615, b"null"));
    assert_eq!(bytes, b"{\"Message\":[18446744073709551615,null]}".to_vec());
}

#[test]
fn round_trip_message() {
    let p = msg(7, b"\"Increment\"");
    let bytes = encode_packet(&p);
    match decode_packet(&bytes, 0) {
        Decoded::Found(q, consumed) => {
            assert_eq!(q, p);
            assert_eq!(consumed, bytes.len());
        },
        other => panic!("expected a packet, got {:?}", other),
    }
}

#[test]
fn round_trip_shutdown() {
    let bytes = encode_packet(&Packet::<Vec<u8>>::Shutdown);
    assert_eq!(decode_packet(&bytes, 0), Decoded::Found(Packet::Shutdown, bytes.len()));
}

#[test]
fn round_trip_primitive_payload() {
    let p = msg(42, b"1234");
    let bytes = encode_packet(&p);
    assert_eq!(decode_packet(&bytes, 0), Decoded::Found(p, bytes.len()));
}

#[test]
fn round_trip_nested_payload_with_tricky_string() {
    // a bracket and an escaped quote inside a string must not end the scan
    let p = msg(3, b"{\"a\":[1,2,\"x]\\\"y\"],\"b\":{\"c\":null}}");
    let bytes = encode_packet(&p);
    assert_eq!(decode_packet(&bytes, 0), Decoded::Found(p, bytes.len()));
}

#[test]
fn decode_concatenated_frames_finds_boundary() {
    let a = msg(0, b"\"one\"");
    let b = msg(1, b"\"two\"");
    let mut bytes = encode_packet(&a);
    let first_len = bytes.len();
    bytes.extend_from_slice(&encode_packet(&b));
    match decode_packet(&bytes, 0) {
        Decoded::Found(q, consumed) => {
            assert_eq!(q, a);
            assert_eq!(consumed, first_len);
            assert_eq!(decode_packet(&bytes, consumed), Decoded::Found(b, bytes.len()));
        },
        other => panic!("expected a packet, got {:?}", other),
    }
}

#[test]
fn decode_empty_input_is_clean_end() {
    assert_eq!(decode_packet(b"", 0), Decoded::CleanEnd);
}

#[test]
fn decode_truncated_frame_needs_more() {
    let bytes = encode_packet(&msg(9, b"\"abcdef\""));
    for cut in 1..bytes.len() {
        assert_eq!(decode_packet(&bytes[..cut], 0), Decoded::NeedMore, "cut at {}", cut);
    }
}

#[test]
fn decode_garbage_is_malformed() {
    assert_eq!(decode_packet(b"hello there", 0), Decoded::Malformed);
    assert_eq!(decode_packet(b"{\"Msg\":[0,1]}", 0), Decoded::Malformed);
    assert_eq!(decode_packet(b"\"Shutdowz\"", 0), Decoded::Malformed);
    assert_eq!(decode_packet(b"{\"Message\":[,1]}", 0), Decoded::Malformed);
    assert_eq!(decode_packet(b"{\"Message\":[0,]}", 0), Decoded::Malformed);
}

#[test]
fn decode_id_overflow_is_malformed() {
    assert_eq!(decode_packet(b"{\"Message\":[99999999999999999999,null]}", 0), Decoded::Malformed);
}

#[test]
fn decode_id_at_limit_is_accepted() {
    let bytes = b"{\"Message\":[18446744073709551615,null]}";
    assert_eq!(
        decode_packet(bytes, 0),
        Decoded::Found(msg(18446744073709551615, b"null"), bytes.len())
    );
}

#[test]
fn payload_validity() {
    assert!(payload_ok(&b"\"Increment\"".to_vec()));
    assert!(payload_ok(&b"0".to_vec()));
    assert!(payload_ok(&b"{\"Increment\":3}".to_vec()));
    assert!(payload_ok(&b"[1,2,3]".to_vec()));
    // empty, unbalanced, or trailing bytes are not one self-delimiting value
    assert!(!payload_ok(&b"".to_vec()));
    assert!(!payload_ok(&b"{\"a\":1".to_vec()));
    assert!(!payload_ok(&b"\"unclosed".to_vec()));
    assert!(!payload_ok(&b"1,2".to_vec()));
    assert!(!payload_ok(&b"\"a\"\"b\"".to_vec()));
}
