use peer_session::codec::{decode, encode, DecodingError, Message, MessageBody, MessageHeader};

fn heartbeat(seq: u64) -> Message {
    Message { header: MessageHeader { seq }, body: MessageBody::Heartbeat }
}

#[test]
fn encode_is_fixed_width_little_endian() {
    let bytes = encode(&heartbeat(1)).unwrap();
    assert_eq!(bytes, vec![1, 0, 0, 0, 0, 0, 0, 0, 0, 0, 0, 0]);

    let bytes = encode(&heartbeat(0x0102_0304_0506_0708)).unwrap();
    assert_eq!(bytes, vec![8, 7, 6, 5, 4, 3, 2, 1, 0, 0, 0, 0]);
}

#[test]
fn encode_never_fails() {
    assert!(encode(&heartbeat(0)).is_ok());
    assert!(encode(&heartbeat(u64::MAX)).is_ok());
}

#[test]
fn round_trip_small() {
    let m = heartbeat(0);
    assert_eq!(decode(&encode(&m).unwrap()), Ok(m));
    let m = heartbeat(7);
    assert_eq!(decode(&encode(&m).unwrap()), Ok(m));
}

#[test]
fn round_trip_large() {
    let m = heartbeat(u64::MAX);
    assert_eq!(decode(&encode(&m).unwrap()), Ok(m));
    let m = heartbeat(1 << 63);
    assert_eq!(decode(&encode(&m).unwrap()), Ok(m));
}

#[test]
fn decode_truncated() {
    assert_eq!(decode(&vec![]), Err(DecodingError::Truncated));
    assert_eq!(decode(&vec![0; 11]), Err(DecodingError::Truncated));
}

#[test]
fn decode_unknown_tag() {
    let mut bytes = encode(&heartbeat(3)).unwrap();
    bytes[8] = 1;
    assert_eq!(decode(&bytes), Err(DecodingError::UnknownTag));
    let mut bytes = encode(&heartbeat(3)).unwrap();
    bytes[11] = 0xff;
    assert_eq!(decode(&bytes), Err(DecodingError::UnknownTag));
}

#[test]
fn decode_trailing_bytes() {
    let mut bytes = encode(&heartbeat(3)).unwrap();
    bytes.push(0);
    assert_eq!(decode(&bytes), Err(DecodingError::TrailingBytes));
}
