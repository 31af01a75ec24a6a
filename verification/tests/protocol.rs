use bytes::{BufMut, Bytes, BytesMut};
use sevlamq::protocol::{
    decode_request, decode_response, encode_request, encode_response, ProduceAck, ProduceRequest,
    ProtocolError, Request, Response, MAX_FRAME_SIZE, MAX_KEY_SIZE, MAX_MESSAGE_SIZE,
    MAX_TOPIC_NAME,
};

fn produce_request() -> Request {
    Request::Produce(
        ProduceRequest::new(
            "payments".to_owned(),
            Bytes::from_static(b"customer-123"),
            Bytes::from_static(br#"{"amount":150}"#),
        )
        .expect("request should be valid"),
    )
}

#[test]
fn round_trips_produce_request() {
    let request = produce_request();
    let mut buffer = BytesMut::new();
    encode_request(&request, &mut buffer).expect("request should encode");

    assert_eq!(
        decode_request(&mut buffer).expect("frame should decode"),
        Some(request)
    );
    assert!(buffer.is_empty());
}

#[test]
fn waits_for_complete_frame() {
    let mut encoded = BytesMut::new();
    encode_request(&produce_request(), &mut encoded).expect("request should encode");
    let split_at = encoded.len() - 1;
    let tail = encoded.split_off(split_at);

    assert_eq!(decode_request(&mut encoded).expect("prefix is valid"), None);

    encoded.extend_from_slice(&tail);
    assert!(decode_request(&mut encoded)
        .expect("frame should decode")
        .is_some());
}

#[test]
fn decodes_multiple_frames_from_one_buffer() {
    let request = produce_request();
    let mut buffer = BytesMut::new();
    encode_request(&request, &mut buffer).expect("first request should encode");
    encode_request(&request, &mut buffer).expect("second request should encode");

    assert_eq!(
        decode_request(&mut buffer).expect("first frame"),
        Some(request.clone())
    );
    assert_eq!(
        decode_request(&mut buffer).expect("second frame"),
        Some(request)
    );
    assert!(buffer.is_empty());
}

#[test]
fn rejects_oversized_frame_before_receiving_payload() {
    let mut buffer = BytesMut::new();
    buffer.put_u32(u32::try_from(MAX_FRAME_SIZE + 1).expect("limit should fit in u32"));

    assert_eq!(
        decode_request(&mut buffer),
        Err(ProtocolError::FrameTooLarge)
    );
}

#[test]
fn lays_a_produce_frame_out_byte_by_byte() {
    let request = Request::Produce(
        ProduceRequest::new(
            "ab".to_owned(),
            Bytes::from_static(b"k"),
            Bytes::from_static(b"xyz"),
        )
        .expect("request should be valid"),
    );
    let mut buffer = BytesMut::new();
    encode_request(&request, &mut buffer).expect("request should encode");
    assert_eq!(
        &buffer[..],
        [0, 0, 0, 15, 1, 0, 2, b'a', b'b', 0, 1, b'k', 0, 0, 0, 3, b'x', b'y', b'z']
    );
}

#[test]
fn round_trips_produce_acknowledgement() {
    let response = Response::ProduceAck(ProduceAck {
        partition: 2,
        offset: 0x0102_0304_0506_0708,
    });
    let mut buffer = BytesMut::new();
    encode_response(response, &mut buffer);
    assert_eq!(
        &buffer[..],
        [0, 0, 0, 13, 2, 0, 0, 0, 2, 1, 2, 3, 4, 5, 6, 7, 8]
    );
    let mut partial = BytesMut::from(&buffer[..buffer.len() - 1]);
    assert_eq!(decode_response(&mut partial), Ok(None));
    assert_eq!(decode_response(&mut buffer), Ok(Some(response)));
    assert!(buffer.is_empty());
}

#[test]
fn refuses_requests_outside_the_limits() {
    let bytes = Bytes::from_static(b"x");
    let refused = |topic: String, key: Bytes, payload: Bytes| {
        ProduceRequest::new(topic, key, payload).expect_err("request should be refused")
    };
    assert_eq!(
        refused(String::new(), bytes.clone(), bytes.clone()),
        ProtocolError::InvalidTopic
    );
    assert_eq!(
        refused("a".repeat(MAX_TOPIC_NAME + 1), bytes.clone(), bytes.clone()),
        ProtocolError::TopicTooLarge
    );
    assert_eq!(
        refused(
            "topic".to_owned(),
            Bytes::from(vec![0; MAX_KEY_SIZE + 1]),
            bytes.clone()
        ),
        ProtocolError::KeyTooLarge
    );
    assert_eq!(
        refused(
            "topic".to_owned(),
            bytes,
            Bytes::from(vec![0; MAX_MESSAGE_SIZE + 1])
        ),
        ProtocolError::MessageTooLarge
    );
}

#[test]
fn accepts_the_largest_request() {
    let request = Request::Produce(
        ProduceRequest::new(
            "a".repeat(MAX_TOPIC_NAME),
            Bytes::from(vec![1; MAX_KEY_SIZE]),
            Bytes::from(vec![2; MAX_MESSAGE_SIZE]),
        )
        .expect("request should be valid"),
    );
    let mut buffer = BytesMut::new();
    encode_request(&request, &mut buffer).expect("request should encode");
    assert_eq!(buffer.len(), MAX_FRAME_SIZE + 4);
    assert_eq!(decode_request(&mut buffer), Ok(Some(request)));
}

#[test]
fn refuses_malformed_frames() {
    let mut unknown = BytesMut::from(&[0, 0, 0, 1, 0x2a][..]);
    assert_eq!(
        decode_request(&mut unknown),
        Err(ProtocolError::UnknownOpcode(0x2a))
    );
    let mut short = BytesMut::from(&[0, 0, 0, 3, 1, 0, 9][..]);
    assert_eq!(decode_request(&mut short), Err(ProtocolError::InvalidFrame));
    let mut no_text = BytesMut::from(&[0, 0, 0, 10, 1, 0, 1, 0xff, 0, 0, 0, 0, 0, 0][..]);
    assert_eq!(
        decode_request(&mut no_text),
        Err(ProtocolError::InvalidTopic)
    );
    let mut answer = BytesMut::from(&[0, 0, 0, 2, 2, 0][..]);
    assert_eq!(
        decode_response(&mut answer),
        Err(ProtocolError::InvalidFrame)
    );
}

#[test]
fn describes_protocol_errors() {
    assert_eq!(
        ProtocolError::UnknownOpcode(0x2a).message(),
        "unknown opcode 0x2a"
    );
    assert_eq!(
        ProtocolError::FrameTooLarge.message(),
        "frame exceeds the configured limit"
    );
}
