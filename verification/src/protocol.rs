//! The wire protocol: length-prefixed frames, one opcode byte, and the fields of a request or
//! a response. All numbers are big-endian.

use bytes::{Bytes, BytesMut};
use vstd::prelude::*;
use vstd::utf8;

use crate::buffer;
use crate::endian;
use crate::text;

verus! {

pub const MAX_TOPIC_NAME: usize = 249;

pub const MAX_KEY_SIZE: usize = 65_535;

pub const MAX_MESSAGE_SIZE: usize = 1_048_576;

pub const MAX_FRAME_SIZE: usize = 1 + 2 + MAX_TOPIC_NAME + 2 + MAX_KEY_SIZE + 4 + MAX_MESSAGE_SIZE;

const FRAME_HEADER_SIZE: usize = 4;

pub const PRODUCE: u8 = 0x01;

pub const PRODUCE_ACK: u8 = 0x02;

#[derive(Debug, Clone, Copy, PartialEq, Eq, Structural)]
pub enum ProtocolError {
    InvalidFrame,
    FrameTooLarge,
    UnknownOpcode(u8),
    InvalidTopic,
    TopicTooLarge,
    KeyTooLarge,
    MessageTooLarge,
}

impl ProtocolError {
    /// What the error says.
    pub open spec fn text(self) -> Seq<char> {
        match self {
            ProtocolError::InvalidFrame => "frame is malformed or truncated"@,
            ProtocolError::FrameTooLarge => "frame exceeds the configured limit"@,
            ProtocolError::UnknownOpcode(opcode) => "unknown opcode 0x"@ + text::fixed_width(
                opcode as nat,
                16,
                2,
            ),
            ProtocolError::InvalidTopic => "topic is empty or not valid UTF-8"@,
            ProtocolError::TopicTooLarge => "topic exceeds the configured limit"@,
            ProtocolError::KeyTooLarge => "key exceeds the configured limit"@,
            ProtocolError::MessageTooLarge => "message exceeds the configured limit"@,
        }
    }

    /// The error in words.
    pub fn message(&self) -> (message: String)
        ensures
            message@ == self.text(),
    {
        match self {
            ProtocolError::InvalidFrame => "frame is malformed or truncated".to_owned(),
            ProtocolError::FrameTooLarge => "frame exceeds the configured limit".to_owned(),
            ProtocolError::UnknownOpcode(opcode) => {
                let mut out = "unknown opcode 0x".to_owned();
                text::push_fixed_width(&mut out, *opcode as u64, 16, 2);
                out
            },
            ProtocolError::InvalidTopic => "topic is empty or not valid UTF-8".to_owned(),
            ProtocolError::TopicTooLarge => "topic exceeds the configured limit".to_owned(),
            ProtocolError::KeyTooLarge => "key exceeds the configured limit".to_owned(),
            ProtocolError::MessageTooLarge => "message exceeds the configured limit".to_owned(),
        }
    }
}

/// A produce request as a value: the topic's characters and the bytes of key and payload.
#[verifier::ext_equal]
pub struct Produce {
    pub topic: Seq<char>,
    pub key: Seq<u8>,
    pub payload: Seq<u8>,
}

/// Why a produce request is refused, or `None` where it is acceptable.
pub open spec fn produce_refusal(produce: Produce) -> Option<ProtocolError> {
    if utf8::encode_utf8(produce.topic).len() > MAX_TOPIC_NAME {
        Some(ProtocolError::TopicTooLarge)
    } else if produce.topic.len() == 0 {
        Some(ProtocolError::InvalidTopic)
    } else if produce.key.len() > MAX_KEY_SIZE {
        Some(ProtocolError::KeyTooLarge)
    } else if produce.payload.len() > MAX_MESSAGE_SIZE {
        Some(ProtocolError::MessageTooLarge)
    } else {
        None
    }
}

/// The fields of a produce request behind its opcode.
pub open spec fn produce_fields(produce: Produce) -> Seq<u8> {
    let topic = utf8::encode_utf8(produce.topic);
    endian::be_bytes(topic.len(), 2) + (topic + (endian::be_bytes(produce.key.len(), 2) + (
    produce.key + (endian::be_bytes(produce.payload.len(), 4) + produce.payload))))
}

/// A frame: the length of its body, then the opcode and the fields that make the body.
pub open spec fn framed(opcode: u8, fields: Seq<u8>) -> Seq<u8> {
    endian::be_bytes(1 + fields.len(), 4) + (seq![opcode] + fields)
}

/// The bytes that a produce request is sent as.
pub open spec fn produce_frame(produce: Produce) -> Seq<u8> {
    framed(PRODUCE, produce_fields(produce))
}

/// The bytes that an acknowledgement is sent as.
pub open spec fn ack_frame(ack: ProduceAck) -> Seq<u8> {
    framed(PRODUCE_ACK, ack_fields(ack))
}

pub open spec fn ack_fields(ack: ProduceAck) -> Seq<u8> {
    endian::be_bytes(ack.partition as nat, 4) + endian::be_bytes(ack.offset as nat, 8)
}

/// What the front of a buffer holds.
pub enum Frame {
    /// Not yet a whole frame.
    Partial,
    /// A length prefix that no frame may have.
    Refused(ProtocolError),
    /// A whole frame: its opcode, its fields, and the bytes behind it.
    Whole { opcode: u8, fields: Seq<u8>, rest: Seq<u8> },
}

pub open spec fn front_frame(bytes: Seq<u8>) -> Frame {
    if bytes.len() < 4 {
        Frame::Partial
    } else {
        let len = endian::be_value(bytes.take(4));
        if len == 0 {
            Frame::Refused(ProtocolError::InvalidFrame)
        } else if len > MAX_FRAME_SIZE {
            Frame::Refused(ProtocolError::FrameTooLarge)
        } else if bytes.len() < 4 + len {
            Frame::Partial
        } else {
            let body = bytes.skip(4).take(len as int);
            Frame::Whole {
                opcode: body[0],
                fields: body.skip(1),
                rest: bytes.skip(4).skip(len as int),
            }
        }
    }
}

/// What the fields of a produce request hold, or the first fault in them.
#[verifier::opaque]
pub open spec fn parse_produce(fields: Seq<u8>) -> Result<Produce, ProtocolError> {
    if fields.len() < 2 {
        Err(ProtocolError::InvalidFrame)
    } else {
        let topic_len = endian::be_value(fields.take(2));
        let after_topic_len = fields.skip(2);
        if topic_len > MAX_TOPIC_NAME {
            Err(ProtocolError::TopicTooLarge)
        } else if after_topic_len.len() < topic_len {
            Err(ProtocolError::InvalidFrame)
        } else if topic_len == 0 || !utf8::valid_utf8(after_topic_len.take(topic_len as int)) {
            Err(ProtocolError::InvalidTopic)
        } else {
            parse_key_and_payload(
                utf8::decode_utf8(after_topic_len.take(topic_len as int)),
                after_topic_len.skip(topic_len as int),
            )
        }
    }
}

pub open spec fn parse_key_and_payload(topic: Seq<char>, fields: Seq<u8>) -> Result<
    Produce,
    ProtocolError,
> {
    if fields.len() < 2 {
        Err(ProtocolError::InvalidFrame)
    } else {
        let key_len = endian::be_value(fields.take(2));
        let after_key_len = fields.skip(2);
        if after_key_len.len() < key_len {
            Err(ProtocolError::InvalidFrame)
        } else {
            parse_payload(
                topic,
                after_key_len.take(key_len as int),
                after_key_len.skip(key_len as int),
            )
        }
    }
}

pub open spec fn parse_payload(topic: Seq<char>, key: Seq<u8>, fields: Seq<u8>) -> Result<
    Produce,
    ProtocolError,
> {
    if fields.len() < 4 {
        Err(ProtocolError::InvalidFrame)
    } else {
        let payload_len = endian::be_value(fields.take(4));
        if payload_len > MAX_MESSAGE_SIZE {
            Err(ProtocolError::MessageTooLarge)
        } else if fields.skip(4).len() != payload_len {
            Err(ProtocolError::InvalidFrame)
        } else {
            Ok(Produce { topic, key, payload: fields.skip(4) })
        }
    }
}

/// What the fields of a frame hold as a request, by the frame's opcode.
pub open spec fn parse_request(opcode: u8, fields: Seq<u8>) -> Result<Produce, ProtocolError> {
    if opcode == PRODUCE {
        parse_produce(fields)
    } else {
        Err(ProtocolError::UnknownOpcode(opcode))
    }
}

/// What the fields of a frame hold as a response, by the frame's opcode.
pub open spec fn parse_response(opcode: u8, fields: Seq<u8>) -> Result<Response, ProtocolError> {
    if opcode != PRODUCE_ACK {
        Err(ProtocolError::UnknownOpcode(opcode))
    } else if fields.len() != 12 {
        Err(ProtocolError::InvalidFrame)
    } else {
        Ok(
            Response::ProduceAck(
                ProduceAck {
                    partition: endian::be_value(fields.take(4)) as u32,
                    offset: endian::be_value(fields.skip(4)) as u64,
                },
            ),
        )
    }
}

#[derive(Debug, PartialEq, Eq)]
pub enum Request {
    Produce(ProduceRequest),
}

impl Clone for Request {
    fn clone(&self) -> (copy: Self)
        ensures
            copy@ == self@,
    {
        match self {
            Request::Produce(request) => Request::Produce(request.clone()),
        }
    }
}

impl View for Request {
    type V = Produce;

    open spec fn view(&self) -> Produce {
        match self {
            Request::Produce(request) => request@,
        }
    }
}

/// A request to append one message, within the limits of the protocol.
#[derive(Debug, PartialEq, Eq)]
pub struct ProduceRequest {
    topic: String,
    key: Bytes,
    payload: Bytes,
}

impl View for ProduceRequest {
    type V = Produce;

    closed spec fn view(&self) -> Produce {
        Produce {
            topic: self.topic@,
            key: buffer::content(self.key),
            payload: buffer::content(self.payload),
        }
    }
}

impl Clone for ProduceRequest {
    fn clone(&self) -> (copy: Self)
        ensures
            copy@ == self@,
    {
        proof {
            use_type_invariant(self);
        }
        ProduceRequest {
            topic: self.topic.clone(),
            key: self.key.clone(),
            payload: self.payload.clone(),
        }
    }
}

impl ProduceRequest {
    #[verifier::type_invariant]
    spec fn within_limits(self) -> bool {
        produce_refusal(self@) is None
    }

    pub fn new(topic: String, key: Bytes, payload: Bytes) -> (request: Result<Self, ProtocolError>)
        ensures
            ({
                let produce = Produce {
                    topic: topic@,
                    key: buffer::content(key),
                    payload: buffer::content(payload),
                };
                match produce_refusal(produce) {
                    None => request matches Ok(made) && made@ == produce,
                    Some(error) => request matches Err(found) && found == error,
                }
            }),
    {
        match validate_topic(&topic) {
            Err(error) => return Err(error),
            Ok(()) => {},
        }
        match validate_size(key.len(), MAX_KEY_SIZE, ProtocolError::KeyTooLarge) {
            Err(error) => return Err(error),
            Ok(()) => {},
        }
        match validate_size(payload.len(), MAX_MESSAGE_SIZE, ProtocolError::MessageTooLarge) {
            Err(error) => return Err(error),
            Ok(()) => {},
        }
        Ok(ProduceRequest { topic, key, payload })
    }

    pub fn topic(&self) -> (topic: &str)
        ensures
            topic@ == self@.topic,
    {
        self.topic.as_str()
    }

    pub fn key(&self) -> (key: &Bytes)
        ensures
            buffer::content(*key) == self@.key,
    {
        &self.key
    }

    pub fn payload(&self) -> (payload: &Bytes)
        ensures
            buffer::content(*payload) == self@.payload,
    {
        &self.payload
    }
}

#[derive(Debug, Clone, Copy, PartialEq, Eq, Structural)]
pub enum Response {
    ProduceAck(ProduceAck),
}

#[derive(Debug, Clone, Copy, PartialEq, Eq, Structural)]
pub struct ProduceAck {
    pub partition: u32,
    pub offset: u64,
}

fn validate_topic(topic: &str) -> (checked: Result<(), ProtocolError>)
    ensures
        checked == if utf8::encode_utf8(topic@).len() > MAX_TOPIC_NAME {
            Err::<(), ProtocolError>(ProtocolError::TopicTooLarge)
        } else if topic@.len() == 0 {
            Err(ProtocolError::InvalidTopic)
        } else {
            Ok(())
        },
{
    match validate_size(topic.as_bytes().len(), MAX_TOPIC_NAME, ProtocolError::TopicTooLarge) {
        Err(error) => return Err(error),
        Ok(()) => {},
    }
    if topic.is_empty() {
        return Err(ProtocolError::InvalidTopic);
    }
    Ok(())
}

fn validate_size(actual: usize, maximum: usize, error: ProtocolError) -> (checked: Result<
    (),
    ProtocolError,
>)
    ensures
        checked == if actual > maximum {
            Err::<(), ProtocolError>(error)
        } else {
            Ok(())
        },
{
    if actual > maximum {
        return Err(error);
    }
    Ok(())
}

/// Takes the next request off the front of `input`, where a whole frame is there.
pub fn decode_request(input: &mut BytesMut) -> (decoded: Result<Option<Request>, ProtocolError>)
    ensures
        match front_frame(buffer::buffered(*old(input))) {
            Frame::Partial => {
                &&& decoded matches Ok(None)
                &&& buffer::buffered(*final(input)) == buffer::buffered(*old(input))
            },
            Frame::Refused(error) => {
                &&& decoded matches Err(found) && found == error
                &&& buffer::buffered(*final(input)) == buffer::buffered(*old(input))
            },
            Frame::Whole { opcode, fields, rest } => {
                &&& buffer::buffered(*final(input)) == rest
                &&& match parse_request(opcode, fields) {
                    Ok(produce) => decoded matches Ok(Some(request)) && request@ == produce,
                    Err(error) => decoded matches Err(found) && found == error,
                }
            },
        },
{
    match take_frame(input) {
        Err(error) => Err(error),
        Ok(None) => Ok(None),
        Ok(Some(taken)) => {
            let mut frame = taken;
            let opcode: u8 = buffer::get_u8(&mut frame);
            if opcode == PRODUCE {
                match decode_produce(frame) {
                    Ok(request) => Ok(Some(Request::Produce(request))),
                    Err(error) => Err(error),
                }
            } else {
                Err(ProtocolError::UnknownOpcode(opcode))
            }
        },
    }
}

/// Takes the next response off the front of `input`, where a whole frame is there.
pub fn decode_response(input: &mut BytesMut) -> (decoded: Result<Option<Response>, ProtocolError>)
    ensures
        match front_frame(buffer::buffered(*old(input))) {
            Frame::Partial => {
                &&& decoded matches Ok(None)
                &&& buffer::buffered(*final(input)) == buffer::buffered(*old(input))
            },
            Frame::Refused(error) => {
                &&& decoded matches Err(found) && found == error
                &&& buffer::buffered(*final(input)) == buffer::buffered(*old(input))
            },
            Frame::Whole { opcode, fields, rest } => {
                &&& buffer::buffered(*final(input)) == rest
                &&& match parse_response(opcode, fields) {
                    Ok(response) => decoded matches Ok(Some(found)) && found == response,
                    Err(error) => decoded matches Err(found) && found == error,
                }
            },
        },
{
    match take_frame(input) {
        Err(error) => Err(error),
        Ok(None) => Ok(None),
        Ok(Some(taken)) => {
            let mut frame = taken;
            let opcode: u8 = buffer::get_u8(&mut frame);
            if opcode == PRODUCE_ACK {
                let ghost fields = buffer::buffered(frame);
                if frame.len() != 12 {
                    return Err(ProtocolError::InvalidFrame);
                }
                let partition: u32 = buffer::get_u32(&mut frame);
                let offset: u64 = buffer::get_u64(&mut frame);
                assert(fields.skip(4).take(8) =~= fields.skip(4));
                Ok(Some(Response::ProduceAck(ProduceAck { partition, offset })))
            } else {
                Err(ProtocolError::UnknownOpcode(opcode))
            }
        },
    }
}

/// Takes the body of the next frame off the front of `input`.
fn take_frame(input: &mut BytesMut) -> (taken: Result<Option<BytesMut>, ProtocolError>)
    ensures
        match front_frame(buffer::buffered(*old(input))) {
            Frame::Partial => {
                &&& taken matches Ok(None)
                &&& buffer::buffered(*final(input)) == buffer::buffered(*old(input))
            },
            Frame::Refused(error) => {
                &&& taken matches Err(found) && found == error
                &&& buffer::buffered(*final(input)) == buffer::buffered(*old(input))
            },
            Frame::Whole { opcode, fields, rest } => {
                &&& buffer::buffered(*final(input)) == rest
                &&& taken matches Ok(Some(body))
                &&& buffer::buffered(body).len() >= 1
                &&& buffer::buffered(body)[0] == opcode
                &&& buffer::buffered(body).skip(1) == fields
            },
        },
{
    if input.len() < FRAME_HEADER_SIZE {
        return Ok(None);
    }
    let frame_len: usize = endian::read_u32(buffer::unread(input)) as usize;
    if frame_len == 0 {
        return Err(ProtocolError::InvalidFrame);
    }
    if frame_len > MAX_FRAME_SIZE {
        return Err(ProtocolError::FrameTooLarge);
    }
    if input.len() < FRAME_HEADER_SIZE + frame_len {
        return Ok(None);
    }
    buffer::advance(input, FRAME_HEADER_SIZE);
    Ok(Some(input.split_to(frame_len)))
}

fn decode_produce(frame: BytesMut) -> (decoded: Result<ProduceRequest, ProtocolError>)
    ensures
        match parse_produce(buffer::buffered(frame)) {
            Ok(produce) => decoded matches Ok(request) && request@ == produce,
            Err(error) => decoded matches Err(found) && found == error,
        },
{
    let mut fields = frame;
    proof {
        reveal(parse_produce);
    }
    let topic_len: usize = match read_u16_len(&mut fields) {
        Ok(len) => len,
        Err(error) => return Err(error),
    };
    match validate_size(topic_len, MAX_TOPIC_NAME, ProtocolError::TopicTooLarge) {
        Err(error) => return Err(error),
        Ok(()) => {},
    }
    let encoded_topic = match read_bytes(&mut fields, topic_len) {
        Ok(bytes) => bytes,
        Err(error) => return Err(error),
    };
    let ghost topic_bytes = buffer::content(encoded_topic);
    let topic = match text::from_utf8(vstd::slice::slice_to_vec(buffer::as_slice(&encoded_topic))) {
        Some(topic) => topic,
        None => return Err(ProtocolError::InvalidTopic),
    };
    proof {
        utf8::decode_utf8_encode_utf8(topic_bytes);
    }
    if topic.as_str().is_empty() {
        return Err(ProtocolError::InvalidTopic);
    }
    let key_len: usize = match read_u16_len(&mut fields) {
        Ok(len) => len,
        Err(error) => return Err(error),
    };
    match validate_size(key_len, MAX_KEY_SIZE, ProtocolError::KeyTooLarge) {
        Err(error) => return Err(error),
        Ok(()) => {},
    }
    let key = match read_bytes(&mut fields, key_len) {
        Ok(bytes) => bytes,
        Err(error) => return Err(error),
    };
    let payload_len: usize = match read_u32_len(&mut fields) {
        Ok(len) => len,
        Err(error) => return Err(error),
    };
    match validate_size(payload_len, MAX_MESSAGE_SIZE, ProtocolError::MessageTooLarge) {
        Err(error) => return Err(error),
        Ok(()) => {},
    }
    let ghost tail = buffer::buffered(fields);
    let payload = match read_bytes(&mut fields, payload_len) {
        Ok(bytes) => bytes,
        Err(error) => return Err(error),
    };
    if !fields.is_empty() {
        return Err(ProtocolError::InvalidFrame);
    }
    assert(tail.take(payload_len as int) =~= tail);
    ProduceRequest::new(topic, key, payload)
}

fn read_u16_len(input: &mut BytesMut) -> (len: Result<usize, ProtocolError>)
    ensures
        ({
            let bytes = buffer::buffered(*old(input));
            if bytes.len() < 2 {
                len == Err::<usize, ProtocolError>(ProtocolError::InvalidFrame)
            } else {
                &&& len matches Ok(found)
                &&& found == endian::be_value(bytes.take(2))
                &&& found <= 0xffff
                &&& buffer::buffered(*final(input)) == bytes.skip(2)
            }
        }),
{
    match ensure_remaining(input, 2) {
        Err(error) => return Err(error),
        Ok(()) => {},
    }
    Ok(buffer::get_u16(input) as usize)
}

fn read_u32_len(input: &mut BytesMut) -> (len: Result<usize, ProtocolError>)
    ensures
        ({
            let bytes = buffer::buffered(*old(input));
            if bytes.len() < 4 {
                len == Err::<usize, ProtocolError>(ProtocolError::InvalidFrame)
            } else {
                &&& len matches Ok(found) && found == endian::be_value(bytes.take(4))
                &&& buffer::buffered(*final(input)) == bytes.skip(4)
            }
        }),
{
    match ensure_remaining(input, 4) {
        Err(error) => return Err(error),
        Ok(()) => {},
    }
    Ok(buffer::get_u32(input) as usize)
}

fn read_bytes(input: &mut BytesMut, len: usize) -> (taken: Result<Bytes, ProtocolError>)
    ensures
        ({
            let bytes = buffer::buffered(*old(input));
            if bytes.len() < len {
                taken matches Err(error) && error == ProtocolError::InvalidFrame
            } else {
                &&& taken matches Ok(found) && buffer::content(found) == bytes.take(len as int)
                &&& buffer::buffered(*final(input)) == bytes.skip(len as int)
            }
        }),
{
    match ensure_remaining(input, len) {
        Err(error) => return Err(error),
        Ok(()) => {},
    }
    Ok(input.split_to(len).freeze())
}

fn ensure_remaining(input: &BytesMut, required: usize) -> (checked: Result<(), ProtocolError>)
    ensures
        checked == if buffer::buffered(*input).len() < required {
            Err::<(), ProtocolError>(ProtocolError::InvalidFrame)
        } else {
            Ok(())
        },
{
    if input.len() < required {
        return Err(ProtocolError::InvalidFrame);
    }
    Ok(())
}

/// Appends the frame of `request`.
pub fn encode_request(request: &Request, output: &mut BytesMut) -> (encoded: Result<
    (),
    ProtocolError,
>)
    requires
        buffer::can_grow(buffer::buffered(*old(output)).len(), produce_frame(request@).len()),
    ensures
        encoded is Ok,
        buffer::buffered(*final(output)) == buffer::buffered(*old(output)) + produce_frame(
            request@,
        ),
{
    match request {
        Request::Produce(request) => encode_produce(request, output),
    }
}

fn encode_produce(request: &ProduceRequest, output: &mut BytesMut) -> (encoded: Result<
    (),
    ProtocolError,
>)
    requires
        buffer::can_grow(buffer::buffered(*old(output)).len(), produce_frame(request@).len()),
    ensures
        encoded is Ok,
        buffer::buffered(*final(output)) == buffer::buffered(*old(output)) + produce_frame(
            request@,
        ),
{
    let topic = request.topic.as_str().as_bytes();
    let key = buffer::as_slice(&request.key);
    let payload = buffer::as_slice(&request.payload);
    proof {
        use_type_invariant(request);
        lemma_produce_fields_len(request@);
        endian::lemma_be_bytes_len(topic@.len(), 2);
        endian::lemma_be_bytes_len(key@.len(), 2);
        endian::lemma_be_bytes_len(payload@.len(), 4);
        endian::lemma_be_bytes_len(1 + produce_fields(request@).len(), 4);
    }
    let frame_len: usize = 1 + 2 + topic.len() + 2 + key.len() + 4 + payload.len();
    buffer::put_u32(output, frame_len as u32);
    buffer::put_u8(output, PRODUCE);
    buffer::put_u16(output, topic.len() as u16);
    output.extend_from_slice(topic);
    buffer::put_u16(output, key.len() as u16);
    output.extend_from_slice(key);
    buffer::put_u32(output, payload.len() as u32);
    output.extend_from_slice(payload);
    assert(buffer::buffered(*output) =~= buffer::buffered(*old(output)) + produce_frame(request@));
    Ok(())
}

/// Appends the frame of `response`.
pub fn encode_response(response: Response, output: &mut BytesMut)
    requires
        buffer::can_grow(buffer::buffered(*old(output)).len(), 17),
    ensures
        ({
            let Response::ProduceAck(ack) = response;
            buffer::buffered(*final(output)) == buffer::buffered(*old(output)) + ack_frame(ack)
        }),
{
    match response {
        Response::ProduceAck(ack) => {
            proof {
                endian::lemma_be_bytes_len(13, 4);
                endian::lemma_be_bytes_len(ack.partition as nat, 4);
                endian::lemma_be_bytes_len(ack.offset as nat, 8);
            }
            buffer::put_u32(output, 1 + 4 + 8);
            buffer::put_u8(output, PRODUCE_ACK);
            buffer::put_u32(output, ack.partition);
            buffer::put_u64(output, ack.offset);
            assert(buffer::buffered(*output) =~= buffer::buffered(*old(output)) + ack_frame(ack));
        },
    }
}

pub proof fn lemma_produce_fields_len(produce: Produce)
    ensures
        produce_fields(produce).len() == 8 + utf8::encode_utf8(produce.topic).len()
            + produce.key.len() + produce.payload.len(),
        produce_frame(produce).len() == 5 + produce_fields(produce).len(),
{
    endian::lemma_be_bytes_len(utf8::encode_utf8(produce.topic).len(), 2);
    endian::lemma_be_bytes_len(produce.key.len(), 2);
    endian::lemma_be_bytes_len(produce.payload.len(), 4);
    endian::lemma_be_bytes_len(1 + produce_fields(produce).len(), 4);
}

/// A frame within the limits, at the front of a buffer, is found whole whatever follows it.
proof fn lemma_front_frame(opcode: u8, fields: Seq<u8>, rest: Seq<u8>)
    requires
        1 + fields.len() <= MAX_FRAME_SIZE,
    ensures
        front_frame(framed(opcode, fields) + rest) == (Frame::Whole { opcode, fields, rest }),
{
    let len = 1 + fields.len();
    let body = seq![opcode] + fields;
    let bytes = framed(opcode, fields) + rest;
    endian::lemma_be_limits();
    assert(bytes =~= endian::be_bytes(len, 4) + (body + rest));
    endian::lemma_be_front(len, 4, body + rest);
    endian::lemma_split(body, rest);
    assert(body.skip(1) =~= fields);
}

/// No proper prefix of a frame within the limits is taken for a frame or refused.
proof fn lemma_partial_frame(opcode: u8, fields: Seq<u8>, received: int)
    requires
        1 + fields.len() <= MAX_FRAME_SIZE,
        0 <= received < framed(opcode, fields).len(),
    ensures
        front_frame(framed(opcode, fields).take(received)) is Partial,
{
    let len = 1 + fields.len();
    let body = seq![opcode] + fields;
    endian::lemma_be_limits();
    endian::lemma_be_front(len, 4, body);
    if received >= 4 {
        assert(framed(opcode, fields).take(received).take(4) =~= framed(opcode, fields).take(4));
    }
}

/// An acceptable request that was sent is what is decoded, and exactly its frame is taken,
/// whatever bytes follow it.
pub proof fn request_round_trip(produce: Produce, rest: Seq<u8>)
    requires
        produce_refusal(produce) is None,
    ensures
        front_frame(produce_frame(produce) + rest) == (Frame::Whole {
            opcode: PRODUCE,
            fields: produce_fields(produce),
            rest,
        }),
        parse_request(PRODUCE, produce_fields(produce)) == Ok::<Produce, ProtocolError>(produce),
{
    let topic = utf8::encode_utf8(produce.topic);
    let from_payload = endian::be_bytes(produce.payload.len(), 4) + produce.payload;
    let from_key = endian::be_bytes(produce.key.len(), 2) + (produce.key + from_payload);
    reveal(parse_produce);
    endian::lemma_be_limits();
    lemma_produce_fields_len(produce);
    lemma_front_frame(PRODUCE, produce_fields(produce), rest);
    endian::lemma_be_front(topic.len(), 2, topic + from_key);
    endian::lemma_split(topic, from_key);
    endian::lemma_be_front(produce.key.len(), 2, produce.key + from_payload);
    endian::lemma_split(produce.key, from_payload);
    endian::lemma_be_front(produce.payload.len(), 4, produce.payload);
    utf8::encode_utf8_valid_utf8(produce.topic);
    utf8::encode_utf8_decode_utf8(produce.topic);
}

/// While bytes of a request are missing, nothing is decoded and nothing is taken.
pub proof fn partial_request_waits(produce: Produce, received: int)
    requires
        produce_refusal(produce) is None,
        0 <= received < produce_frame(produce).len(),
    ensures
        front_frame(produce_frame(produce).take(received)) is Partial,
{
    lemma_produce_fields_len(produce);
    lemma_partial_frame(PRODUCE, produce_fields(produce), received);
}

/// The frames of several requests, one behind the other.
pub open spec fn produce_frames(requests: Seq<Produce>) -> Seq<u8>
    decreases requests.len(),
{
    if requests.len() == 0 {
        Seq::empty()
    } else {
        produce_frame(requests[0]) + produce_frames(requests.skip(1))
    }
}

/// What `count` calls of [`decode_request`] give, and the bytes that they leave, where each of
/// them gives a request.
pub open spec fn decoded_requests(bytes: Seq<u8>, count: nat) -> Option<(Seq<Produce>, Seq<u8>)>
    decreases count,
{
    if count == 0 {
        Some((Seq::empty(), bytes))
    } else {
        match front_frame(bytes) {
            Frame::Whole { opcode, fields, rest } => match parse_request(opcode, fields) {
                Ok(produce) => match decoded_requests(rest, (count - 1) as nat) {
                    Some((more, left)) => Some((seq![produce] + more, left)),
                    None => None,
                },
                Err(_) => None,
            },
            _ => None,
        }
    }
}

/// Requests that were sent one behind the other are decoded in that order.
pub proof fn requests_round_trip(requests: Seq<Produce>, rest: Seq<u8>)
    requires
        forall|i: int|
            0 <= i < requests.len() ==> produce_refusal(#[trigger] requests[i]) is None,
    ensures
        decoded_requests(produce_frames(requests) + rest, requests.len()) == Some((requests, rest)),
    decreases requests.len(),
{
    if requests.len() == 0 {
        assert(produce_frames(requests) + rest =~= rest);
        assert(requests =~= Seq::empty());
    } else {
        let more = requests.skip(1);
        assert forall|i: int| 0 <= i < more.len() implies produce_refusal(
            #[trigger] more[i],
        ) is None by {
            assert(more[i] == requests[i + 1]);
        }
        requests_round_trip(more, rest);
        request_round_trip(requests[0], produce_frames(more) + rest);
        assert(produce_frames(requests) + rest =~= produce_frame(requests[0]) + (produce_frames(
            more,
        ) + rest));
        assert(seq![requests[0]] + more =~= requests);
    }
}

/// A decoded request is acceptable, and no other bytes decode to it.
pub proof fn request_encoding_is_unique(fields: Seq<u8>)
    ensures
        parse_request(PRODUCE, fields) matches Ok(produce) ==> {
            &&& produce_refusal(produce) is None
            &&& fields == produce_fields(produce)
        },
{
    reveal(parse_produce);
    if let Ok(produce) = parse_request(PRODUCE, fields) {
        let topic_len = endian::be_value(fields.take(2));
        let after_topic_len = fields.skip(2);
        let topic = after_topic_len.take(topic_len as int);
        let key_fields = after_topic_len.skip(topic_len as int);
        let key_len = endian::be_value(key_fields.take(2));
        let after_key_len = key_fields.skip(2);
        let key = after_key_len.take(key_len as int);
        let payload_fields = after_key_len.skip(key_len as int);
        endian::lemma_be_limits();
        endian::lemma_join(fields, 2);
        endian::lemma_join(after_topic_len, topic_len as int);
        endian::lemma_join(key_fields, 2);
        endian::lemma_join(after_key_len, key_len as int);
        endian::lemma_join(payload_fields, 4);
        endian::lemma_be_value_inverse(fields.take(2));
        endian::lemma_be_value_inverse(key_fields.take(2));
        endian::lemma_be_value_inverse(payload_fields.take(4));
        utf8::decode_utf8_encode_utf8(topic);
    }
}

/// An acknowledgement that was sent is what is decoded, and exactly its frame is taken,
/// whatever bytes follow it.
pub proof fn response_round_trip(ack: ProduceAck, rest: Seq<u8>)
    ensures
        front_frame(ack_frame(ack) + rest) == (Frame::Whole {
            opcode: PRODUCE_ACK,
            fields: ack_fields(ack),
            rest,
        }),
        parse_response(PRODUCE_ACK, ack_fields(ack)) == Ok::<Response, ProtocolError>(
            Response::ProduceAck(ack),
        ),
{
    endian::lemma_be_limits();
    endian::lemma_be_round_trip(ack.offset as nat, 8);
    endian::lemma_be_front(ack.partition as nat, 4, endian::be_bytes(ack.offset as nat, 8));
    lemma_front_frame(PRODUCE_ACK, ack_fields(ack), rest);
}

/// While bytes of an acknowledgement are missing, nothing is decoded and nothing is taken.
pub proof fn partial_response_waits(ack: ProduceAck, received: int)
    requires
        0 <= received < ack_frame(ack).len(),
    ensures
        front_frame(ack_frame(ack).take(received)) is Partial,
{
    endian::lemma_be_bytes_len(ack.partition as nat, 4);
    endian::lemma_be_bytes_len(ack.offset as nat, 8);
    lemma_partial_frame(PRODUCE_ACK, ack_fields(ack), received);
}

/// A message is acceptable with a topic of one up to two hundred and forty-nine bytes, a key of at
/// most sixty-five thousand five hundred and thirty-five, and a payload of at most one megabyte.
/// The first limit that it breaks is what is told.
pub proof fn messages_keep_to_limits(produce: Produce)
    ensures
        ({
            let topic = utf8::encode_utf8(produce.topic).len();
            let refusal = produce_refusal(produce);
            &&& refusal is None <==> topic <= 249 && produce.topic.len() > 0 && produce.key.len()
                <= 65_535 && produce.payload.len() <= 1_048_576
            &&& topic > 249 ==> refusal == Some(ProtocolError::TopicTooLarge)
            &&& topic <= 249 && produce.topic.len() == 0 ==> refusal == Some(
                ProtocolError::InvalidTopic,
            )
            &&& topic <= 249 && produce.topic.len() > 0 && produce.key.len() > 65_535 ==> refusal
                == Some(ProtocolError::KeyTooLarge)
            &&& topic <= 249 && produce.topic.len() > 0 && produce.key.len() <= 65_535
                && produce.payload.len() > 1_048_576 ==> refusal == Some(
                ProtocolError::MessageTooLarge,
            )
        }),
{
}

/// A message is sent as a frame: its length, the opcode one, and then the lengths and the bytes of
/// the topic, the key and the payload; numbers have their highest byte first.
pub proof fn message_layout(produce: Produce)
    requires
        produce_refusal(produce) is None,
    ensures
        ({
            let bytes = produce_frame(produce);
            let topic = utf8::encode_utf8(produce.topic);
            let key_at = (7 + topic.len()) as int;
            let payload_at = (key_at + 2 + produce.key.len()) as int;
            &&& bytes.len() == payload_at + 4 + produce.payload.len()
            &&& endian::be_value(bytes.subrange(0, 4)) == bytes.len() - 4
            &&& bytes[4] == 1
            &&& endian::be_value(bytes.subrange(5, 7)) == topic.len()
            &&& bytes.subrange(7, key_at) == topic
            &&& endian::be_value(bytes.subrange(key_at, key_at + 2)) == produce.key.len()
            &&& bytes.subrange(key_at + 2, payload_at) == produce.key
            &&& endian::be_value(bytes.subrange(payload_at, payload_at + 4))
                == produce.payload.len()
            &&& bytes.skip(payload_at + 4) == produce.payload
        }),
{
    let bytes = produce_frame(produce);
    let fields = produce_fields(produce);
    let topic = utf8::encode_utf8(produce.topic);
    let key_at = (7 + topic.len()) as int;
    let payload_at = (key_at + 2 + produce.key.len()) as int;
    lemma_produce_fields_len(produce);
    endian::lemma_be_limits();
    endian::lemma_be_bytes_len(1 + fields.len(), 4);
    endian::lemma_be_bytes_len(topic.len(), 2);
    endian::lemma_be_bytes_len(produce.key.len(), 2);
    endian::lemma_be_bytes_len(produce.payload.len(), 4);
    endian::lemma_be_round_trip(1 + fields.len(), 4);
    endian::lemma_be_round_trip(topic.len(), 2);
    endian::lemma_be_round_trip(produce.key.len(), 2);
    endian::lemma_be_round_trip(produce.payload.len(), 4);
    assert(bytes.subrange(0, 4) =~= endian::be_bytes(1 + fields.len(), 4));
    assert(bytes.subrange(5, 7) =~= endian::be_bytes(topic.len(), 2));
    assert(bytes.subrange(7, key_at) =~= topic);
    assert(bytes.subrange(key_at, key_at + 2) =~= endian::be_bytes(produce.key.len(), 2));
    assert(bytes.subrange(key_at + 2, payload_at) =~= produce.key);
    assert(bytes.subrange(payload_at, payload_at + 4) =~= endian::be_bytes(
        produce.payload.len(),
        4,
    ));
    assert(bytes.skip(payload_at + 4) =~= produce.payload);
}

/// An acknowledgement is sent as a frame of seventeen bytes: its length, the opcode two, the
/// partition and the offset.
pub proof fn acknowledgement_layout(ack: ProduceAck)
    ensures
        ({
            let bytes = ack_frame(ack);
            &&& bytes.len() == 17
            &&& endian::be_value(bytes.subrange(0, 4)) == 13
            &&& bytes[4] == 2
            &&& endian::be_value(bytes.subrange(5, 9)) == ack.partition
            &&& endian::be_value(bytes.subrange(9, 17)) == ack.offset
        }),
{
    let bytes = ack_frame(ack);
    endian::lemma_be_limits();
    endian::lemma_be_bytes_len(13, 4);
    endian::lemma_be_bytes_len(ack.partition as nat, 4);
    endian::lemma_be_bytes_len(ack.offset as nat, 8);
    endian::lemma_be_round_trip(13, 4);
    endian::lemma_be_round_trip(ack.partition as nat, 4);
    endian::lemma_be_round_trip(ack.offset as nat, 8);
    assert(bytes.subrange(0, 4) =~= endian::be_bytes(13, 4));
    assert(bytes.subrange(5, 9) =~= endian::be_bytes(ack.partition as nat, 4));
    assert(bytes.subrange(9, 17) =~= endian::be_bytes(ack.offset as nat, 8));
}

/// A frame without a body and one that is longer than any message are refused before their bytes
/// are there; other frames are waited for.
pub proof fn frame_lengths_are_checked_first(bytes: Seq<u8>)
    requires
        bytes.len() >= 4,
    ensures
        ({
            let len = endian::be_value(bytes.take(4));
            &&& len == 0 ==> front_frame(bytes) == Frame::Refused(ProtocolError::InvalidFrame)
            &&& len > 1_114_369 ==> front_frame(bytes) == Frame::Refused(
                ProtocolError::FrameTooLarge,
            )
            &&& 0 < len <= 1_114_369 ==> (front_frame(bytes) is Partial <==> bytes.len() < 4 + len)
            &&& 0 < len <= 1_114_369 && bytes.len() >= 4 + len ==> (
            front_frame(bytes) matches Frame::Whole { opcode, fields, rest } && opcode == bytes[4]
                && fields.len() == len - 1 && rest.len() == bytes.len() - 4 - len)
        }),
{
}

/// A frame with another opcode is refused with that opcode.
pub proof fn other_opcodes_are_refused(opcode: u8, fields: Seq<u8>)
    ensures
        opcode != 1 ==> parse_request(opcode, fields) == Err::<Produce, ProtocolError>(
            ProtocolError::UnknownOpcode(opcode),
        ),
        opcode != 2 ==> parse_response(opcode, fields) == Err::<Response, ProtocolError>(
            ProtocolError::UnknownOpcode(opcode),
        ),
        opcode == 2 && fields.len() != 12 ==> parse_response(opcode, fields) == Err::<
            Response,
            ProtocolError,
        >(ProtocolError::InvalidFrame),
{
}

} // verus!
