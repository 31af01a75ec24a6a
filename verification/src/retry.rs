//! Failed messages: the envelope that carries a message through retry topics, and where a
//! failed message goes next.

use bytes::{Bytes, BytesMut};
use vstd::prelude::*;
use vstd::utf8;

use crate::buffer;
use crate::checksum;
use crate::endian;
use crate::protocol;
use crate::record::{Entry, FetchedRecord};
use crate::text;

verus! {

/// How much of an error is kept, in bytes.
pub const MAX_ERROR_BYTES: usize = 4 * 1024;

/// The length of an envelope without its variable fields.
pub const ENVELOPE_HEADER: usize = 48;

#[derive(Debug, Clone, Copy, PartialEq, Eq, Structural)]
pub enum RetryError {
    AttemptOverflow,
    RetryEnvelopeTooLarge,
    InvalidRetryEnvelope,
}

impl RetryError {
    /// What the error says.
    pub open spec fn text(self) -> Seq<char> {
        match self {
            RetryError::AttemptOverflow => "retry attempt space is exhausted"@,
            RetryError::RetryEnvelopeTooLarge =>
                "retry envelope exceeds the message size limit"@,
            RetryError::InvalidRetryEnvelope => "retry envelope is malformed"@,
        }
    }

    /// The error in words.
    pub fn message(&self) -> (message: String)
        ensures
            message@ == self.text(),
    {
        match self {
            RetryError::AttemptOverflow => "retry attempt space is exhausted".to_owned(),
            RetryError::RetryEnvelopeTooLarge => {
                "retry envelope exceeds the message size limit".to_owned()
            },
            RetryError::InvalidRetryEnvelope => "retry envelope is malformed".to_owned(),
        }
    }
}

/// A message and where it first came from, as a value.
#[verifier::ext_equal]
pub struct Message {
    pub original_topic: Seq<char>,
    pub original_partition: u32,
    pub original_offset: u64,
    pub original_timestamp_ms: u64,
    pub attempt: u32,
    pub available_at_ms: u64,
    pub key: Seq<u8>,
    pub payload: Seq<u8>,
}

/// A message and where it first came from.
#[derive(Debug)]
pub struct MessageContext {
    pub original_topic: String,
    pub original_partition: u32,
    pub original_offset: u64,
    pub original_timestamp_ms: u64,
    pub attempt: u32,
    pub available_at_ms: u64,
    pub key: Bytes,
    pub payload: Bytes,
}

impl View for MessageContext {
    type V = Message;

    open spec fn view(&self) -> Message {
        Message {
            original_topic: self.original_topic@,
            original_partition: self.original_partition,
            original_offset: self.original_offset,
            original_timestamp_ms: self.original_timestamp_ms,
            attempt: self.attempt,
            available_at_ms: self.available_at_ms,
            key: buffer::content(self.key),
            payload: buffer::content(self.payload),
        }
    }
}

/// The bytes that an envelope starts with.
pub open spec fn magic() -> Seq<u8> {
    seq![0x53u8, 0x56u8, 0x52u8, 0x31u8]
}

/// The part of an error that is kept.
pub open spec fn kept_error(error: Seq<u8>) -> Seq<u8> {
    if error.len() > MAX_ERROR_BYTES {
        error.take(MAX_ERROR_BYTES as int)
    } else {
        error
    }
}

/// The envelope of a message for its next attempt.
pub open spec fn envelope(
    message: Message,
    attempt: u32,
    available_at_ms: u64,
    error: Seq<u8>,
) -> Seq<u8> {
    let topic = utf8::encode_utf8(message.original_topic);
    magic() + endian::be_bytes(attempt as nat, 4) + endian::be_bytes(available_at_ms as nat, 8)
        + endian::be_bytes(message.original_partition as nat, 4) + endian::be_bytes(
        message.original_offset as nat,
        8,
    ) + endian::be_bytes(message.original_timestamp_ms as nat, 8) + endian::be_bytes(
        topic.len(),
        2,
    ) + endian::be_bytes(error.len(), 2) + endian::be_bytes(message.key.len(), 4)
        + endian::be_bytes(message.payload.len(), 4) + topic + error + message.key
        + message.payload
}

/// The length of an envelope.
pub open spec fn envelope_len(message: Message, error: Seq<u8>) -> nat {
    ENVELOPE_HEADER as nat + utf8::encode_utf8(message.original_topic).len() + error.len()
        + message.key.len() + message.payload.len()
}

/// Whether a message fits into an envelope that can be sent.
pub open spec fn envelope_fits(message: Message, error: Seq<u8>) -> bool {
    utf8::encode_utf8(message.original_topic).len() <= u16::MAX && envelope_len(message, error)
        <= protocol::MAX_MESSAGE_SIZE
}

pub open spec fn is_envelope(value: Seq<u8>) -> bool {
    value.len() >= 4 && value.take(4) == magic()
}

/// What an envelope holds, where it is well formed.
#[verifier::opaque]
pub open spec fn parsed_envelope(value: Seq<u8>) -> Option<Message> {
    if value.len() < ENVELOPE_HEADER {
        None
    } else {
        let topic_len = endian::be_value(value.skip(36).take(2));
        let error_len = endian::be_value(value.skip(38).take(2));
        let key_len = endian::be_value(value.skip(40).take(4));
        let payload_len = endian::be_value(value.skip(44).take(4));
        let tail = value.skip(48);
        let topic = tail.take(topic_len as int);
        let key = tail.skip(topic_len as int).skip(error_len as int).take(key_len as int);
        let payload = tail.skip(topic_len as int).skip(error_len as int).skip(key_len as int);
        if tail.len() != topic_len + error_len + key_len + payload_len || !utf8::valid_utf8(topic) {
            None
        } else {
            Some(
                Message {
                    original_topic: utf8::decode_utf8(topic),
                    original_partition: endian::be_value(value.skip(16).take(4)) as u32,
                    original_offset: endian::be_value(value.skip(20).take(8)) as u64,
                    original_timestamp_ms: endian::be_value(value.skip(28).take(8)) as u64,
                    attempt: endian::be_value(value.skip(4).take(4)) as u32,
                    available_at_ms: endian::be_value(value.skip(8).take(8)) as u64,
                    key,
                    payload,
                },
            )
        }
    }
}

/// The message that a consumed record carries: what its envelope holds, or the record itself
/// where it is not in an envelope.
pub open spec fn message_in(topic: Seq<char>, partition: u32, entry: Entry) -> Option<Message> {
    if is_envelope(entry.value) {
        parsed_envelope(entry.value)
    } else {
        Some(
            Message {
                original_topic: topic,
                original_partition: partition,
                original_offset: entry.offset,
                original_timestamp_ms: entry.timestamp_ms,
                attempt: 0,
                available_at_ms: 0,
                key: entry.key_bytes(),
                payload: entry.value,
            },
        )
    }
}

/// The message that a consumed record carries.
pub fn context(consumed_topic: &str, partition: u32, record: &FetchedRecord) -> (message: Result<
    MessageContext,
    RetryError,
>)
    ensures
        match message_in(consumed_topic@, partition, record@) {
            Some(expected) => message matches Ok(found) && found@ == expected,
            None => message matches Err(error) && error == RetryError::InvalidRetryEnvelope,
        },
{
    if !has_magic(buffer::as_slice(&record.value)) {
        let key = match &record.key {
            Some(key) => key.clone(),
            None => BytesMut::new().freeze(),
        };
        return Ok(
            MessageContext {
                original_topic: consumed_topic.to_owned(),
                original_partition: partition,
                original_offset: record.offset,
                original_timestamp_ms: record.timestamp_ms,
                attempt: 0,
                available_at_ms: 0,
                key,
                payload: record.value.clone(),
            },
        );
    }
    decode_envelope(record)
}

fn has_magic(value: &[u8]) -> (found: bool)
    ensures
        found == is_envelope(value@),
{
    if value.len() < 4 {
        return false;
    }
    let found: bool = value[0] == 0x53 && value[1] == 0x56 && value[2] == 0x52 && value[3] == 0x31;
    proof {
        let front = value@.take(4);
        if found {
            assert(front =~= magic());
        } else if front == magic() {
            assert(front[0] == value@[0] && front[1] == value@[1] && front[2] == value@[2]
                && front[3] == value@[3]);
        }
    }
    found
}

fn decode_envelope(record: &FetchedRecord) -> (message: Result<MessageContext, RetryError>)
    ensures
        match parsed_envelope(record@.value) {
            Some(expected) => message matches Ok(found) && found@ == expected,
            None => message matches Err(error) && error == RetryError::InvalidRetryEnvelope,
        },
{
    let mut encoded = buffer::buffer_from(buffer::as_slice(&record.value));
    let ghost value = buffer::buffered(encoded);
    proof {
        reveal(parsed_envelope);
    }
    if encoded.len() < ENVELOPE_HEADER {
        return Err(RetryError::InvalidRetryEnvelope);
    }
    buffer::advance(&mut encoded, 4);
    let attempt: u32 = buffer::get_u32(&mut encoded);
    let available_at_ms: u64 = buffer::get_u64(&mut encoded);
    let original_partition: u32 = buffer::get_u32(&mut encoded);
    let original_offset: u64 = buffer::get_u64(&mut encoded);
    let original_timestamp_ms: u64 = buffer::get_u64(&mut encoded);
    let topic_len: usize = buffer::get_u16(&mut encoded) as usize;
    let error_len: usize = buffer::get_u16(&mut encoded) as usize;
    let key_len: usize = buffer::get_u32(&mut encoded) as usize;
    let payload_len: usize = buffer::get_u32(&mut encoded) as usize;
    let ghost tail = value.skip(48);
    proof {
        assert(value.skip(4).skip(4) =~= value.skip(8));
        assert(value.skip(8).skip(8) =~= value.skip(16));
        assert(value.skip(16).skip(4) =~= value.skip(20));
        assert(value.skip(20).skip(8) =~= value.skip(28));
        assert(value.skip(28).skip(8) =~= value.skip(36));
        assert(value.skip(36).skip(2) =~= value.skip(38));
        assert(value.skip(38).skip(2) =~= value.skip(40));
        assert(value.skip(40).skip(4) =~= value.skip(44));
        assert(value.skip(44).skip(4) =~= tail);
    }
    let required: usize = match topic_len.checked_add(error_len) {
        None => return Err(RetryError::InvalidRetryEnvelope),
        Some(front) => match front.checked_add(key_len) {
            None => return Err(RetryError::InvalidRetryEnvelope),
            Some(size) => match size.checked_add(payload_len) {
                None => return Err(RetryError::InvalidRetryEnvelope),
                Some(all) => all,
            },
        },
    };
    if encoded.len() != required {
        return Err(RetryError::InvalidRetryEnvelope);
    }
    let topic = encoded.split_to(topic_len).freeze();
    let original_topic = match text::from_utf8(
        vstd::slice::slice_to_vec(buffer::as_slice(&topic)),
    ) {
        Some(original_topic) => original_topic,
        None => return Err(RetryError::InvalidRetryEnvelope),
    };
    buffer::advance(&mut encoded, error_len);
    let key = encoded.split_to(key_len).freeze();
    let ghost rest = buffer::buffered(encoded);
    let payload = encoded.split_to(payload_len).freeze();
    assert(rest.take(payload_len as int) =~= rest);
    Ok(
        MessageContext {
            original_topic,
            original_partition,
            original_offset,
            original_timestamp_ms,
            attempt,
            available_at_ms,
            key,
            payload,
        },
    )
}

pub proof fn lemma_envelope_len(
    message: Message,
    attempt: u32,
    available_at_ms: u64,
    error: Seq<u8>,
)
    ensures
        envelope(message, attempt, available_at_ms, error).len() == envelope_len(message, error),
{
    endian::lemma_be_bytes_len(attempt as nat, 4);
    endian::lemma_be_bytes_len(available_at_ms as nat, 8);
    endian::lemma_be_bytes_len(message.original_partition as nat, 4);
    endian::lemma_be_bytes_len(message.original_offset as nat, 8);
    endian::lemma_be_bytes_len(message.original_timestamp_ms as nat, 8);
    endian::lemma_be_bytes_len(utf8::encode_utf8(message.original_topic).len(), 2);
    endian::lemma_be_bytes_len(error.len(), 2);
    endian::lemma_be_bytes_len(message.key.len(), 4);
    endian::lemma_be_bytes_len(message.payload.len(), 4);
}

/// The envelope of a message for its next attempt, where it can be sent.
pub fn encode_envelope(
    context: &MessageContext,
    attempt: u32,
    available_at_ms: u64,
    error: &str,
) -> (encoded: Result<Bytes, RetryError>)
    ensures
        ({
            let kept = kept_error(utf8::encode_utf8(error@));
            if envelope_fits(context@, kept) {
                encoded matches Ok(bytes) && buffer::content(bytes) == envelope(
                    context@,
                    attempt,
                    available_at_ms,
                    kept,
                )
            } else {
                encoded matches Err(refusal) && refusal == RetryError::RetryEnvelopeTooLarge
            }
        }),
{
    let all = error.as_bytes();
    let kept: &[u8] = if all.len() > MAX_ERROR_BYTES {
        vstd::slice::slice_subrange(all, 0, MAX_ERROR_BYTES)
    } else {
        all
    };
    assert(kept@ =~= kept_error(utf8::encode_utf8(error@)));
    let topic = context.original_topic.as_str().as_bytes();
    let key = buffer::as_slice(&context.key);
    let payload = buffer::as_slice(&context.payload);
    let len: usize = ENVELOPE_HEADER.saturating_add(topic.len()).saturating_add(
        kept.len(),
    ).saturating_add(key.len()).saturating_add(payload.len());
    if topic.len() > u16::MAX as usize || len > protocol::MAX_MESSAGE_SIZE {
        return Err(RetryError::RetryEnvelopeTooLarge);
    }
    proof {
        endian::lemma_be_bytes_len(attempt as nat, 4);
        endian::lemma_be_bytes_len(available_at_ms as nat, 8);
        endian::lemma_be_bytes_len(context.original_partition as nat, 4);
        endian::lemma_be_bytes_len(context.original_offset as nat, 8);
        endian::lemma_be_bytes_len(context.original_timestamp_ms as nat, 8);
        endian::lemma_be_bytes_len(topic@.len(), 2);
        endian::lemma_be_bytes_len(kept@.len(), 2);
        endian::lemma_be_bytes_len(key@.len(), 4);
        endian::lemma_be_bytes_len(payload@.len(), 4);
    }
    let mut encoded = BytesMut::new();
    buffer::put_u8(&mut encoded, 0x53);
    buffer::put_u8(&mut encoded, 0x56);
    buffer::put_u8(&mut encoded, 0x52);
    buffer::put_u8(&mut encoded, 0x31);
    assert(buffer::buffered(encoded) =~= magic());
    buffer::put_u32(&mut encoded, attempt);
    buffer::put_u64(&mut encoded, available_at_ms);
    buffer::put_u32(&mut encoded, context.original_partition);
    buffer::put_u64(&mut encoded, context.original_offset);
    buffer::put_u64(&mut encoded, context.original_timestamp_ms);
    buffer::put_u16(&mut encoded, topic.len() as u16);
    buffer::put_u16(&mut encoded, kept.len() as u16);
    buffer::put_u32(&mut encoded, key.len() as u32);
    buffer::put_u32(&mut encoded, payload.len() as u32);
    encoded.extend_from_slice(topic);
    encoded.extend_from_slice(kept);
    encoded.extend_from_slice(key);
    encoded.extend_from_slice(payload);
    Ok(encoded.freeze())
}

/// A field is found where it was put.
proof fn lemma_field(front: Seq<u8>, field: Seq<u8>, back: Seq<u8>, whole: Seq<u8>)
    requires
        whole == front + field + back,
    ensures
        whole.skip(front.len() as int).take(field.len() as int) == field,
        whole.skip((front.len() + field.len()) as int) == back,
{
    assert(whole.skip(front.len() as int).take(field.len() as int) =~= field);
    assert(whole.skip((front.len() + field.len()) as int) =~= back);
}

/// Concatenations can be regrouped.
proof fn lemma_regroup(front: Seq<u8>, field: Seq<u8>, back: Seq<u8>)
    ensures
        front + field + back == front + (field + back),
{
    assert(front + field + back =~= front + (field + back));
}

/// The fields of an envelope stand where they are looked for.
#[verifier::spinoff_prover]
proof fn lemma_envelope_fields(
    message: Message,
    attempt: u32,
    available_at_ms: u64,
    error: Seq<u8>,
)
    ensures
        ({
            let topic = utf8::encode_utf8(message.original_topic);
            let whole = envelope(message, attempt, available_at_ms, error);
            &&& whole.skip(0).take(4) == magic()
            &&& whole.skip(4).take(4) == endian::be_bytes(attempt as nat, 4)
            &&& whole.skip(8).take(8) == endian::be_bytes(available_at_ms as nat, 8)
            &&& whole.skip(16).take(4) == endian::be_bytes(message.original_partition as nat, 4)
            &&& whole.skip(20).take(8) == endian::be_bytes(message.original_offset as nat, 8)
            &&& whole.skip(28).take(8) == endian::be_bytes(
                message.original_timestamp_ms as nat,
                8,
            )
            &&& whole.skip(36).take(2) == endian::be_bytes(topic.len(), 2)
            &&& whole.skip(38).take(2) == endian::be_bytes(error.len(), 2)
            &&& whole.skip(40).take(4) == endian::be_bytes(message.key.len(), 4)
            &&& whole.skip(44).take(4) == endian::be_bytes(message.payload.len(), 4)
            &&& whole.skip(48) == topic + (error + (message.key + message.payload))
        }),
{
    let topic = utf8::encode_utf8(message.original_topic);
    let whole = envelope(message, attempt, available_at_ms, error);
    let f1 = endian::be_bytes(attempt as nat, 4);
    let f2 = endian::be_bytes(available_at_ms as nat, 8);
    let f3 = endian::be_bytes(message.original_partition as nat, 4);
    let f4 = endian::be_bytes(message.original_offset as nat, 8);
    let f5 = endian::be_bytes(message.original_timestamp_ms as nat, 8);
    let f6 = endian::be_bytes(topic.len(), 2);
    let f7 = endian::be_bytes(error.len(), 2);
    let f8 = endian::be_bytes(message.key.len(), 4);
    let f9 = endian::be_bytes(message.payload.len(), 4);
    endian::lemma_be_bytes_len(attempt as nat, 4);
    endian::lemma_be_bytes_len(available_at_ms as nat, 8);
    endian::lemma_be_bytes_len(message.original_partition as nat, 4);
    endian::lemma_be_bytes_len(message.original_offset as nat, 8);
    endian::lemma_be_bytes_len(message.original_timestamp_ms as nat, 8);
    endian::lemma_be_bytes_len(topic.len(), 2);
    endian::lemma_be_bytes_len(error.len(), 2);
    endian::lemma_be_bytes_len(message.key.len(), 4);
    endian::lemma_be_bytes_len(message.payload.len(), 4);
    let p0 = Seq::<u8>::empty();
    let p1 = magic();
    let p2 = p1 + f1;
    let p3 = p2 + f2;
    let p4 = p3 + f3;
    let p5 = p4 + f4;
    let p6 = p5 + f5;
    let p7 = p6 + f6;
    let p8 = p7 + f7;
    let p9 = p8 + f8;
    let p10 = p9 + f9;
    let p11 = p10 + topic;
    let p12 = p11 + error;
    let r12 = message.key + message.payload;
    let r11 = error + r12;
    let r10 = topic + r11;
    let r9 = f9 + r10;
    let r8 = f8 + r9;
    let r7 = f7 + r8;
    let r6 = f6 + r7;
    let r5 = f5 + r6;
    let r4 = f4 + r5;
    let r3 = f3 + r4;
    let r2 = f2 + r3;
    let r1 = f1 + r2;
    lemma_regroup(p12, message.key, message.payload);
    lemma_regroup(p11, error, r12);
    lemma_regroup(p10, topic, r11);
    lemma_regroup(p9, f9, r10);
    lemma_regroup(p8, f8, r9);
    lemma_regroup(p7, f7, r8);
    lemma_regroup(p6, f6, r7);
    lemma_regroup(p5, f5, r6);
    lemma_regroup(p4, f4, r5);
    lemma_regroup(p3, f3, r4);
    lemma_regroup(p2, f2, r3);
    lemma_regroup(p1, f1, r2);
    assert(p0 + p1 =~= p1);
    lemma_field(p0, p1, r1, whole);
    lemma_field(p1, f1, r2, whole);
    lemma_field(p2, f2, r3, whole);
    lemma_field(p3, f3, r4, whole);
    lemma_field(p4, f4, r5, whole);
    lemma_field(p5, f5, r6, whole);
    lemma_field(p6, f6, r7, whole);
    lemma_field(p7, f7, r8, whole);
    lemma_field(p8, f8, r9, whole);
    lemma_field(p9, f9, r10, whole);
}

/// A message survives its way through a retry topic: what was put into an envelope is what is
/// taken out, with the attempt and the time that were set.
#[verifier::spinoff_prover]
pub proof fn envelope_round_trip(
    message: Message,
    attempt: u32,
    available_at_ms: u64,
    error: Seq<u8>,
)
    requires
        envelope_fits(message, error),
        error.len() <= MAX_ERROR_BYTES,
    ensures
        is_envelope(envelope(message, attempt, available_at_ms, error)),
        parsed_envelope(envelope(message, attempt, available_at_ms, error)) == Some(
            Message { attempt, available_at_ms, ..message },
        ),
{
    lemma_envelope_len(message, attempt, available_at_ms, error);
    lemma_envelope_fields(message, attempt, available_at_ms, error);
    let topic = utf8::encode_utf8(message.original_topic);
    let whole = envelope(message, attempt, available_at_ms, error);
    assert(whole.skip(0) =~= whole);
    endian::lemma_be_limits();
    endian::lemma_be_round_trip(attempt as nat, 4);
    endian::lemma_be_round_trip(available_at_ms as nat, 8);
    endian::lemma_be_round_trip(message.original_partition as nat, 4);
    endian::lemma_be_round_trip(message.original_offset as nat, 8);
    endian::lemma_be_round_trip(message.original_timestamp_ms as nat, 8);
    endian::lemma_be_round_trip(topic.len(), 2);
    endian::lemma_be_round_trip(error.len(), 2);
    endian::lemma_be_round_trip(message.key.len(), 4);
    endian::lemma_be_round_trip(message.payload.len(), 4);
    endian::lemma_split(topic, error + (message.key + message.payload));
    endian::lemma_split(error, message.key + message.payload);
    endian::lemma_split(message.key, message.payload);
    utf8::encode_utf8_valid_utf8(message.original_topic);
    utf8::encode_utf8_decode_utf8(message.original_topic);
    reveal(parsed_envelope);
}

/// Bytes that agree with an envelope in its header, and are not as long, hold no message.
#[verifier::spinoff_prover]
proof fn lemma_other_length(
    message: Message,
    attempt: u32,
    available_at_ms: u64,
    error: Seq<u8>,
    bytes: Seq<u8>,
)
    requires
        envelope_fits(message, error),
        error.len() <= MAX_ERROR_BYTES,
        bytes.len() >= ENVELOPE_HEADER,
        bytes.len() != envelope(message, attempt, available_at_ms, error).len(),
        bytes.take(48) == envelope(message, attempt, available_at_ms, error).take(48),
    ensures
        parsed_envelope(bytes) is None,
{
    lemma_envelope_len(message, attempt, available_at_ms, error);
    lemma_envelope_fields(message, attempt, available_at_ms, error);
    let whole = envelope(message, attempt, available_at_ms, error);
    let topic = utf8::encode_utf8(message.original_topic);
    let front = whole.take(48);
    assert(bytes.skip(36).take(2) =~= front.skip(36).take(2));
    assert(whole.skip(36).take(2) =~= front.skip(36).take(2));
    assert(bytes.skip(38).take(2) =~= front.skip(38).take(2));
    assert(whole.skip(38).take(2) =~= front.skip(38).take(2));
    assert(bytes.skip(40).take(4) =~= front.skip(40).take(4));
    assert(whole.skip(40).take(4) =~= front.skip(40).take(4));
    assert(bytes.skip(44).take(4) =~= front.skip(44).take(4));
    assert(whole.skip(44).take(4) =~= front.skip(44).take(4));
    endian::lemma_be_limits();
    endian::lemma_be_round_trip(topic.len(), 2);
    endian::lemma_be_round_trip(error.len(), 2);
    endian::lemma_be_round_trip(message.key.len(), 4);
    endian::lemma_be_round_trip(message.payload.len(), 4);
    reveal(parsed_envelope);
}

/// An envelope that was cut short is refused. Bytes of it that still show that it was an envelope
/// are not taken for a plain message.
pub proof fn cut_envelope_is_refused(
    message: Message,
    attempt: u32,
    available_at_ms: u64,
    error: Seq<u8>,
    len: int,
)
    requires
        envelope_fits(message, error),
        error.len() <= MAX_ERROR_BYTES,
        0 <= len < envelope(message, attempt, available_at_ms, error).len(),
    ensures
        parsed_envelope(envelope(message, attempt, available_at_ms, error).take(len)) is None,
        len >= 4 ==> is_envelope(envelope(message, attempt, available_at_ms, error).take(len)),
{
    let whole = envelope(message, attempt, available_at_ms, error);
    let cut = whole.take(len);
    envelope_round_trip(message, attempt, available_at_ms, error);
    if len >= 4 {
        assert(cut.take(4) =~= whole.take(4));
    }
    if len < 48 {
        reveal(parsed_envelope);
    } else {
        assert(cut.take(48) =~= whole.take(48));
        lemma_other_length(message, attempt, available_at_ms, error, cut);
    }
}

/// An envelope with bytes added at its end is refused.
pub proof fn extended_envelope_is_refused(
    message: Message,
    attempt: u32,
    available_at_ms: u64,
    error: Seq<u8>,
    extra: Seq<u8>,
)
    requires
        envelope_fits(message, error),
        error.len() <= MAX_ERROR_BYTES,
        extra.len() > 0,
    ensures
        parsed_envelope(envelope(message, attempt, available_at_ms, error) + extra) is None,
        is_envelope(envelope(message, attempt, available_at_ms, error) + extra),
{
    let whole = envelope(message, attempt, available_at_ms, error);
    let longer = whole + extra;
    envelope_round_trip(message, attempt, available_at_ms, error);
    lemma_envelope_len(message, attempt, available_at_ms, error);
    assert(longer.take(4) =~= whole.take(4));
    assert(longer.take(48) =~= whole.take(48));
    lemma_other_length(message, attempt, available_at_ms, error, longer);
}

/// A delay in seconds where that is exact, in milliseconds otherwise.
pub open spec fn delay_text(delay_ms: u64) -> Seq<char> {
    if delay_ms % 1_000 == 0 {
        text::decimal((delay_ms / 1_000) as nat) + "s"@
    } else {
        text::decimal(delay_ms as nat) + "ms"@
    }
}

pub fn format_delay(delay_ms: u64) -> (delay: String)
    ensures
        delay@ == delay_text(delay_ms),
{
    if delay_ms % 1_000 == 0 {
        let mut out = text::decimal_text(delay_ms / 1_000);
        out.append("s");
        out
    } else {
        let mut out = text::decimal_text(delay_ms);
        out.append("ms");
        out
    }
}

/// What the checksum in a producer id covers.
pub open spec fn producer_seed(
    group: Seq<char>,
    message: Message,
    attempt: u32,
    destination: Seq<char>,
) -> Seq<u8> {
    utf8::encode_utf8(group) + utf8::encode_utf8(message.original_topic) + endian::be_bytes(
        message.original_partition as nat,
        4,
    ) + endian::be_bytes(message.original_offset as nat, 8) + endian::be_bytes(attempt as nat, 4)
        + utf8::encode_utf8(destination)
}

/// The producer id under which a failed message is published, given the checksum of its seed.
pub open spec fn producer_id_text(checksum: u32, attempt: u32) -> Seq<char> {
    "retry-"@ + text::fixed_width(checksum as nat, 16, 8) + "-"@ + text::decimal(attempt as nat)
}

fn render_producer_id(checksum: u32, attempt: u32) -> (id: String)
    ensures
        id@ == producer_id_text(checksum, attempt),
{
    let mut out = "retry-".to_owned();
    text::push_fixed_width(&mut out, checksum as u64, 16, 8);
    out.append("-");
    text::push_decimal(&mut out, attempt as u64);
    out
}

/// The checksum in the producer id of a failed message.
fn producer_checksum(group: &str, context: &MessageContext, attempt: u32, destination: &str) -> (
    checksum: u32)
    ensures
        checksum == checksum::crc32(producer_seed(group@, context@, attempt, destination@)),
{
    let mut seed = vstd::slice::slice_to_vec(group.as_bytes());
    seed.extend_from_slice(context.original_topic.as_str().as_bytes());
    endian::push_u32(&mut seed, context.original_partition);
    endian::push_u64(&mut seed, context.original_offset);
    endian::push_u32(&mut seed, attempt);
    seed.extend_from_slice(destination.as_bytes());
    assert(seed@ =~= producer_seed(group@, context@, attempt, destination@));
    crc32fast::hash(seed.as_slice())
}

/// The producer id under which a failed message is published. It is the same whenever the same
/// message fails the same attempt, so that a repeated publication can be told.
pub fn retry_producer_id(
    group: &str,
    context: &MessageContext,
    attempt: u32,
    destination: &str,
) -> (id: String)
    ensures
        id@ == producer_id_text(
            checksum::crc32(producer_seed(group@, context@, attempt, destination@)),
            attempt,
        ),
{
    render_producer_id(producer_checksum(group, context, attempt, destination), attempt)
}

/// Where a failed message goes next: topic, attempt, and when it becomes available.
#[verifier::ext_equal]
pub struct Destination {
    pub topic: Seq<char>,
    pub attempt: u32,
    pub available_at_ms: u64,
}

/// The retry topic of the attempt's delay while there is one, then the dead letter topic; `None`
/// where no attempt is left to count.
pub open spec fn destination(message: Message, delays_ms: Seq<u64>, now_ms: u64) -> Option<
    Destination,
> {
    if message.attempt < delays_ms.len() {
        let delay = delays_ms[message.attempt as int];
        if message.attempt == u32::MAX {
            None
        } else {
            Some(
                Destination {
                    topic: message.original_topic + ".retry."@ + delay_text(delay),
                    attempt: (message.attempt + 1) as u32,
                    available_at_ms: if now_ms + delay > u64::MAX {
                        u64::MAX
                    } else {
                        (now_ms + delay) as u64
                    },
                },
            )
        }
    } else {
        Some(
            Destination {
                topic: message.original_topic + ".DLQ"@,
                attempt: message.attempt,
                available_at_ms: now_ms,
            },
        )
    }
}

/// What is published for a failed message.
#[derive(Debug)]
pub struct FailureRoute {
    pub topic: String,
    pub attempt: u32,
    pub available_at_ms: u64,
    pub producer_id: String,
    pub routing_key: Bytes,
    pub envelope: Bytes,
}

/// Whether a route publishes `message` with `error` to `destination`, under the producer id with
/// this checksum.
pub open spec fn is_route(
    route: FailureRoute,
    message: Message,
    error: Seq<char>,
    destination: Destination,
    checksum: u32,
) -> bool {
    let id = producer_id_text(checksum, destination.attempt);
    &&& route.topic@ == destination.topic
    &&& route.attempt == destination.attempt
    &&& route.available_at_ms == destination.available_at_ms
    &&& route.producer_id@ == id
    &&& buffer::content(route.routing_key) == if message.key.len() == 0 {
        utf8::encode_utf8(id)
    } else {
        message.key
    }
    &&& buffer::content(route.envelope) == envelope(
        message,
        destination.attempt,
        destination.available_at_ms,
        kept_error(utf8::encode_utf8(error)),
    )
}

/// Decides where a failed message goes.
fn plan_destination(context: &MessageContext, delays_ms: &Vec<u64>, now_ms: u64) -> (
    planned: Option<(String, u32, u64)>)
    ensures
        match destination(context@, delays_ms@, now_ms) {
            None => planned is None,
            Some(expected) => planned matches Some((topic, attempt, available_at_ms)) && topic@
                == expected.topic && attempt == expected.attempt && available_at_ms
                == expected.available_at_ms,
        },
{
    if (context.attempt as u64) < delays_ms.len() as u64 {
        let delay: u64 = delays_ms[context.attempt as usize];
        let attempt: u32 = match context.attempt.checked_add(1) {
            Some(attempt) => attempt,
            None => return None,
        };
        let mut topic = context.original_topic.clone();
        topic.append(".retry.");
        topic.append(format_delay(delay).as_str());
        Some((topic, attempt, now_ms.saturating_add(delay)))
    } else {
        let mut topic = context.original_topic.clone();
        topic.append(".DLQ");
        Some((topic, context.attempt, now_ms))
    }
}

/// Says what is published for a failed message, given the checksum of its producer seed.
pub fn route_with_checksum(
    context: &MessageContext,
    error: &str,
    retry_delays_ms: &Vec<u64>,
    now_ms: u64,
    checksum: u32,
) -> (route: Result<FailureRoute, RetryError>)
    ensures
        match destination(context@, retry_delays_ms@, now_ms) {
            None => route matches Err(refusal) && refusal == RetryError::AttemptOverflow,
            Some(expected) => if envelope_fits(
                context@,
                kept_error(utf8::encode_utf8(error@)),
            ) {
                route matches Ok(made) && is_route(made, context@, error@, expected, checksum)
            } else {
                route matches Err(refusal) && refusal == RetryError::RetryEnvelopeTooLarge
            },
        },
{
    let (topic, attempt, available_at_ms) = match plan_destination(
        context,
        retry_delays_ms,
        now_ms,
    ) {
        Some(planned) => planned,
        None => return Err(RetryError::AttemptOverflow),
    };
    let envelope = match encode_envelope(context, attempt, available_at_ms, error) {
        Ok(envelope) => envelope,
        Err(refusal) => return Err(refusal),
    };
    let producer_id = render_producer_id(checksum, attempt);
    let routing_key = if context.key.len() == 0 {
        Bytes::copy_from_slice(producer_id.as_str().as_bytes())
    } else {
        context.key.clone()
    };
    Ok(FailureRoute { topic, attempt, available_at_ms, producer_id, routing_key, envelope })
}

/// Says what is published for a failed message.
pub fn route_failure(
    group: &str,
    context: &MessageContext,
    error: &str,
    retry_delays_ms: &Vec<u64>,
    now_ms: u64,
) -> (route: Result<FailureRoute, RetryError>)
    ensures
        match destination(context@, retry_delays_ms@, now_ms) {
            None => route matches Err(refusal) && refusal == RetryError::AttemptOverflow,
            Some(expected) => if envelope_fits(
                context@,
                kept_error(utf8::encode_utf8(error@)),
            ) {
                route matches Ok(made) && is_route(
                    made,
                    context@,
                    error@,
                    expected,
                    checksum::crc32(
                        producer_seed(group@, context@, expected.attempt, expected.topic),
                    ),
                )
            } else {
                route matches Err(refusal) && refusal == RetryError::RetryEnvelopeTooLarge
            },
        },
{
    let (topic, attempt, _) = match plan_destination(context, retry_delays_ms, now_ms) {
        Some(planned) => planned,
        None => return Err(RetryError::AttemptOverflow),
    };
    let checksum: u32 = producer_checksum(group, context, attempt, topic.as_str());
    route_with_checksum(context, error, retry_delays_ms, now_ms, checksum)
}

/// How long a message has to wait that becomes available at some time.
pub open spec fn delay_left(available_at_ms: u64, now_ms: u64) -> u64 {
    if available_at_ms > now_ms {
        (available_at_ms - now_ms) as u64
    } else {
        0
    }
}

impl MessageContext {
    /// How long the message has to wait, in milliseconds.
    pub fn remaining_delay(&self, now_ms: u64) -> (delay: u64)
        ensures
            delay == delay_left(self.available_at_ms, now_ms),
    {
        self.available_at_ms.saturating_sub(now_ms)
    }
}

/// A message that fails over and over is retried once for each delay, with the delays in order,
/// and then goes to the dead letter topic; its origin, key and payload stay as they were.
pub proof fn retries_end_in_dead_letter_topic(message: Message, delays_ms: Seq<u64>, now_ms: u64)
    requires
        delays_ms.len() <= u32::MAX,
    ensures
        ({
            let next = destination(message, delays_ms, now_ms);
            &&& next is Some
            &&& message.attempt < delays_ms.len() ==> next->0.attempt == message.attempt + 1
                && next->0.topic == message.original_topic + ".retry."@ + delay_text(
                delays_ms[message.attempt as int],
            )
            &&& message.attempt >= delays_ms.len() ==> next->0.attempt == message.attempt
                && next->0.topic == message.original_topic + ".DLQ"@
            &&& next->0.available_at_ms >= now_ms
        }),
{
}

/// A failed message waits its delay: while a delay is left for the attempt, the message becomes
/// available exactly that delay after now, or at the latest time there is where that is later.
pub proof fn failed_message_waits_its_delay(message: Message, delays_ms: Seq<u64>, now_ms: u64)
    requires
        message.attempt < delays_ms.len(),
        message.attempt < u32::MAX,
    ensures
        destination(message, delays_ms, now_ms) matches Some(next) && {
            let delay = delays_ms[message.attempt as int];
            &&& next.available_at_ms >= now_ms
            &&& next.available_at_ms - now_ms <= delay
            &&& next.available_at_ms < u64::MAX ==> next.available_at_ms - now_ms == delay
            &&& next.available_at_ms == u64::MAX ==> now_ms + delay >= u64::MAX
            &&& next.attempt - message.attempt == 1
        },
{
}

/// A message without a delay left is not delayed: it goes to the dead letter topic at once, and
/// its attempts are not counted further. Only a message that was tried as often as can be counted
/// and still has a delay left has nowhere to go.
pub proof fn exhausted_message_is_dead(message: Message, delays_ms: Seq<u64>, now_ms: u64)
    ensures
        message.attempt >= delays_ms.len() ==> (destination(
            message,
            delays_ms,
            now_ms,
        ) matches Some(next) && next.available_at_ms == now_ms && next.attempt == message.attempt
            && next.topic == message.original_topic + ".DLQ"@),
        destination(message, delays_ms, now_ms) is None <==> message.attempt == u32::MAX
            && delays_ms.len() > u32::MAX,
{
}

/// A message that is consumed when its wait is over waits no longer, and one that is consumed
/// earlier waits exactly until then.
pub proof fn wait_ends_when_available(available_at_ms: u64, now_ms: u64)
    ensures
        delay_left(available_at_ms, now_ms) == 0 <==> now_ms >= available_at_ms,
        now_ms <= available_at_ms ==> now_ms + delay_left(available_at_ms, now_ms)
            == available_at_ms,
{
}

/// A failed message comes back as it was: the record that is published for it carries its origin,
/// its key and its payload, with one more attempt and its delay from now on, and goes to the topic
/// of that delay.
pub proof fn failed_message_comes_back(
    message: Message,
    error: Seq<char>,
    delays_ms: Seq<u64>,
    now_ms: u64,
    route: FailureRoute,
    checksum: u32,
    consumed_topic: Seq<char>,
    partition: u32,
    entry: Entry,
)
    requires
        message.attempt < delays_ms.len(),
        message.attempt < u32::MAX,
        now_ms + delays_ms[message.attempt as int] <= u64::MAX,
        is_route(
            route,
            message,
            error,
            destination(message, delays_ms, now_ms)->0,
            checksum,
        ),
        envelope_fits(message, kept_error(utf8::encode_utf8(error))),
        entry.value == buffer::content(route.envelope),
    ensures
        route.topic@ == message.original_topic + ".retry."@ + delay_text(
            delays_ms[message.attempt as int],
        ),
        message.key.len() > 0 ==> buffer::content(route.routing_key) == message.key,
        message_in(consumed_topic, partition, entry) == Some(
            Message {
                original_topic: message.original_topic,
                original_partition: message.original_partition,
                original_offset: message.original_offset,
                original_timestamp_ms: message.original_timestamp_ms,
                attempt: (message.attempt + 1) as u32,
                available_at_ms: (now_ms + delays_ms[message.attempt as int]) as u64,
                key: message.key,
                payload: message.payload,
            },
        ),
{
    let next = destination(message, delays_ms, now_ms)->0;
    let kept = kept_error(utf8::encode_utf8(error));
    envelope_round_trip(message, next.attempt, next.available_at_ms, kept);
}

/// A message that is not in an envelope is the record itself: it comes from where it was
/// consumed, was never tried, and is available at any time.
pub proof fn plain_record_is_message(topic: Seq<char>, partition: u32, entry: Entry)
    requires
        entry.value.len() < 4 || !(entry.value[0] == 0x53 && entry.value[1] == 0x56
            && entry.value[2] == 0x52 && entry.value[3] == 0x31),
    ensures
        message_in(topic, partition, entry) matches Some(message) && {
            &&& message.original_topic == topic
            &&& message.original_partition == partition
            &&& message.original_offset == entry.offset
            &&& message.original_timestamp_ms == entry.timestamp_ms
            &&& message.attempt == 0
            &&& message.available_at_ms == 0
            &&& message.key == entry.key_bytes()
            &&& message.payload == entry.value
        },
{
    if is_envelope(entry.value) {
        let front = entry.value.take(4);
        assert(front == magic());
        assert(front[0] == entry.value[0] && front[1] == entry.value[1] && front[2]
            == entry.value[2] && front[3] == entry.value[3]);
    }
}

/// Of an error as much is kept as fits, from its start.
pub proof fn error_keeps_its_start(error: Seq<u8>)
    ensures
        kept_error(error).len() <= 4096,
        kept_error(error).is_prefix_of(error),
        error.len() <= 4096 ==> kept_error(error) == error,
        error.len() > 4096 ==> kept_error(error).len() == 4096,
{
}

/// A delay is named in whole seconds where it has such, and in milliseconds where it has not.
pub proof fn delay_is_named_in_full(count: u64, rest: u64)
    requires
        rest < 1_000,
        count * 1_000 + rest <= u64::MAX,
    ensures
        rest == 0 ==> delay_text((count * 1_000) as u64) == text::decimal(count as nat) + "s"@,
        rest > 0 ==> delay_text((count * 1_000 + rest) as u64) == text::decimal(
            (count * 1_000 + rest) as nat,
        ) + "ms"@,
{
}

/// A number that fits into eight hexadecimal digits is told by them.
proof fn lemma_hex_tells_number(a: nat, b: nat, width: nat, limit: nat)
    requires
        a < limit,
        b < limit,
        limit <= vstd::arithmetic::power::pow(16, width),
    ensures
        text::fixed_width(a, 16, width).len() == width,
        text::fixed_width(a, 16, width) == text::fixed_width(b, 16, width) ==> a == b,
    decreases width,
{
    reveal(vstd::arithmetic::power::pow);
    if width > 0 {
        let fewer = vstd::arithmetic::power::pow(16, (width - 1) as nat);
        let left = text::fixed_width(a, 16, width);
        let right = text::fixed_width(b, 16, width);
        vstd::arithmetic::power::lemma_pow_positive(16, (width - 1) as nat);
        lemma_hex_tells_number(a / 16, b / 16, (width - 1) as nat, fewer as nat);
        if left == right {
            assert(left.last() == text::digit(a % 16));
            assert(right.last() == text::digit(b % 16));
            assert(left.drop_last() =~= text::fixed_width(a / 16, 16, (width - 1) as nat));
            assert(right.drop_last() =~= text::fixed_width(b / 16, 16, (width - 1) as nat));
        }
    }
}

/// A producer id tells the checksum and the attempt that it was made of: two attempts of one
/// message are never published under one id.
pub proof fn producer_ids_tell_attempts(
    checksum: u32,
    attempt: u32,
    other_checksum: u32,
    other_attempt: u32,
)
    requires
        producer_id_text(checksum, attempt) == producer_id_text(other_checksum, other_attempt),
    ensures
        checksum == other_checksum,
        attempt == other_attempt,
{
    reveal_strlit("retry-");
    reveal_strlit("-");
    let hex = text::fixed_width(checksum as nat, 16, 8);
    let other_hex = text::fixed_width(other_checksum as nat, 16, 8);
    assert(vstd::arithmetic::power::pow(16, 8) == 0x1_0000_0000) by {
        reveal_with_fuel(vstd::arithmetic::power::pow, 9);
    }
    lemma_hex_tells_number(checksum as nat, other_checksum as nat, 8, 0x1_0000_0000);
    lemma_hex_tells_number(other_checksum as nat, checksum as nat, 8, 0x1_0000_0000);
    let id = producer_id_text(checksum, attempt);
    let other = producer_id_text(other_checksum, other_attempt);
    assert(id.subrange(6, 14) =~= hex);
    assert(other.subrange(6, 14) =~= other_hex);
    assert(id.skip(15) =~= text::decimal(attempt as nat));
    assert(other.skip(15) =~= text::decimal(other_attempt as nat));
    text::lemma_decimal_injective(attempt as nat, other_attempt as nat);
}

/// What a producer id is made of tells the partition, the offset and the attempt of the message,
/// for one group, topic and destination.
pub proof fn seeds_tell_messages(
    group: Seq<char>,
    message: Message,
    attempt: u32,
    other: Message,
    other_attempt: u32,
    destination: Seq<char>,
)
    requires
        message.original_topic == other.original_topic,
        producer_seed(group, message, attempt, destination) == producer_seed(
            group,
            other,
            other_attempt,
            destination,
        ),
    ensures
        message.original_partition == other.original_partition,
        message.original_offset == other.original_offset,
        attempt == other_attempt,
{
    let front = utf8::encode_utf8(group) + utf8::encode_utf8(message.original_topic);
    let back = utf8::encode_utf8(destination);
    let seed = producer_seed(group, message, attempt, destination);
    let twin = producer_seed(group, other, other_attempt, destination);
    endian::lemma_be_limits();
    endian::lemma_be_bytes_len(message.original_partition as nat, 4);
    endian::lemma_be_bytes_len(message.original_offset as nat, 8);
    endian::lemma_be_bytes_len(attempt as nat, 4);
    endian::lemma_be_bytes_len(other.original_partition as nat, 4);
    endian::lemma_be_bytes_len(other.original_offset as nat, 8);
    endian::lemma_be_bytes_len(other_attempt as nat, 4);
    endian::lemma_be_round_trip(message.original_partition as nat, 4);
    endian::lemma_be_round_trip(message.original_offset as nat, 8);
    endian::lemma_be_round_trip(attempt as nat, 4);
    endian::lemma_be_round_trip(other.original_partition as nat, 4);
    endian::lemma_be_round_trip(other.original_offset as nat, 8);
    endian::lemma_be_round_trip(other_attempt as nat, 4);
    let at = front.len() as int;
    assert(seed.subrange(at, at + 4) =~= endian::be_bytes(message.original_partition as nat, 4));
    assert(twin.subrange(at, at + 4) =~= endian::be_bytes(other.original_partition as nat, 4));
    assert(seed.subrange(at + 4, at + 12) =~= endian::be_bytes(message.original_offset as nat, 8));
    assert(twin.subrange(at + 4, at + 12) =~= endian::be_bytes(other.original_offset as nat, 8));
    assert(seed.subrange(at + 12, at + 16) =~= endian::be_bytes(attempt as nat, 4));
    assert(twin.subrange(at + 12, at + 16) =~= endian::be_bytes(other_attempt as nat, 4));
}

} // verus!
