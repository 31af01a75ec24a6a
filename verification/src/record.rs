//! The record format of the logs: a length prefix, a checksum, and a body of fixed fields, key
//! and value. All numbers are big-endian.

use bytes::{Bytes, BytesMut};
use vstd::prelude::*;

use crate::buffer;
use crate::checksum;
use crate::endian;
use crate::text;

verus! {

pub const MAX_RECORD_SIZE: usize = 16 * 1024 * 1024;

pub const RECORD_VERSION: u8 = 1;

const LENGTH_SIZE: usize = 4;

const CRC_SIZE: usize = 4;

/// Version, offset, timestamp, key length and value length.
const BODY_FIXED_SIZE: usize = 1 + 8 + 8 + 4 + 4;

const MIN_RECORD_SIZE: usize = CRC_SIZE + BODY_FIXED_SIZE;

#[derive(Debug, Clone, Copy, PartialEq, Eq, Structural)]
pub enum StorageError {
    InvalidRecord,
    RecordTooLarge,
    ChecksumMismatch,
    UnsupportedVersion(u8),
    InvalidTopic,
    OffsetOverflow,
    UnexpectedOffset { expected: u64, actual: u64 },
    InvalidSegmentLimit,
    InvalidIndexInterval,
    MissingActiveSegment,
    InvalidSegmentName,
    InvalidPartitionName,
    UnexpectedSegmentBase { expected: u64, actual: u64 },
    IncompleteClosedSegment(u64),
    InvalidTimestamp,
    InvalidReadLimit,
    UnknownPartition(u32),
    UnknownTopic,
    TopicAlreadyExists,
    StaleEpoch { expected: u64, actual: u64 },
}

impl StorageError {
    /// What the error says.
    pub open spec fn text(self) -> Seq<char> {
        match self {
            StorageError::InvalidRecord => "record is malformed or truncated"@,
            StorageError::RecordTooLarge => "record exceeds the configured limit"@,
            StorageError::ChecksumMismatch => "record checksum does not match its contents"@,
            StorageError::UnsupportedVersion(version) => "record version "@ + text::decimal(
                version as nat,
            ) + " is not supported"@,
            StorageError::InvalidTopic => "topic name is invalid"@,
            StorageError::OffsetOverflow => "offset space is exhausted"@,
            StorageError::UnexpectedOffset { expected, actual } => "expected offset "@
                + text::decimal(expected as nat) + ", found "@ + text::decimal(actual as nat),
            StorageError::InvalidSegmentLimit => "segment size limit must be greater than zero"@,
            StorageError::InvalidIndexInterval => "index interval must be greater than zero"@,
            StorageError::MissingActiveSegment => "partition has no active segment"@,
            StorageError::InvalidSegmentName => "segment filename is invalid"@,
            StorageError::InvalidPartitionName => "partition directory name is invalid"@,
            StorageError::UnexpectedSegmentBase { expected, actual } =>
                "expected segment base offset "@ + text::decimal(expected as nat) + ", found "@
                + text::decimal(actual as nat),
            StorageError::IncompleteClosedSegment(base) => "closed segment at offset "@
                + text::decimal(base as nat) + " has an incomplete tail"@,
            StorageError::InvalidTimestamp => "record timestamp is outside the supported range"@,
            StorageError::InvalidReadLimit => "read limit must be greater than zero"@,
            StorageError::UnknownPartition(partition) => "partition "@ + text::decimal(
                partition as nat,
            ) + " does not exist"@,
            StorageError::UnknownTopic => "topic does not exist"@,
            StorageError::TopicAlreadyExists => "topic already exists"@,
            StorageError::StaleEpoch { expected, actual } => "leader epoch "@ + text::decimal(
                actual as nat,
            ) + " is older than "@ + text::decimal(expected as nat),
        }
    }

    /// The error in words.
    pub fn message(&self) -> (message: String)
        ensures
            message@ == self.text(),
    {
        match self {
            StorageError::InvalidRecord => "record is malformed or truncated".to_owned(),
            StorageError::RecordTooLarge => "record exceeds the configured limit".to_owned(),
            StorageError::ChecksumMismatch => {
                "record checksum does not match its contents".to_owned()
            },
            StorageError::UnsupportedVersion(version) => {
                let mut out = "record version ".to_owned();
                text::push_decimal(&mut out, *version as u64);
                out.append(" is not supported");
                out
            },
            StorageError::InvalidTopic => "topic name is invalid".to_owned(),
            StorageError::OffsetOverflow => "offset space is exhausted".to_owned(),
            StorageError::UnexpectedOffset { expected, actual } => {
                let mut out = "expected offset ".to_owned();
                text::push_decimal(&mut out, *expected);
                out.append(", found ");
                text::push_decimal(&mut out, *actual);
                out
            },
            StorageError::InvalidSegmentLimit => {
                "segment size limit must be greater than zero".to_owned()
            },
            StorageError::InvalidIndexInterval => {
                "index interval must be greater than zero".to_owned()
            },
            StorageError::MissingActiveSegment => "partition has no active segment".to_owned(),
            StorageError::InvalidSegmentName => "segment filename is invalid".to_owned(),
            StorageError::InvalidPartitionName => "partition directory name is invalid".to_owned(),
            StorageError::UnexpectedSegmentBase { expected, actual } => {
                let mut out = "expected segment base offset ".to_owned();
                text::push_decimal(&mut out, *expected);
                out.append(", found ");
                text::push_decimal(&mut out, *actual);
                out
            },
            StorageError::IncompleteClosedSegment(base) => {
                let mut out = "closed segment at offset ".to_owned();
                text::push_decimal(&mut out, *base);
                out.append(" has an incomplete tail");
                out
            },
            StorageError::InvalidTimestamp => {
                "record timestamp is outside the supported range".to_owned()
            },
            StorageError::InvalidReadLimit => "read limit must be greater than zero".to_owned(),
            StorageError::UnknownPartition(partition) => {
                let mut out = "partition ".to_owned();
                text::push_decimal(&mut out, *partition as u64);
                out.append(" does not exist");
                out
            },
            StorageError::UnknownTopic => "topic does not exist".to_owned(),
            StorageError::TopicAlreadyExists => "topic already exists".to_owned(),
            StorageError::StaleEpoch { expected, actual } => {
                let mut out = "leader epoch ".to_owned();
                text::push_decimal(&mut out, *actual);
                out.append(" is older than ");
                text::push_decimal(&mut out, *expected);
                out
            },
        }
    }
}

/// A record at its place in a log, as a value.
#[verifier::ext_equal]
pub struct Entry {
    pub offset: u64,
    pub timestamp_ms: u64,
    pub key: Option<Seq<u8>>,
    pub value: Seq<u8>,
}

impl Entry {
    /// The bytes of the key; an absent key has none.
    pub open spec fn key_bytes(self) -> Seq<u8> {
        match self.key {
            Some(key) => key,
            None => Seq::empty(),
        }
    }

    /// The key length field: the length of the key, or the pattern of minus one where the key
    /// is absent.
    pub open spec fn key_length_field(self) -> nat {
        match self.key {
            Some(key) => key.len(),
            None => 0xffff_ffff,
        }
    }

    /// The body that the checksum covers.
    pub open spec fn body(self) -> Seq<u8> {
        seq![RECORD_VERSION] + (endian::be_bytes(self.offset as nat, 8) + (endian::be_bytes(
            self.timestamp_ms as nat,
            8,
        ) + (endian::be_bytes(self.key_length_field(), 4) + (endian::be_bytes(
            self.value.len(),
            4,
        ) + (self.key_bytes() + self.value)))))
    }

    /// The length that the length prefix counts.
    pub open spec fn record_len(self) -> nat {
        29 + self.key_bytes().len() + self.value.len()
    }

    /// Whether the record is within the size limit.
    pub open spec fn fits(self) -> bool {
        self.record_len() <= MAX_RECORD_SIZE
    }

    /// The record as it stands in a log file.
    pub open spec fn encoded(self) -> Seq<u8> {
        endian::be_bytes(self.record_len(), 4) + (endian::be_bytes(
            checksum::crc32(self.body()) as nat,
            4,
        ) + self.body())
    }
}

/// What the front of a log's bytes holds.
pub enum FrontRecord {
    /// Not a whole record.
    Partial,
    /// A length prefix that no record may have.
    Refused(StorageError),
    /// A whole record behind its length prefix, and the bytes behind it.
    Whole { record: Seq<u8>, rest: Seq<u8> },
}

pub open spec fn front_record(bytes: Seq<u8>) -> FrontRecord {
    if bytes.len() < 4 {
        FrontRecord::Partial
    } else {
        let len = endian::be_value(bytes.take(4));
        if len < 29 {
            FrontRecord::Refused(StorageError::InvalidRecord)
        } else if len > MAX_RECORD_SIZE {
            FrontRecord::Refused(StorageError::RecordTooLarge)
        } else if bytes.len() < 4 + len {
            FrontRecord::Partial
        } else {
            FrontRecord::Whole {
                record: bytes.skip(4).take(len as int),
                rest: bytes.skip(4).skip(len as int),
            }
        }
    }
}

/// What a whole record of at least the minimal length holds, or the first fault in it.
pub open spec fn parse_record(record: Seq<u8>) -> Result<Entry, StorageError> {
    let body = record.skip(4);
    if checksum::crc32(body) != endian::be_value(record.take(4)) {
        Err(StorageError::ChecksumMismatch)
    } else if body[0] != RECORD_VERSION {
        Err(StorageError::UnsupportedVersion(body[0]))
    } else {
        let offset = endian::be_value(body.skip(1).take(8)) as u64;
        let timestamp_ms = endian::be_value(body.skip(9).take(8)) as u64;
        let key_field = endian::be_value(body.skip(17).take(4));
        let value_len = endian::be_value(body.skip(21).take(4));
        let tail = body.skip(25);
        if key_field == 0xffff_ffff {
            if tail.len() != value_len {
                Err(StorageError::InvalidRecord)
            } else {
                Ok(Entry { offset, timestamp_ms, key: None, value: tail })
            }
        } else if key_field > i32::MAX || tail.len() != key_field + value_len {
            Err(StorageError::InvalidRecord)
        } else {
            Ok(
                Entry {
                    offset,
                    timestamp_ms,
                    key: Some(tail.take(key_field as int)),
                    value: tail.skip(key_field as int),
                },
            )
        }
    }
}

/// The bytes of an optional key.
pub open spec fn key_content(key: Option<Bytes>) -> Option<Seq<u8>> {
    match key {
        Some(bytes) => Some(buffer::content(bytes)),
        None => None,
    }
}

/// A message on its way into a log.
#[derive(Debug, PartialEq, Eq)]
pub struct Record {
    key: Option<Bytes>,
    value: Bytes,
    timestamp_ms: u64,
}

impl Record {
    /// The entry that the record becomes at `offset`.
    pub closed spec fn at(self, offset: u64) -> Entry {
        Entry {
            offset,
            timestamp_ms: self.timestamp_ms,
            key: key_content(self.key),
            value: buffer::content(self.value),
        }
    }

    pub fn new(key: Option<Bytes>, value: Bytes, timestamp_ms: u64) -> (record: Self)
        ensures
            forall|offset: u64|
                #[trigger] record.at(offset) == (Entry {
                    offset,
                    timestamp_ms,
                    key: key_content(key),
                    value: buffer::content(value),
                }),
    {
        Record { key, value, timestamp_ms }
    }
}

/// A message read back from a log.
#[derive(Debug, PartialEq, Eq)]
pub struct StoredRecord {
    offset: u64,
    timestamp_ms: u64,
    key: Option<Bytes>,
    value: Bytes,
}

impl View for StoredRecord {
    type V = Entry;

    closed spec fn view(&self) -> Entry {
        Entry {
            offset: self.offset,
            timestamp_ms: self.timestamp_ms,
            key: key_content(self.key),
            value: buffer::content(self.value),
        }
    }
}

impl StoredRecord {
    pub fn offset(&self) -> (offset: u64)
        ensures
            offset == self@.offset,
    {
        self.offset
    }

    pub fn timestamp_ms(&self) -> (timestamp_ms: u64)
        ensures
            timestamp_ms == self@.timestamp_ms,
    {
        self.timestamp_ms
    }

    pub fn key(&self) -> (key: Option<&Bytes>)
        ensures
            key is Some <==> self@.key is Some,
            key matches Some(bytes) ==> self@.key == Some(buffer::content(*bytes)),
    {
        match &self.key {
            Some(bytes) => Some(bytes),
            None => None,
        }
    }

    pub fn value(&self) -> (value: &Bytes)
        ensures
            buffer::content(*value) == self@.value,
    {
        &self.value
    }
}

/// A message as a fetch hands it out.
#[derive(Debug, PartialEq, Eq)]
pub struct FetchedRecord {
    pub offset: u64,
    pub timestamp_ms: u64,
    pub key: Option<Bytes>,
    pub value: Bytes,
}

impl View for FetchedRecord {
    type V = Entry;

    open spec fn view(&self) -> Entry {
        Entry {
            offset: self.offset,
            timestamp_ms: self.timestamp_ms,
            key: key_content(self.key),
            value: buffer::content(self.value),
        }
    }
}

impl Clone for FetchedRecord {
    fn clone(&self) -> (copy: Self)
        ensures
            copy@ == self@,
    {
        FetchedRecord {
            offset: self.offset,
            timestamp_ms: self.timestamp_ms,
            key: clone_key(&self.key),
            value: self.value.clone(),
        }
    }
}

/// A copy of an optional byte string.
pub(crate) fn clone_key(key: &Option<Bytes>) -> (copy: Option<Bytes>)
    ensures
        key_content(copy) == key_content(*key),
{
    match key {
        Some(bytes) => Some(bytes.clone()),
        None => None,
    }
}

impl Clone for Record {
    fn clone(&self) -> (copy: Self)
        ensures
            forall|offset: u64| #[trigger] copy.at(offset) == self.at(offset),
    {
        Record {
            key: clone_key(&self.key),
            value: self.value.clone(),
            timestamp_ms: self.timestamp_ms,
        }
    }
}

impl Clone for StoredRecord {
    fn clone(&self) -> (copy: Self)
        ensures
            copy@ == self@,
    {
        StoredRecord {
            offset: self.offset,
            timestamp_ms: self.timestamp_ms,
            key: clone_key(&self.key),
            value: self.value.clone(),
        }
    }
}

pub proof fn lemma_encoded_len(entry: Entry)
    ensures
        entry.body().len() == 25 + entry.key_bytes().len() + entry.value.len(),
        entry.encoded().len() == 4 + entry.record_len(),
        entry.encoded().len() > 0,
{
    endian::lemma_be_bytes_len(entry.offset as nat, 8);
    endian::lemma_be_bytes_len(entry.timestamp_ms as nat, 8);
    endian::lemma_be_bytes_len(entry.key_length_field(), 4);
    endian::lemma_be_bytes_len(entry.value.len(), 4);
    endian::lemma_be_bytes_len(entry.record_len(), 4);
    endian::lemma_be_bytes_len(checksum::crc32(entry.body()) as nat, 4);
}

/// A record that parses is as long as the entry that it holds.
pub proof fn lemma_parsed_len(record: Seq<u8>)
    requires
        record.len() >= 29,
        parse_record(record) is Ok,
    ensures
        record.len() == parse_record(record)->Ok_0.record_len(),
{
}

/// The bytes of `record` at `offset`, where it is within the size limit.
pub(crate) fn encode_record(record: &Record, offset: u64) -> (encoded: Result<
    BytesMut,
    StorageError,
>)
    ensures
        if record.at(offset).fits() {
            encoded matches Ok(bytes) && buffer::buffered(bytes) == record.at(offset).encoded()
        } else {
            encoded matches Err(error) && error == StorageError::RecordTooLarge
        },
{
    let ghost entry = record.at(offset);
    let key_len: usize = match &record.key {
        Some(key) => key.len(),
        None => 0,
    };
    let value = buffer::as_slice(&record.value);
    let record_len: usize = (CRC_SIZE + BODY_FIXED_SIZE).saturating_add(key_len).saturating_add(
        value.len(),
    );
    if record_len > MAX_RECORD_SIZE {
        return Err(StorageError::RecordTooLarge);
    }
    proof {
        lemma_encoded_len(entry);
        endian::lemma_be_bytes_len(entry.offset as nat, 8);
        endian::lemma_be_bytes_len(entry.timestamp_ms as nat, 8);
        endian::lemma_be_bytes_len(entry.key_length_field(), 4);
        endian::lemma_be_bytes_len(entry.value.len(), 4);
        endian::lemma_be_bytes_len(entry.record_len(), 4);
        endian::lemma_be_bytes_len(checksum::crc32(entry.body()) as nat, 4);
    }
    let mut body = BytesMut::with_capacity(record_len - CRC_SIZE);
    buffer::put_u8(&mut body, RECORD_VERSION);
    buffer::put_u64(&mut body, offset);
    buffer::put_u64(&mut body, record.timestamp_ms);
    match &record.key {
        Some(key) => buffer::put_i32(&mut body, key.len() as i32),
        None => buffer::put_i32(&mut body, -1),
    }
    buffer::put_u32(&mut body, value.len() as u32);
    if let Some(key) = &record.key {
        body.extend_from_slice(buffer::as_slice(key));
    }
    body.extend_from_slice(value);
    assert(buffer::buffered(body) =~= entry.body());

    let mut encoded = BytesMut::with_capacity(LENGTH_SIZE + record_len);
    buffer::put_u32(&mut encoded, record_len as u32);
    buffer::put_u32(&mut encoded, crc32fast::hash(buffer::unread(&body)));
    encoded.extend_from_slice(buffer::unread(&body));
    assert(buffer::buffered(encoded) =~= entry.encoded());
    Ok(encoded)
}

/// Takes the next record off the front of `input`, where a whole one is there.
pub fn decode_record(input: &mut BytesMut) -> (decoded: Result<Option<StoredRecord>, StorageError>)
    ensures
        match front_record(buffer::buffered(*old(input))) {
            FrontRecord::Partial => {
                &&& decoded matches Ok(None)
                &&& buffer::buffered(*final(input)) == buffer::buffered(*old(input))
            },
            FrontRecord::Refused(error) => {
                &&& decoded matches Err(found) && found == error
                &&& buffer::buffered(*final(input)) == buffer::buffered(*old(input))
            },
            FrontRecord::Whole { record, rest } => {
                &&& buffer::buffered(*final(input)) == rest
                &&& match parse_record(record) {
                    Ok(entry) => decoded matches Ok(Some(stored)) && stored@ == entry,
                    Err(error) => decoded matches Err(found) && found == error,
                }
            },
        },
{
    if input.len() < LENGTH_SIZE {
        return Ok(None);
    }
    let record_len: usize = endian::read_u32(buffer::unread(input)) as usize;
    if record_len < MIN_RECORD_SIZE {
        return Err(StorageError::InvalidRecord);
    }
    if record_len > MAX_RECORD_SIZE {
        return Err(StorageError::RecordTooLarge);
    }
    if input.len() < LENGTH_SIZE + record_len {
        return Ok(None);
    }
    buffer::advance(input, LENGTH_SIZE);
    let mut encoded = input.split_to(record_len);
    let ghost record = buffer::buffered(encoded);
    let expected_crc: u32 = buffer::get_u32(&mut encoded);
    let ghost body = buffer::buffered(encoded);
    if crc32fast::hash(buffer::unread(&encoded)) != expected_crc {
        return Err(StorageError::ChecksumMismatch);
    }
    let version: u8 = buffer::get_u8(&mut encoded);
    if version != RECORD_VERSION {
        return Err(StorageError::UnsupportedVersion(version));
    }
    let offset: u64 = buffer::get_u64(&mut encoded);
    let timestamp_ms: u64 = buffer::get_u64(&mut encoded);
    let key_len: i32 = buffer::get_i32(&mut encoded);
    let value_len: usize = buffer::get_u32(&mut encoded) as usize;
    let ghost tail = body.skip(25);
    proof {
        assert(body.skip(1).skip(8) =~= body.skip(9));
        assert(body.skip(9).skip(8) =~= body.skip(17));
        assert(body.skip(17).skip(4) =~= body.skip(21));
        assert(body.skip(21).skip(4) =~= body.skip(25));
    }
    let key: Option<Bytes> = if key_len == -1 {
        None
    } else if key_len >= 0 {
        match read_bytes(&mut encoded, key_len as usize) {
            Ok(key) => Some(key),
            Err(error) => return Err(error),
        }
    } else {
        return Err(StorageError::InvalidRecord);
    };
    let ghost before_value = buffer::buffered(encoded);
    let value = match read_bytes(&mut encoded, value_len) {
        Ok(value) => value,
        Err(error) => return Err(error),
    };
    if !encoded.is_empty() {
        return Err(StorageError::InvalidRecord);
    }
    assert(before_value.take(value_len as int) =~= before_value);
    Ok(Some(StoredRecord { offset, timestamp_ms, key, value }))
}

fn read_bytes(input: &mut BytesMut, len: usize) -> (taken: Result<Bytes, StorageError>)
    ensures
        ({
            let bytes = buffer::buffered(*old(input));
            if bytes.len() < len {
                taken matches Err(error) && error == StorageError::InvalidRecord
            } else {
                &&& taken matches Ok(found) && buffer::content(found) == bytes.take(len as int)
                &&& buffer::buffered(*final(input)) == bytes.skip(len as int)
            }
        }),
{
    if input.len() < len {
        return Err(StorageError::InvalidRecord);
    }
    Ok(input.split_to(len).freeze())
}

/// A record within the size limit that was written is what is read back, and exactly its bytes
/// are taken, whatever follows them.
pub proof fn record_round_trip(entry: Entry, rest: Seq<u8>)
    requires
        entry.fits(),
    ensures
        front_record(entry.encoded() + rest) matches FrontRecord::Whole { record, rest: left } && {
            &&& left == rest
            &&& record.len() == entry.record_len()
            &&& parse_record(record) == Ok::<Entry, StorageError>(entry)
        },
{
    let body = entry.body();
    let crc = endian::be_bytes(checksum::crc32(body) as nat, 4);
    let record = crc + body;
    endian::lemma_be_limits();
    lemma_encoded_len(entry);
    endian::lemma_be_front(checksum::crc32(body) as nat, 4, body);
    assert(entry.encoded() + rest =~= endian::be_bytes(entry.record_len(), 4) + (record + rest));
    endian::lemma_be_front(entry.record_len(), 4, record + rest);
    endian::lemma_split(record, rest);

    let tail = entry.key_bytes() + entry.value;
    let value_len = endian::be_bytes(entry.value.len(), 4);
    let key_len = endian::be_bytes(entry.key_length_field(), 4);
    let timestamp = endian::be_bytes(entry.timestamp_ms as nat, 8);
    let offset = endian::be_bytes(entry.offset as nat, 8);
    endian::lemma_be_round_trip(entry.value.len(), 4);
    endian::lemma_be_round_trip(entry.key_length_field(), 4);
    endian::lemma_be_round_trip(entry.timestamp_ms as nat, 8);
    endian::lemma_be_round_trip(entry.offset as nat, 8);
    assert(body.skip(1).take(8) =~= offset);
    assert(body.skip(9).take(8) =~= timestamp);
    assert(body.skip(17).take(4) =~= key_len);
    assert(body.skip(21).take(4) =~= value_len);
    assert(body.skip(25) =~= tail);
    endian::lemma_split(entry.key_bytes(), entry.value);
    assert(tail.len() == entry.key_bytes().len() + entry.value.len());
    if entry.key is None {
        assert(tail =~= entry.value);
    }
}

/// While bytes of a record are missing, nothing is read and nothing is taken.
pub proof fn partial_record_waits(entry: Entry, received: int)
    requires
        entry.fits(),
        0 <= received < entry.encoded().len(),
    ensures
        front_record(entry.encoded().take(received)) is Partial,
{
    endian::lemma_be_limits();
    lemma_encoded_len(entry);
    let record = endian::be_bytes(checksum::crc32(entry.body()) as nat, 4) + entry.body();
    endian::lemma_be_front(entry.record_len(), 4, record);
    if received >= 4 {
        assert(entry.encoded().take(received).take(4) =~= entry.encoded().take(4));
    }
}

/// A whole record whose checksum field differs from the checksum of its body is refused.
pub proof fn corruption_is_detected(record: Seq<u8>)
    requires
        record.len() >= 29,
        endian::be_value(record.take(4)) != checksum::crc32(record.skip(4)),
    ensures
        parse_record(record) == Err::<Entry, StorageError>(StorageError::ChecksumMismatch),
{
}

/// A record stands in a log file as its length, its checksum, and then its version, offset, time,
/// key length, value length, key and value; numbers have their highest byte first, and a record
/// without a key has the key length minus one.
pub proof fn record_layout(entry: Entry)
    requires
        entry.fits(),
    ensures
        ({
            let bytes = entry.encoded();
            let key = match entry.key {
                Some(key) => key,
                None => Seq::empty(),
            };
            &&& bytes.len() == 33 + key.len() + entry.value.len()
            &&& endian::be_value(bytes.subrange(0, 4)) == bytes.len() - 4
            &&& endian::be_value(bytes.subrange(4, 8)) == checksum::crc32(bytes.skip(8))
            &&& bytes[8] == 1
            &&& endian::be_value(bytes.subrange(9, 17)) == entry.offset
            &&& endian::be_value(bytes.subrange(17, 25)) == entry.timestamp_ms
            &&& endian::be_value(bytes.subrange(25, 29)) == if entry.key is None {
                0xffff_ffff
            } else {
                key.len()
            }
            &&& endian::be_value(bytes.subrange(29, 33)) == entry.value.len()
            &&& bytes.subrange(33, (33 + key.len()) as int) == key
            &&& bytes.skip((33 + key.len()) as int) == entry.value
        }),
{
    let body = entry.body();
    let bytes = entry.encoded();
    let key = entry.key_bytes();
    endian::lemma_be_limits();
    lemma_encoded_len(entry);
    endian::lemma_be_bytes_len(entry.record_len(), 4);
    endian::lemma_be_bytes_len(checksum::crc32(body) as nat, 4);
    endian::lemma_be_bytes_len(entry.offset as nat, 8);
    endian::lemma_be_bytes_len(entry.timestamp_ms as nat, 8);
    endian::lemma_be_bytes_len(entry.key_length_field(), 4);
    endian::lemma_be_bytes_len(entry.value.len(), 4);
    endian::lemma_be_round_trip(entry.record_len(), 4);
    endian::lemma_be_round_trip(checksum::crc32(body) as nat, 4);
    endian::lemma_be_round_trip(entry.offset as nat, 8);
    endian::lemma_be_round_trip(entry.timestamp_ms as nat, 8);
    endian::lemma_be_round_trip(entry.key_length_field(), 4);
    endian::lemma_be_round_trip(entry.value.len(), 4);
    assert(bytes.subrange(0, 4) =~= endian::be_bytes(entry.record_len(), 4));
    assert(bytes.subrange(4, 8) =~= endian::be_bytes(checksum::crc32(body) as nat, 4));
    assert(bytes.skip(8) =~= body);
    assert(bytes.subrange(9, 17) =~= endian::be_bytes(entry.offset as nat, 8));
    assert(bytes.subrange(17, 25) =~= endian::be_bytes(entry.timestamp_ms as nat, 8));
    assert(bytes.subrange(25, 29) =~= endian::be_bytes(entry.key_length_field(), 4));
    assert(bytes.subrange(29, 33) =~= endian::be_bytes(entry.value.len(), 4));
    assert(bytes.subrange(33, (33 + key.len()) as int) =~= key);
    assert(bytes.skip((33 + key.len()) as int) =~= entry.value);
}

/// Only what was written is read: bytes that are read as a record are the checksum and the body of
/// that very record.
pub proof fn only_records_are_read(record: Seq<u8>)
    requires
        29 <= record.len() <= MAX_RECORD_SIZE,
        parse_record(record) is Ok,
    ensures
        ({
            let entry = parse_record(record)->Ok_0;
            &&& record == endian::be_bytes(checksum::crc32(entry.body()) as nat, 4) + entry.body()
            &&& entry.record_len() == record.len()
            &&& entry.fits()
        }),
{
    let entry = parse_record(record)->Ok_0;
    let body = record.skip(4);
    endian::lemma_be_limits();
    endian::lemma_be_value_inverse(record.take(4));
    endian::lemma_be_value_inverse(body.skip(1).take(8));
    endian::lemma_be_value_inverse(body.skip(9).take(8));
    endian::lemma_be_value_inverse(body.skip(17).take(4));
    endian::lemma_be_value_inverse(body.skip(21).take(4));
    let tail = body.skip(25);
    assert(entry.key_bytes() + entry.value =~= tail);
    assert(body =~= seq![body[0]] + (body.skip(1).take(8) + (body.skip(9).take(8) + (body.skip(
        17,
    ).take(4) + (body.skip(21).take(4) + tail)))));
    assert(entry.body() =~= body);
    assert(record =~= record.take(4) + body);
}

/// A record is within the limit where its body and its checksum have at most sixteen megabytes.
pub proof fn size_limit_counts_all_bytes(entry: Entry)
    ensures
        entry.fits() <==> 4 + 25 + entry.key_bytes().len() + entry.value.len() <= 16_777_216,
{
}

} // verus!
