//! The command line client: what its commands ask of a broker, and what it prints.

use bytes::Bytes;
use vstd::prelude::*;
use vstd::utf8;

use crate::broker;
use crate::buffer;
use crate::client;
use crate::client::ClientError;
use crate::cluster::{ClusterMetadata, ClusterNode, TopicMetadata};
use crate::groups::JoinGroupResponse;
use crate::leadership::PartitionLeadership;
use crate::messages::{AckMode, BatchRecord, BrokerRequest, BrokerResponse, ProducerIdentity};
use crate::protocol::ProduceAck;
use crate::record;
use crate::record::FetchedRecord;
use crate::retry::RetryError;
use crate::text;

verus! {

/// What the user asks for.
#[derive(Debug)]
pub enum Command {
    /// Publishes one message and prints its partition and offset.
    Produce {
        topic: String,
        message: String,
        key: Option<String>,
        acks: ProduceAcks,
        producer_id: Option<String>,
        sequence: Option<u64>,
    },
    /// Publishes multiple messages in one request.
    ProduceBatch {
        topic: String,
        message: Vec<String>,
        key: Option<String>,
        acks: ProduceAcks,
        compression: BatchCompression,
    },
    /// Reads persisted records starting at an offset.
    Fetch { topic: String, partition: u32, offset: u64, max_bytes: u32, wait_ms: u32 },
    /// Manages consumer-group membership and committed offsets.
    Group { command: GroupCommand },
    /// Creates and inspects topic metadata.
    Topic { command: TopicCommand },
    /// Inspects static cluster membership.
    Cluster { command: ClusterCommand },
    /// Runs a coordinated consumer with automatic heartbeat and commits.
    Consume {
        topic: String,
        group: String,
        member: String,
        delivery: DeliveryMode,
        wait_ms: u32,
        heartbeat_ms: u64,
        max_bytes: u32,
        handler: Option<String>,
        handler_timeout_ms: u64,
        retry_delays_ms: Vec<u64>,
    },
}

#[derive(Debug, Clone, Copy, PartialEq, Eq, Structural)]
pub enum ProduceAcks {
    Leader,
    Durable,
}

#[derive(Debug, Clone, Copy, PartialEq, Eq, Structural)]
pub enum BatchCompression {
    Uncompressed,
    Zstd,
}

#[derive(Debug, Clone, Copy, PartialEq, Eq, Structural)]
pub enum DeliveryMode {
    AtMostOnce,
    AtLeastOnce,
}

#[derive(Debug)]
pub enum GroupCommand {
    Join { group: String, topic: String, member: String },
    Heartbeat { group: String, topic: String, member: String, generation: u64 },
    Leave { group: String, topic: String, member: String, generation: u64 },
    Commit {
        group: String,
        topic: String,
        member: String,
        generation: u64,
        partition: u32,
        offset: u64,
    },
    Offset { group: String, topic: String, partition: u32 },
    Fetch {
        group: String,
        topic: String,
        member: String,
        generation: u64,
        partition: u32,
        offset: u64,
        max_bytes: u32,
        wait_ms: u32,
    },
}

#[derive(Debug)]
pub enum TopicCommand {
    Create { topic: String, partitions: u32 },
    List,
    Describe { topic: String },
}

#[derive(Debug)]
pub enum ClusterCommand {
    Status,
    /// Promotes an in-sync replica through the static controller.
    Promote { topic: String, partition: u32, broker_id: u32 },
}

impl ClusterCommand {
    /// What a command on the cluster asks of a broker.
    pub fn request(&self) -> (request: BrokerRequest)
        ensures
            match self {
                ClusterCommand::Status => request is ClusterMetadata,
                ClusterCommand::Promote { topic, partition, broker_id } => {
                    &&& request matches BrokerRequest::PromoteLeader {
                        topic: of,
                        partition: number,
                        leader_id,
                    }
                    &&& of@ == topic@
                    &&& number == partition
                    &&& leader_id == broker_id
                },
            },
    {
        match self {
            ClusterCommand::Status => BrokerRequest::ClusterMetadata,
            ClusterCommand::Promote { topic, partition, broker_id } => {
                BrokerRequest::PromoteLeader {
                    topic: topic.clone(),
                    partition: *partition,
                    leader_id: *broker_id,
                }
            },
        }
    }
}

#[derive(Debug)]
pub enum CliError {
    Client(ClientError),
    OffsetOverflow,
    AttemptOverflow,
    RetryEnvelopeTooLarge,
    InvalidRetryEnvelope,
    InvalidSystemTime,
    MissingHandlerStdin,
    Io(String),
}

impl CliError {
    /// What the error says.
    pub open spec fn text(self) -> Seq<char> {
        match self {
            CliError::Client(error) => error.text(),
            CliError::OffsetOverflow => "record offset space is exhausted"@,
            CliError::AttemptOverflow => "retry attempt space is exhausted"@,
            CliError::RetryEnvelopeTooLarge => "retry envelope exceeds the message size limit"@,
            CliError::InvalidRetryEnvelope => "retry envelope is malformed"@,
            CliError::InvalidSystemTime => "system time is outside the supported range"@,
            CliError::MissingHandlerStdin => "handler process did not expose stdin"@,
            CliError::Io(cause) => "handler I/O failed: "@ + cause@,
        }
    }

    /// The error in words.
    pub fn message(&self) -> (message: String)
        ensures
            message@ == self.text(),
    {
        match self {
            CliError::Client(error) => error.message(),
            CliError::OffsetOverflow => "record offset space is exhausted".to_owned(),
            CliError::AttemptOverflow => "retry attempt space is exhausted".to_owned(),
            CliError::RetryEnvelopeTooLarge => {
                "retry envelope exceeds the message size limit".to_owned()
            },
            CliError::InvalidRetryEnvelope => "retry envelope is malformed".to_owned(),
            CliError::InvalidSystemTime => "system time is outside the supported range".to_owned(),
            CliError::MissingHandlerStdin => "handler process did not expose stdin".to_owned(),
            CliError::Io(cause) => text::joined("handler I/O failed: ", cause.as_str()),
        }
    }

    /// The error of a failed retry.
    pub fn from_retry(error: RetryError) -> (converted: CliError)
        ensures
            converted.text() == error.text(),
            match error {
                RetryError::AttemptOverflow => converted is AttemptOverflow,
                RetryError::RetryEnvelopeTooLarge => converted is RetryEnvelopeTooLarge,
                RetryError::InvalidRetryEnvelope => converted is InvalidRetryEnvelope,
            },
    {
        match error {
            RetryError::AttemptOverflow => CliError::AttemptOverflow,
            RetryError::RetryEnvelopeTooLarge => CliError::RetryEnvelopeTooLarge,
            RetryError::InvalidRetryEnvelope => CliError::InvalidRetryEnvelope,
        }
    }
}

/// The time in milliseconds since the epoch. `None` stands for a clock that is before the epoch.
pub fn now_ms(clock_ms: Option<u128>) -> (now: Result<u64, CliError>)
    ensures
        match broker::timestamp_of(clock_ms) {
            Some(millis) => now matches Ok(found) && found == millis,
            None => now matches Err(error) && error is InvalidSystemTime,
        },
{
    match clock_ms {
        Some(millis) => if millis <= u64::MAX as u128 {
            Ok(millis as u64)
        } else {
            Err(CliError::InvalidSystemTime)
        },
        None => Err(CliError::InvalidSystemTime),
    }
}

pub open spec fn mode_of(acks: ProduceAcks) -> AckMode {
    match acks {
        ProduceAcks::Leader => AckMode::Leader,
        ProduceAcks::Durable => AckMode::Durable,
    }
}

/// When a message counts as accepted.
pub fn ack_mode(acks: ProduceAcks) -> (mode: AckMode)
    ensures
        mode == mode_of(acks),
{
    match acks {
        ProduceAcks::Leader => AckMode::Leader,
        ProduceAcks::Durable => AckMode::Durable,
    }
}

/// The bytes of an optional key; an absent one has none.
pub open spec fn given_key(key: Option<String>) -> Seq<u8> {
    match key {
        Some(text) => utf8::encode_utf8(text@),
        None => Seq::empty(),
    }
}

fn key_bytes(key: &Option<String>) -> (bytes: Bytes)
    ensures
        buffer::content(bytes) == given_key(*key),
{
    match key {
        Some(text) => Bytes::copy_from_slice(text.as_str().as_bytes()),
        None => {
            let none: Vec<u8> = Vec::new();
            assert(none@ =~= Seq::<u8>::empty());
            Bytes::copy_from_slice(none.as_slice())
        },
    }
}

/// The messages of a batch: all have the same key.
pub open spec fn is_batch(records: Seq<BatchRecord>, messages: Seq<String>, key: Seq<u8>) -> bool {
    &&& records.len() == messages.len()
    &&& forall|i: int|
        0 <= i < records.len() ==> buffer::content((#[trigger] records[i]).key) == key
            && buffer::content(records[i].payload) == utf8::encode_utf8(messages[i]@)
}

/// Whether `request` is what a command on messages asks of a broker.
pub open spec fn is_message_request(command: Command, request: Option<BrokerRequest>) -> bool {
    match command {
        Command::Produce { topic, message, key, acks, producer_id, sequence } => {
            &&& request matches Some(
                BrokerRequest::Produce {
                    topic: to,
                    partition,
                    key: with_key,
                    payload,
                    ack_mode,
                    producer,
                },
            )
            &&& to@ == topic@
            &&& partition is None
            &&& buffer::content(with_key) == given_key(key)
            &&& buffer::content(payload) == utf8::encode_utf8(message@)
            &&& ack_mode == mode_of(acks)
            &&& match (producer_id, sequence) {
                (Some(id), Some(number)) => producer matches Some(identity) && identity.id@ == id@
                    && identity.sequence == number,
                _ => producer is None,
            }
        },
        Command::ProduceBatch { topic, message, key, acks, compression } => {
            &&& request matches Some(
                BrokerRequest::ProduceBatch {
                    topic: to,
                    partition,
                    records,
                    ack_mode,
                    compression: asked,
                },
            )
            &&& asked == compression
            &&& to@ == topic@
            &&& partition is None
            &&& is_batch(records@, message@, given_key(key))
            &&& ack_mode == mode_of(acks)
        },
        Command::Fetch { topic, partition, offset, max_bytes, wait_ms } => {
            &&& request matches Some(
                BrokerRequest::Fetch {
                    topic: from,
                    partition: wanted,
                    offset: first,
                    max_bytes: limit,
                    max_wait_ms,
                },
            )
            &&& from@ == topic@
            &&& wanted == partition
            &&& first == offset
            &&& limit == max_bytes
            &&& max_wait_ms == wait_ms
        },
        _ => request is None,
    }
}

impl Command {
    /// What a command on messages asks of a broker.
    pub fn message_request(&self) -> (request: Option<BrokerRequest>)
        ensures
            is_message_request(*self, request),
    {
        match self {
            Command::Produce { topic, message, key, acks, producer_id, sequence } => {
                let producer: Option<ProducerIdentity> = match producer_id {
                    Some(id) => match sequence {
                        Some(number) => Some(
                            ProducerIdentity { id: id.clone(), sequence: *number },
                        ),
                        None => None,
                    },
                    None => None,
                };
                Some(
                    BrokerRequest::Produce {
                        topic: topic.clone(),
                        partition: None,
                        key: key_bytes(key),
                        payload: Bytes::copy_from_slice(message.as_str().as_bytes()),
                        ack_mode: ack_mode(*acks),
                        producer,
                    },
                )
            },
            Command::ProduceBatch { topic, message, key, acks, compression } => {
                let mut records: Vec<BatchRecord> = Vec::new();
                for i in 0..message.len()
                    invariant
                        is_batch(records@, message@.take(i as int), given_key(*key)),
                {
                    let ghost before = records@;
                    records.push(
                        BatchRecord {
                            key: key_bytes(key),
                            payload: Bytes::copy_from_slice(message[i].as_str().as_bytes()),
                        },
                    );
                    proof {
                        assert forall|j: int| 0 <= j < records@.len() implies buffer::content(
                            (#[trigger] records@[j]).key,
                        ) == given_key(*key) && buffer::content(records@[j].payload)
                            == utf8::encode_utf8(message@.take(i + 1)[j]@) by {
                            if j < i {
                                assert(records@[j] == before[j]);
                                assert(message@.take(i as int)[j] == message@[j]);
                            }
                        }
                    }
                }
                assert(message@.take(message@.len() as int) =~= message@);
                Some(
                    BrokerRequest::ProduceBatch {
                        topic: topic.clone(),
                        partition: None,
                        records,
                        ack_mode: ack_mode(*acks),
                        compression: *compression,
                    },
                )
            },
            Command::Fetch { topic, partition, offset, max_bytes, wait_ms } => Some(
                BrokerRequest::Fetch {
                    topic: topic.clone(),
                    partition: *partition,
                    offset: *offset,
                    max_bytes: *max_bytes,
                    max_wait_ms: *wait_ms,
                },
            ),
            _ => None,
        }
    }
}

/// Whether `request` is what a command on groups asks of a broker.
pub open spec fn is_group_request(command: GroupCommand, request: BrokerRequest) -> bool {
    match command {
        GroupCommand::Join { group, topic, member } => {
            &&& request matches BrokerRequest::JoinGroup { group: g, topic: t, member: m }
            &&& (g@, t@, m@) == (group@, topic@, member@)
        },
        GroupCommand::Heartbeat { group, topic, member, generation } => {
            &&& request matches BrokerRequest::Heartbeat {
                group: g,
                topic: t,
                member: m,
                generation: n,
            }
            &&& (g@, t@, m@, n) == (group@, topic@, member@, generation)
        },
        GroupCommand::Leave { group, topic, member, generation } => {
            &&& request matches BrokerRequest::LeaveGroup {
                group: g,
                topic: t,
                member: m,
                generation: n,
            }
            &&& (g@, t@, m@, n) == (group@, topic@, member@, generation)
        },
        GroupCommand::Commit { group, topic, member, generation, partition, offset } => {
            &&& request matches BrokerRequest::CommitOffset {
                group: g,
                topic: t,
                member: m,
                generation: n,
                partition: p,
                offset: o,
            }
            &&& (g@, t@, m@, n) == (group@, topic@, member@, generation)
            &&& (p, o) == (partition, offset)
        },
        GroupCommand::Offset { group, topic, partition } => {
            &&& request matches BrokerRequest::FetchCommittedOffset {
                group: g,
                topic: t,
                partition: p,
            }
            &&& (g@, t@, p) == (group@, topic@, partition)
        },
        GroupCommand::Fetch {
            group,
            topic,
            member,
            generation,
            partition,
            offset,
            max_bytes,
            wait_ms,
        } => {
            &&& request matches BrokerRequest::GroupFetch {
                group: g,
                topic: t,
                member: m,
                generation: n,
                partition: p,
                offset: o,
                max_bytes: b,
                max_wait_ms: w,
            }
            &&& (g@, t@, m@, n) == (group@, topic@, member@, generation)
            &&& (p, o, b, w) == (partition, offset, max_bytes, wait_ms)
        },
    }
}

impl GroupCommand {
    /// What the command asks of a broker.
    pub fn request(&self) -> (request: BrokerRequest)
        ensures
            is_group_request(*self, request),
    {
        match self {
            GroupCommand::Join { group, topic, member } => BrokerRequest::JoinGroup {
                group: group.clone(),
                topic: topic.clone(),
                member: member.clone(),
            },
            GroupCommand::Heartbeat { group, topic, member, generation } => {
                BrokerRequest::Heartbeat {
                    group: group.clone(),
                    topic: topic.clone(),
                    member: member.clone(),
                    generation: *generation,
                }
            },
            GroupCommand::Leave { group, topic, member, generation } => {
                BrokerRequest::LeaveGroup {
                    group: group.clone(),
                    topic: topic.clone(),
                    member: member.clone(),
                    generation: *generation,
                }
            },
            GroupCommand::Commit { group, topic, member, generation, partition, offset } => {
                BrokerRequest::CommitOffset {
                    group: group.clone(),
                    topic: topic.clone(),
                    member: member.clone(),
                    generation: *generation,
                    partition: *partition,
                    offset: *offset,
                }
            },
            GroupCommand::Offset { group, topic, partition } => {
                BrokerRequest::FetchCommittedOffset {
                    group: group.clone(),
                    topic: topic.clone(),
                    partition: *partition,
                }
            },
            GroupCommand::Fetch {
                group,
                topic,
                member,
                generation,
                partition,
                offset,
                max_bytes,
                wait_ms,
            } => BrokerRequest::GroupFetch {
                group: group.clone(),
                topic: topic.clone(),
                member: member.clone(),
                generation: *generation,
                partition: *partition,
                offset: *offset,
                max_bytes: *max_bytes,
                max_wait_ms: *wait_ms,
            },
        }
    }
}

impl TopicCommand {
    /// What the command asks of a broker.
    pub fn request(&self) -> (request: BrokerRequest)
        ensures
            match *self {
                TopicCommand::Create { topic, partitions } => {
                    &&& request matches BrokerRequest::CreateTopic { topic: t, partitions: n }
                    &&& t@ == topic@
                    &&& n == partitions
                },
                TopicCommand::List => request is ListTopics,
                TopicCommand::Describe { topic } => request matches BrokerRequest::DescribeTopic {
                    topic: t,
                } && t@ == topic@,
            },
    {
        match self {
            TopicCommand::Create { topic, partitions } => {
                BrokerRequest::CreateTopic { topic: topic.clone(), partitions: *partitions }
            },
            TopicCommand::List => BrokerRequest::ListTopics,
            TopicCommand::Describe { topic } => {
                BrokerRequest::DescribeTopic { topic: topic.clone() }
            },
        }
    }
}

/// What is printed of a published message.
pub open spec fn ack_line(ack: ProduceAck) -> Seq<char> {
    "partition="@ + text::decimal(ack.partition as nat) + " offset="@ + text::decimal(
        ack.offset as nat,
    )
}

/// What is printed of a published message.
pub fn produced_line(ack: &ProduceAck) -> (line: String)
    ensures
        line@ == ack_line(*ack),
{
    let mut out = "partition=".to_owned();
    text::push_decimal(&mut out, ack.partition as u64);
    out.append(" offset=");
    text::push_decimal(&mut out, ack.offset);
    out
}

/// What is printed of a record, given its key and value as text.
pub open spec fn record_text(
    offset: u64,
    timestamp_ms: u64,
    key: Seq<char>,
    value: Seq<char>,
) -> Seq<char> {
    "offset="@ + text::decimal(offset as nat) + " timestamp_ms="@ + text::decimal(
        timestamp_ms as nat,
    ) + " key="@ + key + " value="@ + value
}

/// What is printed of a record, given its key and value as text.
pub fn render_record(offset: u64, timestamp_ms: u64, key: &str, value: &str) -> (line: String)
    ensures
        line@ == record_text(offset, timestamp_ms, key@, value@),
{
    let mut out = "offset=".to_owned();
    text::push_decimal(&mut out, offset);
    out.append(" timestamp_ms=");
    text::push_decimal(&mut out, timestamp_ms);
    out.append(" key=");
    out.append(key);
    out.append(" value=");
    out.append(value);
    out
}

/// A key as text; a dash stands for none.
pub open spec fn shown_key(key: Option<Seq<u8>>) -> Seq<char> {
    match key {
        Some(bytes) => text::lossy(bytes),
        None => "-"@,
    }
}

/// What is printed of a record.
pub open spec fn record_line_text(entry: record::Entry) -> Seq<char> {
    record_text(entry.offset, entry.timestamp_ms, shown_key(entry.key), text::lossy(entry.value))
}

/// What is printed of a record. Bytes that are no text are replaced.
pub fn record_line(found: &FetchedRecord) -> (line: String)
    ensures
        line@ == record_line_text(found@),
{
    let key: String = match &found.key {
        Some(bytes) => text::from_utf8_lossy(buffer::as_slice(bytes)),
        None => "-".to_owned(),
    };
    let value = text::from_utf8_lossy(buffer::as_slice(&found.value));
    render_record(found.offset, found.timestamp_ms, key.as_str(), value.as_str())
}

/// What is printed of a record of a partition.
pub fn partition_record_line(partition: u32, found: &FetchedRecord) -> (line: String)
    ensures
        line@ == "partition="@ + text::decimal(partition as nat) + " "@ + record_line_text(found@),
{
    let mut out = "partition=".to_owned();
    text::push_decimal(&mut out, partition as u64);
    out.append(" ");
    out.append(record_line(found).as_str());
    out
}

/// Numbers in decimal with a separator between them.
pub open spec fn listed(numbers: Seq<u32>, separator: Seq<char>) -> Seq<char>
    decreases numbers.len(),
{
    if numbers.len() == 0 {
        Seq::empty()
    } else if numbers.len() == 1 {
        text::decimal(numbers[0] as nat)
    } else {
        listed(numbers.drop_last(), separator) + separator + text::decimal(numbers.last() as nat)
    }
}

fn list_numbers(numbers: &[u32], separator: &str) -> (list: String)
    ensures
        list@ == listed(numbers@, separator@),
{
    let mut out = String::new();
    assert(out@ =~= listed(numbers@.take(0), separator@));
    for i in 0..numbers.len()
        invariant
            out@ == listed(numbers@.take(i as int), separator@),
    {
        proof {
            assert(numbers@.take(i + 1).drop_last() =~= numbers@.take(i as int));
            assert(numbers@.take(i + 1).last() == numbers@[i as int]);
        }
        if i > 0 {
            out.append(separator);
            text::push_decimal(&mut out, numbers[i] as u64);
        } else {
            out = text::decimal_text(numbers[i] as u64);
        }
    }
    assert(numbers@.take(numbers@.len() as int) =~= numbers@);
    out
}

/// What is printed of a member that joined its group.
pub open spec fn joined_text(generation: u64, partitions: Seq<u32>) -> Seq<char> {
    "generation="@ + text::decimal(generation as nat) + " partitions="@ + listed(partitions, ","@)
}

/// What is printed of a member that joined its group.
pub fn joined_line(joined: &JoinGroupResponse) -> (line: String)
    ensures
        line@ == joined_text(joined.generation_value(), joined.partition_values()),
{
    let mut out = "generation=".to_owned();
    text::push_decimal(&mut out, joined.generation());
    out.append(" partitions=");
    out.append(list_numbers(joined.partitions(), ",").as_str());
    out
}

/// What a consumer prints when it has joined its group.
pub fn consuming_line(generation: u64, partitions: &[u32]) -> (line: String)
    ensures
        line@ == "generation="@ + text::decimal(generation as nat) + " partitions=["@ + listed(
            partitions@,
            ", "@,
        ) + "]"@,
{
    let mut out = "generation=".to_owned();
    text::push_decimal(&mut out, generation);
    out.append(" partitions=[");
    out.append(list_numbers(partitions, ", ").as_str());
    out.append("]");
    out
}

/// What is printed of a committed offset; a dash stands for none.
pub open spec fn committed_text(offset: Option<u64>) -> Seq<char> {
    match offset {
        Some(value) => "offset="@ + text::decimal(value as nat),
        None => "offset=-"@,
    }
}

/// What is printed of a committed offset.
pub fn committed_line(offset: Option<u64>) -> (line: String)
    ensures
        line@ == committed_text(offset),
{
    match offset {
        Some(value) => {
            let mut out = "offset=".to_owned();
            text::push_decimal(&mut out, value);
            out
        },
        None => "offset=-".to_owned(),
    }
}

/// The partitions, each with its leader, the leader's epoch and the high watermark.
pub open spec fn leader_list(leaders: Seq<PartitionLeadership>) -> Seq<char>
    decreases leaders.len(),
{
    if leaders.len() == 0 {
        Seq::empty()
    } else {
        let before = leader_list(leaders.drop_last());
        let separated = if leaders.len() == 1 {
            before
        } else {
            before + ","@
        };
        separated + text::decimal((leaders.len() - 1) as nat) + ":"@ + text::decimal(
            leaders.last().leader_id as nat,
        ) + "@"@ + text::decimal(leaders.last().leader_epoch as nat) + "/hw="@ + text::decimal(
            leaders.last().high_watermark as nat,
        )
    }
}

/// What is printed of a topic.
pub open spec fn topic_text(topic: TopicMetadata) -> Seq<char> {
    "topic="@ + topic.topic@ + " partitions="@ + text::decimal(topic.partitions as nat)
        + " leaders=["@ + leader_list(topic.leaders@) + "]"@
}

fn list_leaders(leaders: &Vec<PartitionLeadership>) -> (list: String)
    ensures
        list@ == leader_list(leaders@),
{
    let mut out = String::new();
    assert(out@ =~= leader_list(leaders@.take(0)));
    for i in 0..leaders.len()
        invariant
            out@ == leader_list(leaders@.take(i as int)),
    {
        proof {
            assert(leaders@.take(i + 1).drop_last() =~= leaders@.take(i as int));
            assert(leaders@.take(i + 1).last() == leaders@[i as int]);
        }
        if i > 0 {
            out.append(",");
        }
        text::push_decimal(&mut out, i as u64);
        out.append(":");
        text::push_decimal(&mut out, leaders[i].leader_id as u64);
        out.append("@");
        text::push_decimal(&mut out, leaders[i].leader_epoch);
        out.append("/hw=");
        text::push_decimal(&mut out, leaders[i].high_watermark);
    }
    assert(leaders@.take(leaders@.len() as int) =~= leaders@);
    out
}

/// What is printed of a topic.
pub fn topic_line(topic: &TopicMetadata) -> (line: String)
    ensures
        line@ == topic_text(*topic),
{
    let mut out = "topic=".to_owned();
    out.append(topic.topic.as_str());
    out.append(" partitions=");
    text::push_decimal(&mut out, topic.partitions as u64);
    out.append(" leaders=[");
    out.append(list_leaders(&topic.leaders).as_str());
    out.append("]");
    out
}

/// What is printed of a broker.
pub open spec fn node_text(node: ClusterNode, responding: u32) -> Seq<char> {
    "broker="@ + text::decimal(node.id as nat) + " address="@ + node.host@ + ":"@ + text::decimal(
        node.port as nat,
    ) + " admin="@ + node.host@ + ":"@ + text::decimal(node.admin_port as nat) + " replication="@
        + node.host@ + ":"@ + text::decimal(node.replication_port as nat) + if node.id
        == responding {
        " current"@
    } else {
        ""@
    }
}

fn node_line(node: &ClusterNode, responding: u32) -> (line: String)
    ensures
        line@ == node_text(*node, responding),
{
    let mut out = "broker=".to_owned();
    text::push_decimal(&mut out, node.id as u64);
    out.append(" address=");
    out.append(node.host.as_str());
    out.append(":");
    text::push_decimal(&mut out, node.port as u64);
    out.append(" admin=");
    out.append(node.host.as_str());
    out.append(":");
    text::push_decimal(&mut out, node.admin_port as u64);
    out.append(" replication=");
    out.append(node.host.as_str());
    out.append(":");
    text::push_decimal(&mut out, node.replication_port as u64);
    if node.id == responding {
        out.append(" current");
    } else {
        out.append("");
    }
    out
}

/// What is printed of a cluster: the broker that answered, and each broker.
pub open spec fn cluster_texts(cluster: ClusterMetadata) -> Seq<Seq<char>> {
    seq!["responding_broker="@ + text::decimal(cluster.responding_broker_id as nat)]
        + cluster.nodes@.map_values(
        |node: ClusterNode| node_text(node, cluster.responding_broker_id),
    )
}

/// What is printed of a cluster.
pub fn cluster_lines(cluster: &ClusterMetadata) -> (lines: Vec<String>)
    ensures
        text::views(lines@) == cluster_texts(*cluster),
{
    let mut first = "responding_broker=".to_owned();
    text::push_decimal(&mut first, cluster.responding_broker_id as u64);
    let mut lines: Vec<String> = Vec::new();
    lines.push(first);
    for i in 0..cluster.nodes.len()
        invariant
            lines@.len() == i + 1,
            lines@[0]@ == "responding_broker="@ + text::decimal(
                cluster.responding_broker_id as nat,
            ),
            forall|j: int|
                0 <= j < i ==> (#[trigger] lines@[j + 1])@ == node_text(
                    cluster.nodes@[j],
                    cluster.responding_broker_id,
                ),
    {
        let ghost before = lines@;
        lines.push(node_line(&cluster.nodes[i], cluster.responding_broker_id));
        proof {
            assert forall|j: int| 0 <= j < i + 1 implies (#[trigger] lines@[j + 1])@ == node_text(
                cluster.nodes@[j],
                cluster.responding_broker_id,
            ) by {
                if j < i {
                    assert(lines@[j + 1] == before[j + 1]);
                }
            }
        }
    }
    proof {
        let expected = cluster_texts(*cluster);
        assert forall|j: int| 0 <= j < expected.len() implies text::views(lines@)[j]
            == #[trigger] expected[j] by {
            if j > 0 {
                assert(lines@[(j - 1) + 1]@ == node_text(
                    cluster.nodes@[j - 1],
                    cluster.responding_broker_id,
                ));
            }
        }
        assert(text::views(lines@) =~= expected);
    }
    lines
}

/// What is printed of a promotion.
pub fn promoted_line(leadership: &PartitionLeadership) -> (line: String)
    ensures
        line@ == "partition="@ + text::decimal(leadership.partition as nat) + " leader="@
            + text::decimal(leadership.leader_id as nat) + " epoch="@ + text::decimal(
            leadership.leader_epoch as nat,
        ),
{
    let mut out = "partition=".to_owned();
    text::push_decimal(&mut out, leadership.partition as u64);
    out.append(" leader=");
    text::push_decimal(&mut out, leadership.leader_id as u64);
    out.append(" epoch=");
    text::push_decimal(&mut out, leadership.leader_epoch);
    out
}

/// What is printed of fetched records, one line for each.
pub open spec fn record_texts(records: Seq<FetchedRecord>) -> Seq<Seq<char>> {
    records.map_values(|found: FetchedRecord| record_line_text(found@))
}

/// What is printed of fetched records.
pub fn record_lines(records: &Vec<FetchedRecord>) -> (lines: Vec<String>)
    ensures
        text::views(lines@) == record_texts(records@),
{
    let mut lines: Vec<String> = Vec::new();
    for i in 0..records.len()
        invariant
            lines@.len() == i,
            forall|j: int|
                0 <= j < i ==> (#[trigger] lines@[j])@ == record_line_text(records@[j]@),
    {
        lines.push(record_line(&records[i]));
    }
    assert(text::views(lines@) =~= record_texts(records@));
    lines
}

/// What is printed of topics, one line for each.
pub open spec fn topic_texts(topics: Seq<TopicMetadata>) -> Seq<Seq<char>> {
    topics.map_values(|topic: TopicMetadata| topic_text(topic))
}

/// What is printed of topics.
pub fn topic_lines(topics: &Vec<TopicMetadata>) -> (lines: Vec<String>)
    ensures
        text::views(lines@) == topic_texts(topics@),
{
    let mut lines: Vec<String> = Vec::new();
    for i in 0..topics.len()
        invariant
            lines@.len() == i,
            forall|j: int| 0 <= j < i ==> (#[trigger] lines@[j])@ == topic_text(topics@[j]),
    {
        lines.push(topic_line(&topics[i]));
    }
    assert(text::views(lines@) =~= topic_texts(topics@));
    lines
}

fn one_line(line: String) -> (lines: Vec<String>)
    ensures
        text::views(lines@) == seq![line@],
{
    let mut lines: Vec<String> = Vec::new();
    lines.push(line);
    assert(text::views(lines@) =~= seq![line@]);
    lines
}

/// Whether a command on groups is answered by `response`, and what is printed of it.
pub open spec fn group_texts(command: GroupCommand, response: BrokerResponse) -> Option<
    Seq<Seq<char>>,
> {
    match (command, response) {
        (GroupCommand::Join { .. }, BrokerResponse::JoinGroup(joined)) => Some(
            seq![joined_text(joined.generation_value(), joined.partition_values())],
        ),
        (GroupCommand::Heartbeat { .. }, BrokerResponse::GroupAck) => Some(
            seq!["heartbeat accepted"@],
        ),
        (GroupCommand::Leave { .. }, BrokerResponse::GroupAck) => Some(seq!["member left group"@]),
        (GroupCommand::Commit { .. }, BrokerResponse::GroupAck) => Some(seq!["offset committed"@]),
        (GroupCommand::Offset { .. }, BrokerResponse::CommittedOffset(offset)) => Some(
            seq![committed_text(offset)],
        ),
        (GroupCommand::Fetch { .. }, BrokerResponse::Fetch(records)) => Some(
            record_texts(records@),
        ),
        _ => None,
    }
}

impl GroupCommand {
    /// What is printed of the answer to the command.
    pub fn output(&self, response: BrokerResponse) -> (lines: Result<Vec<String>, ClientError>)
        ensures
            match group_texts(*self, response) {
                Some(texts) => lines matches Ok(printed) && text::views(printed@) == texts,
                None => lines matches Err(error) && client::is_refusal(response, error),
            },
    {
        match self {
            GroupCommand::Join { .. } => match client::join_reply(response) {
                Ok(joined) => Ok(one_line(joined_line(&joined))),
                Err(error) => Err(error),
            },
            GroupCommand::Heartbeat { .. } => match client::group_ack_reply(response) {
                Ok(()) => Ok(one_line("heartbeat accepted".to_owned())),
                Err(error) => Err(error),
            },
            GroupCommand::Leave { .. } => match client::group_ack_reply(response) {
                Ok(()) => Ok(one_line("member left group".to_owned())),
                Err(error) => Err(error),
            },
            GroupCommand::Commit { .. } => match client::group_ack_reply(response) {
                Ok(()) => Ok(one_line("offset committed".to_owned())),
                Err(error) => Err(error),
            },
            GroupCommand::Offset { .. } => match client::committed_offset_reply(response) {
                Ok(offset) => Ok(one_line(committed_line(offset))),
                Err(error) => Err(error),
            },
            GroupCommand::Fetch { .. } => match client::fetch_reply(response) {
                Ok(records) => Ok(record_lines(&records)),
                Err(error) => Err(error),
            },
        }
    }
}

/// Whether a command on topics is answered by `response`, and what is printed of it.
pub open spec fn topic_command_texts(command: TopicCommand, response: BrokerResponse) -> Option<
    Seq<Seq<char>>,
> {
    match response {
        BrokerResponse::Topics(topics) => if command is List || topics@.len() == 1 {
            Some(topic_texts(topics@))
        } else {
            None
        },
        _ => None,
    }
}

impl TopicCommand {
    /// What is printed of the answer to the command.
    pub fn output(&self, response: BrokerResponse) -> (lines: Result<Vec<String>, ClientError>)
        ensures
            match topic_command_texts(*self, response) {
                Some(texts) => lines matches Ok(printed) && text::views(printed@) == texts,
                None => lines matches Err(error) && client::is_refusal(response, error),
            },
    {
        match self {
            TopicCommand::List => match client::topics_reply(response) {
                Ok(topics) => Ok(topic_lines(&topics)),
                Err(error) => Err(error),
            },
            _ => match client::topic_reply(response) {
                Ok(topic) => {
                    let lines = one_line(topic_line(&topic));
                    proof {
                        let topics = response->Topics_0@;
                        assert(topic_texts(topics) =~= seq![topic_text(topic)]);
                    }
                    Ok(lines)
                },
                Err(error) => Err(error),
            },
        }
    }
}

proof fn lemma_word(name: Seq<char>, value: nat)
    requires
        text::lacks(name, ' '),
        value <= u64::MAX,
    ensures
        text::lacks(name + text::decimal(value), ' '),
        text::parsed((name + text::decimal(value)).skip(name.len() as int), u64::MAX as nat)
            == Some(value),
{
    let word = name + text::decimal(value);
    text::lemma_decimal_lacks(value, ' ');
    text::lemma_decimal_parses(value, u64::MAX as nat);
    assert(word.skip(name.len() as int) =~= text::decimal(value));
    assert forall|i: int| 0 <= i < word.len() implies #[trigger] word[i] != ' ' by {
        if i >= name.len() {
            assert(word[i] == text::decimal(value)[i - name.len()]);
        }
    }
}

/// The line on a published message has two words, and the numbers in them are its partition and its
/// offset.
pub proof fn printed_acknowledgement_is_read_back(ack: ProduceAck)
    ensures
        ({
            let words = text::split_on(ack_line(ack), ' ');
            &&& words.len() == 2
            &&& text::parsed(words[0].skip("partition="@.len() as int), u64::MAX as nat) == Some(
                ack.partition as nat,
            )
            &&& text::parsed(words[1].skip("offset="@.len() as int), u64::MAX as nat) == Some(
                ack.offset as nat,
            )
        }),
{
    reveal_strlit("partition=");
    reveal_strlit(" offset=");
    reveal_strlit("offset=");
    lemma_word("partition="@, ack.partition as nat);
    lemma_word("offset="@, ack.offset as nat);
    let first = "partition="@ + text::decimal(ack.partition as nat);
    let second = "offset="@ + text::decimal(ack.offset as nat);
    assert(ack_line(ack) =~= first.push(' ') + second);
    text::lemma_split_piece(first, ' ', second);
    text::lemma_split_whole(second, ' ');
}

/// The line on a record starts with its offset and its timestamp, and ends with its value.
pub proof fn printed_record_is_read_back(
    offset: u64,
    timestamp_ms: u64,
    key: Seq<char>,
    value: Seq<char>,
)
    ensures
        ({
            let line = record_text(offset, timestamp_ms, key, value);
            let words = text::split_on(line, ' ');
            &&& words.len() >= 2
            &&& text::parsed(words[0].skip("offset="@.len() as int), u64::MAX as nat) == Some(
                offset as nat,
            )
            &&& text::parsed(words[1].skip("timestamp_ms="@.len() as int), u64::MAX as nat) == Some(
                timestamp_ms as nat,
            )
            &&& line.len() >= value.len()
            &&& line.skip(line.len() - value.len()) == value
        }),
{
    reveal_strlit("offset=");
    reveal_strlit(" timestamp_ms=");
    reveal_strlit("timestamp_ms=");
    reveal_strlit(" key=");
    reveal_strlit("key=");
    lemma_word("offset="@, offset as nat);
    lemma_word("timestamp_ms="@, timestamp_ms as nat);
    let line = record_text(offset, timestamp_ms, key, value);
    let first = "offset="@ + text::decimal(offset as nat);
    let second = "timestamp_ms="@ + text::decimal(timestamp_ms as nat);
    let rest = "key="@ + key + " value="@ + value;
    assert(line =~= first.push(' ') + (second.push(' ') + rest));
    text::lemma_split_piece(first, ' ', second.push(' ') + rest);
    text::lemma_split_piece(second, ' ', rest);
    assert(line.skip(line.len() - value.len()) =~= value);
}

/// A list of partitions is read back, each in its place.
pub proof fn printed_partitions_are_read_back(numbers: Seq<u32>, place: int)
    requires
        numbers.len() > 0,
    ensures
        ({
            let pieces = text::split_on(listed(numbers, ","@), ',');
            &&& pieces.len() == numbers.len()
            &&& 0 <= place < numbers.len() ==> text::parsed(pieces[place], u32::MAX as nat) == Some(
                numbers[place] as nat,
            )
        }),
    decreases numbers.len(),
{
    reveal_strlit(",");
    let last = text::decimal(numbers.last() as nat);
    text::lemma_decimal_lacks(numbers.last() as nat, ',');
    text::lemma_decimal_parses(numbers.last() as nat, u32::MAX as nat);
    if numbers.len() == 1 {
        text::lemma_split_whole(last, ',');
    } else {
        let fewer = numbers.drop_last();
        let before = listed(fewer, ","@);
        printed_partitions_are_read_back(fewer, place);
        assert(listed(numbers, ","@) =~= before.push(',') + last);
        text::lemma_split_last(before, ',', last);
    }
}

/// The line on a committed offset tells the offset, and tells one from none.
pub proof fn printed_offset_is_read_back(offset: u64)
    ensures
        text::parsed(
            committed_text(Some(offset)).skip("offset="@.len() as int),
            u64::MAX as nat,
        ) == Some(offset as nat),
        text::parsed(committed_text(None).skip("offset="@.len() as int), u64::MAX as nat) is None,
{
    reveal_strlit("offset=");
    reveal_strlit("offset=-");
    lemma_word("offset="@, offset as nat);
    let none = committed_text(None).skip(7);
    assert(none =~= seq!['-']);
    text::only_numbers_are_read(none, 0, u64::MAX as nat, 0);
}

/// Two commands on groups that ask the same of a broker are the same command: nothing that the user
/// gives is lost.
pub proof fn group_requests_tell_commands_apart(
    a: GroupCommand,
    b: GroupCommand,
    request: BrokerRequest,
)
    requires
        is_group_request(a, request),
        is_group_request(b, request),
    ensures
        match (a, b) {
            (
                GroupCommand::Join { group, topic, member },
                GroupCommand::Join { group: g, topic: t, member: m },
            ) => (g@, t@, m@) == (group@, topic@, member@),
            (
                GroupCommand::Heartbeat { group, topic, member, generation },
                GroupCommand::Heartbeat { group: g, topic: t, member: m, generation: n },
            ) => (g@, t@, m@, n) == (group@, topic@, member@, generation),
            (
                GroupCommand::Leave { group, topic, member, generation },
                GroupCommand::Leave { group: g, topic: t, member: m, generation: n },
            ) => (g@, t@, m@, n) == (group@, topic@, member@, generation),
            (
                GroupCommand::Commit { group, topic, member, generation, partition, offset },
                GroupCommand::Commit {
                    group: g,
                    topic: t,
                    member: m,
                    generation: n,
                    partition: p,
                    offset: o,
                },
            ) => (g@, t@, m@, n) == (group@, topic@, member@, generation) && (p, o) == (
                partition,
                offset,
            ),
            (
                GroupCommand::Offset { group, topic, partition },
                GroupCommand::Offset { group: g, topic: t, partition: p },
            ) => (g@, t@, p) == (group@, topic@, partition),
            (
                GroupCommand::Fetch {
                    group,
                    topic,
                    member,
                    generation,
                    partition,
                    offset,
                    max_bytes,
                    wait_ms,
                },
                GroupCommand::Fetch {
                    group: g,
                    topic: t,
                    member: m,
                    generation: n,
                    partition: p,
                    offset: o,
                    max_bytes: c,
                    wait_ms: w,
                },
            ) => (g@, t@, m@, n) == (group@, topic@, member@, generation) && (p, o, c, w) == (
                partition,
                offset,
                max_bytes,
                wait_ms,
            ),
            _ => false,
        },
{
}

/// Two fetches that ask the same of a broker are the same, and so are the topics, messages,
/// acknowledgements and producers of two published messages.
pub proof fn message_requests_tell_commands_apart(
    a: Command,
    b: Command,
    request: Option<BrokerRequest>,
)
    requires
        is_message_request(a, request),
        is_message_request(b, request),
        request is Some,
    ensures
        match (a, b) {
            (
                Command::Fetch { topic, partition, offset, max_bytes, wait_ms },
                Command::Fetch {
                    topic: t,
                    partition: p,
                    offset: o,
                    max_bytes: c,
                    wait_ms: w,
                },
            ) => t@ == topic@ && (p, o, c, w) == (partition, offset, max_bytes, wait_ms),
            (
                Command::Produce { topic, message, key, acks, producer_id, sequence },
                Command::Produce {
                    topic: t,
                    message: m,
                    key: k,
                    acks: c,
                    producer_id: id,
                    sequence: n,
                },
            ) => {
                &&& t@ == topic@
                &&& utf8::encode_utf8(m@) == utf8::encode_utf8(message@)
                &&& given_key(k) == given_key(key)
                &&& c == acks
                &&& (producer_id is Some && sequence is Some) ==> (id is Some && n == sequence
                    && id->0@ == producer_id->0@)
            },
            (
                Command::ProduceBatch { topic, message, key, acks, compression },
                Command::ProduceBatch {
                    topic: t,
                    message: m,
                    key: k,
                    acks: c,
                    compression: with,
                },
            ) => t@ == topic@ && m@.len() == message@.len() && c == acks && with == compression,
            _ => false,
        },
{
}

/// A command is answered by responses of its kind alone: an error is never printed as an answer.
pub proof fn errors_are_no_answers(
    group: GroupCommand,
    topic: TopicCommand,
    response: BrokerResponse,
)
    requires
        response is Error,
    ensures
        group_texts(group, response) is None,
        topic_command_texts(topic, response) is None,
{
}

/// Each fetched record has its line, in the order in which they were fetched, and so has each
/// listed topic.
pub proof fn all_answers_are_printed(
    group: GroupCommand,
    records: Vec<FetchedRecord>,
    topics: Vec<TopicMetadata>,
    place: int,
)
    requires
        group is Fetch,
    ensures
        group_texts(group, BrokerResponse::Fetch(records)) matches Some(lines) && lines.len()
            == records@.len() && (0 <= place < lines.len() ==> lines[place] == record_line_text(
            records@[place]@,
        )),
        topic_command_texts(TopicCommand::List, BrokerResponse::Topics(topics)) matches Some(lines)
            && lines.len() == topics@.len() && (0 <= place < lines.len() ==> lines[place]
            == topic_text(topics@[place])),
{
}

/// The cluster has a line for the broker that answered and one for each broker, and only the line
/// of the broker that answered says that it did.
pub proof fn printed_cluster_tells_who_answered(
    cluster: ClusterMetadata,
    node: ClusterNode,
    other: u32,
    place: int,
)
    requires
        other != node.id,
    ensures
        cluster_texts(cluster).len() == cluster.nodes@.len() + 1,
        0 <= place < cluster.nodes@.len() ==> cluster_texts(cluster)[place + 1] == node_text(
            cluster.nodes@[place],
            cluster.responding_broker_id,
        ),
        text::parsed(
            cluster_texts(cluster)[0].skip("responding_broker="@.len() as int),
            u32::MAX as nat,
        ) == Some(cluster.responding_broker_id as nat),
        node_text(node, node.id) == node_text(node, other) + " current"@,
{
    reveal_strlit("");
    let id = text::decimal(cluster.responding_broker_id as nat);
    text::lemma_decimal_parses(cluster.responding_broker_id as nat, u32::MAX as nat);
    assert(("responding_broker="@ + id).skip("responding_broker="@.len() as int) =~= id);
    assert(node_text(node, node.id) =~= node_text(node, other) + " current"@);
}

} // verus!
