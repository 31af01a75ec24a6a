//! The topics and partition logs of a broker: creating topics, choosing partitions, appending,
//! replicating and reading.
//!
//! Files are read and written by whoever owns them. Each operation says what has to be done
//! with them, and is told once it is done.

use bytes::Bytes;
use vstd::prelude::*;
use vstd::utf8;

use crate::buffer;
use crate::checksum;
use crate::client;
use crate::cluster;
use crate::cluster::{ClusterMetadata, ClusterNode, TopicMetadata};
use crate::config;
use crate::config::{ClusterNodeConfig, Config};
use crate::leadership::PartitionLeadership;
use crate::messages::{AckMode, BatchRecord, ProducerIdentity};
use crate::metrics::PartitionSnapshot;
use crate::producers;
use crate::producers::{Note, StoredMessage};
use crate::protocol::ProduceAck;
use crate::record;
use crate::record::{Entry, FetchedRecord, Record, StorageError, StoredRecord};
use crate::sorted;
use crate::sorted::{Key, SortedMap};
use crate::storage;
use crate::storage::{
    AppendPlan, Log, LogReader, LogRecovery, PartitionLog, ReadStep, Reading, Truncation,
};
use crate::text;

verus! {

/// How a broker keeps its logs.
#[derive(Debug)]
pub struct StorageSettings {
    pub data_dir: String,
    pub max_segment_bytes: u64,
    pub index_interval_bytes: u64,
    pub default_partition_count: u32,
    pub retention_bytes: Option<u64>,
    pub retention_ms: Option<u64>,
    pub auto_create_topics: bool,
    pub queue_capacity: usize,
    pub enqueue_timeout_ms: u64,
    /// How many brokers have to hold a record before it is committed.
    pub min_in_sync_replicas: usize,
}

#[derive(Debug)]
pub enum BrokerError {
    InvalidPartitionCount,
    InvalidStorageQueueConfig,
    StorageUnavailable,
    InvalidClusterMetadata,
    PartitionOutsideConfiguredRange { topic: String, partition: u32, partition_count: u32 },
}

impl BrokerError {
    /// What the error says.
    pub open spec fn text(self) -> Seq<char> {
        match self {
            BrokerError::InvalidPartitionCount =>
                "default partition count must be greater than zero"@,
            BrokerError::InvalidStorageQueueConfig =>
                "storage queue capacity and enqueue timeout must be greater than zero"@,
            BrokerError::StorageUnavailable =>
                "storage worker is unavailable during broker startup"@,
            BrokerError::InvalidClusterMetadata =>
                "local broker is missing from cluster metadata"@,
            BrokerError::PartitionOutsideConfiguredRange { topic, partition, partition_count } =>
                "topic "@ + topic@ + " has partition "@ + text::decimal(partition as nat)
                + ", outside configured partition count "@ + text::decimal(
                partition_count as nat,
            ),
        }
    }

    /// The error in words.
    pub fn message(&self) -> (message: String)
        ensures
            message@ == self.text(),
    {
        match self {
            BrokerError::InvalidPartitionCount => {
                "default partition count must be greater than zero".to_owned()
            },
            BrokerError::InvalidStorageQueueConfig => {
                "storage queue capacity and enqueue timeout must be greater than zero".to_owned()
            },
            BrokerError::StorageUnavailable => {
                "storage worker is unavailable during broker startup".to_owned()
            },
            BrokerError::InvalidClusterMetadata => {
                "local broker is missing from cluster metadata".to_owned()
            },
            BrokerError::PartitionOutsideConfiguredRange { topic, partition, partition_count } => {
                let mut out = "topic ".to_owned();
                out.append(topic.as_str());
                out.append(" has partition ");
                text::push_decimal(&mut out, *partition as u64);
                out.append(", outside configured partition count ");
                text::push_decimal(&mut out, *partition_count as u64);
                out
            },
        }
    }
}

/// A limit that may be absent: zero stands for none.
pub open spec fn optional_limit(value: u64) -> Option<u64> {
    if value > 0 {
        Some(value)
    } else {
        None
    }
}

impl StorageSettings {
    /// The settings that a configuration asks for.
    pub fn from_config(config: &Config) -> (settings: Self)
        ensures
            settings.data_dir@ == config.broker.data_dir@,
            settings.max_segment_bytes == config.broker.max_segment_bytes,
            settings.index_interval_bytes == config.broker.index_interval_bytes,
            settings.default_partition_count == config.broker.default_partition_count,
            settings.retention_bytes == optional_limit(config.broker.retention_bytes),
            settings.retention_ms == optional_limit(config.broker.retention_ms),
            settings.auto_create_topics == config.broker.auto_create_topics,
            settings.queue_capacity == config.broker.storage_queue_capacity,
            settings.enqueue_timeout_ms == config.broker.storage_enqueue_timeout_ms,
            settings.min_in_sync_replicas == config.cluster.min_in_sync_replicas,
    {
        StorageSettings {
            data_dir: config.broker.data_dir.clone(),
            max_segment_bytes: config.broker.max_segment_bytes,
            index_interval_bytes: config.broker.index_interval_bytes,
            default_partition_count: config.broker.default_partition_count,
            retention_bytes: if config.broker.retention_bytes > 0 {
                Some(config.broker.retention_bytes)
            } else {
                None
            },
            retention_ms: if config.broker.retention_ms > 0 {
                Some(config.broker.retention_ms)
            } else {
                None
            },
            auto_create_topics: config.broker.auto_create_topics,
            queue_capacity: config.broker.storage_queue_capacity,
            enqueue_timeout_ms: config.broker.storage_enqueue_timeout_ms,
            min_in_sync_replicas: config.cluster.min_in_sync_replicas,
        }
    }

    /// Where the recovery of a log starts whose first segment is at `base_offset`: a log that
    /// nothing is removed from starts at zero.
    pub fn recovery_base(&self, base_offset: u64) -> (start: u64)
        ensures
            start == if self.retention_bytes is Some || self.retention_ms is Some {
                base_offset
            } else {
                0
            },
    {
        if self.retention_bytes.is_some() || self.retention_ms.is_some() {
            base_offset
        } else {
            0
        }
    }

    /// Refuses settings that a broker cannot start with.
    pub fn validate(&self) -> (checked: Result<(), BrokerError>)
        ensures
            if self.default_partition_count == 0 {
                checked matches Err(error) && error is InvalidPartitionCount
            } else if self.queue_capacity == 0 || self.enqueue_timeout_ms == 0 {
                checked matches Err(error) && error is InvalidStorageQueueConfig
            } else {
                checked is Ok
            },
    {
        if self.default_partition_count == 0 {
            return Err(BrokerError::InvalidPartitionCount);
        }
        if self.queue_capacity == 0 || self.enqueue_timeout_ms == 0 {
            return Err(BrokerError::InvalidStorageQueueConfig);
        }
        Ok(())
    }
}

/// The cluster that a broker works in, from its configuration and the brokers found in it.
pub fn cluster_of(config: &Config, nodes: &Vec<ClusterNodeConfig>) -> (found: ClusterMetadata)
    ensures
        found.responding_broker_id == config.cluster.broker_id,
        cluster::node_views(found.nodes@) == config::config_views(nodes@),
{
    let mut members: Vec<ClusterNode> = Vec::new();
    for i in 0..nodes.len()
        invariant
            members@.len() == i,
            forall|j: int| 0 <= j < i ==> (#[trigger] members@[j])@ == nodes@[j]@,
    {
        let node = &nodes[i];
        members.push(
            ClusterNode {
                id: node.id,
                host: node.host.clone(),
                port: node.port,
                admin_port: node.admin_port,
                replication_port: node.replication_port,
            },
        );
    }
    assert(cluster::node_views(members@) =~= config::config_views(nodes@));
    ClusterMetadata { responding_broker_id: config.cluster.broker_id, nodes: members }
}

/// The broker itself among the brokers of its cluster.
pub fn local_node(cluster: &ClusterMetadata) -> (node: Result<&ClusterNode, BrokerError>)
    ensures
        match client::broker_with(cluster.nodes@, cluster.responding_broker_id) {
            Some(local) => node matches Ok(found) && *found == local,
            None => node matches Err(error) && error is InvalidClusterMetadata,
        },
{
    let id: u32 = cluster.responding_broker_id;
    let mut i: usize = 0;
    assert(cluster.nodes@.skip(0) =~= cluster.nodes@);
    while i < cluster.nodes.len()
        invariant
            i <= cluster.nodes@.len(),
            id == cluster.responding_broker_id,
            client::broker_with(cluster.nodes@, id) == client::broker_with(
                cluster.nodes@.skip(i as int),
                id,
            ),
        decreases cluster.nodes@.len() - i,
    {
        if cluster.nodes[i].id == id {
            return Ok(&cluster.nodes[i]);
        }
        assert(cluster.nodes@.skip(i as int).skip(1) =~= cluster.nodes@.skip(i + 1));
        i = i + 1;
    }
    Err(BrokerError::InvalidClusterMetadata)
}

/// The partition that goes next for messages without a key.
pub open spec fn next_in_turn(round_robin: Map<Seq<char>, u32>, topic: Seq<char>) -> u32 {
    if round_robin.dom().contains(topic) {
        round_robin[topic]
    } else {
        0
    }
}

/// The partition of a message whose routing key has this checksum.
pub fn partition_of_hash(hash: u32, partition_count: u32) -> (partition: u32)
    requires
        partition_count > 0,
    ensures
        partition == hash as int % partition_count as int,
        partition < partition_count,
{
    hash % partition_count
}

/// The partition whose turn it is, and the turn passes on.
pub fn partition_in_turn(
    partition_count: u32,
    round_robin: &mut SortedMap<String, u32>,
    topic: &str,
) -> (partition: u32)
    requires
        old(round_robin).wf(),
        partition_count > 0,
        next_in_turn(old(round_robin)@, topic@) < u32::MAX,
    ensures
        final(round_robin).wf(),
        partition == next_in_turn(old(round_robin)@, topic@),
        final(round_robin)@ == old(round_robin)@.insert(
            topic@,
            ((partition + 1) as int % partition_count as int) as u32,
        ),
{
    let key = topic.to_owned();
    let next: u32 = match round_robin.get(&key) {
        Some(next) => *next,
        None => 0,
    };
    round_robin.insert(key, (next + 1) % partition_count);
    next
}

/// The partition of a message: by the checksum of its key, or in turn where it has none.
pub fn select_partition(
    partition_count: u32,
    round_robin: &mut SortedMap<String, u32>,
    topic: &str,
    key: Option<&[u8]>,
) -> (partition: u32)
    requires
        old(round_robin).wf(),
        partition_count > 0,
        next_in_turn(old(round_robin)@, topic@) < u32::MAX,
    ensures
        final(round_robin).wf(),
        match key {
            Some(bytes) => partition == checksum::crc32(bytes@) as int % partition_count as int
                && final(round_robin)@ == old(round_robin)@,
            None => partition == next_in_turn(old(round_robin)@, topic@) && final(round_robin)@
                == old(round_robin)@.insert(
                topic@,
                ((partition + 1) as int % partition_count as int) as u32,
            ),
        },
{
    match key {
        Some(bytes) => partition_of_hash(crc32fast::hash(bytes), partition_count),
        None => partition_in_turn(partition_count, round_robin, topic),
    }
}

/// A message on its way to a partition.
#[derive(Debug, Clone)]
pub struct AppendInput {
    pub topic: String,
    pub partition: Option<u32>,
    pub key: Bytes,
    pub value: Bytes,
    pub ack_mode: AckMode,
    pub producer: Option<ProducerIdentity>,
}

/// What a message is routed by: its key, or else the identity of its producer.
pub open spec fn routing_key(input: AppendInput) -> Option<Seq<u8>> {
    if buffer::content(input.key).len() > 0 {
        Some(buffer::content(input.key))
    } else {
        match input.producer {
            Some(producer) => Some(utf8::encode_utf8(producer.id@)),
            None => None,
        }
    }
}

/// The checksum of a routing key.
pub open spec fn routing_hash(key: Option<Seq<u8>>) -> Option<u32> {
    match key {
        Some(bytes) => Some(checksum::crc32(bytes)),
        None => None,
    }
}

/// The entry that a message becomes. An empty key is none.
pub open spec fn entry_of(input: AppendInput, timestamp_ms: u64, offset: u64) -> Entry {
    Entry {
        offset,
        timestamp_ms,
        key: if buffer::content(input.key).len() > 0 {
            Some(buffer::content(input.key))
        } else {
            None
        },
        value: buffer::content(input.value),
    }
}

/// What is done with a message.
pub enum AppendStep {
    /// The topic is created first, with this many partitions; the message is then tried again.
    CreateTopic { partitions: u32 },
    /// The bytes of the plan are written to the log, and forced to disk where that is asked for.
    Write { partition: u32, plan: AppendPlan, sync: bool },
    /// The producer sent the message before, and this is where it was stored then.
    Held { ack: ProduceAck, sync: bool },
}

/// Whether a plan writes `entry` to `log`.
pub open spec fn is_plan(plan: AppendPlan, log: Log, entry: Entry) -> bool {
    let size = entry.encoded().len();
    &&& buffer::buffered(plan.encoded) == entry.encoded()
    &&& plan.rotate == log.rotates_for(size)
    &&& plan.suits(log.ready_for(size))
}

/// A record that the leader of a partition sends to a follower.
#[derive(Debug)]
pub struct ReplicateRecord {
    pub topic: String,
    pub partition: u32,
    pub offset: u64,
    pub timestamp_ms: u64,
    pub key: Option<Bytes>,
    pub value: Bytes,
    pub durable: bool,
    /// The epoch of the leader that sends the record.
    pub leader_epoch: u64,
    /// The high watermark that the leader has committed.
    pub high_watermark: u64,
    /// Who sent the message to the leader.
    pub producer: Option<ProducerIdentity>,
}

impl View for ReplicateRecord {
    type V = Entry;

    open spec fn view(&self) -> Entry {
        Entry {
            offset: self.offset,
            timestamp_ms: self.timestamp_ms,
            key: record::key_content(self.key),
            value: buffer::content(self.value),
        }
    }
}

/// What a follower does with a record of the leader.
pub enum ReplicaStep {
    /// The bytes of the plan are written to the log, and forced to disk where that is asked for.
    Write { plan: AppendPlan, sync: bool },
    /// The log has the record, and this is its next offset.
    Held { next_offset: u64 },
    /// The leader is of a newer epoch: the records at or above this offset, which are not
    /// committed, are cut off first; the record is then tried again.
    Truncate { to: u64 },
}

/// Whether a topic is there or has yet to be created, and its partition count.
#[derive(Debug, Clone, Copy, PartialEq, Eq, Structural)]
pub enum EnsuredTopic {
    Exists { partitions: u32 },
    Create { partitions: u32 },
}

/// Which records a read hands out.
#[derive(Debug, Clone, Copy, PartialEq, Eq, Structural)]
pub enum Visibility {
    /// Those below the high watermark.
    Committed,
    /// All that are stored.
    Stored,
}

/// How a read begins.
pub enum ReadStart {
    /// The topic is created first, with this many partitions; the read is then tried again.
    CreateTopic { partitions: u32 },
    /// The log is opened first; the read is then tried again.
    OpenLog,
    Read(LogReader),
}

/// What is known of the leaders of a partition, and how much of it is committed.
#[derive(Debug, Clone, Copy, PartialEq, Eq, Structural)]
pub struct PartitionMark {
    /// The newest epoch that is known: leaders of older ones are refused.
    pub epoch: u64,
    /// The epoch of the leader whose records the log follows.
    pub followed: u64,
    /// The offset below which all records are committed.
    pub high_watermark: u64,
}

/// A message of a producer: its partition, the producer and the sequence number.
pub type SequenceKey = (((Seq<char>, u32), Seq<char>), u64);

pub open spec fn sequence_key(
    topic: Seq<char>,
    partition: u32,
    producer: Seq<char>,
    sequence: u64,
) -> SequenceKey {
    (((topic, partition), producer), sequence)
}

/// The topics and logs of a broker as a value.
#[verifier::ext_equal]
pub struct StorageState {
    pub logs: Map<(Seq<char>, u32), Log>,
    /// The partition count of each topic.
    pub topics: Map<Seq<char>, u32>,
    /// The partition of each topic that the next message without a key goes to.
    pub round_robin: Map<Seq<char>, u32>,
    /// The epoch and the high watermark of each partition that has any.
    pub marks: Map<(Seq<char>, u32), PartitionMark>,
    /// Where the messages of producers were stored, by partition, producer and sequence.
    pub sequences: Map<SequenceKey, u64>,
}

impl StorageState {
    /// The epoch and the high watermark of a partition.
    pub open spec fn mark(self, topic: Seq<char>, partition: u32) -> PartitionMark {
        if self.marks.dom().contains((topic, partition)) {
            self.marks[(topic, partition)]
        } else {
            PartitionMark { epoch: 0, followed: 0, high_watermark: 0 }
        }
    }

    /// The state with a partition's epoch and high watermark.
    pub open spec fn with_mark(self, topic: Seq<char>, partition: u32, mark: PartitionMark) -> Self {
        StorageState { marks: self.marks.insert((topic, partition), mark), ..self }
    }

    /// The state once all records of a partition below an offset are committed. The high
    /// watermark never falls, and never gets past the end of the log.
    pub open spec fn committed(self, topic: Seq<char>, partition: u32, offset: u64) -> Self {
        let mark = self.mark(topic, partition);
        let end = self.log(topic, partition).next_offset;
        let reached = if offset <= end {
            offset
        } else {
            end
        };
        if reached <= mark.high_watermark {
            self
        } else {
            self.with_mark(topic, partition, PartitionMark { high_watermark: reached, ..mark })
        }
    }

    /// The state with a partition's epoch, where that is newer.
    pub open spec fn with_epoch(self, topic: Seq<char>, partition: u32, epoch: u64) -> Self {
        let mark = self.mark(topic, partition);
        if epoch <= mark.epoch {
            self
        } else {
            self.with_mark(topic, partition, PartitionMark { epoch, ..mark })
        }
    }

    /// The state in which the log of a partition follows the leader of an epoch.
    pub open spec fn with_followed(self, topic: Seq<char>, partition: u32, epoch: u64) -> Self {
        let mark = self.mark(topic, partition);
        if epoch <= mark.followed {
            self
        } else {
            self.with_mark(
                topic,
                partition,
                PartitionMark {
                    epoch: if epoch > mark.epoch {
                        epoch
                    } else {
                        mark.epoch
                    },
                    followed: epoch,
                    ..mark
                },
            )
        }
    }

    /// The state of a broker that has heard of the leadership of a partition. The log of the leader
    /// follows itself.
    pub open spec fn adopted(
        self,
        topic: Seq<char>,
        leadership: PartitionLeadership,
        leads: bool,
    ) -> Self {
        let heard = if leads {
            self.with_followed(topic, leadership.partition, leadership.leader_epoch)
        } else {
            self.with_epoch(topic, leadership.partition, leadership.leader_epoch)
        };
        heard.committed(topic, leadership.partition, leadership.high_watermark)
    }

    /// The state after a record of `size` bytes was written to a partition. A broker that is a
    /// quorum on its own has committed it with that.
    pub open spec fn written(
        self,
        topic: Seq<char>,
        partition: u32,
        size: nat,
        producer: Option<ProducerIdentity>,
        quorum: usize,
    ) -> Self {
        let log = self.log(topic, partition);
        let grown = self.with_log(topic, partition, log.appended(size));
        let noted = match producer {
            Some(sent) => StorageState {
                sequences: grown.sequences.insert(
                    sequence_key(topic, partition, sent.id@, sent.sequence),
                    log.next_offset,
                ),
                ..grown
            },
            None => grown,
        };
        if quorum <= 1 {
            noted.committed(topic, partition, log.appended(size).next_offset)
        } else {
            noted
        }
    }

    /// The state with what is noted of the messages that a partition holds.
    pub open spec fn with_notes(self, topic: Seq<char>, partition: u32, notes: Seq<Note>) -> Self
        decreases notes.len(),
    {
        if notes.len() == 0 {
            self
        } else {
            let before = self.with_notes(topic, partition, notes.drop_last());
            let note = notes.last();
            StorageState {
                sequences: before.sequences.insert(
                    sequence_key(topic, partition, note.id, note.sequence),
                    note.offset,
                ),
                ..before
            }
        }
    }

    /// The state with a log that was cut off: what producers stored behind its end was not
    /// stored.
    pub open spec fn cut(self, topic: Seq<char>, partition: u32, log: Log) -> Self {
        StorageState {
            sequences: Map::new(
                |key: SequenceKey|
                    self.sequences.dom().contains(key) && (key.0.0 != (topic, partition)
                        || self.sequences[key] < log.next_offset),
                |key: SequenceKey| self.sequences[key],
            ),
            ..self.with_log(topic, partition, log)
        }
    }

    pub open spec fn has_topic(self, topic: Seq<char>) -> bool {
        self.topics.dom().contains(topic)
    }

    pub open spec fn has_log(self, topic: Seq<char>, partition: u32) -> bool {
        self.logs.dom().contains((topic, partition))
    }

    pub open spec fn log(self, topic: Seq<char>, partition: u32) -> Log {
        self.logs[(topic, partition)]
    }

    pub open spec fn with_log(self, topic: Seq<char>, partition: u32, log: Log) -> Self {
        StorageState { logs: self.logs.insert((topic, partition), log), ..self }
    }

    /// The state with a log that was opened. A broker that is a quorum on its own has committed
    /// what the log holds.
    pub open spec fn opened(self, topic: Seq<char>, partition: u32, log: Log, quorum: usize) -> Self {
        let added = self.with_log(topic, partition, log);
        if quorum <= 1 {
            added.committed(topic, partition, log.next_offset)
        } else {
            added
        }
    }

    /// The partition that a message of a known topic goes to, and the state with the turn passed
    /// on where it went by turn.
    pub open spec fn routed(
        self,
        topic: Seq<char>,
        partition: Option<u32>,
        hash: Option<u32>,
    ) -> Result<(u32, Self), StorageError> {
        let count = self.topics[topic];
        match partition {
            Some(chosen) => if chosen >= count {
                Err(StorageError::UnknownPartition(chosen))
            } else {
                Ok((chosen, self))
            },
            None => match hash {
                Some(hash) => Ok(((hash as int % count as int) as u32, self)),
                None => {
                    let next = next_in_turn(self.round_robin, topic);
                    Ok(
                        (
                            next,
                            StorageState {
                                round_robin: self.round_robin.insert(
                                    topic,
                                    ((next + 1) as int % count as int) as u32,
                                ),
                                ..self
                            },
                        ),
                    )
                },
            },
        }
    }
}

/// The number of milliseconds since the epoch as a timestamp. `None` stands for a clock that is
/// before the epoch.
pub open spec fn timestamp_of(clock_ms: Option<u128>) -> Option<u64> {
    match clock_ms {
        Some(millis) => if millis <= u64::MAX {
            Some(millis as u64)
        } else {
            None
        },
        None => None,
    }
}

/// The topics and logs of a broker.
pub struct Storage {
    settings: StorageSettings,
    logs: SortedMap<(String, u32), PartitionLog>,
    topics: SortedMap<String, u32>,
    round_robin: SortedMap<String, u32>,
    marks: SortedMap<(String, u32), PartitionMark>,
    sequences: SortedMap<(((String, u32), String), u64), u64>,
}

/// The logs as values.
pub open spec fn log_views(logs: Map<(Seq<char>, u32), PartitionLog>) -> Map<
    (Seq<char>, u32),
    Log,
> {
    Map::new(
        |key: (Seq<char>, u32)| logs.dom().contains(key),
        |key: (Seq<char>, u32)| logs[key]@,
    )
}

impl View for Storage {
    type V = StorageState;

    closed spec fn view(&self) -> StorageState {
        StorageState {
            logs: log_views(self.logs@),
            topics: self.topics@,
            round_robin: self.round_robin@,
            marks: self.marks@,
            sequences: self.sequences@,
        }
    }
}

impl Storage {
    /// The settings that the storage was made with.
    pub closed spec fn settings(self) -> StorageSettings {
        self.settings
    }

    /// Each log is well formed, each topic has a partition, and only topics have turns, which
    /// stay below their partition counts.
    pub closed spec fn wf(self) -> bool {
        &&& self.settings.default_partition_count > 0
        &&& self.logs.wf()
        &&& self.topics.wf()
        &&& self.round_robin.wf()
        &&& self.marks.wf()
        &&& self.sequences.wf()
        &&& forall|key: (Seq<char>, u32)| #[trigger]
            self.logs@.dom().contains(key) ==> self.logs@[key].wf()
        &&& forall|topic: Seq<char>| #[trigger]
            self.topics@.dom().contains(topic) ==> self.topics@[topic] > 0
        &&& forall|topic: Seq<char>| #[trigger]
            self.round_robin@.dom().contains(topic) ==> self.topics@.dom().contains(topic)
                && self.round_robin@[topic] < self.topics@[topic]
    }

    /// What holds of a well-formed storage: its topics have partitions, its logs have active
    /// segments, and its turns stay below the partition counts.
    pub proof fn lemma_wf(self)
        requires
            self.wf(),
        ensures
            self.settings().default_partition_count > 0,
            forall|topic: Seq<char>| #[trigger] self@.has_topic(topic) ==> self@.topics[topic] > 0,
            forall|topic: Seq<char>| #[trigger]
                self@.has_topic(topic) ==> next_in_turn(self@.round_robin, topic)
                    < self@.topics[topic],
            forall|topic: Seq<char>, partition: u32| #[trigger]
                self@.has_log(topic, partition) ==> self@.log(topic, partition).segments.len() > 0,
    {
        assert forall|topic: Seq<char>, partition: u32| #[trigger]
            self@.has_log(topic, partition) implies self@.log(topic, partition).segments.len()
            > 0 by {
            assert(self.logs@.dom().contains((topic, partition)));
        }
        assert forall|topic: Seq<char>| #[trigger] self@.has_topic(topic) implies next_in_turn(
            self@.round_robin,
            topic,
        ) < self@.topics[topic] by {
            assert(self.topics@.dom().contains(topic));
            if self.round_robin@.dom().contains(topic) {
                assert(self.round_robin@[topic] < self.topics@[topic]);
            }
        }
    }

    /// A storage without topics, where a broker can start with the settings.
    pub fn new(settings: StorageSettings) -> (storage: Result<Storage, BrokerError>)
        ensures
            if settings.default_partition_count == 0 {
                storage matches Err(error) && error is InvalidPartitionCount
            } else if settings.queue_capacity == 0 || settings.enqueue_timeout_ms == 0 {
                storage matches Err(error) && error is InvalidStorageQueueConfig
            } else {
                &&& storage matches Ok(made)
                &&& made.wf()
                &&& made.settings() == settings
                &&& made@ == (StorageState {
                    logs: Map::empty(),
                    topics: Map::empty(),
                    round_robin: Map::empty(),
                    marks: Map::empty(),
                    sequences: Map::empty(),
                })
            },
    {
        match settings.validate() {
            Ok(()) => {},
            Err(error) => return Err(error),
        }
        let storage = Storage {
            settings,
            logs: SortedMap::new(),
            topics: SortedMap::new(),
            round_robin: SortedMap::new(),
            marks: SortedMap::new(),
            sequences: SortedMap::new(),
        };
        assert(storage@.logs =~= Map::empty());
        Ok(storage)
    }

    /// The partition count of a topic. A topic that is not there is to be created with the
    /// default count, where that is allowed.
    pub fn ensure_topic(&self, topic: &str) -> (ensured: Result<EnsuredTopic, StorageError>)
        requires
            self.wf(),
        ensures
            ensured == if self@.has_topic(topic@) {
                Ok(EnsuredTopic::Exists { partitions: self@.topics[topic@] })
            } else if self.settings().auto_create_topics {
                Ok(EnsuredTopic::Create { partitions: self.settings().default_partition_count })
            } else {
                Err(StorageError::UnknownTopic)
            },
    {
        match self.topics.get(&topic.to_owned()) {
            Some(count) => Ok(EnsuredTopic::Exists { partitions: *count }),
            None => if self.settings.auto_create_topics {
                Ok(EnsuredTopic::Create { partitions: self.settings.default_partition_count })
            } else {
                Err(StorageError::UnknownTopic)
            },
        }
    }

    /// The partitions whose logs are opened to create a topic: those that have none yet.
    pub fn create_topic(&self, topic: &str, partitions: u32) -> (missing: Result<
        Vec<u32>,
        StorageError,
    >)
        requires
            self.wf(),
        ensures
            if partitions == 0 {
                missing matches Err(error) && error == StorageError::InvalidTopic
            } else if self@.has_topic(topic@) {
                missing matches Err(error) && error == StorageError::TopicAlreadyExists
            } else {
                &&& missing matches Ok(found)
                &&& found@ == missing_partitions(self@, topic@, partitions as nat)
            },
    {
        if partitions == 0 {
            return Err(StorageError::InvalidTopic);
        }
        if self.topics.contains_key(&topic.to_owned()) {
            return Err(StorageError::TopicAlreadyExists);
        }
        let mut missing: Vec<u32> = Vec::new();
        for partition in 0..partitions
            invariant
                self.wf(),
                missing@ == missing_partitions(self@, topic@, partition as nat),
        {
            if !self.logs.contains_key(&(topic.to_owned(), partition)) {
                missing.push(partition);
            }
        }
        Ok(missing)
    }

    /// Starts to open the log of a partition.
    pub fn open_log(&self, topic: &str, partition: u32) -> (recovery: Result<
        LogRecovery,
        StorageError,
    >)
        ensures
            match storage::open_refusal(
                topic@,
                self.settings().max_segment_bytes,
                self.settings().index_interval_bytes,
            ) {
                None => {
                    &&& recovery matches Ok(started)
                    &&& started.wf()
                    &&& started@ == (Log {
                        next_offset: 0,
                        max_segment_bytes: self.settings().max_segment_bytes,
                        index_interval_bytes: self.settings().index_interval_bytes,
                        partition_dir: storage::partition_path(
                            self.settings().data_dir@,
                            topic@,
                            partition as nat,
                        ),
                        segments: Seq::empty(),
                    })
                },
                Some(error) => recovery matches Err(found) && found == error,
            },
    {
        PartitionLog::open(
            self.settings.data_dir.as_str(),
            topic,
            partition,
            self.settings.max_segment_bytes,
            self.settings.index_interval_bytes,
        )
    }

    /// Adds an opened log.
    pub fn add_log(&mut self, topic: &str, partition: u32, log: PartitionLog)
        requires
            old(self).wf(),
            log.wf(),
        ensures
            final(self).wf(),
            final(self).settings() == old(self).settings(),
            final(self)@ == old(self)@.opened(
                topic@,
                partition,
                log@,
                old(self).settings().min_in_sync_replicas,
            ),
    {
        let end: u64 = log.next_offset();
        self.put_log(topic, partition, log);
        if self.settings.min_in_sync_replicas <= 1 {
            self.commit(topic, partition, end);
        }
    }

    fn put_log(&mut self, topic: &str, partition: u32, log: PartitionLog)
        requires
            old(self).wf(),
            log.wf(),
        ensures
            final(self).wf(),
            final(self).settings() == old(self).settings(),
            final(self)@ == old(self)@.with_log(topic@, partition, log@),
    {
        let ghost before = *self;
        self.logs.insert((topic.to_owned(), partition), log);
        proof {
            assert(self@.logs =~= before@.logs.insert((topic@, partition), log@));
        }
    }

    /// Takes note that a topic was created.
    pub fn topic_created(&mut self, topic: &str, partitions: u32) -> (metadata: TopicMetadata)
        requires
            old(self).wf(),
            partitions > 0,
            !old(self)@.has_topic(topic@),
        ensures
            final(self).wf(),
            final(self).settings() == old(self).settings(),
            final(self)@ == (StorageState {
                topics: old(self)@.topics.insert(topic@, partitions),
                ..old(self)@
            }),
            metadata.topic@ == topic@,
            metadata.partitions == partitions,
            metadata.leaders@.len() == 0,
    {
        let ghost before = *self;
        self.topics.insert(topic.to_owned(), partitions);
        proof {
            assert forall|other: Seq<char>| #[trigger]
                self.round_robin@.dom().contains(other) implies self.topics@.dom().contains(other)
                && self.round_robin@[other] < self.topics@[other] by {
                assert(before.round_robin@.dom().contains(other));
                assert(before.topics@.dom().contains(other));
            }
            assert forall|other: Seq<char>| #[trigger]
                self.topics@.dom().contains(other) implies self.topics@[other] > 0 by {
                if other != topic@ {
                    assert(before.topics@.dom().contains(other));
                }
            }
        }
        TopicMetadata { topic: topic.to_owned(), partitions, leaders: Vec::new() }
    }
}

impl Storage {
    /// The partition that a message of a known topic goes to. `hash` is the checksum of its
    /// routing key.
    pub fn route(&mut self, topic: &str, partition: Option<u32>, hash: Option<u32>) -> (
        routed: Result<u32, StorageError>)
        requires
            old(self).wf(),
            old(self)@.has_topic(topic@),
        ensures
            final(self).wf(),
            final(self).settings() == old(self).settings(),
            match old(self)@.routed(topic@, partition, hash) {
                Ok((chosen, after)) => {
                    &&& routed == Ok::<u32, StorageError>(chosen)
                    &&& final(self)@ == after
                },
                Err(error) => {
                    &&& routed == Err::<u32, StorageError>(error)
                    &&& final(self)@ == old(self)@
                },
            },
    {
        let ghost before = *self;
        proof {
            before.lemma_wf();
        }
        let count: u32 = match self.topics.get(&topic.to_owned()) {
            Some(count) => *count,
            None => return Err(StorageError::UnknownTopic),
        };
        match partition {
            Some(chosen) => if chosen >= count {
                Err(StorageError::UnknownPartition(chosen))
            } else {
                Ok(chosen)
            },
            None => match hash {
                Some(hash) => Ok(partition_of_hash(hash, count)),
                None => {
                    assert(before@.has_topic(topic@));
                    let chosen: u32 = partition_in_turn(count, &mut self.round_robin, topic);
                    proof {
                        let next = ((chosen + 1) as int % count as int) as u32;
                        assert(next < count);
                        assert forall|other: Seq<char>| #[trigger]
                            self.round_robin@.dom().contains(
                                other,
                            ) implies self.topics@.dom().contains(other)
                            && self.round_robin@[other] < self.topics@[other] by {
                            if other != topic@ {
                                assert(before.round_robin@.dom().contains(other));
                            }
                        }
                        assert(self@ =~= before@.routed(topic@, partition, hash)->Ok_0.1);
                    }
                    Ok(chosen)
                },
            },
        }
    }

    /// What is to be written for a record that goes to a partition of the storage.
    pub fn plan_append(&self, topic: &str, partition: u32, record: &Record) -> (plan: Result<
        AppendPlan,
        StorageError,
    >)
        requires
            self.wf(),
        ensures
            if !self@.has_log(topic@, partition) {
                plan matches Err(error) && error == StorageError::InvalidTopic
            } else {
                let log = self@.log(topic@, partition);
                let entry = record.at(log.next_offset);
                if entry.fits() {
                    plan matches Ok(made) && is_plan(made, log, entry)
                } else {
                    plan matches Err(error) && error == StorageError::RecordTooLarge
                }
            },
    {
        match self.logs.get(&(topic.to_owned(), partition)) {
            Some(log) => log.plan_append(record),
            None => Err(StorageError::InvalidTopic),
        }
    }

    /// Where a message of a producer was stored, if it was.
    fn sequence_offset(&self, topic: &str, partition: u32, sent: &ProducerIdentity) -> (offset:
        Option<u64>)
        requires
            self.wf(),
        ensures
            offset == stored_at(self@, topic@, partition, *sent),
    {
        let key = (((topic.to_owned(), partition), sent.id.clone()), sent.sequence);
        assert(key.value() == sequence_key(topic@, partition, sent.id@, sent.sequence));
        match self.sequences.get(&key) {
            Some(offset) => Some(*offset),
            None => None,
        }
    }

    /// What is done with a message whose routing key has this checksum.
    pub fn append_hashed(
        &mut self,
        input: &AppendInput,
        hash: Option<u32>,
        clock_ms: Option<u128>,
    ) -> (step: Result<AppendStep, StorageError>)
        requires
            old(self).wf(),
        ensures
            final(self).wf(),
            final(self).settings() == old(self).settings(),
            is_append(
                old(self)@,
                old(self).settings(),
                *input,
                hash,
                clock_ms,
                final(self)@,
                step,
            ),
    {
        let topic = input.topic.as_str();
        match self.ensure_topic(topic) {
            Ok(EnsuredTopic::Exists { .. }) => {},
            Ok(EnsuredTopic::Create { partitions }) => {
                return Ok(AppendStep::CreateTopic { partitions });
            },
            Err(error) => return Err(error),
        }
        let partition: u32 = match self.route(topic, input.partition, hash) {
            Ok(partition) => partition,
            Err(error) => return Err(error),
        };
        if !self.logs.contains_key(&(topic.to_owned(), partition)) {
            return Err(StorageError::InvalidTopic);
        }
        if let Some(sent) = &input.producer {
            if let Some(offset) = self.sequence_offset(topic, partition, sent) {
                return Ok(
                    AppendStep::Held {
                        ack: ProduceAck { partition, offset },
                        sync: input.ack_mode == AckMode::Durable,
                    },
                );
            }
        }
        let timestamp_ms: u64 = match clock_ms {
            Some(millis) => if millis <= u64::MAX as u128 {
                millis as u64
            } else {
                return Err(StorageError::InvalidTimestamp);
            },
            None => return Err(StorageError::InvalidTimestamp),
        };
        let key: Option<Bytes> = if input.key.len() == 0 {
            None
        } else {
            Some(input.key.clone())
        };
        let record = Record::new(key, input.value.clone(), timestamp_ms);
        proof {
            let offset = self@.log(topic@, partition).next_offset;
            assert(record.at(offset) =~= entry_of(*input, timestamp_ms, offset));
        }
        match self.plan_append(topic, partition, &record) {
            Ok(plan) => Ok(
                AppendStep::Write { partition, plan, sync: input.ack_mode == AckMode::Durable },
            ),
            Err(error) => Err(error),
        }
    }

    /// What is done with a message: its topic is created, or it is written to its partition.
    pub fn append_record(&mut self, input: &AppendInput, clock_ms: Option<u128>) -> (step: Result<
        AppendStep,
        StorageError,
    >)
        requires
            old(self).wf(),
        ensures
            final(self).wf(),
            final(self).settings() == old(self).settings(),
            is_append(
                old(self)@,
                old(self).settings(),
                *input,
                routing_hash(routing_key(*input)),
                clock_ms,
                final(self)@,
                step,
            ),
    {
        let hash: Option<u32> = if input.key.len() > 0 {
            Some(crc32fast::hash(buffer::as_slice(&input.key)))
        } else {
            match &input.producer {
                Some(producer) => Some(crc32fast::hash(producer.id.as_str().as_bytes())),
                None => None,
            }
        };
        self.append_hashed(input, hash, clock_ms)
    }
}

impl Storage {
    /// The log of a partition, taken out so that it can be changed and put back.
    fn take_log(&mut self, topic: &str, partition: u32) -> (log: Option<PartitionLog>)
        requires
            old(self).wf(),
        ensures
            final(self).wf(),
            final(self).settings() == old(self).settings(),
            final(self)@ == (StorageState {
                logs: old(self)@.logs.remove((topic@, partition)),
                ..old(self)@
            }),
            match log {
                Some(taken) => {
                    &&& taken.wf()
                    &&& old(self)@.has_log(topic@, partition)
                    &&& taken@ == old(self)@.log(topic@, partition)
                },
                None => !old(self)@.has_log(topic@, partition),
            },
    {
        let ghost before = *self;
        let log = self.logs.remove(&(topic.to_owned(), partition));
        proof {
            let key = (topic@, partition);
            assert(before@.has_log(topic@, partition) == before.logs@.dom().contains(key));
            assert(self@.logs =~= before@.logs.remove(key));
        }
        log
    }

    /// Where the log of a partition creates its next segment.
    pub fn next_segment_path(&self, topic: &str, partition: u32) -> (path: Option<String>)
        requires
            self.wf(),
        ensures
            match path {
                Some(found) => {
                    let log = self@.log(topic@, partition);
                    &&& self@.has_log(topic@, partition)
                    &&& found@ == storage::segment_path(
                        log.partition_dir,
                        log.next_offset as nat,
                    )
                },
                None => !self@.has_log(topic@, partition),
            },
    {
        match self.logs.get(&(topic.to_owned(), partition)) {
            Some(log) => Some(log.next_segment_path()),
            None => None,
        }
    }

    /// The file that the records of a partition are appended to.
    pub fn active_path(&self, topic: &str, partition: u32) -> (path: Option<String>)
        requires
            self.wf(),
        ensures
            match path {
                Some(found) => {
                    &&& self@.has_log(topic@, partition)
                    &&& found@ == self@.log(topic@, partition).active().path
                },
                None => !self@.has_log(topic@, partition),
            },
    {
        match self.logs.get(&(topic.to_owned(), partition)) {
            Some(log) => Some(log.active_path().to_owned()),
            None => None,
        }
    }

    /// Takes note that the next segment of a partition was created.
    pub fn rotate(&mut self, topic: &str, partition: u32)
        requires
            old(self).wf(),
            old(self)@.has_log(topic@, partition),
        ensures
            final(self).wf(),
            final(self).settings() == old(self).settings(),
            final(self)@ == old(self)@.with_log(
                topic@,
                partition,
                old(self)@.log(topic@, partition).rotated(),
            ),
    {
        let ghost before = self@;
        match self.take_log(topic, partition) {
            Some(mut log) => {
                log.rotate();
                let ghost rotated = log@;
                self.put_log(topic, partition, log);
                proof {
                    assert(self@ =~= before.with_log(topic@, partition, rotated));
                }
            },
            None => {},
        }
    }

    /// Takes note that the bytes of `plan` were written to the log of a partition, and gives the
    /// place of the record. A message of a producer is noted by its sequence number.
    pub fn append(
        &mut self,
        topic: &str,
        partition: u32,
        plan: &AppendPlan,
        producer: &Option<ProducerIdentity>,
    ) -> (ack: Result<ProduceAck, StorageError>)
        requires
            old(self).wf(),
            old(self)@.has_log(topic@, partition),
            plan.suits(old(self)@.log(topic@, partition)),
        ensures
            final(self).wf(),
            final(self).settings() == old(self).settings(),
            ({
                let log = old(self)@.log(topic@, partition);
                let size = buffer::buffered(plan.encoded).len();
                if log.active().len + size > u64::MAX {
                    &&& ack == Err::<ProduceAck, StorageError>(StorageError::RecordTooLarge)
                    &&& final(self)@ == old(self)@
                } else if log.next_offset == u64::MAX {
                    &&& ack == Err::<ProduceAck, StorageError>(StorageError::OffsetOverflow)
                    &&& final(self)@ == old(self)@.with_log(topic@, partition, log.appended(size))
                } else {
                    &&& ack == Ok::<ProduceAck, StorageError>(
                        ProduceAck { partition, offset: plan.offset },
                    )
                    &&& final(self)@ == old(self)@.written(
                        topic@,
                        partition,
                        size,
                        *producer,
                        old(self).settings().min_in_sync_replicas,
                    )
                }
            }),
    {
        let ghost before = self@;
        match self.take_log(topic, partition) {
            Some(mut log) => {
                let ghost taken = log@;
                let appended = log.append(plan);
                let ghost grown = log@;
                let end: u64 = log.next_offset();
                self.put_log(topic, partition, log);
                proof {
                    assert(self@ =~= before.with_log(topic@, partition, grown));
                    if grown == taken {
                        assert(self@ =~= before);
                    }
                }
                let offset: u64 = match appended {
                    Ok(offset) => offset,
                    Err(error) => return Err(error),
                };
                if let Some(sent) = producer {
                    let key = (((topic.to_owned(), partition), sent.id.clone()), sent.sequence);
                    assert(key.value() == sequence_key(
                        topic@,
                        partition,
                        sent.id@,
                        sent.sequence,
                    ));
                    self.sequences.insert(key, offset);
                }
                if self.settings.min_in_sync_replicas <= 1 {
                    self.commit(topic, partition, end);
                }
                Ok(ProduceAck { partition, offset })
            },
            None => Err(StorageError::InvalidTopic),
        }
    }

    /// The epoch and the high watermark of a partition.
    pub fn mark(&self, topic: &str, partition: u32) -> (mark: PartitionMark)
        requires
            self.wf(),
        ensures
            mark == self@.mark(topic@, partition),
    {
        match self.marks.get(&(topic.to_owned(), partition)) {
            Some(mark) => *mark,
            None => PartitionMark { epoch: 0, followed: 0, high_watermark: 0 },
        }
    }

    /// Takes note that the records of a partition below an offset are held by a quorum.
    pub fn commit(&mut self, topic: &str, partition: u32, offset: u64)
        requires
            old(self).wf(),
            old(self)@.has_log(topic@, partition),
        ensures
            final(self).wf(),
            final(self).settings() == old(self).settings(),
            final(self)@ == old(self)@.committed(topic@, partition, offset),
    {
        let mark: PartitionMark = self.mark(topic, partition);
        let end: u64 = match self.logs.get(&(topic.to_owned(), partition)) {
            Some(log) => log.next_offset(),
            None => 0,
        };
        let reached: u64 = if offset <= end {
            offset
        } else {
            end
        };
        if reached > mark.high_watermark {
            self.marks.insert(
                (topic.to_owned(), partition),
                PartitionMark {
                    epoch: mark.epoch,
                    followed: mark.followed,
                    high_watermark: reached,
                },
            );
        }
    }

    /// Takes note of the leadership of a partition: of its epoch where that is newer, and of
    /// what it says is committed.
    pub fn adopt(&mut self, topic: &str, leadership: &PartitionLeadership, leads: bool)
        requires
            old(self).wf(),
            old(self)@.has_log(topic@, leadership.partition),
        ensures
            final(self).wf(),
            final(self).settings() == old(self).settings(),
            final(self)@ == old(self)@.adopted(topic@, *leadership, leads),
    {
        let mark: PartitionMark = self.mark(topic, leadership.partition);
        if leads {
            self.follow_epoch(topic, leadership.partition, leadership.leader_epoch);
        } else if leadership.leader_epoch > mark.epoch {
            self.marks.insert(
                (topic.to_owned(), leadership.partition),
                PartitionMark {
                    epoch: leadership.leader_epoch,
                    followed: mark.followed,
                    high_watermark: mark.high_watermark,
                },
            );
        }
        self.commit(topic, leadership.partition, leadership.high_watermark);
    }

    fn follow_epoch(&mut self, topic: &str, partition: u32, epoch: u64)
        requires
            old(self).wf(),
        ensures
            final(self).wf(),
            final(self).settings() == old(self).settings(),
            final(self)@ == old(self)@.with_followed(topic@, partition, epoch),
    {
        let mark: PartitionMark = self.mark(topic, partition);
        if epoch > mark.followed {
            self.marks.insert(
                (topic.to_owned(), partition),
                PartitionMark {
                    epoch: if epoch > mark.epoch {
                        epoch
                    } else {
                        mark.epoch
                    },
                    followed: epoch,
                    high_watermark: mark.high_watermark,
                },
            );
        }
    }

    /// Whether a record of a leader may be looked at: a leader of an older epoch is refused, and
    /// one of a newer epoch is followed once what is not committed is cut off.
    fn check_epoch(&mut self, record: &ReplicateRecord) -> (checked: Result<
        Option<u64>,
        StorageError,
    >)
        requires
            old(self).wf(),
            old(self)@.has_log(record.topic@, record.partition),
        ensures
            final(self).wf(),
            final(self).settings() == old(self).settings(),
            (checked, final(self)@) == epoch_checked(old(self)@, *record),
    {
        let topic = record.topic.as_str();
        let mark: PartitionMark = self.mark(topic, record.partition);
        if record.leader_epoch < mark.epoch {
            return Err(
                StorageError::StaleEpoch { expected: mark.epoch, actual: record.leader_epoch },
            );
        }
        if record.leader_epoch > mark.followed {
            let end: u64 = match self.logs.get(&(topic.to_owned(), record.partition)) {
                Some(log) => log.next_offset(),
                None => 0,
            };
            if end > mark.high_watermark {
                return Ok(Some(mark.high_watermark));
            }
            self.follow_epoch(topic, record.partition, record.leader_epoch);
        }
        self.commit(topic, record.partition, record.high_watermark);
        Ok(None)
    }

    /// What a follower does with a record of the leader. A leader of an older epoch is refused.
    /// For one of a newer epoch, what is not committed is cut off first. The log then takes the
    /// record that comes next; it has those before, and refuses those that would leave a gap.
    pub fn append_replica(&mut self, record: &ReplicateRecord) -> (step: Result<
        ReplicaStep,
        StorageError,
    >)
        requires
            old(self).wf(),
        ensures
            final(self).wf(),
            final(self).settings() == old(self).settings(),
            is_replica_step(old(self)@, *record, final(self)@, step),
    {
        let topic = record.topic.as_str();
        let count: u32 = match self.topics.get(&topic.to_owned()) {
            Some(count) => *count,
            None => return Err(StorageError::UnknownTopic),
        };
        if record.partition >= count {
            return Err(StorageError::UnknownPartition(record.partition));
        }
        if !self.logs.contains_key(&(topic.to_owned(), record.partition)) {
            return Err(StorageError::InvalidTopic);
        }
        assert(self@.has_log(topic@, record.partition));
        match self.check_epoch(record) {
            Ok(None) => {},
            Ok(Some(to)) => return Ok(ReplicaStep::Truncate { to }),
            Err(error) => return Err(error),
        }
        let log = match self.logs.get(&(topic.to_owned(), record.partition)) {
            Some(log) => log,
            None => return Err(StorageError::InvalidTopic),
        };
        assert(log@ == self@.log(topic@, record.partition));
        let next_offset: u64 = log.next_offset();
        if record.offset < next_offset {
            return Ok(ReplicaStep::Held { next_offset });
        }
        if record.offset > next_offset {
            return Err(
                StorageError::UnexpectedOffset { expected: next_offset, actual: record.offset },
            );
        }
        let appended = Record::new(
            record::clone_key(&record.key),
            record.value.clone(),
            record.timestamp_ms,
        );
        assert(appended.at(next_offset) =~= record@);
        match log.plan_append(&appended) {
            Ok(plan) => Ok(ReplicaStep::Write { plan, sync: record.durable }),
            Err(error) => Err(error),
        }
    }

    /// What a follower does with a record that comes in: one that would leave a gap is held
    /// back, so that the answer tells the leader which record to send.
    pub fn receive_replica(&mut self, record: &ReplicateRecord) -> (step: Result<
        ReplicaStep,
        StorageError,
    >)
        requires
            old(self).wf(),
        ensures
            final(self).wf(),
            final(self).settings() == old(self).settings(),
            is_received(old(self)@, *record, final(self)@, step),
    {
        let expected: u64 = match self.partition_offset(record.topic.as_str(), record.partition) {
            Ok(expected) => expected,
            Err(error) => return Err(error),
        };
        if record.offset > expected {
            match self.check_epoch(record) {
                Ok(None) => Ok(ReplicaStep::Held { next_offset: expected }),
                Ok(Some(to)) => Ok(ReplicaStep::Truncate { to }),
                Err(error) => Err(error),
            }
        } else {
            self.append_replica(record)
        }
    }

    /// The file whose contents tell where the log of a partition is cut off.
    pub fn cut_path(&self, topic: &str, partition: u32, to: u64) -> (path: Option<String>)
        requires
            self.wf(),
        ensures
            match path {
                Some(found) => {
                    let log = self@.log(topic@, partition);
                    &&& self@.has_log(topic@, partition)
                    &&& found@ == log.segments[log.cut_segment(to)].path
                },
                None => !self@.has_log(topic@, partition),
            },
    {
        match self.logs.get(&(topic.to_owned(), partition)) {
            Some(log) => Some(log.cut_path(to).1),
            None => None,
        }
    }

    /// How the log of a partition is cut off at an offset.
    pub fn plan_truncation(&self, topic: &str, partition: u32, to: u64, contents: &[u8]) -> (
        cut: Result<Truncation, StorageError>)
        requires
            self.wf(),
        ensures
            if !self@.has_log(topic@, partition) {
                cut matches Err(error) && error == StorageError::InvalidTopic
            } else {
                let log = self@.log(topic@, partition);
                match log.truncated(to, contents@) {
                    Ok(after) => cut matches Ok(made) && made.makes(log, after),
                    Err(error) => cut matches Err(found) && found == error,
                }
            },
    {
        match self.logs.get(&(topic.to_owned(), partition)) {
            Some(log) => log.truncate(to, contents),
            None => Err(StorageError::InvalidTopic),
        }
    }

    /// Takes note that the log of a partition was cut off to follow a leader of this epoch.
    pub fn truncated(&mut self, topic: &str, partition: u32, log: PartitionLog, epoch: u64)
        requires
            old(self).wf(),
            log.wf(),
        ensures
            final(self).wf(),
            final(self).settings() == old(self).settings(),
            final(self)@ == old(self)@.cut(topic@, partition, log@).with_followed(
                topic@,
                partition,
                epoch,
            ),
    {
        let end: u64 = log.next_offset();
        self.forget_sequences(topic, partition, end);
        self.put_log(topic, partition, log);
        assert(self@ =~= old(self)@.cut(topic@, partition, log@));
        self.follow_epoch(topic, partition, epoch);
    }

    /// Forgets where producers stored messages of a partition at or above an offset.
    fn forget_sequences(&mut self, topic: &str, partition: u32, end: u64)
        requires
            old(self).wf(),
        ensures
            final(self).wf(),
            final(self).settings() == old(self).settings(),
            final(self)@ == (StorageState {
                sequences: Map::new(
                    |key: SequenceKey|
                        old(self)@.sequences.dom().contains(key) && (key.0.0 != (topic@, partition)
                            || old(self)@.sequences[key] < end),
                    |key: SequenceKey| old(self)@.sequences[key],
                ),
                ..old(self)@
            }),
    {
        let ghost all = self.sequences@;
        let mut kept: SortedMap<(((String, u32), String), u64), u64> = SortedMap::new();
        let mut i: usize = 0;
        while i < self.sequences.len()
            invariant
                i <= self.sequences.keys@.len(),
                self.sequences.wf(),
                all == self.sequences@,
                kept.wf(),
                forall|key: SequenceKey| #[trigger]
                    kept@.dom().contains(key) ==> all.dom().contains(key) && kept@[key] == all[key]
                        && (key.0.0 != (topic@, partition) || all[key] < end),
                forall|j: int|
                    0 <= j < i ==> {
                        let key = (#[trigger] self.sequences.keys@[j]).value();
                        key.0.0 != (topic@, partition) || all[key] < end ==> kept@.dom().contains(
                            key,
                        )
                    },
            decreases self.sequences.keys@.len() - i,
        {
            proof {
                self.sequences.lemma_at(i as int);
            }
            let key = &self.sequences.keys[i];
            let offset: u64 = self.sequences.values[i];
            let here: bool = key.0.0.1 == partition && text::same(key.0.0.0.as_str(), topic);
            assert(here == (key.value().0.0 == (topic@, partition)));
            if !here || offset < end {
                kept.insert(key.duplicate(), offset);
            }
            i = i + 1;
        }
        proof {
            let wanted = Map::new(
                |key: SequenceKey|
                    all.dom().contains(key) && (key.0.0 != (topic@, partition) || all[key] < end),
                |key: SequenceKey| all[key],
            );
            assert forall|key: SequenceKey| #[trigger] wanted.dom().contains(key) implies kept@
                .dom().contains(key) by {
                let j = self.sequences.lemma_place(key);
                assert(self.sequences.keys@[j].value() == key);
            }
            assert(kept@ =~= wanted);
        }
        self.sequences = kept;
    }

    /// Takes in what is noted of the messages that a partition holds.
    pub fn restore_sequences(
        &mut self,
        topic: &str,
        partition: u32,
        stored: &Vec<StoredMessage>,
    )
        requires
            old(self).wf(),
        ensures
            final(self).wf(),
            final(self).settings() == old(self).settings(),
            final(self)@ == old(self)@.with_notes(topic@, partition, producers::notes_of(stored@)),
    {
        let ghost before = self@;
        let ghost settings = self.settings();
        let ghost notes = producers::notes_of(stored@);
        assert(notes.take(0) =~= Seq::empty());
        for i in 0..stored.len()
            invariant
                self.wf(),
                self.settings() == settings,
                notes == producers::notes_of(stored@),
                self@ == before.with_notes(topic@, partition, notes.take(i as int)),
        {
            let message = &stored[i];
            proof {
                assert(notes.take(i + 1).drop_last() =~= notes.take(i as int));
                assert(notes.take(i + 1).last() == message@);
            }
            let key = (
                ((topic.to_owned(), partition), message.producer.id.clone()),
                message.producer.sequence,
            );
            assert(key.value() == sequence_key(
                topic@,
                partition,
                message.producer.id@,
                message.producer.sequence,
            ));
            self.sequences.insert(key, message.offset);
        }
        assert(notes.take(notes.len() as int) =~= notes);
    }

    /// Who sent the message at an offset of a partition, where that is known.
    pub fn producer_at(&self, topic: &str, partition: u32, offset: u64) -> (found: Option<
        ProducerIdentity,
    >)
        requires
            self.wf(),
        ensures
            match found {
                Some(sent) => stored_at(self@, topic@, partition, sent) == Some(offset),
                None => forall|id: Seq<char>, sequence: u64| #[trigger]
                    stored_under(self@, topic@, partition, id, sequence) != Some(offset),
            },
    {
        let mut i: usize = 0;
        while i < self.sequences.len()
            invariant
                self.wf(),
                i <= self.sequences.keys@.len(),
                forall|j: int|
                    0 <= j < i ==> {
                        let key = (#[trigger] self.sequences.keys@[j]).value();
                        key.0.0 != (topic@, partition) || self.sequences@[key] != offset
                    },
            decreases self.sequences.keys@.len() - i,
        {
            proof {
                self.sequences.lemma_at(i as int);
            }
            let key = &self.sequences.keys[i];
            let here: bool = key.0.0.1 == partition && text::same(key.0.0.0.as_str(), topic);
            assert(here == (key.value().0.0 == (topic@, partition)));
            if here && self.sequences.values[i] == offset {
                let sent = ProducerIdentity { id: key.0.1.clone(), sequence: key.1 };
                assert(key.value() == sequence_key(topic@, partition, sent.id@, sent.sequence));
                return Some(sent);
            }
            i = i + 1;
        }
        proof {
            assert forall|id: Seq<char>, sequence: u64| #[trigger]
                stored_under(self@, topic@, partition, id, sequence) != Some(offset) by {
                let key = sequence_key(topic@, partition, id, sequence);
                if self@.sequences.dom().contains(key) {
                    let j = self.sequences.lemma_place(key);
                    assert(self.sequences.keys@[j].value() == key);
                }
            }
        }
        None
    }

    /// The file that tells of the messages of producers that a partition holds.
    pub fn notes_path(&self, topic: &str, partition: u32) -> (path: Option<String>)
        requires
            self.wf(),
        ensures
            match path {
                Some(found) => {
                    &&& self@.has_log(topic@, partition)
                    &&& found@ == storage::path_below(
                        self@.log(topic@, partition).partition_dir,
                        "producers.meta"@,
                    )
                },
                None => !self@.has_log(topic@, partition),
            },
    {
        match self.logs.get(&(topic.to_owned(), partition)) {
            Some(log) => Some(producers::notes_path(log.partition_dir())),
            None => None,
        }
    }

    /// How a fetch from a partition begins. It never gets past the high watermark.
    pub fn read_records(&self, topic: &str, partition: u32, offset: u64, max_bytes: u32) -> (
        start: Result<ReadStart, StorageError>)
        requires
            self.wf(),
        ensures
            is_read_start(
                self@,
                self.settings(),
                topic@,
                partition,
                offset,
                max_bytes,
                Visibility::Committed,
                start,
            ),
    {
        self.start_read(topic, partition, offset, max_bytes, Visibility::Committed)
    }

    /// How a read of a partition begins, of committed records or of all that are stored.
    pub fn start_read(
        &self,
        topic: &str,
        partition: u32,
        offset: u64,
        max_bytes: u32,
        visibility: Visibility,
    ) -> (start: Result<ReadStart, StorageError>)
        requires
            self.wf(),
        ensures
            is_read_start(
                self@,
                self.settings(),
                topic@,
                partition,
                offset,
                max_bytes,
                visibility,
                start,
            ),
    {
        let count: u32 = match self.ensure_topic(topic) {
            Ok(EnsuredTopic::Exists { partitions }) => partitions,
            Ok(EnsuredTopic::Create { partitions }) => {
                return Ok(ReadStart::CreateTopic { partitions });
            },
            Err(error) => return Err(error),
        };
        if !self.logs.contains_key(&(topic.to_owned(), partition)) {
            if partition >= count {
                return Err(StorageError::UnknownPartition(partition));
            }
            return Ok(ReadStart::OpenLog);
        }
        let limit: u64 = match visibility {
            Visibility::Committed => self.mark(topic, partition).high_watermark,
            Visibility::Stored => u64::MAX,
        };
        match LogReader::new(offset, max_bytes as usize, limit) {
            Ok(reader) => Ok(ReadStart::Read(reader)),
            Err(error) => Err(error),
        }
    }

    /// What a read of a partition looks into next, if anything is left for it.
    pub fn next_read(&self, topic: &str, partition: u32, reader: &LogReader) -> (step: Option<
        ReadStep,
    >)
        requires
            self.wf(),
        ensures
            ({
                let log = self@.log(topic@, partition);
                let segment = log.next_segment(reader@.cursor as int, reader@.offset);
                if !self@.has_log(topic@, partition) || reader@.full || segment
                    >= log.segments.len() {
                    step is None
                } else {
                    &&& step matches Some(made)
                    &&& made.segment == segment
                    &&& made.segment < usize::MAX
                    &&& made.path@ == log.segments[segment].path
                    &&& Some(made.position) == log.read_position(segment, reader@.offset)
                }
            }),
    {
        match self.logs.get(&(topic.to_owned(), partition)) {
            Some(log) => log.next_read(reader),
            None => None,
        }
    }

    /// The offset that the next record of a partition gets.
    pub fn partition_offset(&self, topic: &str, partition: u32) -> (offset: Result<
        u64,
        StorageError,
    >)
        requires
            self.wf(),
        ensures
            offset == if self@.has_log(topic@, partition) {
                Ok(self@.log(topic@, partition).next_offset)
            } else {
                Err(StorageError::UnknownPartition(partition))
            },
    {
        match self.logs.get(&(topic.to_owned(), partition)) {
            Some(log) => Ok(log.next_offset()),
            None => Err(StorageError::UnknownPartition(partition)),
        }
    }

    /// The topics in order of their names.
    pub fn list_topics(&self) -> (topics: Vec<TopicMetadata>)
        requires
            self.wf(),
        ensures
            sorted::enumerates::<String>(topic_names(topics@), self@.topics.dom()),
            forall|i: int|
                0 <= i < topics@.len() ==> (#[trigger] topics@[i]).partitions
                    == self@.topics[topics@[i].topic@] && topics@[i].leaders@.len() == 0,
    {
        let mut topics: Vec<TopicMetadata> = Vec::new();
        let mut i: usize = 0;
        while i < self.topics.len()
            invariant
                i <= self.topics.keys@.len(),
                self.topics.wf(),
                self@.topics == self.topics@,
                topic_names(topics@) == self.topics.key_values().take(i as int),
                forall|j: int|
                    0 <= j < topics@.len() ==> (#[trigger] topics@[j]).partitions
                        == self@.topics[topics@[j].topic@] && topics@[j].leaders@.len() == 0,
            decreases self.topics.keys@.len() - i,
        {
            proof {
                self.topics.lemma_at(i as int);
            }
            let ghost before = topics@;
            topics.push(
                TopicMetadata {
                    topic: self.topics.keys[i].clone(),
                    partitions: self.topics.values[i],
                    leaders: Vec::new(),
                },
            );
            proof {
                assert(topic_names(topics@) =~= topic_names(before).push(
                    self.topics.key_values()[i as int],
                ));
                assert(self.topics.key_values().take(i + 1)
                    =~= self.topics.key_values().take(i as int).push(
                    self.topics.key_values()[i as int],
                ));
            }
            i = i + 1;
        }
        proof {
            self.topics.lemma_ordered();
            assert(self.topics.key_values().take(i as int) =~= self.topics.key_values());
        }
        topics
    }

    /// The extent of each log, in order of topics and partitions.
    pub fn snapshot_logs(&self) -> (snapshots: Vec<PartitionSnapshot>)
        requires
            self.wf(),
        ensures
            sorted::enumerates::<(String, u32)>(snapshot_keys(snapshots@), self@.logs.dom()),
            forall|i: int|
                0 <= i < snapshots@.len() ==> shows_log(
                    #[trigger] snapshots@[i],
                    self@.log(snapshots@[i].topic@, snapshots@[i].partition),
                    self@.mark(snapshots@[i].topic@, snapshots@[i].partition),
                ),
    {
        let mut snapshots: Vec<PartitionSnapshot> = Vec::new();
        let mut i: usize = 0;
        while i < self.logs.len()
            invariant
                i <= self.logs.keys@.len(),
                self.wf(),
                snapshot_keys(snapshots@) == self.logs.key_values().take(i as int),
                forall|j: int|
                    0 <= j < snapshots@.len() ==> shows_log(
                        #[trigger] snapshots@[j],
                        self@.log(snapshots@[j].topic@, snapshots@[j].partition),
                        self@.mark(snapshots@[j].topic@, snapshots@[j].partition),
                    ),
            decreases self.logs.keys@.len() - i,
        {
            proof {
                self.logs.lemma_at(i as int);
                assert(self.logs.keys@[i as int].value() == (
                    self.logs.keys@[i as int].0@,
                    self.logs.keys@[i as int].1,
                ));
            }
            let ghost before = snapshots@;
            let log = &self.logs.values[i];
            let mark: PartitionMark = self.mark(
                self.logs.keys[i].0.as_str(),
                self.logs.keys[i].1,
            );
            snapshots.push(
                PartitionSnapshot {
                    topic: self.logs.keys[i].0.clone(),
                    partition: self.logs.keys[i].1,
                    log_end_offset: log.next_offset(),
                    high_watermark: mark.high_watermark,
                    low_watermark: log.low_watermark(),
                    log_size_bytes: log.log_size_bytes(),
                    segments: log.segments().len(),
                },
            );
            proof {
                assert(snapshot_keys(snapshots@) =~= snapshot_keys(before).push(
                    self.logs.key_values()[i as int],
                ));
                assert(self.logs.key_values().take(i + 1)
                    =~= self.logs.key_values().take(i as int).push(
                    self.logs.key_values()[i as int],
                ));
            }
            i = i + 1;
        }
        proof {
            self.logs.lemma_ordered();
            assert(self@.logs.dom() =~= self.logs@.dom());
            assert(self.logs.key_values().take(i as int) =~= self.logs.key_values());
        }
        snapshots
    }

    /// The partitions that have logs, in order.
    pub fn partitions(&self) -> (partitions: Vec<(String, u32)>)
        requires
            self.wf(),
        ensures
            sorted::enumerates::<(String, u32)>(
                sorted::values_of::<(String, u32)>(partitions@),
                self@.logs.dom(),
            ),
    {
        let mut partitions: Vec<(String, u32)> = Vec::new();
        for i in 0..self.logs.keys.len()
            invariant
                partitions@.len() == i,
                forall|j: int|
                    0 <= j < i ==> (#[trigger] partitions@[j]).value() == self.logs.keys@[j].value(),
        {
            partitions.push(self.logs.keys[i].duplicate());
        }
        proof {
            self.logs.lemma_ordered();
            assert(self@.logs.dom() =~= self.logs@.dom());
            assert(sorted::values_of::<(String, u32)>(partitions@) =~= self.logs.key_values());
        }
        partitions
    }

    /// The files of a partition's segments, in order.
    pub fn segment_paths(&self, topic: &str, partition: u32) -> (paths: Vec<String>)
        requires
            self.wf(),
        ensures
            text::views(paths@) == if self@.has_log(topic@, partition) {
                storage::paths_from(self@.log(topic@, partition).segments, 0)
            } else {
                Seq::empty()
            },
    {
        let mut paths: Vec<String> = Vec::new();
        match self.logs.get(&(topic.to_owned(), partition)) {
            Some(log) => {
                let ghost segments = log@.segments;
                let found = log.segments();
                for i in 0..found.len()
                    invariant
                        segments == storage::segment_views(found@),
                        paths@.len() == i,
                        forall|j: int|
                            0 <= j < i ==> (#[trigger] paths@[j])@ == segments[j].path,
                {
                    assert(segments[i as int] == found@[i as int]@);
                    paths.push(found[i].path().to_owned());
                }
                assert(text::views(paths@) =~= storage::paths_from(segments, 0));
            },
            None => {
                assert(text::views(paths@) =~= Seq::empty());
            },
        }
        paths
    }

    /// Removes what a partition no longer retains, and gives the files that go with it.
    /// `ages_ms` gives the age of each segment.
    pub fn apply_retention(&mut self, topic: &str, partition: u32, ages_ms: &Vec<u64>) -> (
        removed: Vec<String>)
        requires
            old(self).wf(),
            old(self)@.has_log(topic@, partition),
            ages_ms@.len() == old(self)@.log(topic@, partition).segments.len(),
        ensures
            final(self).wf(),
            final(self).settings() == old(self).settings(),
            final(self)@ == old(self)@.retained(
                topic@,
                partition,
                ages_ms@,
                old(self).settings(),
            ),
            text::views(removed@) == old(self)@.expired_paths(
                topic@,
                partition,
                ages_ms@,
                old(self).settings(),
            ),
    {
        let ghost before = self@;
        let mut removed = self.segment_paths(topic, partition);
        let ghost paths = text::views(removed@);
        match self.take_log(topic, partition) {
            Some(mut log) => {
                let count: usize = log.apply_retention(
                    ages_ms,
                    self.settings.retention_bytes,
                    self.settings.retention_ms,
                );
                let ghost kept = log@;
                self.put_log(topic, partition, log);
                removed.truncate(count);
                proof {
                    assert(self@ =~= before.with_log(topic@, partition, kept));
                    assert(text::views(removed@) =~= paths.take(count as int));
                }
            },
            None => {},
        }
        removed
    }

    /// Takes a log that was found at start: its topic has at least as many partitions as the
    /// log's number asks for.
    pub fn recover_log(&mut self, topic: &str, partition: u32, log: PartitionLog)
        requires
            old(self).wf(),
            log.wf(),
            partition < u32::MAX,
        ensures
            final(self).wf(),
            final(self).settings() == old(self).settings(),
            final(self)@ == old(self)@.with_recovered(
                topic@,
                partition,
                log@,
                old(self).settings().min_in_sync_replicas,
            ),
    {
        let ghost before = *self;
        self.add_log(topic, partition, log);
        let needed: u32 = partition + 1;
        let key = topic.to_owned();
        let count: u32 = match self.topics.get(&key) {
            Some(count) => if *count > needed {
                *count
            } else {
                needed
            },
            None => needed,
        };
        self.topics.insert(key, count);
        proof {
            assert forall|other: Seq<char>| #[trigger]
                self.round_robin@.dom().contains(other) implies self.topics@.dom().contains(other)
                && self.round_robin@[other] < self.topics@[other] by {
                assert(before.round_robin@.dom().contains(other));
                assert(before.topics@.dom().contains(other));
            }
            assert forall|other: Seq<char>| #[trigger]
                self.topics@.dom().contains(other) implies self.topics@[other] > 0 by {
                if other != topic@ {
                    assert(before.topics@.dom().contains(other));
                }
            }
            assert(self@ =~= before@.with_recovered(
                topic@,
                partition,
                log@,
                before.settings().min_in_sync_replicas,
            ));
        }
    }
}

impl StorageState {
    /// How many segments of a partition are no longer retained.
    pub open spec fn expired(
        self,
        topic: Seq<char>,
        partition: u32,
        ages_ms: Seq<u64>,
        settings: StorageSettings,
    ) -> int {
        storage::retained_from(
            self.log(topic, partition),
            ages_ms,
            settings.retention_bytes,
            settings.retention_ms,
        )
    }

    /// The files of the segments of a partition that are no longer retained.
    pub open spec fn expired_paths(
        self,
        topic: Seq<char>,
        partition: u32,
        ages_ms: Seq<u64>,
        settings: StorageSettings,
    ) -> Seq<Seq<char>> {
        storage::paths_from(self.log(topic, partition).segments, 0).take(
            self.expired(topic, partition, ages_ms, settings),
        )
    }

    /// The state without the segments of a partition that are no longer retained.
    pub open spec fn retained(
        self,
        topic: Seq<char>,
        partition: u32,
        ages_ms: Seq<u64>,
        settings: StorageSettings,
    ) -> Self {
        let log = self.log(topic, partition);
        self.with_log(
            topic,
            partition,
            Log {
                segments: log.segments.skip(self.expired(topic, partition, ages_ms, settings)),
                ..log
            },
        )
    }

    /// The state with a log that was found at start.
    pub open spec fn with_recovered(
        self,
        topic: Seq<char>,
        partition: u32,
        log: Log,
        quorum: usize,
    ) -> Self {
        let count = if self.has_topic(topic) && self.topics[topic] > partition + 1 {
            self.topics[topic]
        } else {
            (partition + 1) as u32
        };
        StorageState {
            topics: self.topics.insert(topic, count),
            ..self.opened(topic, partition, log, quorum)
        }
    }
}

/// The offset that a read does not reach.
pub open spec fn read_limit(
    state: StorageState,
    topic: Seq<char>,
    partition: u32,
    visibility: Visibility,
) -> u64 {
    match visibility {
        Visibility::Committed => state.mark(topic, partition).high_watermark,
        Visibility::Stored => u64::MAX,
    }
}

/// How a read of a partition begins.
pub open spec fn is_read_start(
    state: StorageState,
    settings: StorageSettings,
    topic: Seq<char>,
    partition: u32,
    offset: u64,
    max_bytes: u32,
    visibility: Visibility,
    start: Result<ReadStart, StorageError>,
) -> bool {
    if !state.has_topic(topic) {
        if settings.auto_create_topics {
            &&& start matches Ok(ReadStart::CreateTopic { partitions })
            &&& partitions == settings.default_partition_count
        } else {
            start matches Err(error) && error == StorageError::UnknownTopic
        }
    } else if !state.has_log(topic, partition) {
        if partition >= state.topics[topic] {
            start matches Err(error) && error == StorageError::UnknownPartition(partition)
        } else {
            start matches Ok(ReadStart::OpenLog)
        }
    } else if max_bytes == 0 {
        start matches Err(error) && error == StorageError::InvalidReadLimit
    } else {
        &&& start matches Ok(ReadStart::Read(reader))
        &&& reader.wf()
        &&& reader@ == (Reading {
            offset,
            max_bytes: max_bytes as usize,
            limit: read_limit(state, topic, partition, visibility),
            cursor: 0,
            taken: Seq::empty(),
            full: false,
        })
    }
}

/// Whether a record of a leader may be looked at, and the state once it is: a leader of an older
/// epoch is refused, and one of a newer epoch is followed once what is at or above the high
/// watermark is cut off. What the leader has committed is committed here too.
pub open spec fn epoch_checked(state: StorageState, record: ReplicateRecord) -> (
    Result<Option<u64>, StorageError>,
    StorageState,
) {
    let mark = state.mark(record.topic@, record.partition);
    if record.leader_epoch < mark.epoch {
        (
            Err(StorageError::StaleEpoch { expected: mark.epoch, actual: record.leader_epoch }),
            state,
        )
    } else if record.leader_epoch > mark.followed && state.log(
        record.topic@,
        record.partition,
    ).next_offset > mark.high_watermark {
        (Ok(Some(mark.high_watermark)), state)
    } else {
        (
            Ok(None),
            state.with_followed(record.topic@, record.partition, record.leader_epoch).committed(
                record.topic@,
                record.partition,
                record.high_watermark,
            ),
        )
    }
}

/// What follows where a record may not be looked at yet.
pub open spec fn epoch_refused(
    checked: Result<Option<u64>, StorageError>,
    step: Result<ReplicaStep, StorageError>,
) -> bool {
    match checked {
        Err(refused) => step matches Err(error) && error == refused,
        Ok(Some(end)) => step matches Ok(ReplicaStep::Truncate { to }) && to == end,
        Ok(None) => false,
    }
}

/// What a follower does with a record of the leader, and the state after that.
pub open spec fn is_replica_step(
    before: StorageState,
    record: ReplicateRecord,
    after: StorageState,
    step: Result<ReplicaStep, StorageError>,
) -> bool {
    let log = before.log(record.topic@, record.partition);
    let (checked, followed) = epoch_checked(before, record);
    if !before.has_topic(record.topic@) {
        after == before && (step matches Err(error) && error == StorageError::UnknownTopic)
    } else if record.partition >= before.topics[record.topic@] {
        after == before && (step matches Err(error) && error == StorageError::UnknownPartition(
            record.partition,
        ))
    } else if !before.has_log(record.topic@, record.partition) {
        after == before && (step matches Err(error) && error == StorageError::InvalidTopic)
    } else if checked != Ok::<Option<u64>, StorageError>(None) {
        after == before && epoch_refused(checked, step)
    } else {
        &&& after == followed
        &&& if record.offset < log.next_offset {
            step matches Ok(ReplicaStep::Held { next_offset }) && next_offset == log.next_offset
        } else if record.offset > log.next_offset {
            step matches Err(error) && error == (StorageError::UnexpectedOffset {
                expected: log.next_offset,
                actual: record.offset,
            })
        } else if record@.fits() {
            &&& step matches Ok(ReplicaStep::Write { plan, sync })
            &&& is_plan(plan, log, record@)
            &&& sync == record.durable
        } else {
            step matches Err(error) && error == StorageError::RecordTooLarge
        }
    }
}

/// What a follower does with a record that comes in, and the state after that: a record ahead of
/// the log is held back, and the answer is the offset that the log needs.
pub open spec fn is_received(
    before: StorageState,
    record: ReplicateRecord,
    after: StorageState,
    step: Result<ReplicaStep, StorageError>,
) -> bool {
    let log = before.log(record.topic@, record.partition);
    let (checked, followed) = epoch_checked(before, record);
    if !before.has_log(record.topic@, record.partition) {
        &&& step matches Err(error) && error == StorageError::UnknownPartition(record.partition)
        &&& after == before
    } else if record.offset > log.next_offset && checked == Ok::<Option<u64>, StorageError>(None) {
        &&& step matches Ok(ReplicaStep::Held { next_offset }) && next_offset == log.next_offset
        &&& after == followed
    } else if record.offset > log.next_offset {
        &&& epoch_refused(checked, step)
        &&& after == before
    } else {
        is_replica_step(before, record, after, step)
    }
}

pub open spec fn topic_names(topics: Seq<TopicMetadata>) -> Seq<Seq<char>> {
    topics.map_values(|metadata: TopicMetadata| metadata.topic@)
}

pub open spec fn snapshot_keys(snapshots: Seq<PartitionSnapshot>) -> Seq<(Seq<char>, u32)> {
    snapshots.map_values(|snapshot: PartitionSnapshot| (snapshot.topic@, snapshot.partition))
}

/// Whether a snapshot shows the extent of a log and its high watermark.
pub open spec fn shows_log(snapshot: PartitionSnapshot, log: Log, mark: PartitionMark) -> bool {
    let bytes = storage::segment_bytes(log.segments);
    &&& snapshot.log_end_offset == log.next_offset
    &&& snapshot.high_watermark == mark.high_watermark
    &&& snapshot.low_watermark == log.segments[0].base_offset
    &&& snapshot.log_size_bytes == if bytes > u64::MAX {
        u64::MAX as nat
    } else {
        bytes
    }
    &&& snapshot.segments == log.segments.len()
}

/// Where a message of a producer was stored in a partition, if it was.
pub open spec fn stored_at(
    state: StorageState,
    topic: Seq<char>,
    partition: u32,
    sent: ProducerIdentity,
) -> Option<u64> {
    stored_under(state, topic, partition, sent.id@, sent.sequence)
}

/// Where the message of a producer with a sequence number was stored.
pub open spec fn stored_under(
    state: StorageState,
    topic: Seq<char>,
    partition: u32,
    id: Seq<char>,
    sequence: u64,
) -> Option<u64> {
    let key = sequence_key(topic, partition, id, sequence);
    if state.sequences.dom().contains(key) {
        Some(state.sequences[key])
    } else {
        None
    }
}

/// Where a message was stored that its producer has sent before.
pub open spec fn held_at(state: StorageState, input: AppendInput, partition: u32) -> Option<u64> {
    match input.producer {
        Some(sent) => stored_at(state, input.topic@, partition, sent),
        None => None,
    }
}

/// What an append does: the state after it, and the step or the error.
pub open spec fn is_append(
    before: StorageState,
    settings: StorageSettings,
    input: AppendInput,
    hash: Option<u32>,
    clock_ms: Option<u128>,
    after: StorageState,
    step: Result<AppendStep, StorageError>,
) -> bool {
    let topic = input.topic@;
    if !before.has_topic(topic) {
        &&& after == before
        &&& if settings.auto_create_topics {
            &&& step matches Ok(AppendStep::CreateTopic { partitions })
            &&& partitions == settings.default_partition_count
        } else {
            step matches Err(error) && error == StorageError::UnknownTopic
        }
    } else {
        match before.routed(topic, input.partition, hash) {
            Err(refused) => {
                &&& after == before
                &&& step matches Err(error) && error == refused
            },
            Ok((chosen, turned)) => {
                &&& after == turned
                &&& if !before.has_log(topic, chosen) {
                    step matches Err(error) && error == StorageError::InvalidTopic
                } else if held_at(before, input, chosen) is Some {
                    &&& step matches Ok(AppendStep::Held { ack, sync })
                    &&& ack.partition == chosen
                    &&& Some(ack.offset) == held_at(before, input, chosen)
                    &&& sync == (input.ack_mode == AckMode::Durable)
                } else {
                    match timestamp_of(clock_ms) {
                        None => step matches Err(error) && error == StorageError::InvalidTimestamp,
                        Some(timestamp_ms) => {
                            let log = before.log(topic, chosen);
                            let entry = entry_of(input, timestamp_ms, log.next_offset);
                            if entry.fits() {
                                &&& step matches Ok(AppendStep::Write { partition, plan, sync })
                                &&& partition == chosen
                                &&& is_plan(plan, log, entry)
                                &&& sync == (input.ack_mode == AckMode::Durable)
                            } else {
                                step matches Err(error) && error == StorageError::RecordTooLarge
                            }
                        },
                    }
                }
            },
        }
    }
}

/// The partitions below `count` that have no log, in order.
pub open spec fn missing_partitions(state: StorageState, topic: Seq<char>, count: nat) -> Seq<u32>
    decreases count,
{
    if count == 0 {
        Seq::empty()
    } else {
        let before = missing_partitions(state, topic, (count - 1) as nat);
        let last = (count - 1) as u32;
        if state.has_log(topic, last) {
            before
        } else {
            before.push(last)
        }
    }
}

/// A message of a batch on its way to a partition. It need not be on disk before the rest of the
/// batch is written.
pub fn batch_input(topic: &str, partition: Option<u32>, message: &BatchRecord) -> (input:
    AppendInput)
    ensures
        input.topic@ == topic@,
        input.partition == partition,
        buffer::content(input.key) == buffer::content(message.key),
        buffer::content(input.value) == buffer::content(message.payload),
        input.ack_mode == AckMode::Leader,
        input.producer is None,
{
    AppendInput {
        topic: topic.to_owned(),
        partition,
        key: message.key.clone(),
        value: message.payload.clone(),
        ack_mode: AckMode::Leader,
        producer: None,
    }
}

/// The partitions that a batch went to.
pub open spec fn partitions_of(acks: Seq<ProduceAck>) -> Set<u32> {
    Set::new(|partition: u32| exists|i: int| 0 <= i < acks.len() && #[trigger] acks[i].partition
        == partition)
}

/// The acknowledged partitions can be put in order.
pub proof fn lemma_partitions_finite(acks: Seq<ProduceAck>)
    ensures
        partitions_of(acks).finite(),
    decreases acks.len(),
{
    if acks.len() == 0 {
        assert(partitions_of(acks) =~= Set::empty());
    } else {
        let fewer = acks.drop_last();
        let added = acks.last().partition;
        lemma_partitions_finite(fewer);
        assert forall|partition: u32|
            partitions_of(acks).contains(partition) == partitions_of(fewer).insert(added).contains(
                partition,
            ) by {
            if partitions_of(acks).contains(partition) {
                let i = choose|i: int| 0 <= i < acks.len() && #[trigger] acks[i].partition
                    == partition;
                if i < fewer.len() {
                    assert(fewer[i].partition == partition);
                }
            }
            if partitions_of(fewer).contains(partition) {
                let i = choose|i: int| 0 <= i < fewer.len() && #[trigger] fewer[i].partition
                    == partition;
                assert(acks[i].partition == partition);
            }
            assert(acks[acks.len() - 1].partition == added);
        }
        assert(partitions_of(acks) =~= partitions_of(fewer).insert(added));
    }
}

/// The partitions that are forced to disk once a batch is written, in order and each once.
pub fn partitions_to_sync(acks: &Vec<ProduceAck>, ack_mode: AckMode) -> (partitions: Vec<u32>)
    ensures
        partitions@ == if ack_mode == AckMode::Durable {
            sorted::in_order::<u32>(partitions_of(acks@))
        } else {
            Seq::empty()
        },
{
    if ack_mode == AckMode::Leader {
        return Vec::new();
    }
    let mut seen: SortedMap<u32, ()> = SortedMap::new();
    let mut i: usize = 0;
    assert(seen@.dom() =~= partitions_of(acks@.take(0)));
    while i < acks.len()
        invariant
            i <= acks@.len(),
            seen.wf(),
            seen@.dom() == partitions_of(acks@.take(i as int)),
        decreases acks@.len() - i,
    {
        let ghost before = acks@.take(i as int);
        let ghost after = acks@.take(i + 1);
        seen.insert(acks[i].partition, ());
        proof {
            let added = acks@[i as int].partition;
            assert forall|partition: u32|
                partitions_of(after).contains(partition) == (partition == added
                    || partitions_of(before).contains(partition)) by {
                if partitions_of(after).contains(partition) {
                    let j = choose|j: int|
                        0 <= j < after.len() && #[trigger] after[j].partition == partition;
                    if j < i {
                        assert(before[j].partition == partition);
                    }
                }
                if partition == added {
                    assert(after[i as int].partition == partition);
                }
                if partitions_of(before).contains(partition) {
                    let j = choose|j: int|
                        0 <= j < before.len() && #[trigger] before[j].partition == partition;
                    assert(after[j].partition == partition);
                }
            }
            assert(seen@.dom() =~= partitions_of(after));
        }
        i = i + 1;
    }
    proof {
        assert(acks@.take(i as int) =~= acks@);
        seen.lemma_ordered();
        assert(seen.keys@ =~= seen.key_values());
    }
    seen.keys
}

/// The file that remembers the partition count of a topic. It is written under a temporary name
/// and then renamed.
#[derive(Debug)]
pub struct TopicFile {
    pub directory: String,
    pub path: String,
    pub temporary: String,
    pub contents: String,
}

/// The file of a topic in this data directory.
pub fn topic_file(data_dir: &str, topic: &str, partitions: u32) -> (file: TopicFile)
    ensures
        file.directory@ == storage::path_below(data_dir@, topic@),
        file.path@ == storage::path_below(file.directory@, "topic.meta"@),
        file.temporary@ == storage::path_below(file.directory@, "topic.meta.tmp"@),
        file.contents@ == "partitions="@ + text::decimal(partitions as nat) + "\n"@,
{
    let directory = storage::join_path(data_dir, topic);
    let path = storage::join_path(directory.as_str(), "topic.meta");
    let temporary = storage::join_path(directory.as_str(), "topic.meta.tmp");
    let mut contents = "partitions=".to_owned();
    text::push_decimal(&mut contents, partitions as u64);
    contents.append("\n");
    TopicFile { directory, path, temporary, contents }
}

pub open spec fn stored_entries(records: Seq<StoredRecord>) -> Seq<Entry> {
    records.map_values(|stored: StoredRecord| stored@)
}

pub open spec fn fetched_entries(records: Seq<FetchedRecord>) -> Seq<Entry> {
    records.map_values(|fetched: FetchedRecord| fetched@)
}

/// What was read from a log, as a fetch hands it out.
pub fn fetched_records(stored: &Vec<StoredRecord>) -> (fetched: Vec<FetchedRecord>)
    ensures
        fetched_entries(fetched@) == stored_entries(stored@),
{
    let mut fetched: Vec<FetchedRecord> = Vec::new();
    for i in 0..stored.len()
        invariant
            fetched@.len() == i,
            forall|j: int| 0 <= j < i ==> (#[trigger] fetched@[j])@ == stored@[j]@,
    {
        let found = &stored[i];
        let key: Option<Bytes> = match found.key() {
            Some(bytes) => Some(bytes.clone()),
            None => None,
        };
        let handed_out = FetchedRecord {
            offset: found.offset(),
            timestamp_ms: found.timestamp_ms(),
            key,
            value: found.value().clone(),
        };
        assert(handed_out@ =~= found@);
        fetched.push(handed_out);
    }
    assert(fetched_entries(fetched@) =~= stored_entries(stored@));
    fetched
}

/// Messages that share a routing key go to the same partition of a topic, whatever was sent
/// before, as long as the topic keeps its partition count.
pub proof fn same_key_same_partition(
    a: StorageState,
    b: StorageState,
    topic: Seq<char>,
    hash: u32,
)
    requires
        a.topics[topic] == b.topics[topic],
    ensures
        a.routed(topic, None, Some(hash)) matches Ok((first, _)) && b.routed(
            topic,
            None,
            Some(hash),
        ) matches Ok((second, _)) && first == second,
{
}

/// A message is only ever sent to a partition that its topic has.
pub proof fn routed_partition_exists(
    storage: Storage,
    topic: Seq<char>,
    partition: Option<u32>,
    hash: Option<u32>,
)
    requires
        storage.wf(),
        storage@.has_topic(topic),
    ensures
        storage@.routed(topic, partition, hash) matches Ok((chosen, _)) ==> chosen
            < storage@.topics[topic],
{
    storage.lemma_wf();
    if partition is None && hash is Some {
        let count = storage@.topics[topic] as int;
        assert(0 <= hash->0 as int % count < count) by (nonlinear_arith)
            requires
                count > 0,
        ;
    }
}

/// The state after `count` messages without a key.
pub open spec fn after_turns(state: StorageState, topic: Seq<char>, count: nat) -> StorageState
    decreases count,
{
    if count == 0 {
        state
    } else {
        let before = after_turns(state, topic, (count - 1) as nat);
        match before.routed(topic, None, None) {
            Ok((_, after)) => after,
            Err(_) => before,
        }
    }
}

/// Messages without a key go round the partitions: each goes to the one after the last.
pub proof fn unkeyed_messages_take_turns(storage: Storage, topic: Seq<char>, sent: nat)
    requires
        storage.wf(),
        storage@.has_topic(topic),
    ensures
        ({
            let first = next_in_turn(storage@.round_robin, topic);
            let count = storage@.topics[topic];
            let state = after_turns(storage@, topic, sent);
            &&& state.topics == storage@.topics
            &&& state.routed(topic, None, None) matches Ok((chosen, _))
            &&& chosen as int == (first + sent) % count as int
        }),
    decreases sent,
{
    storage.lemma_wf();
    let first = next_in_turn(storage@.round_robin, topic) as int;
    let count = storage@.topics[topic] as int;
    if sent == 0 {
        assert(first % count == first) by (nonlinear_arith)
            requires
                0 <= first < count,
        ;
    } else {
        let earlier = (sent - 1) as nat;
        unkeyed_messages_take_turns(storage, topic, earlier);
        let last = (first + earlier) % count;
        assert((last + 1) % count == (first + sent) % count) by {
            vstd::arithmetic::div_mod::lemma_add_mod_noop(first + earlier, 1, count);
            vstd::arithmetic::div_mod::lemma_add_mod_noop(last, 1, count);
            vstd::arithmetic::div_mod::lemma_mod_twice(first + earlier, count);
            assert(first + earlier + 1 == first + sent);
        }
        assert(0 <= (last + 1) % count < count) by (nonlinear_arith)
            requires
                count > 0,
        ;
        assert(0 <= last < count) by (nonlinear_arith)
            requires
                count > 0,
                last == (first + earlier) % count,
        ;
    }
}

/// Once the missing logs are added, each partition of a new topic has a log.
pub proof fn created_topic_has_logs(
    before: StorageState,
    after: StorageState,
    topic: Seq<char>,
    partitions: nat,
)
    requires
        partitions <= u32::MAX,
        forall|partition: u32| #[trigger]
            before.has_log(topic, partition) ==> after.has_log(topic, partition),
        forall|i: int|
            0 <= i < missing_partitions(before, topic, partitions).len() ==> after.has_log(
                topic,
                #[trigger] missing_partitions(before, topic, partitions)[i],
            ),
    ensures
        forall|partition: u32| partition < partitions ==> #[trigger]
            after.has_log(topic, partition),
    decreases partitions,
{
    if partitions > 0 {
        let last = (partitions - 1) as u32;
        let missing = missing_partitions(before, topic, partitions);
        let fewer = missing_partitions(before, topic, (partitions - 1) as nat);
        assert forall|i: int| 0 <= i < fewer.len() implies after.has_log(
            topic,
            #[trigger] fewer[i],
        ) by {
            assert(missing[i] == fewer[i]);
        }
        created_topic_has_logs(before, after, topic, (partitions - 1) as nat);
        if !before.has_log(topic, last) {
            assert(missing[missing.len() - 1] == last);
        }
    }
}

/// A fetch never exposes a record that is not committed: of whatever records are taken, those that
/// are handed out lie below the high watermark.
pub proof fn fetches_stay_committed(
    state: StorageState,
    topic: Seq<char>,
    partition: u32,
    taken: Seq<Entry>,
)
    ensures
        ({
            let limit = read_limit(state, topic, partition, Visibility::Committed);
            forall|i: int|
                0 <= i < storage::visible(taken, limit).len() ==> (#[trigger] storage::visible(
                    taken,
                    limit,
                )[i]).offset < state.mark(topic, partition).high_watermark
        }),
{
    let limit = read_limit(state, topic, partition, Visibility::Committed);
    storage::visible_stays_below(taken, limit);
}

/// What is committed stays committed: the high watermark never falls, and a commit does not take
/// it past the end of the log.
pub proof fn watermark_only_rises(
    state: StorageState,
    topic: Seq<char>,
    partition: u32,
    offset: u64,
)
    ensures
        ({
            let before = state.mark(topic, partition);
            let after = state.committed(topic, partition, offset).mark(topic, partition);
            let end = state.log(topic, partition).next_offset;
            &&& after.high_watermark >= before.high_watermark
            &&& before.high_watermark <= end ==> after.high_watermark <= end
            &&& offset <= end ==> after.high_watermark >= offset
            &&& after.epoch == before.epoch
        }),
{
}

/// A message that was stored is held from then on: where its producer sends it again, to the
/// partition that has it, it is acknowledged with the offset that it has, and no log changes.
pub proof fn stored_message_is_held(
    state: StorageState,
    settings: StorageSettings,
    input: AppendInput,
    hash: Option<u32>,
    clock_ms: Option<u128>,
    after: StorageState,
    step: Result<AppendStep, StorageError>,
)
    requires
        state.has_topic(input.topic@),
        state.routed(input.topic@, input.partition, hash) is Ok,
        ({
            let chosen = state.routed(input.topic@, input.partition, hash)->Ok_0.0;
            state.has_log(input.topic@, chosen) && held_at(state, input, chosen) is Some
        }),
        is_append(state, settings, input, hash, clock_ms, after, step),
    ensures
        ({
            let chosen = state.routed(input.topic@, input.partition, hash)->Ok_0.0;
            &&& step matches Ok(AppendStep::Held { ack, .. })
            &&& ack.partition == chosen
            &&& Some(ack.offset) == held_at(state, input, chosen)
            &&& after.logs == state.logs
            &&& after.sequences == state.sequences
        }),
{
}

/// Nothing that was stored is forgotten when another message is written.
pub proof fn writes_keep_sequences(
    state: StorageState,
    topic: Seq<char>,
    partition: u32,
    size: nat,
    producer: Option<ProducerIdentity>,
    quorum: usize,
    stored: SequenceKey,
)
    requires
        state.sequences.dom().contains(stored),
        producer matches Some(sent) ==> stored != sequence_key(
            topic,
            partition,
            sent.id@,
            sent.sequence,
        ),
    ensures
        ({
            let after = state.written(topic, partition, size, producer, quorum);
            &&& after.sequences.dom().contains(stored)
            &&& after.sequences[stored] == state.sequences[stored]
        }),
{
}

/// A message that its producer sends again is not stored again: once it was written, the same
/// message is held where it was, and the logs stay as they are.
pub proof fn repeated_message_is_held(
    before: StorageState,
    settings: StorageSettings,
    input: AppendInput,
    hash: Option<u32>,
    first_ms: Option<u128>,
    planned: StorageState,
    partition: u32,
    plan: AppendPlan,
    sync: bool,
    size: nat,
    again_ms: Option<u128>,
    after: StorageState,
    step: Result<AppendStep, StorageError>,
)
    requires
        input.producer is Some,
        input.partition is Some || hash is Some,
        is_append(
            before,
            settings,
            input,
            hash,
            first_ms,
            planned,
            Ok(AppendStep::Write { partition, plan, sync }),
        ),
        is_append(
            planned.written(
                input.topic@,
                partition,
                size,
                input.producer,
                settings.min_in_sync_replicas,
            ),
            settings,
            input,
            hash,
            again_ms,
            after,
            step,
        ),
    ensures
        step matches Ok(AppendStep::Held { ack, .. }) && ack.partition == partition && ack.offset
            == before.log(input.topic@, partition).next_offset,
        after == planned.written(
            input.topic@,
            partition,
            size,
            input.producer,
            settings.min_in_sync_replicas,
        ),
{
}

/// A record that a log takes gets the offset after the last, and the log is then ready for the
/// one after it.
pub proof fn appends_leave_no_gap(plan: AppendPlan, log: Log, entry: Entry)
    requires
        is_plan(plan, log, entry),
        log.next_offset < u64::MAX,
        log.segments.len() > 0,
    ensures
        plan.offset == log.next_offset,
        log.ready_for(entry.encoded().len()).appended(entry.encoded().len()).next_offset
            == log.next_offset + 1,
{
}

/// A fetch of committed records reaches up to the high watermark and no further, and a read of
/// stored ones reaches all there are. Either starts at the offset that was asked for and keeps to
/// the limit in bytes that was asked for.
pub proof fn fetches_reach_watermark(
    state: StorageState,
    settings: StorageSettings,
    topic: Seq<char>,
    partition: u32,
    offset: u64,
    max_bytes: u32,
    visibility: Visibility,
    start: Result<ReadStart, StorageError>,
)
    requires
        state.has_topic(topic),
        state.has_log(topic, partition),
        is_read_start(state, settings, topic, partition, offset, max_bytes, visibility, start),
    ensures
        max_bytes == 0 <==> start is Err,
        max_bytes > 0 ==> (start matches Ok(ReadStart::Read(reader)) && {
            &&& reader@.offset == offset
            &&& reader@.max_bytes == max_bytes
            &&& visibility is Committed ==> reader@.limit == state.mark(
                topic,
                partition,
            ).high_watermark
            &&& visibility is Stored ==> reader@.limit == u64::MAX
            &&& reader@.taken.len() == 0
        }),
{
}

/// A message goes to the partition that it names, where its topic has that partition. Without one
/// it goes where its key says: to the partition that the checksum of the key leaves as remainder.
/// Neither changes anything. Without a key it goes to the partition whose turn it is, which is the
/// first one to begin with, and the turn goes to the next.
pub proof fn messages_are_routed(
    state: StorageState,
    topic: Seq<char>,
    chosen: u32,
    hash: Option<u32>,
    checksum: u32,
)
    requires
        state.topics[topic] > 0,
        state.round_robin.dom().contains(topic) ==> state.round_robin[topic] < state.topics[topic],
    ensures
        ({
            let count = state.topics[topic];
            let keyed = state.routed(topic, None, Some(checksum));
            let unkeyed = state.routed(topic, None, None);
            &&& chosen < count ==> state.routed(topic, Some(chosen), hash) == Ok::<_, StorageError>(
                (chosen, state),
            )
            &&& chosen >= count ==> state.routed(topic, Some(chosen), hash) == Err::<
                (u32, StorageState),
                _,
            >(StorageError::UnknownPartition(chosen))
            &&& keyed matches Ok((partition, after)) && after == state && partition < count
                && exists|times: int|
                    #![trigger times * count as int]
                    checksum == times * count as int + partition
            &&& unkeyed matches Ok((partition, after)) && {
                &&& state.round_robin.dom().contains(topic) ==> partition
                    == state.round_robin[topic]
                &&& !state.round_robin.dom().contains(topic) ==> partition == 0
                &&& after.round_robin.dom().contains(topic)
                &&& partition + 1 < count ==> after.round_robin[topic] == partition + 1
                &&& partition + 1 == count ==> after.round_robin[topic] == 0
                &&& after.logs == state.logs
                &&& after.topics == state.topics
                &&& after.marks == state.marks
                &&& after.sequences == state.sequences
            }
        }),
{
    let count = state.topics[topic] as int;
    vstd::arithmetic::div_mod::lemma_fundamental_div_mod(checksum as int, count);
    vstd::arithmetic::div_mod::lemma_mod_bound(checksum as int, count);
    vstd::arithmetic::mul::lemma_mul_is_commutative(count, checksum as int / count);
    assert(checksum == (checksum as int / count) * count + checksum as int % count);
    let next = if state.round_robin.dom().contains(topic) {
        state.round_robin[topic]
    } else {
        0
    };
    if next + 1 < count {
        vstd::arithmetic::div_mod::lemma_small_mod((next + 1) as nat, count as nat);
    } else {
        vstd::arithmetic::div_mod::lemma_mod_self_0(count);
    }
}

/// A message is routed by its key where it has one, by its producer where it has only that, and by
/// turn where it has neither.
pub proof fn messages_are_routed_by_key(input: AppendInput)
    ensures
        buffer::content(input.key).len() > 0 ==> routing_hash(routing_key(input)) == Some(
            checksum::crc32(buffer::content(input.key)),
        ),
        buffer::content(input.key).len() == 0 ==> (input.producer matches Some(sent)
            ==> routing_hash(routing_key(input)) == Some(
            checksum::crc32(utf8::encode_utf8(sent.id@)),
        )),
        routing_hash(routing_key(input)) is None <==> buffer::content(input.key).len() == 0
            && input.producer is None,
{
}

/// A client in front of a cluster and the broker route a message alike.
pub proof fn client_and_broker_agree(state: StorageState, input: AppendInput, turn: u32)
    requires
        state.topics[input.topic@] > 0,
        routing_hash(routing_key(input)) is Some,
    ensures
        ({
            let hash = client::message_hash(
                buffer::content(input.key),
                match input.producer {
                    Some(sent) => Some(sent.id@),
                    None => None,
                },
            );
            &&& hash == routing_hash(routing_key(input))
            &&& state.routed(
                input.topic@,
                None,
                routing_hash(routing_key(input)),
            ) matches Ok((partition, _)) && partition == client::partition_for(
                hash,
                state.topics[input.topic@],
                turn,
            )
        }),
{
}

/// What is committed is what was told to be, as far as the log reaches: the high watermark becomes
/// the larger of what it was and what is told. Nothing else changes.
pub proof fn commits_set_watermark(
    state: StorageState,
    topic: Seq<char>,
    partition: u32,
    offset: u64,
    other: (Seq<char>, u32),
)
    ensures
        ({
            let before = state.mark(topic, partition);
            let after = state.committed(topic, partition, offset);
            let now = after.mark(topic, partition);
            let end = state.log(topic, partition).next_offset;
            &&& offset <= end ==> now.high_watermark == if offset > before.high_watermark {
                offset
            } else {
                before.high_watermark
            }
            &&& offset > end ==> now.high_watermark == if end > before.high_watermark {
                end
            } else {
                before.high_watermark
            }
            &&& now.epoch == before.epoch
            &&& now.followed == before.followed
            &&& other != (topic, partition) ==> after.mark(other.0, other.1) == state.mark(
                other.0,
                other.1,
            )
            &&& after.logs == state.logs
            &&& after.topics == state.topics
            &&& after.round_robin == state.round_robin
            &&& after.sequences == state.sequences
        }),
{
}

/// A record that is written takes the next offset of its partition and no other: the log grows by
/// it, other logs stay, and its producer's message is known by that offset. Where one broker is a
/// quorum it is committed with that, and otherwise nothing is.
pub proof fn written_record_takes_next_offset(
    state: StorageState,
    topic: Seq<char>,
    partition: u32,
    size: nat,
    producer: Option<ProducerIdentity>,
    quorum: usize,
    other: (Seq<char>, u32),
)
    requires
        state.has_log(topic, partition),
        state.log(topic, partition).next_offset < u64::MAX,
        state.mark(topic, partition).high_watermark <= state.log(topic, partition).next_offset,
    ensures
        ({
            let after = state.written(topic, partition, size, producer, quorum);
            let offset = state.log(topic, partition).next_offset;
            &&& after.log(topic, partition).next_offset == offset + 1
            &&& other != (topic, partition) ==> (after.logs.dom().contains(other)
                <==> state.logs.dom().contains(other)) && after.logs[other] == state.logs[other]
                && after.mark(other.0, other.1) == state.mark(other.0, other.1)
            &&& producer matches Some(sent) ==> stored_under(
                after,
                topic,
                partition,
                sent.id@,
                sent.sequence,
            ) == Some(offset)
            &&& producer is None ==> after.sequences == state.sequences
            &&& quorum <= 1 ==> after.mark(topic, partition).high_watermark == offset + 1
            &&& quorum > 1 ==> after.mark(topic, partition).high_watermark == state.mark(
                topic,
                partition,
            ).high_watermark
            &&& after.mark(topic, partition).epoch == state.mark(topic, partition).epoch
            &&& after.topics == state.topics
            &&& after.round_robin == state.round_robin
        }),
{
}

/// A broker that hears of a leadership knows of its epoch from then on. Its log follows that epoch
/// only where the broker leads, and what the leadership says is committed is, as far as the log
/// reaches. Other partitions and all logs stay.
pub proof fn adoption_takes_newer_epoch(
    state: StorageState,
    topic: Seq<char>,
    leadership: PartitionLeadership,
    leads: bool,
    other: (Seq<char>, u32),
)
    requires
        state.mark(topic, leadership.partition).followed <= state.mark(
            topic,
            leadership.partition,
        ).epoch,
    ensures
        ({
            let before = state.mark(topic, leadership.partition);
            let after = state.adopted(topic, leadership, leads);
            let now = after.mark(topic, leadership.partition);
            let end = state.log(topic, leadership.partition).next_offset;
            let told = if leadership.high_watermark <= end {
                leadership.high_watermark
            } else {
                end
            };
            &&& now.epoch == if leadership.leader_epoch > before.epoch {
                leadership.leader_epoch
            } else {
                before.epoch
            }
            &&& !leads ==> now.followed == before.followed
            &&& leads ==> now.followed == if leadership.leader_epoch > before.followed {
                leadership.leader_epoch
            } else {
                before.followed
            }
            &&& now.high_watermark == if told > before.high_watermark {
                told
            } else {
                before.high_watermark
            }
            &&& other != (topic, leadership.partition) ==> after.mark(other.0, other.1)
                == state.mark(other.0, other.1)
            &&& after.logs == state.logs
            &&& after.topics == state.topics
            &&& after.sequences == state.sequences
        }),
{
}

/// A log that is cut off forgets the messages that it lost, and no others.
pub proof fn cut_forgets_lost_messages(
    state: StorageState,
    topic: Seq<char>,
    partition: u32,
    log: Log,
    at: (Seq<char>, u32),
    id: Seq<char>,
    sequence: u64,
)
    ensures
        ({
            let after = state.cut(topic, partition, log);
            let before = stored_under(state, at.0, at.1, id, sequence);
            let now = stored_under(after, at.0, at.1, id, sequence);
            &&& after.log(topic, partition) == log
            &&& at != (topic, partition) ==> now == before && after.logs[at] == state.logs[at]
            &&& at == (topic, partition) ==> now == match before {
                Some(offset) => if offset < log.next_offset {
                    Some(offset)
                } else {
                    None
                },
                None => None,
            }
            &&& after.marks == state.marks
            &&& after.topics == state.topics
        }),
{
}

/// The partitions of a topic that lack a log are found, each once and in order.
pub proof fn missing_partitions_are_found(
    state: StorageState,
    topic: Seq<char>,
    count: nat,
    partition: u32,
)
    requires
        count <= u32::MAX,
    ensures
        missing_partitions(state, topic, count).contains(partition) <==> partition < count
            && !state.has_log(topic, partition),
        forall|i: int, j: int|
            #![trigger missing_partitions(state, topic, count)[i], missing_partitions(
                state,
                topic,
                count,
            )[j]]
            0 <= i < j < missing_partitions(state, topic, count).len() ==> missing_partitions(
                state,
                topic,
                count,
            )[i] < missing_partitions(state, topic, count)[j],
        forall|i: int|
            0 <= i < missing_partitions(state, topic, count).len() ==> #[trigger]
            missing_partitions(state, topic, count)[i] < count,
    decreases count,
{
    if count > 0 {
        let before = missing_partitions(state, topic, (count - 1) as nat);
        let whole = missing_partitions(state, topic, count);
        missing_partitions_are_found(state, topic, (count - 1) as nat, partition);
        if state.has_log(topic, (count - 1) as u32) {
            assert(whole == before);
        } else {
            assert(whole == before.push((count - 1) as u32));
            assert(whole.last() == (count - 1) as u32);
            if before.contains(partition) {
                let i = choose|i: int| 0 <= i < before.len() && before[i] == partition;
                assert(whole[i] == partition);
            }
            if whole.contains(partition) && partition != (count - 1) as u32 {
                let i = choose|i: int| 0 <= i < whole.len() && whole[i] == partition;
                assert(before[i] == partition);
            }
            if partition == (count - 1) as u32 {
                assert(whole[before.len() as int] == partition);
            }
        }
    }
}

/// A log that is opened is there with what it holds. Where one broker is a quorum all of that is
/// committed. A log that is found at start gives its topic at least so many partitions as its
/// number asks for, and never fewer than the topic had.
pub proof fn opened_logs_are_there(
    state: StorageState,
    topic: Seq<char>,
    partition: u32,
    log: Log,
    quorum: usize,
    other: (Seq<char>, u32),
)
    requires
        partition < u32::MAX,
    ensures
        ({
            let opened = state.opened(topic, partition, log, quorum);
            let found = state.with_recovered(topic, partition, log, quorum);
            let before = state.mark(topic, partition).high_watermark;
            &&& opened.has_log(topic, partition) && opened.log(topic, partition) == log
            &&& other != (topic, partition) ==> (opened.logs.dom().contains(other)
                <==> state.logs.dom().contains(other)) && opened.logs[other] == state.logs[other]
            &&& quorum <= 1 ==> opened.mark(topic, partition).high_watermark == if log.next_offset
                > before {
                log.next_offset
            } else {
                before
            }
            &&& quorum > 1 ==> opened.marks == state.marks
            &&& opened.topics == state.topics
            &&& found.logs == opened.logs
            &&& found.marks == opened.marks
            &&& found.has_topic(topic)
            &&& found.topics[topic] > partition
            &&& state.has_topic(topic) ==> found.topics[topic] >= state.topics[topic]
            &&& found.topics[topic] == partition + 1 || (state.has_topic(topic)
                && found.topics[topic] == state.topics[topic])
            &&& other.0 != topic ==> (found.has_topic(other.0) <==> state.has_topic(other.0))
                && found.topics[other.0] == state.topics[other.0]
        }),
{
}

/// What a message becomes in the log is what was sent: its payload, its key where it has one, at
/// the time and the offset that it got.
pub proof fn message_becomes_record(input: AppendInput, timestamp_ms: u64, offset: u64)
    ensures
        ({
            let entry = entry_of(input, timestamp_ms, offset);
            &&& entry.value == buffer::content(input.value)
            &&& entry.key_bytes() == buffer::content(input.key)
            &&& entry.key is None <==> buffer::content(input.key).len() == 0
            &&& entry.offset == offset
            &&& entry.timestamp_ms == timestamp_ms
        }),
{
}

/// The time of a message is that of the clock, in milliseconds, where that can be one.
pub proof fn clock_is_timestamp(clock_ms: Option<u128>)
    ensures
        clock_ms is None ==> timestamp_of(clock_ms) is None,
        clock_ms matches Some(millis) ==> match timestamp_of(clock_ms) {
            Some(timestamp_ms) => timestamp_ms == millis,
            None => millis >= 0x1_0000_0000_0000_0000,
        },
{
}

/// A limit of zero is none, and any other is itself.
pub proof fn zero_is_no_limit(value: u64)
    ensures
        optional_limit(0) is None,
        value > 0 ==> optional_limit(value) == Some(value),
{
}

/// What a snapshot tells of a partition is what its log has: where it starts and ends, what is
/// committed, and how many segments and bytes it has.
pub proof fn snapshots_tell_extents(snapshot: PartitionSnapshot, log: Log, mark: PartitionMark)
    requires
        shows_log(snapshot, log, mark),
    ensures
        snapshot.log_end_offset == log.next_offset,
        snapshot.high_watermark == mark.high_watermark,
        snapshot.low_watermark == log.segments[0].base_offset,
        snapshot.segments == log.segments.len(),
        storage::segment_bytes(log.segments) <= u64::MAX ==> snapshot.log_size_bytes
            == storage::segment_bytes(log.segments),
{
}

/// Retention removes the files of exactly the segments that the log gives up, from its start, and
/// gives up nothing but what is no longer retained.
pub proof fn removed_files_are_those_of_segments(
    state: StorageState,
    topic: Seq<char>,
    partition: u32,
    ages_ms: Seq<u64>,
    settings: StorageSettings,
    place: int,
)
    requires
        ({
            let removed = storage::retained_from(
                state.log(topic, partition),
                ages_ms,
                settings.retention_bytes,
                settings.retention_ms,
            );
            &&& 0 <= removed <= state.log(topic, partition).segments.len()
            &&& 0 <= place < state.log(topic, partition).segments.len()
        }),
    ensures
        ({
            let log = state.log(topic, partition);
            let after = state.retained(topic, partition, ages_ms, settings);
            let kept = after.log(topic, partition).segments;
            let paths = state.expired_paths(topic, partition, ages_ms, settings);
            let removed = log.segments.len() - kept.len();
            &&& paths.len() == removed
            &&& place < removed ==> paths[place] == log.segments[place].path
            &&& place >= removed ==> kept[place - removed] == log.segments[place]
            &&& after.log(topic, partition).next_offset == log.next_offset
            &&& after.topics == state.topics
            &&& after.marks == state.marks
            &&& after.sequences == state.sequences
        }),
{
}

/// A follower writes the record that comes next, and tells the offset that it needs for any other.
/// A record of a leader that was replaced is refused, one of a new leader waits until what is not
/// committed is cut off, and neither leaves a trace.
pub proof fn received_record_is_next_one(
    before: StorageState,
    record: ReplicateRecord,
    after: StorageState,
    step: Result<ReplicaStep, StorageError>,
)
    requires
        is_received(before, record, after, step),
        before.topics.dom().contains(record.topic@),
        record.partition < before.topics[record.topic@],
        before.logs.dom().contains((record.topic@, record.partition)),
    ensures
        ({
            let log = before.logs[(record.topic@, record.partition)];
            let mark = before.mark(record.topic@, record.partition);
            let stale = record.leader_epoch < mark.epoch;
            let diverges = !stale && record.leader_epoch > mark.followed && log.next_offset
                > mark.high_watermark;
            &&& stale ==> after == before && step == Err::<ReplicaStep, StorageError>(
                StorageError::StaleEpoch { expected: mark.epoch, actual: record.leader_epoch },
            )
            &&& diverges ==> after == before && (step matches Ok(ReplicaStep::Truncate { to }) && to
                == mark.high_watermark)
            &&& !stale && !diverges && record.offset != log.next_offset ==> (step matches Ok(
                ReplicaStep::Held { next_offset },
            ) && next_offset == log.next_offset)
            &&& !stale && !diverges && record.offset == log.next_offset && record@.fits() ==> (
            step matches Ok(ReplicaStep::Write { plan, sync }) && sync == record.durable
                && buffer::buffered(plan.encoded) == record@.encoded())
            &&& !stale && !diverges && record.offset == log.next_offset && !record@.fits() ==> step
                == Err::<ReplicaStep, StorageError>(StorageError::RecordTooLarge)
            &&& after.logs == before.logs
        }),
{
}

} // verus!
