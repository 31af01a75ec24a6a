//! What a broker is asked and what it answers, and how each request is dealt with.

use bytes::Bytes;
use vstd::prelude::*;

use crate::buffer;
use crate::cli::BatchCompression;
use crate::client;
use crate::cluster;
use crate::cluster::{ClusterMetadata, ClusterNode, TopicMetadata};
use crate::groups::JoinGroupResponse;
use crate::leadership;
use crate::leadership::{LeadershipRegistry, PartitionLeadership, Registry};
use crate::protocol::{ProduceAck, ProtocolError};
use crate::record::{FetchedRecord, StorageError};
use crate::text;

verus! {

/// When a message counts as accepted: once the leader has it, or once it is on disk.
#[derive(Debug, Clone, Copy, PartialEq, Eq, Structural)]
pub enum AckMode {
    Leader,
    Durable,
}

/// Who published a message, and its number in their sequence.
#[derive(Debug, Clone, PartialEq, Eq)]
pub struct ProducerIdentity {
    pub id: String,
    pub sequence: u64,
}

/// A message of a batch.
#[derive(Debug, Clone, PartialEq, Eq)]
pub struct BatchRecord {
    pub key: Bytes,
    pub payload: Bytes,
}

/// What a broker is asked.
#[derive(Debug, Clone)]
pub enum BrokerRequest {
    Produce {
        topic: String,
        partition: Option<u32>,
        key: Bytes,
        payload: Bytes,
        ack_mode: AckMode,
        producer: Option<ProducerIdentity>,
    },
    ProduceBatch {
        topic: String,
        partition: Option<u32>,
        records: Vec<BatchRecord>,
        ack_mode: AckMode,
        /// How the messages are packed on their way; they are stored as they are.
        compression: BatchCompression,
    },
    Fetch { topic: String, partition: u32, offset: u64, max_bytes: u32, max_wait_ms: u32 },
    GroupFetch {
        group: String,
        topic: String,
        member: String,
        generation: u64,
        partition: u32,
        offset: u64,
        max_bytes: u32,
        max_wait_ms: u32,
    },
    JoinGroup { group: String, topic: String, member: String },
    Heartbeat { group: String, topic: String, member: String, generation: u64 },
    LeaveGroup { group: String, topic: String, member: String, generation: u64 },
    CommitOffset {
        group: String,
        topic: String,
        member: String,
        generation: u64,
        partition: u32,
        offset: u64,
    },
    FetchCommittedOffset { group: String, topic: String, partition: u32 },
    CreateTopic { topic: String, partitions: u32 },
    ListTopics,
    DescribeTopic { topic: String },
    ClusterMetadata,
    PromoteLeader { topic: String, partition: u32, leader_id: u32 },
    ApplyLeadership { topic: String, leadership: PartitionLeadership },
    PartitionStatus { topic: String, partition: u32 },
}

/// What a broker answers.
#[derive(Debug)]
pub enum BrokerResponse {
    Error(String),
    ProduceAck(ProduceAck),
    ProduceBatchAck(Vec<ProduceAck>),
    Fetch(Vec<FetchedRecord>),
    Topics(Vec<TopicMetadata>),
    JoinGroup(JoinGroupResponse),
    GroupAck,
    CommittedOffset(Option<u64>),
    ClusterMetadata(ClusterMetadata),
    LeadershipChanged(PartitionLeadership),
    PartitionStatus(u64),
}

impl BrokerResponse {
    /// Whether this is the error with this text.
    pub open spec fn is_error(self, text: Seq<char>) -> bool {
        self matches BrokerResponse::Error(message) && message@ == text
    }
}

/// Why a connection cannot go on.
#[derive(Debug)]
pub enum ConnectionError {
    Io(String),
    Protocol(ProtocolError),
    TruncatedFrame,
    Storage(StorageError),
    StorageUnavailable,
    BrokerBusy,
    ReplicationClosed,
    InvalidReplicationAck,
    MissingAppendedRecord,
}

impl ConnectionError {
    /// What the error says.
    pub open spec fn text(self) -> Seq<char> {
        match self {
            ConnectionError::Io(cause) => "connection I/O failed: "@ + cause@,
            ConnectionError::Protocol(error) => error.text(),
            ConnectionError::TruncatedFrame => "connection closed with a partial frame"@,
            ConnectionError::Storage(error) => error.text(),
            ConnectionError::StorageUnavailable => "storage worker is unavailable"@,
            ConnectionError::BrokerBusy => "broker busy: storage queue timeout"@,
            ConnectionError::ReplicationClosed =>
                "replication connection closed before acknowledgement"@,
            ConnectionError::InvalidReplicationAck =>
                "follower returned an invalid replication acknowledgement"@,
            ConnectionError::MissingAppendedRecord =>
                "newly appended record could not be read back"@,
        }
    }

    /// The error in words.
    pub fn message(&self) -> (message: String)
        ensures
            message@ == self.text(),
    {
        match self {
            ConnectionError::Io(cause) => text::joined("connection I/O failed: ", cause.as_str()),
            ConnectionError::Protocol(error) => error.message(),
            ConnectionError::TruncatedFrame => "connection closed with a partial frame".to_owned(),
            ConnectionError::Storage(error) => error.message(),
            ConnectionError::StorageUnavailable => "storage worker is unavailable".to_owned(),
            ConnectionError::BrokerBusy => "broker busy: storage queue timeout".to_owned(),
            ConnectionError::ReplicationClosed => {
                "replication connection closed before acknowledgement".to_owned()
            },
            ConnectionError::InvalidReplicationAck => {
                "follower returned an invalid replication acknowledgement".to_owned()
            },
            ConnectionError::MissingAppendedRecord => {
                "newly appended record could not be read back".to_owned()
            },
        }
    }

    /// What the client is told where the connection can go on in spite of the error; the error
    /// itself where it cannot.
    pub fn into_response(self) -> (response: Result<BrokerResponse, ConnectionError>)
        ensures
            match self {
                ConnectionError::BrokerBusy => response matches Ok(answer) && answer.is_error(
                    "broker busy: storage queue timeout"@,
                ),
                ConnectionError::Storage(error) => response matches Ok(answer)
                    && answer.is_error(error.text()),
                _ => response matches Err(error) && error == self,
            },
    {
        match self {
            ConnectionError::BrokerBusy => Ok(
                BrokerResponse::Error("broker busy: storage queue timeout".to_owned()),
            ),
            ConnectionError::Storage(error) => Ok(BrokerResponse::Error(error.message())),
            other => Err(other),
        }
    }
}

/// What happens at the end of a stream: all is well unless bytes of a frame are left.
pub fn end_of_stream(unread: usize) -> (end: Result<(), ConnectionError>)
    ensures
        if unread == 0 {
            end is Ok
        } else {
            end matches Err(error) && error is TruncatedFrame
        },
{
    if unread == 0 {
        Ok(())
    } else {
        Err(ConnectionError::TruncatedFrame)
    }
}

/// Which latency a request counts towards.
#[derive(Debug, Clone, Copy, PartialEq, Eq, Structural)]
pub enum Operation {
    Produce,
    Fetch,
}

impl BrokerRequest {
    /// Which latency the request counts towards.
    pub fn operation(&self) -> (operation: Option<Operation>)
        ensures
            operation == if self is Produce || self is ProduceBatch {
                Some(Operation::Produce)
            } else if self is Fetch || self is GroupFetch {
                Some(Operation::Fetch)
            } else {
                None
            },
    {
        match self {
            BrokerRequest::Produce { .. } => Some(Operation::Produce),
            BrokerRequest::ProduceBatch { .. } => Some(Operation::Produce),
            BrokerRequest::Fetch { .. } => Some(Operation::Fetch),
            BrokerRequest::GroupFetch { .. } => Some(Operation::Fetch),
            _ => None,
        }
    }

    /// The topic and the partition that has to be led by the broker that is asked: `None` where
    /// the request does not depend on leadership.
    pub open spec fn led_partition(self) -> Option<(Seq<char>, Option<u32>)> {
        match self {
            BrokerRequest::Produce { topic, partition, .. } => Some((topic@, partition)),
            BrokerRequest::ProduceBatch { topic, partition, .. } => Some((topic@, partition)),
            BrokerRequest::Fetch { topic, partition, .. } => Some((topic@, Some(partition))),
            BrokerRequest::GroupFetch { topic, partition, .. } => Some((topic@, Some(partition))),
            _ => None,
        }
    }
}

/// How a request is dealt with.
#[derive(Debug)]
pub enum RequestPlan {
    /// Answer with this error.
    Refuse(String),
    /// Append one message, replicate it and acknowledge it.
    Append,
    /// Append a batch, replicate it and acknowledge each message.
    AppendBatch,
    /// Read records.
    Read,
    /// Read records if the group coordinator allows it.
    AuthorizeAndRead,
    /// Ask the group coordinator.
    Coordinate,
    CreateTopic,
    ListTopics,
    DescribeTopic,
    DescribeCluster,
    Promote,
    ApplyLeadership,
    ReportStatus,
}

/// Whether `plan` deals with a request that is not refused.
pub open spec fn plan_serves(plan: RequestPlan, request: BrokerRequest) -> bool {
    match request {
        BrokerRequest::Produce { .. } => plan is Append,
        BrokerRequest::ProduceBatch { .. } => plan is AppendBatch,
        BrokerRequest::Fetch { .. } => plan is Read,
        BrokerRequest::GroupFetch { .. } => plan is AuthorizeAndRead,
        BrokerRequest::CreateTopic { .. } => plan is CreateTopic,
        BrokerRequest::ListTopics => plan is ListTopics,
        BrokerRequest::DescribeTopic { .. } => plan is DescribeTopic,
        BrokerRequest::ClusterMetadata => plan is DescribeCluster,
        BrokerRequest::PromoteLeader { .. } => plan is Promote,
        BrokerRequest::ApplyLeadership { .. } => plan is ApplyLeadership,
        BrokerRequest::PartitionStatus { .. } => plan is ReportStatus,
        _ => plan is Coordinate,
    }
}

/// The broker that leads a partition: the one that its leadership names, where the cluster has it.
pub open spec fn leader_node(
    cluster: ClusterMetadata,
    registry: Registry,
    topic: Seq<char>,
    partition: u32,
) -> ClusterNode {
    match client::broker_with(cluster.nodes@, registry.current(topic, partition).leader_id) {
        Some(node) => node,
        None => cluster.nodes@[cluster::leader_index(cluster.nodes@.len(), partition)],
    }
}

proof fn lemma_broker_at(nodes: Seq<ClusterNode>, place: int)
    requires
        0 <= place < nodes.len(),
        forall|i: int| 0 <= i < place ==> (#[trigger] nodes[i]).id != nodes[place].id,
    ensures
        client::broker_with(nodes, nodes[place].id) == Some(nodes[place]),
    decreases place,
{
    if place > 0 {
        assert(nodes[0].id != nodes[place].id);
        let rest = nodes.skip(1);
        assert forall|i: int| 0 <= i < place - 1 implies (#[trigger] rest[i]).id != rest[place
            - 1].id by {
            assert(nodes[i + 1].id != nodes[place].id);
        }
        lemma_broker_at(rest, place - 1);
    }
}

/// While nobody was promoted, the partitions go round the brokers: the leader of a partition is
/// the broker at its place.
pub proof fn partitions_begin_in_turn(
    cluster: ClusterMetadata,
    registry: Registry,
    topic: Seq<char>,
    partition: u32,
)
    requires
        cluster.nodes@.len() > 0,
        registry.brokers == leadership::broker_ids(cluster),
        registry.brokers.no_duplicates(),
        !registry.entries.dom().contains((topic, partition)),
    ensures
        leader_node(cluster, registry, topic, partition)
            == cluster.nodes@[cluster::leader_index(cluster.nodes@.len(), partition)],
{
    let place = cluster::leader_index(cluster.nodes@.len(), partition);
    assert(0 <= place < cluster.nodes@.len()) by (nonlinear_arith)
        requires
            cluster.nodes@.len() > 0,
            place == partition as int % cluster.nodes@.len() as int,
    ;
    assert forall|i: int| 0 <= i < place implies (#[trigger] cluster.nodes@[i]).id
        != cluster.nodes@[place].id by {
        assert(registry.brokers[i] != registry.brokers[place]);
    }
    assert(registry.brokers[place] == cluster.nodes@[place].id);
    lemma_broker_at(cluster.nodes@, place);
}

/// A broker that was promoted leads: from then on it serves the partition, and the broker that it
/// replaced refuses it.
pub proof fn promoted_broker_leads(
    cluster: ClusterMetadata,
    registry: Registry,
    topic: Seq<char>,
    leadership: PartitionLeadership,
    place: int,
)
    requires
        registry.refusal(topic, leadership) is None,
        0 <= place < cluster.nodes@.len(),
        cluster.nodes@[place].id == leadership.leader_id,
        leadership::broker_ids(cluster).no_duplicates(),
    ensures
        leader_node(
            cluster,
            registry.with_entry(topic, leadership),
            topic,
            leadership.partition,
        ) == cluster.nodes@[place],
{
    let ids = leadership::broker_ids(cluster);
    assert forall|i: int| 0 <= i < place implies (#[trigger] cluster.nodes@[i]).id
        != cluster.nodes@[place].id by {
        assert(ids[i] != ids[place]);
    }
    lemma_broker_at(cluster.nodes@, place);
}

/// The error with which a request is refused by a broker that may not serve it.
pub open spec fn leadership_refusal(
    request: BrokerRequest,
    cluster: ClusterMetadata,
    registry: Registry,
) -> Option<Seq<char>> {
    match request.led_partition() {
        None => None,
        Some((topic, partition)) => if cluster.nodes@.len() == 1 {
            None
        } else {
            match partition {
                None => Some("partition is required for clustered produce"@),
                Some(number) => {
                    let leader = leader_node(cluster, registry, topic, number);
                    if leader.id == cluster.responding_broker_id {
                        None
                    } else {
                        Some(cluster::not_leader_text(number, leader))
                    }
                },
            }
        },
    }
}

/// The error with which a broker refuses a partition that it does not lead.
fn refuse_partition(
    cluster: &ClusterMetadata,
    registry: &LeadershipRegistry,
    topic: &str,
    partition: Option<u32>,
) -> (refusal: Option<String>)
    requires
        cluster.nodes@.len() > 0,
        registry.wf(),
        registry@.brokers.len() > 0,
    ensures
        if cluster.nodes@.len() == 1 {
            refusal is None
        } else {
            match partition {
                None => refusal matches Some(text) && text@
                    == "partition is required for clustered produce"@,
                Some(number) => {
                    let leader = leader_node(*cluster, registry@, topic@, number);
                    if leader.id == cluster.responding_broker_id {
                        refusal is None
                    } else {
                        refusal matches Some(text) && text@ == cluster::not_leader_text(
                            number,
                            leader,
                        )
                    }
                },
            }
        },
{
    if cluster.nodes.len() == 1 {
        return None;
    }
    let number: u32 = match partition {
        None => return Some("partition is required for clustered produce".to_owned()),
        Some(number) => number,
    };
    let leader_id: u32 = registry.current(topic, number).leader_id;
    let mut leader = cluster::leader_for_partition(cluster, number);
    let mut i: usize = 0;
    assert(cluster.nodes@.skip(0) =~= cluster.nodes@);
    while i < cluster.nodes.len()
        invariant_except_break
            i <= cluster.nodes@.len(),
            *leader == cluster.nodes@[cluster::leader_index(cluster.nodes@.len(), number)],
            client::broker_with(cluster.nodes@, leader_id) == client::broker_with(
                cluster.nodes@.skip(i as int),
                leader_id,
            ),
        invariant
            leader_id == registry@.current(topic@, number).leader_id,
        ensures
            *leader == leader_node(*cluster, registry@, topic@, number),
        decreases cluster.nodes@.len() - i,
    {
        if cluster.nodes[i].id == leader_id {
            leader = &cluster.nodes[i];
            break;
        }
        assert(cluster.nodes@.skip(i as int).skip(1) =~= cluster.nodes@.skip(i + 1));
        i = i + 1;
    }
    if leader.id == cluster.responding_broker_id {
        None
    } else {
        Some(cluster::not_leader(number, leader))
    }
}

/// Decides how a request is dealt with.
pub fn plan_request(
    request: &BrokerRequest,
    cluster: &ClusterMetadata,
    registry: &LeadershipRegistry,
) -> (plan: RequestPlan)
    requires
        cluster.nodes@.len() > 0,
        registry.wf(),
        registry@.brokers.len() > 0,
    ensures
        match leadership_refusal(*request, *cluster, registry@) {
            Some(text) => plan matches RequestPlan::Refuse(message) && message@ == text,
            None => plan_serves(plan, *request),
        },
{
    let refusal: Option<String> = match request {
        BrokerRequest::Produce { topic, partition, .. } => {
            refuse_partition(cluster, registry, topic.as_str(), *partition)
        },
        BrokerRequest::ProduceBatch { topic, partition, .. } => {
            refuse_partition(cluster, registry, topic.as_str(), *partition)
        },
        BrokerRequest::Fetch { topic, partition, .. } => {
            refuse_partition(cluster, registry, topic.as_str(), Some(*partition))
        },
        BrokerRequest::GroupFetch { topic, partition, .. } => {
            refuse_partition(cluster, registry, topic.as_str(), Some(*partition))
        },
        _ => None,
    };
    if let Some(message) = refusal {
        return RequestPlan::Refuse(message);
    }
    match request {
        BrokerRequest::Produce { .. } => RequestPlan::Append,
        BrokerRequest::ProduceBatch { .. } => RequestPlan::AppendBatch,
        BrokerRequest::Fetch { .. } => RequestPlan::Read,
        BrokerRequest::GroupFetch { .. } => RequestPlan::AuthorizeAndRead,
        BrokerRequest::CreateTopic { .. } => RequestPlan::CreateTopic,
        BrokerRequest::ListTopics => RequestPlan::ListTopics,
        BrokerRequest::DescribeTopic { .. } => RequestPlan::DescribeTopic,
        BrokerRequest::ClusterMetadata => RequestPlan::DescribeCluster,
        BrokerRequest::PromoteLeader { .. } => RequestPlan::Promote,
        BrokerRequest::ApplyLeadership { .. } => RequestPlan::ApplyLeadership,
        BrokerRequest::PartitionStatus { .. } => RequestPlan::ReportStatus,
        _ => RequestPlan::Coordinate,
    }
}

/// What follows the coordinator's answer to a group fetch: `None` where the records may be read,
/// or the answer to the client.
pub fn after_authorization(answer: BrokerResponse) -> (refusal: Option<BrokerResponse>)
    ensures
        match answer {
            BrokerResponse::GroupAck => refusal is None,
            BrokerResponse::Error(_) => refusal == Some(answer),
            _ => refusal matches Some(response) && response.is_error(
                "invalid group authorization response"@,
            ),
        },
{
    match answer {
        BrokerResponse::GroupAck => None,
        BrokerResponse::Error(message) => Some(BrokerResponse::Error(message)),
        _ => Some(BrokerResponse::Error("invalid group authorization response".to_owned())),
    }
}

/// Whether a fetch waits for new records: it found none and may wait.
pub fn waits_for_records(found: usize, max_wait_ms: u32) -> (waits: bool)
    ensures
        waits == (found == 0 && max_wait_ms != 0),
{
    found == 0 && max_wait_ms != 0
}

/// The record with an offset, among those that were read for it.
pub fn record_at(records: &Vec<FetchedRecord>, offset: u64) -> (found: Result<
    FetchedRecord,
    ConnectionError,
>)
    ensures
        match found {
            Ok(record) => exists|i: int|
                0 <= i < records@.len() && #[trigger] records@[i].offset == offset && record@
                    == records@[i]@ && forall|j: int|
                    0 <= j < i ==> #[trigger] records@[j].offset != offset,
            Err(error) => error is MissingAppendedRecord && forall|i: int|
                0 <= i < records@.len() ==> #[trigger] records@[i].offset != offset,
        },
{
    let mut i: usize = 0;
    while i < records.len()
        invariant
            i <= records@.len(),
            forall|j: int| 0 <= j < i ==> #[trigger] records@[j].offset != offset,
        decreases records@.len() - i,
    {
        if records[i].offset == offset {
            assert(records@[i as int].offset == offset);
            return Ok(records[i].clone());
        }
        i = i + 1;
    }
    Err(ConnectionError::MissingAppendedRecord)
}

/// The bytes of the values of some records.
pub open spec fn value_bytes(records: Seq<FetchedRecord>) -> nat
    decreases records.len(),
{
    if records.len() == 0 {
        0
    } else {
        value_bytes(records.drop_last()) + records.last()@.value.len()
    }
}

/// The bytes of the payloads of a batch.
pub open spec fn batch_bytes(records: Seq<BatchRecord>) -> nat
    decreases records.len(),
{
    if records.len() == 0 {
        0
    } else {
        batch_bytes(records.drop_last()) + buffer::content(records.last().payload).len()
    }
}

/// A sum of sizes as it is counted: the largest size stands for larger ones.
pub open spec fn capped_size(sum: nat) -> nat {
    if sum > usize::MAX {
        usize::MAX as nat
    } else {
        sum
    }
}

/// How many bytes a fetch hands out.
pub fn fetched_bytes(records: &Vec<FetchedRecord>) -> (bytes: usize)
    ensures
        bytes == capped_size(value_bytes(records@)),
{
    let mut bytes: usize = 0;
    let mut i: usize = 0;
    while i < records.len()
        invariant
            i <= records@.len(),
            bytes == capped_size(value_bytes(records@.take(i as int))),
        decreases records@.len() - i,
    {
        proof {
            assert(records@.take(i + 1).drop_last() =~= records@.take(i as int));
        }
        bytes = bytes.saturating_add(records[i].value.len());
        i = i + 1;
    }
    assert(records@.take(i as int) =~= records@);
    bytes
}

/// How many bytes a batch brings.
pub fn produced_bytes(records: &Vec<BatchRecord>) -> (bytes: usize)
    ensures
        bytes == capped_size(batch_bytes(records@)),
{
    let mut bytes: usize = 0;
    let mut i: usize = 0;
    while i < records.len()
        invariant
            i <= records@.len(),
            bytes == capped_size(batch_bytes(records@.take(i as int))),
        decreases records@.len() - i,
    {
        proof {
            assert(records@.take(i + 1).drop_last() =~= records@.take(i as int));
        }
        bytes = bytes.saturating_add(records[i].payload.len());
        i = i + 1;
    }
    assert(records@.take(i as int) =~= records@);
    bytes
}

/// Whether an answer lists topics, with the leaders of their partitions.
pub open spec fn lists_topics(
    response: BrokerResponse,
    topics: Seq<TopicMetadata>,
    registry: Registry,
) -> bool {
    &&& response matches BrokerResponse::Topics(led)
    &&& led@.len() == topics.len()
    &&& forall|i: int|
        0 <= i < topics.len() ==> {
            &&& (#[trigger] led@[i]).topic@ == topics[i].topic@
            &&& led@[i].partitions == topics[i].partitions
            &&& led@[i].leaders@ == registry.leaders(topics[i].topic@, topics[i].partitions)
        }
}

/// The answer that lists topics, with the leaders of their partitions.
pub fn topics_response(topics: Vec<TopicMetadata>, registry: &LeadershipRegistry) -> (
    response: BrokerResponse)
    requires
        registry.wf(),
        registry@.brokers.len() > 0,
    ensures
        lists_topics(response, topics@, registry@),
{
    let mut led: Vec<TopicMetadata> = Vec::new();
    let mut i: usize = 0;
    while i < topics.len()
        invariant
            registry.wf(),
            registry@.brokers.len() > 0,
            i <= topics@.len(),
            led@.len() == i,
            forall|j: int|
                0 <= j < i ==> {
                    &&& (#[trigger] led@[j]).topic@ == topics@[j].topic@
                    &&& led@[j].partitions == topics@[j].partitions
                    &&& led@[j].leaders@ == registry@.leaders(
                        topics@[j].topic@,
                        topics@[j].partitions,
                    )
                },
        decreases topics@.len() - i,
    {
        let metadata = TopicMetadata {
            topic: topics[i].topic.clone(),
            partitions: topics[i].partitions,
            leaders: Vec::new(),
        };
        led.push(cluster::with_leaders(metadata, registry));
        i = i + 1;
    }
    BrokerResponse::Topics(led)
}

/// Whether a topic with this name is listed.
pub open spec fn is_listed(topics: Seq<TopicMetadata>, topic: Seq<char>) -> bool {
    exists|i: int| 0 <= i < topics.len() && #[trigger] topics[i].topic@ == topic
}

/// Whether `metadata` is that of the first listed topic with this name.
pub open spec fn is_described(
    metadata: TopicMetadata,
    topics: Seq<TopicMetadata>,
    topic: Seq<char>,
) -> bool {
    exists|i: int|
        0 <= i < topics.len() && #[trigger] topics[i].topic@ == topic && metadata.topic@ == topic
            && metadata.partitions == topics[i].partitions && metadata.leaders@
            == topics[i].leaders@ && forall|j: int|
            0 <= j < i ==> #[trigger] topics[j].topic@ != topic
}

/// The topic with a name, among those that are listed.
pub fn describe_topic(topics: Vec<TopicMetadata>, topic: &str) -> (found: Result<
    TopicMetadata,
    StorageError,
>)
    ensures
        match found {
            Ok(metadata) => is_described(metadata, topics@, topic@),
            Err(error) => error == StorageError::UnknownTopic && !is_listed(topics@, topic@),
        },
{
    let mut i: usize = 0;
    while i < topics.len()
        invariant
            i <= topics@.len(),
            forall|j: int| 0 <= j < i ==> #[trigger] topics@[j].topic@ != topic@,
        decreases topics@.len() - i,
    {
        if text::same(topics[i].topic.as_str(), topic) {
            assert(topics@[i as int].topic@ == topic@);
            return Ok(
                TopicMetadata {
                    topic: topics[i].topic.clone(),
                    partitions: topics[i].partitions,
                    leaders: topics[i].leaders.clone(),
                },
            );
        }
        i = i + 1;
    }
    Err(StorageError::UnknownTopic)
}

/// Only the leader of a partition serves it: in a cluster of more than one broker a message, a
/// batch, a fetch and a group fetch are each refused, unless they name a partition whose current
/// leader is the broker that was asked.
pub proof fn only_leaders_serve(
    request: BrokerRequest,
    cluster: ClusterMetadata,
    registry: Registry,
    topic: Seq<char>,
    partition: Option<u32>,
    place: int,
)
    requires
        cluster.nodes@.len() > 1,
        match request {
            BrokerRequest::Produce { topic: name, partition: wanted, .. } => name@ == topic && wanted
                == partition,
            BrokerRequest::ProduceBatch { topic: name, partition: wanted, .. } => name@ == topic
                && wanted == partition,
            BrokerRequest::Fetch { topic: name, partition: wanted, .. } => name@ == topic && Some(
                wanted,
            ) == partition,
            BrokerRequest::GroupFetch { topic: name, partition: wanted, .. } => name@ == topic
                && Some(wanted) == partition,
            _ => false,
        },
        partition matches Some(number) ==> 0 <= place < cluster.nodes@.len()
            && cluster.nodes@[place].id == registry.current(topic, number).leader_id,
    ensures
        leadership_refusal(request, cluster, registry) is None <==> (partition matches Some(number)
            && registry.current(topic, number).leader_id == cluster.responding_broker_id),
{
    if let Some(number) = partition {
        let id = registry.current(topic, number).leader_id;
        client::brokers_are_found_by_id(cluster.nodes@, id);
        assert(cluster.nodes@[place].id == id);
    }
}

/// A lone broker serves every partition, and the requests that are about no partition are served
/// by every broker.
pub proof fn other_requests_need_no_leader(
    request: BrokerRequest,
    cluster: ClusterMetadata,
    registry: Registry,
)
    ensures
        cluster.nodes@.len() == 1 ==> leadership_refusal(request, cluster, registry) is None,
        !(request is Produce) && !(request is ProduceBatch) && !(request is Fetch) && !(request
            is GroupFetch) ==> leadership_refusal(request, cluster, registry) is None,
{
}

/// A request that is not refused is dealt with as what it is: messages are appended, batches are
/// appended as such, fetches read, and group fetches read where the coordinator allows it.
pub proof fn plans_suit_requests(plan: RequestPlan, request: BrokerRequest)
    requires
        plan_serves(plan, request),
    ensures
        plan is Append <==> request is Produce,
        plan is AppendBatch <==> request is ProduceBatch,
        plan is Read <==> request is Fetch,
        plan is AuthorizeAndRead <==> request is GroupFetch,
        plan is Coordinate <==> request is JoinGroup || request is Heartbeat || request is LeaveGroup
            || request is CommitOffset || request is FetchCommittedOffset,
        plan is CreateTopic <==> request is CreateTopic,
        plan is Promote <==> request is PromoteLeader,
        plan is ApplyLeadership <==> request is ApplyLeadership,
        plan is ReportStatus <==> request is PartitionStatus,
        !(plan is Refuse),
{
}

/// A topic is described as it is listed: with its partition count and the current leader of each
/// of its partitions.
pub proof fn listed_topics_tell_leaders(
    response: BrokerResponse,
    topics: Seq<TopicMetadata>,
    registry: Registry,
    place: int,
    partition: u32,
)
    requires
        lists_topics(response, topics, registry),
        0 <= place < topics.len(),
        partition < topics[place].partitions,
    ensures
        response matches BrokerResponse::Topics(listed) && {
            &&& listed@.len() == topics.len()
            &&& listed@[place].topic@ == topics[place].topic@
            &&& listed@[place].partitions == topics[place].partitions
            &&& listed@[place].leaders@.len() == topics[place].partitions
            &&& listed@[place].leaders@[partition as int] == registry.current(
                topics[place].topic@,
                partition,
            )
        },
{
    let listed = response->Topics_0;
    assert(listed@[place].topic@ == topics[place].topic@);
}

/// Bytes add up record by record, and only values count.
pub proof fn message_bytes_add_up(
    fetched: Seq<FetchedRecord>,
    found: FetchedRecord,
    batch: Seq<BatchRecord>,
    record: BatchRecord,
)
    ensures
        value_bytes(Seq::empty()) == 0,
        batch_bytes(Seq::empty()) == 0,
        value_bytes(fetched.push(found)) == value_bytes(fetched) + found@.value.len(),
        batch_bytes(batch.push(record)) == batch_bytes(batch) + buffer::content(
            record.payload,
        ).len(),
        value_bytes(fetched) <= usize::MAX ==> capped_size(value_bytes(fetched)) == value_bytes(
            fetched,
        ),
        batch_bytes(batch) <= usize::MAX ==> capped_size(batch_bytes(batch)) == batch_bytes(batch),
{
    assert(fetched.push(found).drop_last() =~= fetched);
    assert(batch.push(record).drop_last() =~= batch);
}

/// A topic that is described is the listed one with its name: its partitions and leaders are those
/// that are listed, and a topic that is not listed is not described.
pub proof fn described_topic_is_listed_one(
    metadata: TopicMetadata,
    topics: Seq<TopicMetadata>,
    topic: Seq<char>,
    place: int,
)
    requires
        0 <= place < topics.len(),
        topics[place].topic@ == topic,
        forall|i: int| 0 <= i < place ==> (#[trigger] topics[i]).topic@ != topic,
    ensures
        is_listed(topics, topic),
        is_described(metadata, topics, topic) ==> metadata.topic@ == topic && metadata.partitions
            == topics[place].partitions && metadata.leaders@ == topics[place].leaders@,
        is_described(topics[place], topics, topic),
        !is_listed(topics.take(place), topic),
        !is_described(metadata, topics.take(place), topic),
{
    assert(topics[place].topic@ == topic);
    assert forall|i: int| 0 <= i < place implies (#[trigger] topics.take(place)[i]).topic@
        != topic by {
        assert(topics.take(place)[i] == topics[i]);
    }
}

} // verus!
