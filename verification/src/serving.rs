//! A request on its way through the broker: what is done for it, one thing after the other, until
//! it is answered.

use vstd::prelude::*;

use crate::broker::AppendInput;
use crate::buffer;
use crate::cli::BatchCompression;
use crate::cluster;
use crate::cluster::{ClusterMetadata, TopicMetadata};
use crate::leadership::{LeadershipRegistry, PartitionLeadership, Registry};
use crate::messages;
use crate::messages::{
    AckMode, BatchRecord, BrokerRequest, BrokerResponse, ConnectionError, RequestPlan,
};
use crate::metrics::PartitionSnapshot;
use crate::promotion;
use crate::promotion::{PromotionError, ReplicaStatus};
use crate::protocol::ProduceAck;
use crate::record::{FetchedRecord, StorageError};
use crate::replication;
use crate::replication::{Progress, Replication};
use crate::text;

verus! {

/// What an answered request counts as.
#[derive(Debug, Clone, Copy, PartialEq, Eq, Structural)]
pub enum Counted {
    Nothing,
    Produced { messages: usize, bytes: usize },
    Fetched { messages: usize, bytes: usize },
}

/// Messages that were appended and are not acknowledged yet.
#[derive(Debug)]
pub struct Publication {
    pub topic: String,
    pub ack_mode: AckMode,
    /// Whether the messages came as a batch.
    pub batch: bool,
    /// How many bytes the messages have.
    pub bytes: usize,
    /// Where the messages were put.
    pub acks: Vec<ProduceAck>,
    /// The records that were read back so far.
    pub records: Vec<FetchedRecord>,
}

/// What is done for a request next.
#[derive(Debug)]
pub enum Task {
    /// The client is answered.
    Answer { response: BrokerResponse, counted: Counted },
    /// A message is appended.
    Append { input: AppendInput },
    /// A batch is appended.
    AppendBatch {
        topic: String,
        partition: Option<u32>,
        records: Vec<BatchRecord>,
        ack_mode: AckMode,
        compression: BatchCompression,
    },
    /// The record of the first acknowledgement without one is read back.
    ReadBack { publication: Publication },
    /// The records are replicated: before the client is answered where they are to be durable,
    /// and in the background where they are not.
    Replicate { publication: Publication },
    /// Records are read.
    Read { topic: String, partition: u32, offset: u64, max_bytes: u32, max_wait_ms: u32 },
    /// The coordinator is asked whether a member may read.
    Authorize { request: BrokerRequest },
    /// The coordinator is asked.
    Coordinate { request: BrokerRequest },
    CreateTopic { topic: String, partitions: u32 },
    /// The coordinator learns how many partitions a new topic has.
    SetPartitions { metadata: TopicMetadata },
    ListTopics,
    DescribeTopic { topic: String },
    /// The brokers are asked how far their replicas of a partition get.
    Promote { topic: String, partition: u32, leader_id: u32 },
    /// A leadership is recorded.
    Lead { topic: String, leadership: PartitionLeadership },
    /// The extents of the partitions are read.
    ReadStatus { topic: String, partition: u32 },
}

impl Publication {
    /// Each record that was read back is the one of its acknowledgement.
    pub open spec fn wf(self) -> bool {
        &&& self.records@.len() <= self.acks@.len()
        &&& !self.batch ==> self.acks@.len() == 1
        &&& forall|i: int|
            0 <= i < self.records@.len() ==> (#[trigger] self.records@[i]).offset
                == self.acks@[i].offset
    }

    /// Whether `other` is this publication with one more record read back.
    pub open spec fn with_record(self, other: Publication, record: FetchedRecord) -> bool {
        &&& other.topic == self.topic
        &&& other.ack_mode == self.ack_mode
        &&& other.batch == self.batch
        &&& other.bytes == self.bytes
        &&& other.acks == self.acks
        &&& other.records@ == self.records@.push(record)
    }
}

impl Task {
    /// Whether messages are acknowledged to the client.
    pub open spec fn acknowledges(self) -> bool {
        self matches Task::Answer { response, .. } && (response is ProduceAck || response
            is ProduceBatchAck)
    }

    /// Whether the client is answered with this error.
    pub open spec fn refuses(self, text: Seq<char>) -> bool {
        self matches Task::Answer { response, counted } && response.is_error(text) && counted
            == Counted::Nothing
    }

    /// What is known of the messages while they are published.
    pub open spec fn wf(self) -> bool {
        match self {
            Task::ReadBack { publication } => publication.wf() && publication.records@.len()
                < publication.acks@.len(),
            Task::Replicate { publication } => publication.wf() && publication.records@.len()
                == publication.acks@.len(),
            Task::Authorize { request } => request is GroupFetch,
            _ => true,
        }
    }
}

/// Whether `task` is the first thing that is done for a request that the broker may serve.
pub open spec fn begins(task: Task, request: BrokerRequest, cluster: ClusterMetadata) -> bool {
    match request {
        BrokerRequest::Produce { topic, partition, key, payload, ack_mode, producer } => {
            &&& task matches Task::Append { input }
            &&& input.topic == topic
            &&& input.partition == partition
            &&& input.key == key
            &&& input.value == payload
            &&& input.ack_mode == ack_mode
            &&& input.producer == producer
        },
        BrokerRequest::ProduceBatch { topic, partition, records, ack_mode, compression } => task
            == (Task::AppendBatch { topic, partition, records, ack_mode, compression }),
        BrokerRequest::Fetch { topic, partition, offset, max_bytes, max_wait_ms } => task
            == (Task::Read { topic, partition, offset, max_bytes, max_wait_ms }),
        BrokerRequest::GroupFetch { .. } => task == (Task::Authorize { request }),
        BrokerRequest::CreateTopic { topic, partitions } => task == (Task::CreateTopic {
            topic,
            partitions,
        }),
        BrokerRequest::ListTopics => task == Task::ListTopics,
        BrokerRequest::DescribeTopic { topic } => task == (Task::DescribeTopic { topic }),
        BrokerRequest::ClusterMetadata => {
            &&& task matches Task::Answer { response, counted }
            &&& counted == Counted::Nothing
            &&& response matches BrokerResponse::ClusterMetadata(metadata)
            &&& metadata.responding_broker_id == cluster.responding_broker_id
            &&& cluster::node_views(metadata.nodes@) == cluster::node_views(
                cluster.nodes@,
            )
        },
        BrokerRequest::PromoteLeader { topic, partition, leader_id } => task == (Task::Promote {
            topic,
            partition,
            leader_id,
        }),
        BrokerRequest::ApplyLeadership { topic, leadership } => task == (Task::Lead {
            topic,
            leadership,
        }),
        BrokerRequest::PartitionStatus { topic, partition } => task == (Task::ReadStatus {
            topic,
            partition,
        }),
        _ => task == (Task::Coordinate { request }),
    }
}

/// Whether `task` is the first thing that is done for a request.
pub open spec fn is_start(
    task: Task,
    request: BrokerRequest,
    cluster: ClusterMetadata,
    registry: Registry,
) -> bool {
    match messages::leadership_refusal(request, cluster, registry) {
        Some(text) => task.refuses(text),
        None => begins(task, request, cluster),
    }
}

/// Whether `task` goes on with a message that was appended.
pub open spec fn publishes(task: Task, input: AppendInput, ack: ProduceAck) -> bool {
    &&& task matches Task::ReadBack { publication }
    &&& publication.topic == input.topic
    &&& publication.ack_mode == input.ack_mode
    &&& !publication.batch
    &&& publication.bytes == buffer::content(input.value).len()
    &&& publication.acks@ == seq![ack]
    &&& publication.records@.len() == 0
}

/// Whether `task` goes on with a batch that was appended.
pub open spec fn publishes_batch(
    task: Task,
    topic: String,
    records: Seq<BatchRecord>,
    ack_mode: AckMode,
    acks: Vec<ProduceAck>,
) -> bool {
    let publication = if acks@.len() > 0 {
        task->ReadBack_publication
    } else {
        task->Replicate_publication
    };
    &&& acks@.len() > 0 ==> task is ReadBack
    &&& acks@.len() == 0 ==> task is Replicate
    &&& publication.topic == topic
    &&& publication.ack_mode == ack_mode
    &&& publication.batch
    &&& publication.bytes == messages::capped_size(messages::batch_bytes(records))
    &&& publication.acks == acks
    &&& publication.records@.len() == 0
}

/// Whether `task` goes on once a record of a publication was read back.
pub open spec fn reads_back(task: Task, before: Publication, record: FetchedRecord) -> bool {
    if before.records@.len() + 1 < before.acks@.len() {
        &&& task matches Task::ReadBack { publication }
        &&& before.with_record(publication, record)
    } else {
        &&& task matches Task::Replicate { publication }
        &&& before.with_record(publication, record)
    }
}

/// Whether `task` acknowledges a publication.
pub open spec fn answers_publication(task: Task, publication: Publication) -> bool {
    &&& task matches Task::Answer { response, counted }
    &&& counted == (Counted::Produced {
        messages: publication.acks@.len() as usize,
        bytes: publication.bytes,
    })
    &&& if publication.batch {
        response == BrokerResponse::ProduceBatchAck(publication.acks)
    } else {
        response == BrokerResponse::ProduceAck(publication.acks@[0])
    }
}

/// Whether `task` hands records out.
pub open spec fn hands_out(task: Task, records: Vec<FetchedRecord>) -> bool {
    task == (Task::Answer {
        response: BrokerResponse::Fetch(records),
        counted: Counted::Fetched {
            messages: records@.len() as usize,
            bytes: messages::capped_size(messages::value_bytes(records@)) as usize,
        },
    })
}

/// Whether `task` goes on with a group fetch once the coordinator has answered.
pub open spec fn reads_if_allowed(
    task: Task,
    request: BrokerRequest,
    answer: BrokerResponse,
) -> bool {
    match answer {
        BrokerResponse::GroupAck => match request {
            BrokerRequest::GroupFetch { topic, partition, offset, max_bytes, max_wait_ms, .. } => task
                == (Task::Read { topic, partition, offset, max_bytes, max_wait_ms }),
            _ => true,
        },
        BrokerResponse::Error(_) => task == (Task::Answer {
            response: answer,
            counted: Counted::Nothing,
        }),
        _ => task.refuses("invalid group authorization response"@),
    }
}

/// Whether each record of a publication is held by as many brokers as have to, the leader among
/// them.
pub open spec fn confirms(
    finished: Seq<Replication>,
    publication: Publication,
    cluster: ClusterMetadata,
    factor: usize,
    needed: usize,
) -> bool {
    &&& finished.len() == publication.records@.len()
    &&& forall|i: int|
        0 <= i < finished.len() ==> {
            let progress = (#[trigger] finished[i])@;
            &&& finished[i].wf()
            &&& progress.offset == publication.records@[i].offset
            &&& progress.followers == replication::following(
                cluster,
                publication.acks@[i].partition,
                factor,
            )
            &&& progress.confirmed + 1 >= needed
        }
}

/// A durable acknowledgement means a quorum: each message that is acknowledged has its record
/// confirmed by so many different followers that they and the leader are at least as many as have
/// to be in sync.
pub proof fn durable_acknowledgement_reaches_quorum(
    cluster: ClusterMetadata,
    publication: Publication,
    finished: Seq<Replication>,
    factor: usize,
    needed: usize,
    index: int,
)
    requires
        (Task::Replicate { publication }).wf(),
        confirms(finished, publication, cluster, factor, needed),
        0 <= index < publication.acks@.len(),
    ensures
        finished[index]@.offset == publication.acks@[index].offset,
        finished[index]@.confirmed + 1 >= needed,
        finished[index]@.confirmed <= finished[index]@.followers.len(),
{
    assert(finished[index]@.offset == publication.records@[index].offset);
    assert(finished[index].wf());
}

/// A quorum is enough for a durable acknowledgement: where as many brokers hold each record as
/// have to, the messages may be acknowledged, whatever the other followers do. `held` tells of
/// each record which followers hold it.
pub proof fn quorum_acknowledges(
    cluster: ClusterMetadata,
    publication: Publication,
    started: Seq<Progress>,
    held: Seq<Seq<bool>>,
    finished: Seq<Replication>,
    factor: usize,
    needed: usize,
)
    requires
        finished.len() == publication.records@.len(),
        started.len() == finished.len(),
        held.len() == finished.len(),
        forall|i: int|
            0 <= i < finished.len() ==> {
                &&& (#[trigger] finished[i]).wf()
                &&& started[i].offset == publication.records@[i].offset
                &&& started[i].confirmed == 0
                &&& started[i].followers == replication::following(
                    cluster,
                    publication.acks@[i].partition,
                    factor,
                )
                &&& finished[i]@ == replication::after_turns(started[i], held[i])
                &&& replication::holders(held[i]) + 1 >= needed
            },
    ensures
        confirms(finished, publication, cluster, factor, needed),
{
    assert forall|i: int| 0 <= i < finished.len() implies {
        let progress = (#[trigger] finished[i])@;
        &&& finished[i].wf()
        &&& progress.offset == publication.records@[i].offset
        &&& progress.followers == replication::following(
            cluster,
            publication.acks@[i].partition,
            factor,
        )
        &&& progress.confirmed + 1 >= needed
    } by {
        replication::quorum_commits(started[i], held[i], needed);
        replication::lemma_after_turns(started[i], held[i]);
    }
}

/// A leadership as a broker records it that hears of it. Where another broker leads, the high
/// watermark stays the one that the broker knows itself: its log may hold other records than that
/// of the new leader.
pub open spec fn as_heard(
    leadership: PartitionLeadership,
    registry: Registry,
    topic: Seq<char>,
    broker: u32,
) -> PartitionLeadership {
    if leadership.leader_id == broker {
        leadership
    } else {
        PartitionLeadership {
            high_watermark: registry.current(topic, leadership.partition).high_watermark,
            ..leadership
        }
    }
}

/// Where the log of a partition ends, as the first snapshot of it tells.
pub open spec fn log_end(
    snapshots: Seq<PartitionSnapshot>,
    topic: Seq<char>,
    partition: u32,
) -> Option<u64>
    decreases snapshots.len(),
{
    if snapshots.len() == 0 {
        None
    } else if snapshots[0].topic@ == topic && snapshots[0].partition == partition {
        Some(snapshots[0].log_end_offset)
    } else {
        log_end(snapshots.skip(1), topic, partition)
    }
}

fn find_log_end(snapshots: &Vec<PartitionSnapshot>, topic: &str, partition: u32) -> (end: Option<
    u64,
>)
    ensures
        end == log_end(snapshots@, topic@, partition),
{
    let mut i: usize = 0;
    assert(snapshots@.skip(0) =~= snapshots@);
    while i < snapshots.len()
        invariant
            i <= snapshots@.len(),
            log_end(snapshots@, topic@, partition) == log_end(
                snapshots@.skip(i as int),
                topic@,
                partition,
            ),
        decreases snapshots@.len() - i,
    {
        if text::same(snapshots[i].topic.as_str(), topic) && snapshots[i].partition == partition {
            return Some(snapshots[i].log_end_offset);
        }
        assert(snapshots@.skip(i as int).skip(1) =~= snapshots@.skip(i + 1));
        i = i + 1;
    }
    None
}

fn answered(response: BrokerResponse) -> (task: Task)
    ensures
        task == (Task::Answer { response, counted: Counted::Nothing }),
{
    Task::Answer { response, counted: Counted::Nothing }
}

impl Task {
    /// The first thing that is done for a request. A broker that does not lead the partition
    /// refuses it.
    pub fn start(
        request: BrokerRequest,
        cluster: &ClusterMetadata,
        registry: &LeadershipRegistry,
    ) -> (task: Task)
        requires
            cluster.nodes@.len() > 0,
            registry.wf(),
            registry@.brokers.len() > 0,
        ensures
            task.wf(),
            !task.acknowledges(),
            is_start(task, request, *cluster, registry@),
    {
        match messages::plan_request(&request, cluster, registry) {
            RequestPlan::Refuse(message) => return answered(BrokerResponse::Error(message)),
            _ => {},
        }
        match request {
            BrokerRequest::Produce { topic, partition, key, payload, ack_mode, producer } => {
                Task::Append {
                    input: AppendInput {
                        topic,
                        partition,
                        key,
                        value: payload,
                        ack_mode,
                        producer,
                    },
                }
            },
            BrokerRequest::ProduceBatch { topic, partition, records, ack_mode, compression } => {
                Task::AppendBatch { topic, partition, records, ack_mode, compression }
            },
            BrokerRequest::Fetch { topic, partition, offset, max_bytes, max_wait_ms } => {
                Task::Read { topic, partition, offset, max_bytes, max_wait_ms }
            },
            BrokerRequest::CreateTopic { topic, partitions } => {
                Task::CreateTopic { topic, partitions }
            },
            BrokerRequest::ListTopics => Task::ListTopics,
            BrokerRequest::DescribeTopic { topic } => Task::DescribeTopic { topic },
            BrokerRequest::ClusterMetadata => {
                answered(BrokerResponse::ClusterMetadata(cluster.clone()))
            },
            BrokerRequest::PromoteLeader { topic, partition, leader_id } => {
                Task::Promote { topic, partition, leader_id }
            },
            BrokerRequest::ApplyLeadership { topic, leadership } => {
                Task::Lead { topic, leadership }
            },
            BrokerRequest::PartitionStatus { topic, partition } => {
                Task::ReadStatus { topic, partition }
            },
            BrokerRequest::GroupFetch { .. } => Task::Authorize { request },
            other => Task::Coordinate { request: other },
        }
    }

    /// A message was appended: its record is read back.
    pub fn appended(self, ack: ProduceAck) -> (task: Task)
        requires
            self is Append,
        ensures
            task.wf(),
            publishes(task, self->input, ack),
    {
        match self {
            Task::Append { input } => {
                let bytes: usize = input.value.len();
                let mut acks: Vec<ProduceAck> = Vec::new();
                acks.push(ack);
                assert(acks@ =~= seq![ack]);
                Task::ReadBack {
                    publication: Publication {
                        topic: input.topic,
                        ack_mode: input.ack_mode,
                        batch: false,
                        bytes,
                        acks,
                        records: Vec::new(),
                    },
                }
            },
            other => other,
        }
    }

    /// A batch was appended: its records are read back, if it has any.
    pub fn batch_appended(self, acks: Vec<ProduceAck>) -> (task: Task)
        requires
            self is AppendBatch,
        ensures
            task.wf(),
            publishes_batch(
                task,
                self->AppendBatch_topic,
                self->AppendBatch_records@,
                self->AppendBatch_ack_mode,
                acks,
            ),
    {
        match self {
            Task::AppendBatch { topic, records, ack_mode, .. } => {
                let bytes: usize = messages::produced_bytes(&records);
                let empty: bool = acks.len() == 0;
                let publication = Publication {
                    topic,
                    ack_mode,
                    batch: true,
                    bytes,
                    acks,
                    records: Vec::new(),
                };
                if empty {
                    Task::Replicate { publication }
                } else {
                    Task::ReadBack { publication }
                }
            },
            other => other,
        }
    }

    /// A record was read back: the next one is, or the records are replicated.
    pub fn record_read(self, record: FetchedRecord) -> (task: Task)
        requires
            self is ReadBack,
            self.wf(),
            record.offset
                == self->ReadBack_publication.acks@[self->ReadBack_publication.records@.len() as int].offset,
        ensures
            task.wf(),
            reads_back(task, self->ReadBack_publication, record),
    {
        match self {
            Task::ReadBack { publication } => {
                let mut publication = publication;
                publication.records.push(record);
                if publication.records.len() < publication.acks.len() {
                    Task::ReadBack { publication }
                } else {
                    Task::Replicate { publication }
                }
            },
            other => other,
        }
    }

    /// The records were replicated, or are so in the background: the messages are acknowledged.
    /// Durable ones are only once enough brokers hold each record.
    pub fn replicated(
        self,
        cluster: &ClusterMetadata,
        finished: &Vec<Replication>,
        factor: usize,
        needed: usize,
    ) -> (task: Task)
        requires
            self is Replicate,
            self.wf(),
            self->Replicate_publication.ack_mode == AckMode::Durable ==> confirms(
                finished@,
                self->Replicate_publication,
                *cluster,
                factor,
                needed,
            ),
        ensures
            answers_publication(task, self->Replicate_publication),
    {
        match self {
            Task::Replicate { publication } => {
                let counted = Counted::Produced {
                    messages: publication.acks.len(),
                    bytes: publication.bytes,
                };
                let response = if publication.batch {
                    BrokerResponse::ProduceBatchAck(publication.acks)
                } else {
                    BrokerResponse::ProduceAck(publication.acks[0])
                };
                Task::Answer { response, counted }
            },
            other => other,
        }
    }

    /// Records were read: they are handed out.
    pub fn records_read(self, records: Vec<FetchedRecord>) -> (task: Task)
        requires
            self is Read,
        ensures
            hands_out(task, records),
    {
        let counted = Counted::Fetched {
            messages: records.len(),
            bytes: messages::fetched_bytes(&records),
        };
        Task::Answer { response: BrokerResponse::Fetch(records), counted }
    }

    /// The coordinator has answered whether a member may read: the records are read, or the
    /// client is told.
    pub fn authorized(self, answer: BrokerResponse) -> (task: Task)
        requires
            self is Authorize,
            self.wf(),
        ensures
            task.wf(),
            !task.acknowledges(),
            reads_if_allowed(task, self->Authorize_request, answer),
    {
        match messages::after_authorization(answer) {
            Some(refusal) => return answered(refusal),
            None => {},
        }
        match self {
            Task::Authorize { request } => match request {
                BrokerRequest::GroupFetch {
                    topic,
                    partition,
                    offset,
                    max_bytes,
                    max_wait_ms,
                    ..
                } => Task::Read { topic, partition, offset, max_bytes, max_wait_ms },
                other => Task::Coordinate { request: other },
            },
            other => other,
        }
    }

    /// The coordinator has answered.
    pub fn coordinated(self, answer: BrokerResponse) -> (task: Task)
        requires
            self is Coordinate,
        ensures
            task == (Task::Answer { response: answer, counted: Counted::Nothing }),
    {
        answered(answer)
    }

    /// A topic was created: the coordinator learns of it.
    pub fn topic_created(self, metadata: TopicMetadata) -> (task: Task)
        requires
            self is CreateTopic,
        ensures
            task == (Task::SetPartitions { metadata }),
    {
        Task::SetPartitions { metadata }
    }

    /// The coordinator knows of a new topic: the topic is described.
    pub fn partitions_set(self, registry: &LeadershipRegistry) -> (task: Task)
        requires
            self is SetPartitions,
            registry.wf(),
            registry@.brokers.len() > 0,
        ensures
            ({
                &&& task matches Task::Answer { response, counted }
                &&& counted == Counted::Nothing
                &&& messages::lists_topics(
                    response,
                    seq![self->SetPartitions_metadata],
                    registry@,
                )
            }),
    {
        match self {
            Task::SetPartitions { metadata } => {
                let mut topics: Vec<TopicMetadata> = Vec::new();
                topics.push(metadata);
                assert(topics@ =~= seq![metadata]);
                answered(messages::topics_response(topics, registry))
            },
            other => other,
        }
    }

    /// The topics were listed: they are described, or the one that was asked for is.
    pub fn topics_listed(self, topics: Vec<TopicMetadata>, registry: &LeadershipRegistry) -> (
        task: Task)
        requires
            self is ListTopics || self is DescribeTopic,
            registry.wf(),
            registry@.brokers.len() > 0,
        ensures
            ({
                &&& task matches Task::Answer { response, counted }
                &&& counted == Counted::Nothing
                &&& match self {
                    Task::DescribeTopic { topic } => if messages::is_listed(topics@, topic@) {
                        exists|metadata: TopicMetadata|
                            messages::is_described(metadata, topics@, topic@)
                                && #[trigger] messages::lists_topics(
                                response,
                                seq![metadata],
                                registry@,
                            )
                    } else {
                        response.is_error("topic does not exist"@)
                    },
                    _ => messages::lists_topics(response, topics@, registry@),
                }
            }),
    {
        match self {
            Task::DescribeTopic { topic } => {
                let ghost all = topics@;
                match messages::describe_topic(topics, topic.as_str()) {
                    Ok(metadata) => {
                        let mut found: Vec<TopicMetadata> = Vec::new();
                        found.push(metadata);
                        assert(found@ =~= seq![metadata]);
                        assert(messages::is_described(metadata, all, topic@));
                        assert(messages::is_listed(all, topic@));
                        answered(messages::topics_response(found, registry))
                    },
                    Err(error) => answered(BrokerResponse::Error(error.message())),
                }
            },
            _ => answered(messages::topics_response(topics, registry)),
        }
    }

    /// The brokers have told how far their replicas get: the promotion goes ahead where it is
    /// safe.
    pub fn statuses_read(
        self,
        cluster: &ClusterMetadata,
        registry: &LeadershipRegistry,
        statuses: &Vec<ReplicaStatus>,
        committed: u64,
        factor: usize,
        needed: usize,
    ) -> (task: Task)
        requires
            self is Promote,
            cluster.nodes@.len() > 0,
            registry.wf(),
            registry@.brokers.len() > 0,
        ensures
            ({
                let topic = self->Promote_topic;
                let broker = self->Promote_leader_id;
                let asked = promotion::candidacy(
                    registry@,
                    topic@,
                    self->Promote_partition,
                    statuses@,
                    committed,
                    factor,
                    needed,
                );
                if cluster.nodes@[0].id != cluster.responding_broker_id {
                    task.refuses(
                        PromotionError::NotController(cluster.responding_broker_id).text(),
                    )
                } else {
                    match asked.refusal(broker) {
                        Some(error) => task.refuses(error.text()),
                        None => task == (Task::Lead {
                            topic,
                            leadership: asked.promoted(broker),
                        }),
                    }
                }
            }),
    {
        match self {
            Task::Promote { topic, partition, leader_id } => {
                let promoted = promotion::promote_by_request(
                    cluster,
                    registry,
                    topic.as_str(),
                    partition,
                    leader_id,
                    statuses,
                    committed,
                    factor,
                    needed,
                );
                match promoted {
                    Ok(leadership) => Task::Lead { topic, leadership },
                    Err(error) => answered(BrokerResponse::Error(error.message())),
                }
            },
            other => other,
        }
    }

    /// Records a leadership, and tells whether the file of the registry has to be written.
    pub fn leadership_recorded(
        self,
        cluster: &ClusterMetadata,
        registry: &mut LeadershipRegistry,
    ) -> (done: (Task, bool))
        requires
            self is Lead,
            old(registry).wf(),
            old(registry)@.brokers.len() > 0,
        ensures
            final(registry).wf(),
            ({
                let before = old(registry)@;
                let heard = as_heard(
                    self->leadership,
                    before,
                    self->Lead_topic@,
                    cluster.responding_broker_id,
                );
                match before.refusal(self->Lead_topic@, heard) {
                    Some(error) => {
                        &&& final(registry)@ == before
                        &&& done.0.refuses(error.text())
                        &&& !done.1
                    },
                    None => {
                        &&& final(registry)@ == before.with_entry(self->Lead_topic@, heard)
                        &&& done.0 == (Task::Answer {
                            response: BrokerResponse::LeadershipChanged(heard),
                            counted: Counted::Nothing,
                        })
                        &&& done.1 == (final(registry)@.entries != before.entries)
                    },
                }
            }),
    {
        match self {
            Task::Lead { topic, leadership } => {
                let ghost before = registry@;
                let mut heard = leadership;
                if leadership.leader_id != cluster.responding_broker_id {
                    heard.high_watermark =
                    registry.current(topic.as_str(), leadership.partition).high_watermark;
                }
                match registry.apply(topic.as_str(), heard) {
                    Ok(changed) => {
                        proof {
                            let key = (topic@, heard.partition);
                            let after = before.with_entry(topic@, heard).entries;
                            assert(after.dom().contains(key) && after[key] == heard);
                            if !changed {
                                assert(after =~= before.entries);
                            }
                        }
                        (answered(BrokerResponse::LeadershipChanged(heard)), changed)
                    },
                    Err(error) => (answered(BrokerResponse::Error(error.message())), false),
                }
            },
            other => (other, false),
        }
    }

    /// The extents of the partitions were read: the client is told where the one that it has
    /// asked for ends.
    pub fn status_read(self, snapshots: &Vec<PartitionSnapshot>) -> (task: Task)
        requires
            self is ReadStatus,
        ensures
            match log_end(snapshots@, self->ReadStatus_topic@, self->ReadStatus_partition) {
                Some(end) => task == (Task::Answer {
                    response: BrokerResponse::PartitionStatus(end),
                    counted: Counted::Nothing,
                }),
                None => task.refuses(
                    StorageError::UnknownPartition(self->ReadStatus_partition).text(),
                ),
            },
    {
        match self {
            Task::ReadStatus { topic, partition } => {
                match find_log_end(snapshots, topic.as_str(), partition) {
                    Some(end) => answered(BrokerResponse::PartitionStatus(end)),
                    None => answered(
                        BrokerResponse::Error(
                            StorageError::UnknownPartition(partition).message(),
                        ),
                    ),
                }
            },
            other => other,
        }
    }

    /// What was to be done has failed: the client is told, where the connection can go on.
    pub fn failed(self, error: ConnectionError) -> (task: Result<Task, ConnectionError>)
        ensures
            match error {
                ConnectionError::BrokerBusy => task matches Ok(next) && next.refuses(
                    "broker busy: storage queue timeout"@,
                ),
                ConnectionError::Storage(cause) => task matches Ok(next) && next.refuses(
                    cause.text(),
                ),
                _ => task matches Err(found) && found == error,
            },
    {
        match error.into_response() {
            Ok(response) => Ok(answered(response)),
            Err(error) => Err(error),
        }
    }
}

/// A broker appends to a partition and reads from it only where it leads it: in a cluster of more
/// than one broker the first thing that is done for a request is an append or a read only if it is
/// one of a named partition whose current leader is this broker.
pub proof fn only_leaders_append_and_read(
    task: Task,
    request: BrokerRequest,
    cluster: ClusterMetadata,
    registry: Registry,
    places: spec_fn(u32) -> int,
)
    requires
        is_start(task, request, cluster, registry),
        cluster.nodes@.len() > 1,
        forall|topic: Seq<char>, partition: u32|
            0 <= places(registry.current(topic, partition).leader_id) < cluster.nodes@.len()
                && cluster.nodes@[places(
                #[trigger] registry.current(topic, partition).leader_id,
            )].id == registry.current(topic, partition).leader_id,
    ensures
        task matches Task::Append { input } ==> (input.partition matches Some(number)
            && registry.current(input.topic@, number).leader_id == cluster.responding_broker_id),
        task matches Task::AppendBatch { topic, partition, .. } ==> (partition matches Some(number)
            && registry.current(topic@, number).leader_id == cluster.responding_broker_id),
        task matches Task::Read { topic, partition, .. } ==> registry.current(
            topic@,
            partition,
        ).leader_id == cluster.responding_broker_id,
        task matches Task::Authorize { request: asked } ==> (
        asked matches BrokerRequest::GroupFetch { topic, partition, .. } && registry.current(
            topic@,
            partition,
        ).leader_id == cluster.responding_broker_id),
{
    let led = match request {
        BrokerRequest::Produce { topic, partition, .. } => Some((topic@, partition)),
        BrokerRequest::ProduceBatch { topic, partition, .. } => Some((topic@, partition)),
        BrokerRequest::Fetch { topic, partition, .. } => Some((topic@, Some(partition))),
        BrokerRequest::GroupFetch { topic, partition, .. } => Some((topic@, Some(partition))),
        _ => None,
    };
    if let Some((topic, partition)) = led {
        let place = match partition {
            Some(number) => places(registry.current(topic, number).leader_id),
            None => 0,
        };
        messages::only_leaders_serve(request, cluster, registry, topic, partition, place);
    }
}

/// What is done for a request is what it asks for: what is appended, read, created, promoted and
/// recorded is what the request names.
pub proof fn tasks_do_what_is_asked(task: Task, request: BrokerRequest, cluster: ClusterMetadata)
    requires
        begins(task, request, cluster),
    ensures
        request matches BrokerRequest::Produce {
            topic,
            partition,
            key,
            payload,
            ack_mode,
            producer,
        } ==> (task matches Task::Append { input } && input.topic == topic && input.partition
            == partition && buffer::content(input.key) == buffer::content(key) && buffer::content(
            input.value,
        ) == buffer::content(payload) && input.ack_mode == ack_mode && input.producer == producer),
        request matches BrokerRequest::ProduceBatch { topic, partition, records, ack_mode, .. }
            ==> (task matches Task::AppendBatch {
            topic: name,
            partition: wanted,
            records: batch,
            ack_mode: mode,
            ..
        } && name == topic && wanted == partition && batch == records && mode == ack_mode),
        request matches BrokerRequest::Fetch { topic, partition, offset, max_bytes, max_wait_ms }
            ==> (task matches Task::Read {
            topic: name,
            partition: wanted,
            offset: from,
            max_bytes: most,
            max_wait_ms: longest,
        } && name == topic && wanted == partition && from == offset && most == max_bytes && longest
            == max_wait_ms),
        request is GroupFetch ==> (task matches Task::Authorize { request: asked } && asked
            == request),
        request matches BrokerRequest::CreateTopic { topic, partitions } ==> (
        task matches Task::CreateTopic { topic: name, partitions: count } && name == topic && count
            == partitions),
        request matches BrokerRequest::DescribeTopic { topic } ==> (
        task matches Task::DescribeTopic { topic: name } && name == topic),
        request is ListTopics ==> task is ListTopics,
        request matches BrokerRequest::PromoteLeader { topic, partition, leader_id } ==> (
        task matches Task::Promote { topic: name, partition: wanted, leader_id: leader } && name
            == topic && wanted == partition && leader == leader_id),
        request matches BrokerRequest::ApplyLeadership { topic, leadership } ==> (
        task matches Task::Lead { topic: name, leadership: heard } && name == topic && heard
            == leadership),
        request matches BrokerRequest::PartitionStatus { topic, partition } ==> (
        task matches Task::ReadStatus { topic: name, partition: wanted } && name == topic && wanted
            == partition),
        request is JoinGroup || request is Heartbeat || request is LeaveGroup || request
            is CommitOffset || request is FetchCommittedOffset ==> (task matches Task::Coordinate {
            request: asked,
        } && asked == request),
{
}

/// A message is acknowledged with the place that it got: what the client is told once its record
/// was read back and replicated is the partition and the offset under which it was appended.
pub proof fn message_is_acknowledged_as_appended(
    input: AppendInput,
    ack: ProduceAck,
    appended: Task,
    record: FetchedRecord,
    read: Task,
    answer: Task,
)
    requires
        publishes(appended, input, ack),
        reads_back(read, appended->ReadBack_publication, record),
        answers_publication(answer, read->Replicate_publication),
    ensures
        read matches Task::Replicate { publication } && publication.topic == input.topic
            && publication.ack_mode == input.ack_mode && publication.records@ == seq![record],
        answer matches Task::Answer { response, counted } && response == BrokerResponse::ProduceAck(
            ack,
        ) && counted == (Counted::Produced {
            messages: 1,
            bytes: buffer::content(input.value).len() as usize,
        }),
{
    assert(read->Replicate_publication.records@ =~= seq![record]);
}

/// Whether these are the tasks that read the records of a publication back, one after the other.
pub open spec fn reads_all_back(tasks: Seq<Task>, records: Seq<FetchedRecord>) -> bool {
    &&& tasks.len() == records.len() + 1
    &&& forall|i: int|
        0 <= i < records.len() ==> (#[trigger] tasks[i]) is ReadBack && reads_back(
            tasks[i + 1],
            tasks[i]->ReadBack_publication,
            records[i],
        )
    &&& tasks.last() is Replicate
}

proof fn lemma_reads_all_back(tasks: Seq<Task>, records: Seq<FetchedRecord>, done: int)
    requires
        reads_all_back(tasks, records),
        records.len() > 0,
        0 <= done < records.len(),
        tasks[0]->ReadBack_publication.records@.len() == 0,
    ensures
        ({
            let start = tasks[0]->ReadBack_publication;
            let now = tasks[done]->ReadBack_publication;
            &&& now.acks == start.acks
            &&& now.topic == start.topic
            &&& now.ack_mode == start.ack_mode
            &&& now.batch == start.batch
            &&& now.bytes == start.bytes
            &&& now.records@ == records.take(done)
        }),
    decreases done,
{
    if done > 0 {
        lemma_reads_all_back(tasks, records, done - 1);
        assert(tasks[done - 1] is ReadBack);
        assert(tasks[done] is ReadBack);
        assert(records.take(done) =~= records.take(done - 1).push(records[done - 1]));
    } else {
        assert(tasks[0] is ReadBack);
        assert(tasks[0]->ReadBack_publication.records@ =~= records.take(0));
    }
}

#[verifier::spinoff_prover]
proof fn lemma_batch_records(tasks: Seq<Task>, records: Seq<FetchedRecord>, acks: Vec<ProduceAck>)
    requires
        reads_all_back(tasks, records),
        records.len() > 0,
        acks@.len() > 0,
        tasks[0]->ReadBack_publication.records@.len() == 0,
        tasks[0]->ReadBack_publication.acks == acks,
    ensures
        records.len() == acks@.len(),
        ({
            let start = tasks[0]->ReadBack_publication;
            let end = tasks.last()->Replicate_publication;
            &&& end.acks == start.acks
            &&& end.topic == start.topic
            &&& end.ack_mode == start.ack_mode
            &&& end.batch == start.batch
            &&& end.bytes == start.bytes
            &&& end.records@ == records
        }),
{
    let last = records.len() - 1;
    lemma_reads_all_back(tasks, records, last);
    assert(tasks[last] is ReadBack);
    assert(tasks[last + 1] == tasks.last());
    assert(records.take(last).push(records[last]) =~= records);
    assert(records.take(last).len() == last);
    if records.len() > acks@.len() {
        let early = acks@.len() - 1;
        lemma_reads_all_back(tasks, records, early);
        assert(records.take(early).len() == early);
        assert(tasks[early] is ReadBack);
        assert(tasks[early + 1] is ReadBack);
    }
}

/// A batch is acknowledged as a whole: one record is read back for each message, in order, and the
/// client is told the partition and the offset of each message, in order.
pub proof fn batch_is_acknowledged_as_appended(
    topic: String,
    batch: Seq<BatchRecord>,
    ack_mode: AckMode,
    acks: Vec<ProduceAck>,
    tasks: Seq<Task>,
    records: Seq<FetchedRecord>,
    answer: Task,
)
    requires
        acks@.len() > 0,
        publishes_batch(tasks[0], topic, batch, ack_mode, acks),
        reads_all_back(tasks, records),
        answers_publication(answer, tasks.last()->Replicate_publication),
    ensures
        records.len() == acks@.len(),
        tasks.last()->Replicate_publication.records@ == records,
        tasks.last()->Replicate_publication.topic == topic,
        tasks.last()->Replicate_publication.ack_mode == ack_mode,
        answer matches Task::Answer { response, counted }
            && response == BrokerResponse::ProduceBatchAck(acks)
            && (counted matches Counted::Produced { messages, .. } && messages == acks@.len()),
{
    assert(tasks[0] is ReadBack);
    if records.len() == 0 {
        assert(tasks.last() == tasks[0]);
    } else {
        lemma_batch_records(tasks, records, acks);
        let end = tasks.last()->Replicate_publication;
        assert(end.acks == acks);
        assert(acks@.len() == acks.len());
    }
}

/// What was read is what is handed out, and it counts as so many messages as there are records.
pub proof fn fetched_records_are_handed_out(task: Task, records: Vec<FetchedRecord>)
    requires
        hands_out(task, records),
    ensures
        task matches Task::Answer { response, counted } && response == BrokerResponse::Fetch(
            records,
        ) && (counted matches Counted::Fetched { messages, .. } && messages == records@.len()),
{
    assert(records@.len() == records.len());
}

/// A group fetch reads what it asked for, and only where the coordinator allows it.
pub proof fn group_fetch_reads_what_is_allowed(
    task: Task,
    request: BrokerRequest,
    answer: BrokerResponse,
)
    requires
        request is GroupFetch,
        reads_if_allowed(task, request, answer),
    ensures
        task is Read <==> answer is GroupAck,
        task is Read || task is Answer,
        request matches BrokerRequest::GroupFetch {
            topic,
            partition,
            offset,
            max_bytes,
            max_wait_ms,
            ..
        } && (task matches Task::Read {
            topic: name,
            partition: wanted,
            offset: from,
            max_bytes: most,
            max_wait_ms: longest,
        } ==> name == topic && wanted == partition && from == offset && most == max_bytes && longest
            == max_wait_ms),
        answer is Error ==> (task matches Task::Answer { response, .. } && response == answer),
{
}

/// A broker that hears of a leadership records the leader and the epoch as they were announced. It
/// takes the high watermark over only where it leads itself.
pub proof fn heard_leadership_keeps_own_watermark(
    leadership: PartitionLeadership,
    registry: Registry,
    topic: Seq<char>,
    broker: u32,
)
    ensures
        ({
            let heard = as_heard(leadership, registry, topic, broker);
            &&& heard.partition == leadership.partition
            &&& heard.leader_id == leadership.leader_id
            &&& heard.leader_epoch == leadership.leader_epoch
            &&& leadership.leader_id == broker ==> heard.high_watermark == leadership.high_watermark
            &&& leadership.leader_id != broker ==> heard.high_watermark == registry.current(
                topic,
                leadership.partition,
            ).high_watermark
        }),
{
}

/// The end of a log that a broker tells is that of the partition it was asked for.
pub proof fn told_end_is_that_of_log(
    snapshots: Seq<PartitionSnapshot>,
    topic: Seq<char>,
    partition: u32,
)
    ensures
        match log_end(snapshots, topic, partition) {
            Some(end) => exists|i: int|
                0 <= i < snapshots.len() && (#[trigger] snapshots[i]).topic@ == topic
                    && snapshots[i].partition == partition && snapshots[i].log_end_offset == end,
            None => forall|i: int|
                0 <= i < snapshots.len() ==> !((#[trigger] snapshots[i]).topic@ == topic
                    && snapshots[i].partition == partition),
        },
    decreases snapshots.len(),
{
    if snapshots.len() > 0 {
        let rest = snapshots.skip(1);
        told_end_is_that_of_log(rest, topic, partition);
        if !(snapshots[0].topic@ == topic && snapshots[0].partition == partition) {
            match log_end(snapshots, topic, partition) {
                Some(end) => {
                    let i = choose|i: int|
                        0 <= i < rest.len() && (#[trigger] rest[i]).topic@ == topic
                            && rest[i].partition == partition && rest[i].log_end_offset == end;
                    assert(snapshots[i + 1] == rest[i]);
                },
                None => {
                    assert forall|i: int| 0 <= i < snapshots.len() implies !((
                    #[trigger] snapshots[i]).topic@ == topic && snapshots[i].partition
                        == partition) by {
                        if i > 0 {
                            assert(rest[i - 1] == snapshots[i]);
                        }
                    }
                },
            }
        } else {
            assert(snapshots[0].log_end_offset == log_end(snapshots, topic, partition)->0);
        }
    }
}

/// A refusal and an answer on the cluster count no messages, and the cluster that is told is the one
/// that the broker belongs to.
pub proof fn other_answers_count_nothing(
    refused: Task,
    text: Seq<char>,
    told: Task,
    cluster: ClusterMetadata,
)
    requires
        refused.refuses(text),
        begins(told, BrokerRequest::ClusterMetadata, cluster),
    ensures
        refused matches Task::Answer { response, counted } && counted == Counted::Nothing
            && response is Error,
        told matches Task::Answer { response, counted } && counted == Counted::Nothing && (
        response matches BrokerResponse::ClusterMetadata(metadata)
            && metadata.responding_broker_id == cluster.responding_broker_id
            && metadata.nodes@.len() == cluster.nodes@.len()),
{
    let nodes = told->Answer_response->ClusterMetadata_0.nodes@;
    assert(cluster::node_views(nodes).len() == nodes.len());
    assert(cluster::node_views(cluster.nodes@).len() == cluster.nodes@.len());
}

} // verus!
