//! Commands to the storage: what has to be done with files for a command, one thing after the
//! other, until it is replied to.

use vstd::prelude::*;

use crate::broker;
use crate::broker::{
    AppendInput, AppendStep, ReadStart, ReplicaStep, ReplicateRecord, Storage, StorageSettings,
    StorageState, Visibility,
};
use crate::buffer;
use crate::cluster::TopicMetadata;
use crate::history;
use crate::leadership::PartitionLeadership;
use crate::messages::{AckMode, BatchRecord, ProducerIdentity};
use crate::metrics::PartitionSnapshot;
use crate::producers;
use crate::producers::Note;
use crate::protocol::ProduceAck;
use crate::record::{FetchedRecord, StorageError};
use crate::sorted;
use crate::sorted::Key;
use crate::storage;
use crate::storage::{AppendPlan, Log, LogReader, PartitionLog, ReadStep, Reading, Truncation};
use crate::text;

verus! {

/// What the storage is asked.
#[derive(Debug)]
pub enum StorageCommand {
    CreateTopic { topic: String, partitions: u32 },
    ListTopics,
    Append { input: AppendInput },
    AppendBatch {
        topic: String,
        partition: Option<u32>,
        records: Vec<BatchRecord>,
        ack_mode: AckMode,
    },
    Read {
        topic: String,
        partition: u32,
        offset: u64,
        max_bytes: u32,
        visibility: Visibility,
    },
    Replicate { record: ReplicateRecord },
    PartitionOffset { topic: String, partition: u32 },
    /// The records of a partition below an offset are held by a quorum.
    Commit { topic: String, partition: u32, offset: u64 },
    /// Who sent the message at an offset is looked up.
    FindProducer { topic: String, partition: u32, offset: u64 },
    /// The leadership of a partition has changed. `leads` tells whether this broker has it.
    Adopt { topic: String, leadership: PartitionLeadership, leads: bool },
    Snapshot,
    ApplyRetention,
}

/// What the storage replies.
#[derive(Debug)]
pub enum StorageReply {
    Topic(TopicMetadata),
    Topics(Vec<TopicMetadata>),
    Ack(ProduceAck),
    Acks(Vec<ProduceAck>),
    Records(Vec<FetchedRecord>),
    Offset(u64),
    Snapshots(Vec<PartitionSnapshot>),
    /// How many segments were removed.
    Removed(usize),
    Producer(Option<ProducerIdentity>),
}

/// A topic that is being created.
#[derive(Debug)]
pub struct Creation {
    pub topic: String,
    pub partitions: u32,
    /// The partitions that had no log.
    pub missing: Vec<u32>,
    /// How many of them have got one.
    pub opened: usize,
}

/// A batch that is being appended: the messages that have an acknowledgement are written.
#[derive(Debug)]
pub struct Batch {
    pub topic: String,
    pub partition: Option<u32>,
    pub records: Vec<BatchRecord>,
    pub ack_mode: AckMode,
    pub acks: Vec<ProduceAck>,
}

/// What a command is about.
#[derive(Debug)]
pub enum Work {
    CreateTopic,
    Append { input: AppendInput },
    Batch { batch: Batch },
    Read {
        topic: String,
        partition: u32,
        offset: u64,
        max_bytes: u32,
        visibility: Visibility,
    },
    Replicate { record: ReplicateRecord },
}

/// A record that is being written.
pub struct Write {
    pub topic: String,
    pub partition: u32,
    pub plan: AppendPlan,
    /// Whether the record is forced to disk before it is acknowledged.
    pub sync: bool,
}

/// What is done next for a command.
pub enum Job {
    /// The command is replied to.
    Reply { reply: Result<StorageReply, StorageError> },
    /// The log of the next missing partition of a new topic is opened.
    OpenNewLog { creation: Creation, work: Work },
    /// The file of a new topic is written.
    WriteTopicFile { creation: Creation, work: Work },
    /// The log of a partition that is read is opened.
    OpenLog {
        topic: String,
        partition: u32,
        offset: u64,
        max_bytes: u32,
        visibility: Visibility,
    },
    /// The next segment is created.
    CreateSegment { write: Write, work: Work },
    /// The bytes of a record are written.
    WriteRecord { write: Write, work: Work },
    /// The next of these partitions is forced to disk.
    Sync { topic: String, partitions: Vec<u32>, synced: usize, reply: StorageReply },
    /// A segment is read.
    ReadSegment { topic: String, partition: u32, reader: LogReader, step: ReadStep },
    /// The segment is read in which the log of a follower is cut off at an offset.
    ReadTail { record: ReplicateRecord, to: u64 },
    /// The log of a follower is cut off.
    Truncate { record: ReplicateRecord, cut: Truncation },
    /// The ages of the segments of the next partition are looked up.
    ReadAges { sweep: Sweep },
    /// The files of segments that are no longer retained are removed.
    RemoveSegments { sweep: Sweep, paths: Vec<String> },
}

/// The partitions that retention goes through.
#[derive(Debug)]
pub struct Sweep {
    pub partitions: Vec<(String, u32)>,
    /// How many of them are done with.
    pub position: usize,
    /// How many segments were removed so far.
    pub removed: usize,
}

impl Sweep {
    /// The partitions that are left have logs.
    pub open spec fn wf(self, state: StorageState) -> bool {
        forall|i: int|
            self.position <= i < self.partitions@.len() ==> state.has_log(
                (#[trigger] self.partitions@[i]).0@,
                self.partitions@[i].1,
            )
    }
}

impl Work {
    /// A batch that is worked on has a message left.
    pub open spec fn wf(self) -> bool {
        match self {
            Work::Batch { batch } => batch.acks@.len() < batch.records@.len(),
            _ => true,
        }
    }
}

impl Job {
    /// The job fits the state of the storage.
    pub open spec fn wf(self, state: StorageState) -> bool {
        match self {
            Job::Reply { .. } => true,
            Job::OpenNewLog { creation, work } => {
                &&& creation.partitions > 0
                &&& !state.has_topic(creation.topic@)
                &&& creation.opened < creation.missing@.len()
                &&& work.wf()
            },
            Job::WriteTopicFile { creation, work } => {
                &&& creation.partitions > 0
                &&& !state.has_topic(creation.topic@)
                &&& work.wf()
            },
            Job::OpenLog { .. } => true,
            Job::CreateSegment { write, work } => {
                &&& state.has_log(write.topic@, write.partition)
                &&& write.plan.suits(state.log(write.topic@, write.partition).rotated())
                &&& work.wf()
                &&& work is Append || work is Batch || work is Replicate
            },
            Job::WriteRecord { write, work } => {
                &&& state.has_log(write.topic@, write.partition)
                &&& write.plan.suits(state.log(write.topic@, write.partition))
                &&& work.wf()
                &&& work is Append || work is Batch || work is Replicate
            },
            Job::Sync { partitions, synced, .. } => synced < partitions@.len(),
            Job::ReadSegment { reader, step, .. } => reader.wf() && step.segment < usize::MAX,
            Job::ReadTail { record, .. } => state.has_log(record.topic@, record.partition),
            Job::Truncate { record, cut } => cut.log.wf(),
            Job::ReadAges { sweep } => sweep.wf(state) && sweep.position < sweep.partitions@.len(),
            Job::RemoveSegments { sweep, .. } => sweep.wf(state) && sweep.position
                < sweep.partitions@.len(),
        }
    }

    /// Whether the command is replied to with this error.
    pub open spec fn fails_with(self, error: StorageError) -> bool {
        self matches Job::Reply { reply: Err(found) } && found == error
    }
}

/// Whether a topic is created next: the logs that it lacks are opened, and then its file is
/// written.
pub open spec fn creates(
    state: StorageState,
    topic: Seq<char>,
    partitions: u32,
    work: Work,
    job: Job,
) -> bool {
    let missing = broker::missing_partitions(state, topic, partitions as nat);
    let creation = if missing.len() > 0 {
        job->OpenNewLog_creation
    } else {
        job->WriteTopicFile_creation
    };
    &&& missing.len() > 0 ==> job is OpenNewLog && job->OpenNewLog_work == work
    &&& missing.len() == 0 ==> job is WriteTopicFile && job->WriteTopicFile_work == work
    &&& creation.topic@ == topic
    &&& creation.partitions == partitions
    &&& creation.missing@ == missing
    &&& creation.opened == 0
}

/// Whether a record is written next: its segment is created first where that is due.
pub open spec fn writes(
    topic: Seq<char>,
    partition: u32,
    log: Log,
    entry: crate::record::Entry,
    sync: bool,
    work: Work,
    job: Job,
) -> bool {
    let rotates = log.rotates_for(entry.encoded().len());
    let write = if rotates {
        job->CreateSegment_write
    } else {
        job->WriteRecord_write
    };
    &&& rotates ==> job is CreateSegment && job->CreateSegment_work == work
    &&& !rotates ==> job is WriteRecord && job->WriteRecord_work == work
    &&& write.topic@ == topic
    &&& write.partition == partition
    &&& write.sync == sync
    &&& broker::is_plan(write.plan, log, entry)
}

/// Starts to create a topic.
fn begin_creation(storage: &Storage, topic: &str, partitions: u32, work: Work) -> (job: Job)
    requires
        storage.wf(),
        work.wf(),
    ensures
        job.wf(storage@),
        if partitions == 0 {
            job.fails_with(StorageError::InvalidTopic)
        } else if storage@.has_topic(topic@) {
            job.fails_with(StorageError::TopicAlreadyExists)
        } else {
            creates(storage@, topic@, partitions, work, job)
        },
{
    match storage.create_topic(topic, partitions) {
        Err(error) => Job::Reply { reply: Err(error) },
        Ok(missing) => {
            let done: bool = missing.len() == 0;
            let creation = Creation { topic: topic.to_owned(), partitions, missing, opened: 0 };
            if done {
                Job::WriteTopicFile { creation, work }
            } else {
                Job::OpenNewLog { creation, work }
            }
        },
    }
}

/// Whether a plan is followed next: its segment is created first where that is due.
pub open spec fn is_write(
    topic: Seq<char>,
    partition: u32,
    plan: AppendPlan,
    sync: bool,
    work: Work,
    job: Job,
) -> bool {
    let write = if plan.rotate {
        job->CreateSegment_write
    } else {
        job->WriteRecord_write
    };
    &&& plan.rotate ==> job is CreateSegment && job->CreateSegment_work == work
    &&& !plan.rotate ==> job is WriteRecord && job->WriteRecord_work == work
    &&& write.topic@ == topic
    &&& write.partition == partition
    &&& write.plan == plan
    &&& write.sync == sync
}

/// Starts to write a record.
fn begin_write(topic: &str, partition: u32, plan: AppendPlan, sync: bool, work: Work) -> (job: Job)
    ensures
        is_write(topic@, partition, plan, sync, work, job),
{
    let rotate: bool = plan.rotate;
    let write = Write { topic: topic.to_owned(), partition, plan, sync };
    if rotate {
        Job::CreateSegment { write, work }
    } else {
        Job::WriteRecord { write, work }
    }
}

/// Whether `job` is what an append of `input` leads to, whose routing key has this checksum.
pub open spec fn appends(
    before: StorageState,
    settings: StorageSettings,
    input: AppendInput,
    hash: Option<u32>,
    clock_ms: Option<u128>,
    work: Work,
    after: StorageState,
    job: Job,
) -> bool {
    let topic = input.topic@;
    if !before.has_topic(topic) {
        &&& after == before
        &&& if settings.auto_create_topics {
            creates(before, topic, settings.default_partition_count, work, job)
        } else {
            job.fails_with(StorageError::UnknownTopic)
        }
    } else {
        match before.routed(topic, input.partition, hash) {
            Err(error) => after == before && job.fails_with(error),
            Ok((chosen, turned)) => {
                &&& after == turned
                &&& if !before.has_log(topic, chosen) {
                    job.fails_with(StorageError::InvalidTopic)
                } else if broker::held_at(before, input, chosen) is Some {
                    replies_after_sync(
                        topic,
                        if input.ack_mode == AckMode::Durable {
                            seq![chosen]
                        } else {
                            Seq::empty()
                        },
                        StorageReply::Ack(
                            ProduceAck {
                                partition: chosen,
                                offset: broker::held_at(before, input, chosen)->0,
                            },
                        ),
                        job,
                    )
                } else {
                    match broker::timestamp_of(clock_ms) {
                        None => job.fails_with(StorageError::InvalidTimestamp),
                        Some(timestamp_ms) => {
                            let log = before.log(topic, chosen);
                            let entry = broker::entry_of(input, timestamp_ms, log.next_offset);
                            if entry.fits() {
                                writes(
                                    topic,
                                    chosen,
                                    log,
                                    entry,
                                    input.ack_mode == AckMode::Durable,
                                    work,
                                    job,
                                )
                            } else {
                                job.fails_with(StorageError::RecordTooLarge)
                            }
                        },
                    }
                }
            },
        }
    }
}

/// Does what an append decided: its topic is created first, or it is written.
fn follow(storage: &Storage, topic: &str, step: Result<AppendStep, StorageError>, work: Work) -> (
    job: Job)
    requires
        storage.wf(),
        work.wf(),
        work is Append || work is Batch,
        step matches Ok(AppendStep::Write { partition, plan, .. }) ==> {
            let log = storage@.log(topic@, partition);
            &&& storage@.has_log(topic@, partition)
            &&& plan.rotate ==> plan.suits(log.rotated())
            &&& !plan.rotate ==> plan.suits(log)
        },
    ensures
        job.wf(storage@),
        match step {
            Err(error) => job.fails_with(error),
            Ok(AppendStep::CreateTopic { partitions }) => if partitions == 0 {
                job.fails_with(StorageError::InvalidTopic)
            } else if storage@.has_topic(topic@) {
                job.fails_with(StorageError::TopicAlreadyExists)
            } else {
                creates(storage@, topic@, partitions, work, job)
            },
            Ok(AppendStep::Write { partition, plan, sync }) => is_write(
                topic@,
                partition,
                plan,
                sync,
                work,
                job,
            ),
            Ok(AppendStep::Held { ack, sync }) => replies_after_sync(
                topic@,
                if sync {
                    seq![ack.partition]
                } else {
                    Seq::empty()
                },
                StorageReply::Ack(ack),
                job,
            ),
        },
{
    match step {
        Err(error) => Job::Reply { reply: Err(error) },
        Ok(AppendStep::CreateTopic { partitions }) => {
            begin_creation(storage, topic, partitions, work)
        },
        Ok(AppendStep::Write { partition, plan, sync }) => {
            begin_write(topic, partition, plan, sync, work)
        },
        Ok(AppendStep::Held { ack, sync }) => {
            let mut partitions: Vec<u32> = Vec::new();
            if sync {
                partitions.push(ack.partition);
            }
            proof {
                let synced = if sync {
                    seq![ack.partition]
                } else {
                    Seq::empty()
                };
                assert(partitions@ =~= synced);
            }
            reply_after_sync(topic.to_owned(), partitions, StorageReply::Ack(ack))
        },
    }
}

/// Appends a message.
fn begin_append(storage: &mut Storage, work: Work, clock_ms: Option<u128>) -> (job: Job)
    requires
        old(storage).wf(),
        work is Append,
    ensures
        final(storage).wf(),
        final(storage).settings() == old(storage).settings(),
        job.wf(final(storage)@),
        appends(
            old(storage)@,
            old(storage).settings(),
            work->input,
            broker::routing_hash(broker::routing_key(work->input)),
            clock_ms,
            work,
            final(storage)@,
            job,
        ),
{
    proof {
        storage.lemma_wf();
    }
    let (topic, step) = match &work {
        Work::Append { input } => {
            let step = storage.append_record(input, clock_ms);
            (input.topic.clone(), step)
        },
        _ => return Job::Reply { reply: Err(StorageError::InvalidTopic) },
    };
    follow(storage, topic.as_str(), step, work)
}

/// Whether `input` is the next message of a batch.
pub open spec fn is_next_input(batch: Batch, input: AppendInput) -> bool {
    let message = batch.records@[batch.acks@.len() as int];
    &&& input.topic@ == batch.topic@
    &&& input.partition == batch.partition
    &&& buffer::content(input.key) == buffer::content(message.key)
    &&& buffer::content(input.value) == buffer::content(message.payload)
    &&& input.ack_mode == AckMode::Leader
    &&& input.producer is None
}

/// Whether a read goes on: the next segment is read, or the records that were found are the
/// reply.
pub open spec fn reads_on(
    state: StorageState,
    at: (Seq<char>, u32),
    reading: Reading,
    job: Job,
) -> bool {
    let log = state.logs[at];
    let segment = log.next_segment(reading.cursor as int, reading.offset);
    if !state.logs.dom().contains(at) || reading.full || segment >= log.segments.len() {
        &&& job matches Job::Reply { reply: Ok(StorageReply::Records(records)) }
        &&& broker::fetched_entries(records@) == storage::visible(reading.taken, reading.limit)
    } else {
        &&& job matches Job::ReadSegment { topic, partition, reader, step }
        &&& (topic@, partition) == at
        &&& reader@ == reading
        &&& step.segment == segment
        &&& step.path@ == log.segments[segment].path
        &&& Some(step.position) == log.read_position(segment, reading.offset)
    }
}

/// Whether a read goes on with the contents of the segment that was read.
pub open spec fn feeds_on(state: StorageState, job: Job, contents: Seq<u8>, next: Job) -> bool {
    match job {
        Job::ReadSegment { topic, partition, reader, step } => match storage::collected(
            contents,
            reader@.offset,
            reader@.max_bytes,
            reader@.taken,
        ) {
            Ok((taken, full)) => reads_on(
                state,
                (topic@, partition),
                Reading {
                    offset: reader@.offset,
                    max_bytes: reader@.max_bytes,
                    limit: reader@.limit,
                    cursor: (step.segment + 1) as nat,
                    taken,
                    full,
                },
                next,
            ),
            Err(error) => next.fails_with(error),
        },
        _ => true,
    }
}

/// Goes on with a read.
fn read_on(storage: &Storage, topic: String, partition: u32, reader: LogReader) -> (job: Job)
    requires
        storage.wf(),
        reader.wf(),
    ensures
        job.wf(storage@),
        reads_on(storage@, (topic@, partition), reader@, job),
{
    match storage.next_read(topic.as_str(), partition, &reader) {
        Some(step) => Job::ReadSegment { topic, partition, reader, step },
        None => Job::Reply {
            reply: Ok(StorageReply::Records(broker::fetched_records(&reader.finish()))),
        },
    }
}

/// Whether `job` is how a read begins.
pub open spec fn begins_read(
    state: StorageState,
    settings: StorageSettings,
    topic: String,
    partition: u32,
    offset: u64,
    max_bytes: u32,
    visibility: Visibility,
    job: Job,
) -> bool {
    if !state.has_topic(topic@) {
        if settings.auto_create_topics {
            creates(
                state,
                topic@,
                settings.default_partition_count,
                Work::Read { topic, partition, offset, max_bytes, visibility },
                job,
            )
        } else {
            job.fails_with(StorageError::UnknownTopic)
        }
    } else if !state.has_log(topic@, partition) {
        if partition >= state.topics[topic@] {
            job.fails_with(StorageError::UnknownPartition(partition))
        } else {
            job == (Job::OpenLog { topic, partition, offset, max_bytes, visibility })
        }
    } else if max_bytes == 0 {
        job.fails_with(StorageError::InvalidReadLimit)
    } else {
        reads_on(
            state,
            (topic@, partition),
            Reading {
                offset,
                max_bytes: max_bytes as usize,
                limit: broker::read_limit(state, topic@, partition, visibility),
                cursor: 0,
                taken: Seq::empty(),
                full: false,
            },
            job,
        )
    }
}

/// Begins a read: its topic is created first, its log is opened first, or it goes on.
fn begin_read(
    storage: &Storage,
    topic: String,
    partition: u32,
    offset: u64,
    max_bytes: u32,
    visibility: Visibility,
) -> (job: Job)
    requires
        storage.wf(),
    ensures
        job.wf(storage@),
        begins_read(
            storage@,
            storage.settings(),
            topic,
            partition,
            offset,
            max_bytes,
            visibility,
            job,
        ),
{
    proof {
        storage.lemma_wf();
    }
    match storage.start_read(topic.as_str(), partition, offset, max_bytes, visibility) {
        Err(error) => Job::Reply { reply: Err(error) },
        Ok(ReadStart::CreateTopic { partitions }) => {
            let name = topic.clone();
            begin_creation(
                storage,
                name.as_str(),
                partitions,
                Work::Read { topic, partition, offset, max_bytes, visibility },
            )
        },
        Ok(ReadStart::OpenLog) => {
            Job::OpenLog { topic, partition, offset, max_bytes, visibility }
        },
        Ok(ReadStart::Read(reader)) => read_on(storage, topic, partition, reader),
    }
}

/// Whether `job` is what a record of the leader leads to.
pub open spec fn replicates(
    before: StorageState,
    record: ReplicateRecord,
    after: StorageState,
    job: Job,
) -> bool {
    let log = before.log(record.topic@, record.partition);
    let (checked, followed) = broker::epoch_checked(before, record);
    let ahead = record.offset > log.next_offset;
    if !before.has_log(record.topic@, record.partition) {
        after == before && job.fails_with(StorageError::UnknownPartition(record.partition))
    } else if !ahead && !before.has_topic(record.topic@) {
        after == before && job.fails_with(StorageError::UnknownTopic)
    } else if !ahead && record.partition >= before.topics[record.topic@] {
        after == before && job.fails_with(StorageError::UnknownPartition(record.partition))
    } else {
        match checked {
            Err(error) => after == before && job.fails_with(error),
            Ok(Some(to)) => after == before && job == (Job::ReadTail { record, to }),
            Ok(None) => {
                &&& after == followed
                &&& if record.offset != log.next_offset {
                    job matches Job::Reply { reply: Ok(StorageReply::Offset(next_offset)) }
                        && next_offset == log.next_offset
                } else if record@.fits() {
                    writes(
                        record.topic@,
                        record.partition,
                        log,
                        record@,
                        record.durable,
                        Work::Replicate { record },
                        job,
                    )
                } else {
                    job.fails_with(StorageError::RecordTooLarge)
                }
            },
        }
    }
}

fn begin_replica(storage: &mut Storage, record: ReplicateRecord) -> (job: Job)
    requires
        old(storage).wf(),
    ensures
        final(storage).wf(),
        final(storage).settings() == old(storage).settings(),
        job.wf(final(storage)@),
        replicates(old(storage)@, record, final(storage)@, job),
{
    match storage.receive_replica(&record) {
        Err(error) => Job::Reply { reply: Err(error) },
        Ok(ReplicaStep::Held { next_offset }) => Job::Reply {
            reply: Ok(StorageReply::Offset(next_offset)),
        },
        Ok(ReplicaStep::Truncate { to }) => Job::ReadTail { record, to },
        Ok(ReplicaStep::Write { plan, sync }) => {
            let topic = record.topic.clone();
            let partition: u32 = record.partition;
            begin_write(topic.as_str(), partition, plan, sync, Work::Replicate { record })
        },
    }
}

/// Whether retention goes on: the next partition is looked at, or the reply tells how many
/// segments were removed.
pub open spec fn sweeps_on(sweep: Sweep, job: Job) -> bool {
    job == if sweep.position < sweep.partitions@.len() {
        Job::ReadAges { sweep }
    } else {
        Job::Reply { reply: Ok(StorageReply::Removed(sweep.removed)) }
    }
}

fn sweep_on(sweep: Sweep) -> (job: Job)
    ensures
        sweeps_on(sweep, job),
{
    if sweep.position < sweep.partitions.len() {
        Job::ReadAges { sweep }
    } else {
        Job::Reply { reply: Ok(StorageReply::Removed(sweep.removed)) }
    }
}

/// Whether `job` is what comes next for a batch: its next message, or the reply.
pub open spec fn batches_on(
    before: StorageState,
    settings: StorageSettings,
    batch: Batch,
    clock_ms: Option<u128>,
    after: StorageState,
    job: Job,
) -> bool {
    if batch.acks@.len() < batch.records@.len() {
        exists|input: AppendInput| #[trigger]
            is_next_input(batch, input) && appends(
                before,
                settings,
                input,
                broker::routing_hash(broker::routing_key(input)),
                clock_ms,
                Work::Batch { batch },
                after,
                job,
            )
    } else {
        &&& after == before
        &&& replies_after_sync(
            batch.topic@,
            if batch.ack_mode == AckMode::Durable {
                sorted::in_order::<u32>(broker::partitions_of(batch.acks@))
            } else {
                Seq::empty()
            },
            StorageReply::Acks(batch.acks),
            job,
        )
    }
}

/// Whether some partitions are forced to disk before a reply is given.
pub open spec fn replies_after_sync(
    topic: Seq<char>,
    partitions: Seq<u32>,
    reply: StorageReply,
    job: Job,
) -> bool {
    if partitions.len() == 0 {
        job == (Job::Reply { reply: Ok(reply) })
    } else {
        &&& job matches Job::Sync { topic: name, partitions: found, synced, reply: held }
        &&& name@ == topic
        &&& found@ == partitions
        &&& synced == 0
        &&& held == reply
    }
}

fn reply_after_sync(topic: String, partitions: Vec<u32>, reply: StorageReply) -> (job: Job)
    ensures
        forall|state: StorageState| job.wf(state),
        replies_after_sync(topic@, partitions@, reply, job),
{
    if partitions.len() == 0 {
        Job::Reply { reply: Ok(reply) }
    } else {
        Job::Sync { topic, partitions, synced: 0, reply }
    }
}

/// Goes on with a batch.
fn batch_on(storage: &mut Storage, batch: Batch, clock_ms: Option<u128>) -> (job: Job)
    requires
        old(storage).wf(),
        batch.acks@.len() <= batch.records@.len(),
    ensures
        final(storage).wf(),
        final(storage).settings() == old(storage).settings(),
        job.wf(final(storage)@),
        batches_on(
            old(storage)@,
            old(storage).settings(),
            batch,
            clock_ms,
            final(storage)@,
            job,
        ),
{
    if batch.acks.len() < batch.records.len() {
        let input = broker::batch_input(
            batch.topic.as_str(),
            batch.partition,
            &batch.records[batch.acks.len()],
        );
        assert(is_next_input(batch, input));
        proof {
            storage.lemma_wf();
        }
        let step = storage.append_record(&input, clock_ms);
        follow(storage, input.topic.as_str(), step, Work::Batch { batch })
    } else {
        let partitions = broker::partitions_to_sync(&batch.acks, batch.ack_mode);
        reply_after_sync(batch.topic, partitions, StorageReply::Acks(batch.acks))
    }
}

/// Whether `job` is what comes next for some work.
pub open spec fn works_on(
    before: StorageState,
    settings: StorageSettings,
    work: Work,
    clock_ms: Option<u128>,
    after: StorageState,
    job: Job,
) -> bool {
    match work {
        Work::CreateTopic => true,
        Work::Append { input } => appends(
            before,
            settings,
            input,
            broker::routing_hash(broker::routing_key(input)),
            clock_ms,
            work,
            after,
            job,
        ),
        Work::Batch { batch } => batches_on(before, settings, batch, clock_ms, after, job),
        Work::Read { topic, partition, offset, max_bytes, visibility } => {
            &&& after == before
            &&& begins_read(
                before,
                settings,
                topic,
                partition,
                offset,
                max_bytes,
                visibility,
                job,
            )
        },
        Work::Replicate { record } => replicates(before, record, after, job),
    }
}

/// A durable message that is written is forced to disk before it is acknowledged.
pub proof fn durable_message_is_synced(
    before: StorageState,
    settings: StorageSettings,
    input: AppendInput,
    hash: Option<u32>,
    clock_ms: Option<u128>,
    after: StorageState,
    job: Job,
    reply: StorageReply,
    next: Job,
)
    requires
        input.ack_mode == AckMode::Durable,
        appends(before, settings, input, hash, clock_ms, Work::Append { input }, after, job),
        job is WriteRecord,
        ({
            let write = job->WriteRecord_write;
            replies_after_sync(
                write.topic@,
                if write.sync {
                    seq![write.partition]
                } else {
                    Seq::empty()
                },
                reply,
                next,
            )
        }),
    ensures
        next matches Job::Sync { topic, partitions, synced, reply: held } && topic@ == input.topic@
            && partitions@ == seq![job->WriteRecord_write.partition] && synced == 0 && held
            == reply,
{
}

/// Once all messages of a durable batch are written, every partition that took one is forced to
/// disk before the batch is acknowledged.
pub proof fn durable_batch_is_synced(
    before: StorageState,
    settings: StorageSettings,
    batch: Batch,
    clock_ms: Option<u128>,
    after: StorageState,
    job: Job,
    i: int,
)
    requires
        batch.ack_mode == AckMode::Durable,
        batch.acks@.len() >= batch.records@.len(),
        batches_on(before, settings, batch, clock_ms, after, job),
        0 <= i < batch.acks@.len(),
    ensures
        job matches Job::Sync { topic, partitions, synced, reply } && topic@ == batch.topic@
            && synced == 0 && reply == StorageReply::Acks(batch.acks) && partitions@.contains(
            batch.acks@[i].partition,
        ),
{
    let touched = broker::partitions_of(batch.acks@);
    broker::lemma_partitions_finite(batch.acks@);
    sorted::lemma_finite_order::<u32>(touched);
    assert(touched.contains(batch.acks@[i].partition));
    assert(sorted::in_order::<u32>(touched).contains(batch.acks@[i].partition));
}

/// Goes on with some work.
fn work_on(storage: &mut Storage, work: Work, clock_ms: Option<u128>) -> (job: Job)
    requires
        old(storage).wf(),
        work.wf(),
        !(work is CreateTopic),
    ensures
        final(storage).wf(),
        final(storage).settings() == old(storage).settings(),
        job.wf(final(storage)@),
        works_on(old(storage)@, old(storage).settings(), work, clock_ms, final(storage)@, job),
{
    match work {
        Work::CreateTopic => Job::Reply { reply: Err(StorageError::InvalidTopic) },
        Work::Append { input } => begin_append(storage, Work::Append { input }, clock_ms),
        Work::Batch { batch } => batch_on(storage, batch, clock_ms),
        Work::Read { topic, partition, offset, max_bytes, visibility } => {
            begin_read(storage, topic, partition, offset, max_bytes, visibility)
        },
        Work::Replicate { record } => begin_replica(storage, record),
    }
}

/// Whether `job` is what comes next once the bytes of a record were written: the record has its
/// place, and is forced to disk where that is due before it is acknowledged.
pub open spec fn takes_record(
    before: StorageState,
    settings: StorageSettings,
    write: Write,
    work: Work,
    clock_ms: Option<u128>,
    after: StorageState,
    job: Job,
) -> bool {
    let log = before.log(write.topic@, write.partition);
    let size = buffer::buffered(write.plan.encoded).len();
    let written = before.written(
        write.topic@,
        write.partition,
        size,
        producer_of(work),
        settings.min_in_sync_replicas,
    );
    let ack = ProduceAck { partition: write.partition, offset: write.plan.offset };
    let synced = if write.sync {
        seq![write.partition]
    } else {
        Seq::empty()
    };
    if log.active().len + size > u64::MAX {
        &&& after == before
        &&& job.fails_with(StorageError::RecordTooLarge)
    } else if log.next_offset == u64::MAX {
        &&& after == before.with_log(write.topic@, write.partition, log.appended(size))
        &&& job.fails_with(StorageError::OffsetOverflow)
    } else {
        match work {
            Work::Batch { batch } => exists|acks: Vec<ProduceAck>|
                acks@ == batch.acks@.push(ack) && #[trigger] batches_on(
                    written,
                    settings,
                    Batch { acks, ..batch },
                    clock_ms,
                    after,
                    job,
                ),
            Work::Replicate { .. } => {
                &&& after == written
                &&& replies_after_sync(
                    write.topic@,
                    synced,
                    StorageReply::Offset((log.next_offset + 1) as u64),
                    job,
                )
            },
            _ => {
                &&& after == written
                &&& replies_after_sync(write.topic@, synced, StorageReply::Ack(ack), job)
            },
        }
    }
}

/// Whether `job` is what comes next once the segment of a record was created.
pub open spec fn takes_segment(
    before: StorageState,
    write: Write,
    work: Work,
    after: StorageState,
    job: Job,
) -> bool {
    &&& after == before.with_log(
        write.topic@,
        write.partition,
        before.log(write.topic@, write.partition).rotated(),
    )
    &&& job == (Job::WriteRecord { write, work })
}

/// Whether `next` is what comes next once one more partition was forced to disk.
pub open spec fn syncs_on(job: Job, next: Job) -> bool {
    match job {
        Job::Sync { topic, partitions, synced, reply } => {
            let count = (synced + 1) as usize;
            next == if count < partitions@.len() {
                Job::Sync { topic, partitions, synced: count, reply }
            } else {
                Job::Reply { reply: Ok(reply) }
            }
        },
        _ => true,
    }
}

/// Whether `job` is what comes next once the file of a new topic was written.
pub open spec fn takes_topic(
    before: StorageState,
    settings: StorageSettings,
    creation: Creation,
    work: Work,
    clock_ms: Option<u128>,
    after: StorageState,
    job: Job,
) -> bool {
    let created = StorageState {
        topics: before.topics.insert(creation.topic@, creation.partitions),
        ..before
    };
    match work {
        Work::CreateTopic => {
            &&& after == created
            &&& job matches Job::Reply { reply: Ok(StorageReply::Topic(metadata)) }
            &&& metadata.topic@ == creation.topic@
            &&& metadata.partitions == creation.partitions
            &&& metadata.leaders@.len() == 0
        },
        _ => works_on(created, settings, work, clock_ms, after, job),
    }
}

/// Who sent the message of some work.
pub open spec fn producer_of(work: Work) -> Option<ProducerIdentity> {
    match work {
        Work::Append { input } => input.producer,
        Work::Replicate { record } => record.producer,
        _ => None,
    }
}

/// Whether `job` is the first thing that is done for a command.
pub open spec fn starts(
    before: StorageState,
    settings: StorageSettings,
    command: StorageCommand,
    clock_ms: Option<u128>,
    after: StorageState,
    job: Job,
) -> bool {
    match command {
        StorageCommand::CreateTopic { topic, partitions } => {
            &&& after == before
            &&& if partitions == 0 {
                job.fails_with(StorageError::InvalidTopic)
            } else if before.has_topic(topic@) {
                job.fails_with(StorageError::TopicAlreadyExists)
            } else {
                creates(before, topic@, partitions, Work::CreateTopic, job)
            }
        },
        StorageCommand::ListTopics => {
            &&& after == before
            &&& job matches Job::Reply { reply: Ok(StorageReply::Topics(topics)) }
            &&& sorted::enumerates::<String>(broker::topic_names(topics@), before.topics.dom())
            &&& forall|i: int|
                0 <= i < topics@.len() ==> (#[trigger] topics@[i]).partitions
                    == before.topics[topics@[i].topic@] && topics@[i].leaders@.len() == 0
        },
        StorageCommand::Append { input } => works_on(
            before,
            settings,
            Work::Append { input },
            clock_ms,
            after,
            job,
        ),
        StorageCommand::AppendBatch { topic, partition, records, ack_mode } => exists|
            acks: Vec<ProduceAck>,
        |
            acks@.len() == 0 && #[trigger] batches_on(
                before,
                settings,
                Batch { topic, partition, records, ack_mode, acks },
                clock_ms,
                after,
                job,
            ),
        StorageCommand::Read { topic, partition, offset, max_bytes, visibility } => {
            &&& after == before
            &&& begins_read(
                before,
                settings,
                topic,
                partition,
                offset,
                max_bytes,
                visibility,
                job,
            )
        },
        StorageCommand::Replicate { record } => replicates(before, record, after, job),
        StorageCommand::Commit { topic, partition, offset } => if before.has_log(
            topic@,
            partition,
        ) {
            &&& after == before.committed(topic@, partition, offset)
            &&& job == (Job::Reply {
                reply: Ok(StorageReply::Offset(after.mark(topic@, partition).high_watermark)),
            })
        } else {
            after == before && job.fails_with(StorageError::UnknownPartition(partition))
        },
        StorageCommand::Adopt { topic, leadership, leads } => if before.has_log(
            topic@,
            leadership.partition,
        ) {
            &&& after == before.adopted(topic@, leadership, leads)
            &&& job == (Job::Reply {
                reply: Ok(
                    StorageReply::Offset(after.mark(topic@, leadership.partition).high_watermark),
                ),
            })
        } else {
            after == before && job.fails_with(
                StorageError::UnknownPartition(leadership.partition),
            )
        },
        StorageCommand::ApplyRetention => {
            &&& after == before
            &&& exists|sweep: Sweep|
                sweep.position == 0 && sweep.removed == 0 && sorted::enumerates::<(String, u32)>(
                    sorted::values_of::<(String, u32)>(sweep.partitions@),
                    before.logs.dom(),
                ) && #[trigger] sweeps_on(sweep, job)
        },
        StorageCommand::PartitionOffset { topic, partition } => {
            &&& after == before
            &&& if before.has_log(topic@, partition) {
                job matches Job::Reply { reply: Ok(StorageReply::Offset(offset)) } && offset
                    == before.log(topic@, partition).next_offset
            } else {
                job.fails_with(StorageError::UnknownPartition(partition))
            }
        },
        StorageCommand::FindProducer { topic, partition, offset } => {
            &&& after == before
            &&& job matches Job::Reply { reply: Ok(StorageReply::Producer(found)) }
            &&& match found {
                Some(sent) => broker::stored_at(before, topic@, partition, sent) == Some(offset),
                None => forall|id: Seq<char>, sequence: u64| #[trigger]
                    broker::stored_under(before, topic@, partition, id, sequence) != Some(offset),
            }
        },
        StorageCommand::Snapshot => {
            &&& after == before
            &&& job matches Job::Reply { reply: Ok(StorageReply::Snapshots(snapshots)) }
            &&& sorted::enumerates::<(String, u32)>(
                broker::snapshot_keys(snapshots@),
                before.logs.dom(),
            )
            &&& forall|i: int|
                0 <= i < snapshots@.len() ==> broker::shows_log(
                    #[trigger] snapshots@[i],
                    before.log(snapshots@[i].topic@, snapshots@[i].partition),
                    before.mark(snapshots@[i].topic@, snapshots@[i].partition),
                )
        },
    }
}

impl Job {
    /// The first thing that is done for a command.
    pub fn start(storage: &mut Storage, command: StorageCommand, clock_ms: Option<u128>) -> (
        job: Job)
        requires
            old(storage).wf(),
        ensures
            final(storage).wf(),
            final(storage).settings() == old(storage).settings(),
            job.wf(final(storage)@),
            starts(
                old(storage)@,
                old(storage).settings(),
                command,
                clock_ms,
                final(storage)@,
                job,
            ),
    {
        match command {
            StorageCommand::CreateTopic { topic, partitions } => {
                begin_creation(storage, topic.as_str(), partitions, Work::CreateTopic)
            },
            StorageCommand::ListTopics => Job::Reply {
                reply: Ok(StorageReply::Topics(storage.list_topics())),
            },
            StorageCommand::Append { input } => {
                begin_append(storage, Work::Append { input }, clock_ms)
            },
            StorageCommand::AppendBatch { topic, partition, records, ack_mode } => {
                let acks: Vec<ProduceAck> = Vec::new();
                batch_on(storage, Batch { topic, partition, records, ack_mode, acks }, clock_ms)
            },
            StorageCommand::Read { topic, partition, offset, max_bytes, visibility } => {
                begin_read(storage, topic, partition, offset, max_bytes, visibility)
            },
            StorageCommand::Replicate { record } => begin_replica(storage, record),
            StorageCommand::PartitionOffset { topic, partition } => {
                match storage.partition_offset(topic.as_str(), partition) {
                    Ok(offset) => Job::Reply { reply: Ok(StorageReply::Offset(offset)) },
                    Err(error) => Job::Reply { reply: Err(error) },
                }
            },
            StorageCommand::FindProducer { topic, partition, offset } => Job::Reply {
                reply: Ok(
                    StorageReply::Producer(storage.producer_at(topic.as_str(), partition, offset)),
                ),
            },
            StorageCommand::Snapshot => Job::Reply {
                reply: Ok(StorageReply::Snapshots(storage.snapshot_logs())),
            },
            StorageCommand::Commit { topic, partition, offset } => {
                match storage.partition_offset(topic.as_str(), partition) {
                    Ok(_) => {
                        storage.commit(topic.as_str(), partition, offset);
                        let mark = storage.mark(topic.as_str(), partition);
                        Job::Reply { reply: Ok(StorageReply::Offset(mark.high_watermark)) }
                    },
                    Err(error) => Job::Reply { reply: Err(error) },
                }
            },
            StorageCommand::Adopt { topic, leadership, leads } => {
                match storage.partition_offset(topic.as_str(), leadership.partition) {
                    Ok(_) => {
                        storage.adopt(topic.as_str(), &leadership, leads);
                        let mark = storage.mark(topic.as_str(), leadership.partition);
                        Job::Reply { reply: Ok(StorageReply::Offset(mark.high_watermark)) }
                    },
                    Err(error) => Job::Reply { reply: Err(error) },
                }
            },
            StorageCommand::ApplyRetention => {
                let sweep = Sweep { partitions: storage.partitions(), position: 0, removed: 0 };
                proof {
                    let keys = sorted::values_of::<(String, u32)>(sweep.partitions@);
                    assert forall|i: int| 0 <= i < sweep.partitions@.len() implies storage@.has_log(
                        (#[trigger] sweep.partitions@[i]).0@,
                        sweep.partitions@[i].1,
                    ) by {
                        assert(keys[i] == sweep.partitions@[i].value());
                        assert(keys.contains(keys[i]));
                    }
                }
                sweep_on(sweep)
            },
        }
    }

    /// A log was opened for a new topic or for a read: the next one is, the file of the topic is
    /// written, or the read begins again.
    pub fn log_opened(self, storage: &mut Storage, log: PartitionLog) -> (job: Job)
        requires
            old(storage).wf(),
            self.wf(old(storage)@),
            log.wf(),
            self is OpenNewLog || self is OpenLog,
        ensures
            final(storage).wf(),
            final(storage).settings() == old(storage).settings(),
            job.wf(final(storage)@),
            match self {
                Job::OpenNewLog { creation, work } => {
                    let opened = (creation.opened + 1) as usize;
                    let advanced = Creation { opened, ..creation };
                    &&& final(storage)@ == old(storage)@.opened(
                        creation.topic@,
                        creation.missing@[creation.opened as int],
                        log@,
                        old(storage).settings().min_in_sync_replicas,
                    )
                    &&& job == if opened < creation.missing@.len() {
                        Job::OpenNewLog { creation: advanced, work }
                    } else {
                        Job::WriteTopicFile { creation: advanced, work }
                    }
                },
                Job::OpenLog { topic, partition, offset, max_bytes, visibility } => {
                    &&& final(storage)@ == old(storage)@.opened(
                        topic@,
                        partition,
                        log@,
                        old(storage).settings().min_in_sync_replicas,
                    )
                    &&& begins_read(
                        final(storage)@,
                        final(storage).settings(),
                        topic,
                        partition,
                        offset,
                        max_bytes,
                        visibility,
                        job,
                    )
                },
                _ => true,
            },
    {
        match self {
            Job::OpenNewLog { creation, work } => {
                let mut creation = creation;
                let partition: u32 = creation.missing[creation.opened];
                let total: usize = creation.missing.len();
                assert(creation.opened < total);
                storage.add_log(creation.topic.as_str(), partition, log);
                creation.opened = creation.opened + 1;
                if creation.opened < creation.missing.len() {
                    Job::OpenNewLog { creation, work }
                } else {
                    Job::WriteTopicFile { creation, work }
                }
            },
            Job::OpenLog { topic, partition, offset, max_bytes, visibility } => {
                storage.add_log(topic.as_str(), partition, log);
                begin_read(storage, topic, partition, offset, max_bytes, visibility)
            },
            other => other,
        }
    }

    /// The file of a new topic was written: the topic is there, and the work goes on.
    pub fn topic_written(self, storage: &mut Storage, clock_ms: Option<u128>) -> (job: Job)
        requires
            old(storage).wf(),
            self.wf(old(storage)@),
            self is WriteTopicFile,
        ensures
            final(storage).wf(),
            final(storage).settings() == old(storage).settings(),
            job.wf(final(storage)@),
            takes_topic(
                old(storage)@,
                old(storage).settings(),
                self->WriteTopicFile_creation,
                self->WriteTopicFile_work,
                clock_ms,
                final(storage)@,
                job,
            ),
    {
        match self {
            Job::WriteTopicFile { creation, work } => {
                let metadata = storage.topic_created(creation.topic.as_str(), creation.partitions);
                match work {
                    Work::CreateTopic => Job::Reply { reply: Ok(StorageReply::Topic(metadata)) },
                    other => work_on(storage, other, clock_ms),
                }
            },
            other => other,
        }
    }

    /// A segment was created: the record is written to it.
    pub fn segment_created(self, storage: &mut Storage) -> (job: Job)
        requires
            old(storage).wf(),
            self.wf(old(storage)@),
            self is CreateSegment,
        ensures
            final(storage).wf(),
            final(storage).settings() == old(storage).settings(),
            job.wf(final(storage)@),
            takes_segment(
                old(storage)@,
                self->CreateSegment_write,
                self->CreateSegment_work,
                final(storage)@,
                job,
            ),
    {
        match self {
            Job::CreateSegment { write, work } => {
                storage.rotate(write.topic.as_str(), write.partition);
                Job::WriteRecord { write, work }
            },
            other => other,
        }
    }

    /// What is noted of a message of a producer before its record is written.
    pub fn producer_note(&self) -> (note: Option<Vec<u8>>)
        requires
            self is WriteRecord,
        ensures
            ({
                let write = self->WriteRecord_write;
                match producer_of(self->WriteRecord_work) {
                    Some(sent) => note matches Some(bytes) && bytes@ == producers::encoded(
                        Note { id: sent.id@, sequence: sent.sequence, offset: write.plan.offset },
                    ),
                    None => note is None,
                }
            }),
    {
        match self {
            Job::WriteRecord { write, work } => {
                let nobody: Option<ProducerIdentity> = None;
                let producer: &Option<ProducerIdentity> = match work {
                    Work::Append { input } => &input.producer,
                    Work::Replicate { record } => &record.producer,
                    _ => &nobody,
                };
                match producer {
                    Some(sent) => Some(producers::encode_note(sent, write.plan.offset)),
                    None => None,
                }
            },
            _ => None,
        }
    }

    /// The bytes of a record were written: the record has its place, and is forced to disk where
    /// that is due before it is acknowledged. A batch goes on with its next message.
    pub fn record_written(self, storage: &mut Storage, clock_ms: Option<u128>) -> (job: Job)
        requires
            old(storage).wf(),
            self.wf(old(storage)@),
            self is WriteRecord,
        ensures
            final(storage).wf(),
            final(storage).settings() == old(storage).settings(),
            job.wf(final(storage)@),
            takes_record(
                old(storage)@,
                old(storage).settings(),
                self->WriteRecord_write,
                self->WriteRecord_work,
                clock_ms,
                final(storage)@,
                job,
            ),
    {
        match self {
            Job::WriteRecord { write, work } => {
                let nobody: Option<ProducerIdentity> = None;
                let producer: &Option<ProducerIdentity> = match &work {
                    Work::Append { input } => &input.producer,
                    Work::Replicate { record } => &record.producer,
                    _ => &nobody,
                };
                let ack: ProduceAck = match storage.append(
                    write.topic.as_str(),
                    write.partition,
                    &write.plan,
                    producer,
                ) {
                    Ok(ack) => ack,
                    Err(error) => return Job::Reply { reply: Err(error) },
                };
                let mut partitions: Vec<u32> = Vec::new();
                if write.sync {
                    partitions.push(write.partition);
                }
                proof {
                    let synced = if write.sync {
                        seq![write.partition]
                    } else {
                        Seq::empty()
                    };
                    assert(partitions@ =~= synced);
                }
                match work {
                    Work::Batch { batch } => {
                        let mut batch = batch;
                        batch.acks.push(ack);
                        batch_on(storage, batch, clock_ms)
                    },
                    Work::Replicate { .. } => {
                        match storage.partition_offset(write.topic.as_str(), write.partition) {
                            Ok(next_offset) => reply_after_sync(
                                write.topic,
                                partitions,
                                StorageReply::Offset(next_offset),
                            ),
                            Err(error) => Job::Reply { reply: Err(error) },
                        }
                    },
                    _ => reply_after_sync(write.topic, partitions, StorageReply::Ack(ack)),
                }
            },
            other => other,
        }
    }

    /// A partition was forced to disk: the next one is, or the reply is given.
    pub fn synced(self) -> (job: Job)
        requires
            self is Sync,
            self->synced < self->partitions@.len(),
        ensures
            forall|state: StorageState| job.wf(state),
            syncs_on(self, job),
    {
        match self {
            Job::Sync { topic, partitions, synced, reply } => {
                let total: usize = partitions.len();
                assert(synced < total);
                let count: usize = synced + 1;
                if count < partitions.len() {
                    Job::Sync { topic, partitions, synced: count, reply }
                } else {
                    Job::Reply { reply: Ok(reply) }
                }
            },
            other => other,
        }
    }

    /// A segment was read: the next one is, or the records that were found are the reply.
    pub fn segment_read(self, storage: &Storage, contents: &[u8]) -> (job: Job)
        requires
            storage.wf(),
            self.wf(storage@),
            self is ReadSegment,
        ensures
            job.wf(storage@),
            feeds_on(storage@, self, contents@, job),
    {
        match self {
            Job::ReadSegment { topic, partition, reader, step } => {
                match reader.feed(&step, contents) {
                    Ok(reader) => read_on(storage, topic, partition, reader),
                    Err(error) => Job::Reply { reply: Err(error) },
                }
            },
            other => other,
        }
    }

    /// The segment was read in which the log of a follower is cut off: the log is cut off.
    pub fn tail_read(self, storage: &Storage, contents: &[u8]) -> (job: Job)
        requires
            storage.wf(),
            self.wf(storage@),
            self is ReadTail,
        ensures
            job.wf(storage@),
            match self {
                Job::ReadTail { record, to } => {
                    let log = storage@.log(record.topic@, record.partition);
                    match log.truncated(to, contents@) {
                        Ok(after) => {
                            &&& job matches Job::Truncate { record: held, cut }
                            &&& held == record
                            &&& cut.makes(log, after)
                        },
                        Err(error) => job.fails_with(error),
                    }
                },
                _ => true,
            },
    {
        match self {
            Job::ReadTail { record, to } => {
                match storage.plan_truncation(
                    record.topic.as_str(),
                    record.partition,
                    to,
                    contents,
                ) {
                    Ok(cut) => Job::Truncate { record, cut },
                    Err(error) => Job::Reply { reply: Err(error) },
                }
            },
            other => other,
        }
    }

    /// The log of a follower was cut off: the record of the new leader is looked at again.
    pub fn tail_cut(self, storage: &mut Storage) -> (job: Job)
        requires
            old(storage).wf(),
            self.wf(old(storage)@),
            self is Truncate,
        ensures
            final(storage).wf(),
            final(storage).settings() == old(storage).settings(),
            job.wf(final(storage)@),
            match self {
                Job::Truncate { record, cut } => replicates(
                    old(storage)@.cut(record.topic@, record.partition, cut.log@).with_followed(
                        record.topic@,
                        record.partition,
                        record.leader_epoch,
                    ),
                    record,
                    final(storage)@,
                    job,
                ),
                _ => true,
            },
    {
        match self {
            Job::Truncate { record, cut } => {
                storage.truncated(
                    record.topic.as_str(),
                    record.partition,
                    cut.log,
                    record.leader_epoch,
                );
                begin_replica(storage, record)
            },
            other => other,
        }
    }

    /// The ages of a partition's segments were looked up: the files of those that are no longer
    /// retained are removed.
    pub fn ages_read(self, storage: &mut Storage, ages_ms: &Vec<u64>) -> (job: Job)
        requires
            old(storage).wf(),
            self.wf(old(storage)@),
            self is ReadAges,
            ({
                let (topic, partition) = self->ReadAges_sweep.current();
                ages_ms@.len() == old(storage)@.log(topic, partition).segments.len()
            }),
        ensures
            final(storage).wf(),
            final(storage).settings() == old(storage).settings(),
            job.wf(final(storage)@),
            ({
                let before = self->ReadAges_sweep;
                let (topic, partition) = before.current();
                let settings = old(storage).settings();
                let paths = old(storage)@.expired_paths(topic, partition, ages_ms@, settings);
                &&& final(storage)@ == old(storage)@.retained(
                    topic,
                    partition,
                    ages_ms@,
                    settings,
                )
                &&& if paths.len() == 0 {
                    sweeps_on(before.advanced(), job)
                } else {
                    &&& job matches Job::RemoveSegments { sweep, paths: found }
                    &&& text::views(found@) == paths
                    &&& sweep == (Sweep {
                        removed: counted_up(before.removed, paths.len()),
                        ..before
                    })
                }
            }),
    {
        match self {
            Job::ReadAges { sweep } => {
                let paths = storage.apply_retention(
                    sweep.partitions[sweep.position].0.as_str(),
                    sweep.partitions[sweep.position].1,
                    ages_ms,
                );
                assert(text::views(paths@).len() == paths@.len());
                if paths.len() == 0 {
                    return skip_partition(sweep);
                }
                let removed: usize = sweep.removed.saturating_add(paths.len());
                Job::RemoveSegments { sweep: Sweep { removed, ..sweep }, paths }
            },
            other => other,
        }
    }

    /// The files were removed, or the partition cannot be looked at: the next one is.
    pub fn partition_swept(self, storage: &Storage) -> (job: Job)
        requires
            storage.wf(),
            self.wf(storage@),
            self is ReadAges || self is RemoveSegments,
        ensures
            job.wf(storage@),
            match self {
                Job::ReadAges { sweep } => sweeps_on(sweep.advanced(), job),
                Job::RemoveSegments { sweep, .. } => sweeps_on(sweep.advanced(), job),
                _ => true,
            },
    {
        match self {
            Job::ReadAges { sweep } => skip_partition(sweep),
            Job::RemoveSegments { sweep, .. } => skip_partition(sweep),
            other => other,
        }
    }
}

impl Sweep {
    /// The partition that is looked at.
    pub open spec fn current(self) -> (Seq<char>, u32) {
        (self.partitions@[self.position as int].0@, self.partitions@[self.position as int].1)
    }

    /// The sweep with that partition done.
    pub open spec fn advanced(self) -> Sweep {
        Sweep { position: (self.position + 1) as usize, ..self }
    }
}

/// A count with some more; the largest count stands for larger ones.
pub open spec fn counted_up(count: usize, more: nat) -> usize {
    if count + more > usize::MAX {
        usize::MAX
    } else {
        (count + more) as usize
    }
}

fn skip_partition(sweep: Sweep) -> (job: Job)
    requires
        sweep.position < sweep.partitions@.len(),
    ensures
        sweeps_on(sweep.advanced(), job),
        forall|state: StorageState| sweep.wf(state) ==> #[trigger] job.wf(state),
{
    let total: usize = sweep.partitions.len();
    assert(sweep.position < total);
    let position: usize = sweep.position + 1;
    let next = Sweep { position, ..sweep };
    let job = sweep_on(next);
    proof {
        assert forall|state: StorageState| sweep.wf(state) implies #[trigger] job.wf(state) by {
            assert(next.wf(state)) by {
                assert forall|i: int|
                    next.position <= i < next.partitions@.len() implies state.has_log(
                    (#[trigger] next.partitions@[i]).0@,
                    next.partitions@[i].1,
                ) by {
                    assert(state.has_log(sweep.partitions@[i].0@, sweep.partitions@[i].1));
                }
            }
        }
    }
    job
}

/// Whether these are the jobs of a read, one after the other up to the reply, where each step is
/// given the bytes of the file that it names.
pub open spec fn reads_through(
    state: StorageState,
    files: Seq<Seq<u8>>,
    jobs: Seq<Job>,
) -> bool {
    &&& jobs.len() > 0
    &&& jobs.last() is Reply
    &&& forall|i: int|
        0 <= i < jobs.len() - 1 ==> (#[trigger] jobs[i]) is ReadSegment && feeds_on(
            state,
            jobs[i],
            files[jobs[i]->step.segment as int].skip(jobs[i]->step.position as int),
            jobs[i + 1],
        )
}

proof fn lemma_reads_through(
    state: StorageState,
    topic: Seq<char>,
    partition: u32,
    files: Seq<Seq<u8>>,
    reading: Reading,
    jobs: Seq<Job>,
)
    requires
        state.has_log(topic, partition),
        reads_on(state, (topic, partition), reading, jobs[0]),
        reads_through(state, files, jobs),
        history::read_result(state.log(topic, partition), files, reading) is Ok,
    ensures
        jobs.last() matches Job::Reply { reply: Ok(StorageReply::Records(records)) } && Ok::<
            Seq<crate::record::Entry>,
            StorageError,
        >(broker::fetched_entries(records@)) == history::read_result(
            state.log(topic, partition),
            files,
            reading,
        ),
    decreases jobs.len(),
{
    let log = state.log(topic, partition);
    let segment = log.next_segment(reading.cursor as int, reading.offset);
    if reading.full || segment >= log.segments.len() {
        if jobs.len() > 1 {
            assert(jobs[0] is ReadSegment);
        }
    } else {
        assert(jobs[0] is ReadSegment);
        assert(jobs.len() > 1);
        let rest = jobs.skip(1);
        assert(rest.last() == jobs.last());
        assert forall|i: int| 0 <= i < rest.len() - 1 implies (#[trigger] rest[i]) is ReadSegment
            && feeds_on(
            state,
            rest[i],
            files[rest[i]->step.segment as int].skip(rest[i]->step.position as int),
            rest[i + 1],
        ) by {
            assert(rest[i] == jobs[i + 1]);
            assert(rest[i + 1] == jobs[i + 2]);
            assert(jobs[i + 1] is ReadSegment);
        }
        let position = log.read_position(segment, reading.offset)->0;
        let (taken, full) = storage::collected(
            files[segment].skip(position as int),
            reading.offset,
            reading.max_bytes,
            reading.taken,
        )->Ok_0;
        assert(rest[0] == jobs[1]);
        lemma_reads_through(
            state,
            topic,
            partition,
            files,
            Reading { cursor: (segment + 1) as nat, taken, full, ..reading },
            rest,
        );
    }
}

/// A fetch is complete: it gives back the committed records of the partition from the offset that
/// was asked for, or from the first that is retained, in order and without a gap. It gives as many
/// as the limit in bytes allows, and at least one where there is one below the high watermark.
pub proof fn fetch_gives_committed_records(
    state: StorageState,
    settings: StorageSettings,
    topic: String,
    partition: u32,
    offset: u64,
    max_bytes: u32,
    clock_ms: Option<u128>,
    after: StorageState,
    files: Seq<Seq<u8>>,
    entries: Seq<crate::record::Entry>,
    jobs: Seq<Job>,
)
    requires
        state.has_topic(topic@),
        state.has_log(topic@, partition),
        history::holds(state.log(topic@, partition), files, entries),
        max_bytes > 0,
        starts(
            state,
            settings,
            StorageCommand::Read {
                topic,
                partition,
                offset,
                max_bytes,
                visibility: Visibility::Committed,
            },
            clock_ms,
            after,
            jobs[0],
        ),
        reads_through(state, files, jobs),
    ensures
        after == state,
        jobs.last() matches Job::Reply { reply: Ok(StorageReply::Records(records)) } && {
            let oldest = state.log(topic@, partition).segments[0].base_offset;
            let first = if offset < oldest {
                oldest
            } else {
                offset
            };
            let committed = state.mark(topic@, partition).high_watermark;
            let count = records@.len();
            let bytes = storage::encoded_entries(entries.subrange(first as int, first + count)).len();
            &&& first < committed && first < entries.len() ==> count > 0
            &&& count > 0 ==> first + count <= committed && first + count <= entries.len()
            &&& forall|i: int| 0 <= i < count ==> (#[trigger] records@[i])@ == entries[first + i]
            &&& count > 1 && max_bytes < usize::MAX ==> bytes <= max_bytes
            &&& count > 0 && first + count < committed && first + count < entries.len() ==> bytes
                + entries[first + count].encoded().len() > max_bytes
        },
{
    let log = state.log(topic@, partition);
    let limit = state.mark(topic@, partition).high_watermark;
    let reading = Reading {
        offset,
        max_bytes: max_bytes as usize,
        limit,
        cursor: 0,
        taken: Seq::empty(),
        full: false,
    };
    assert(reads_on(state, (topic@, partition), reading, jobs[0]));
    history::read_returns_history(log, files, entries, offset, max_bytes as usize, limit);
    lemma_reads_through(state, topic@, partition, files, reading, jobs);
    let records = jobs.last()->Reply_reply->Ok_0->Records_0;
    let got = broker::fetched_entries(records@);
    let first = history::read_start(log, offset);
    let end = history::read_end(entries, limit);
    assert(history::segment_holds(log, files, entries, 0));
    assert forall|i: int| 0 <= i < records@.len() implies (#[trigger] records@[i])@ == got[i] by {};
    if first <= end {
        let left = entries.take(end).skip(first);
        history::limit_is_kept(left, max_bytes as usize);
        assert(left.take(got.len() as int) =~= entries.subrange(first, first + got.len()));
        if got.len() < left.len() {
            assert(left[got.len() as int] == entries[first + got.len()]);
        }
        assert forall|i: int| 0 <= i < records@.len() implies (#[trigger] records@[i])@
            == entries[first + i] by {
            assert(records@[i]@ == got[i]);
            assert(got[i] == left[i]);
        }
    }
}

/// Whether a reply is given at once, or once some partitions were forced to disk.
pub open spec fn gives_reply(job: Job, reply: StorageReply) -> bool {
    job == (Job::Reply { reply: Ok(reply) }) || (job matches Job::Sync { reply: held, .. } && held
        == reply)
}

/// A new message is stored behind all others: the record that is written for it carries its
/// payload and its key, at the time of the clock and the next offset of the partition that it is
/// routed to. It is forced to disk exactly where it is to be durable.
pub proof fn new_message_is_written(
    before: StorageState,
    settings: StorageSettings,
    input: AppendInput,
    hash: Option<u32>,
    millis: u64,
    work: Work,
    after: StorageState,
    job: Job,
    chosen: u32,
    turned: StorageState,
)
    requires
        before.has_topic(input.topic@),
        before.routed(input.topic@, input.partition, hash) == Ok::<_, StorageError>(
            (chosen, turned),
        ),
        before.has_log(input.topic@, chosen),
        input.producer matches Some(sent) ==> !before.sequences.dom().contains(
            broker::sequence_key(input.topic@, chosen, sent.id@, sent.sequence),
        ),
        appends(before, settings, input, hash, Some(millis as u128), work, after, job),
    ensures
        ({
            let log = before.log(input.topic@, chosen);
            let entry = crate::record::Entry {
                offset: log.next_offset,
                timestamp_ms: millis,
                key: if buffer::content(input.key).len() == 0 {
                    None
                } else {
                    Some(buffer::content(input.key))
                },
                value: buffer::content(input.value),
            };
            let write = if job is CreateSegment {
                job->CreateSegment_write
            } else {
                job->WriteRecord_write
            };
            &&& after == turned
            &&& !entry.fits() ==> job.fails_with(StorageError::RecordTooLarge)
            &&& entry.fits() ==> {
                &&& job is CreateSegment || job is WriteRecord
                &&& job is CreateSegment ==> job->CreateSegment_work == work
                &&& job is WriteRecord ==> job->WriteRecord_work == work
                &&& write.topic@ == input.topic@
                &&& write.partition == chosen
                &&& write.plan.offset == log.next_offset
                &&& buffer::buffered(write.plan.encoded) == entry.encoded()
                &&& write.sync <==> input.ack_mode == AckMode::Durable
            }
        }),
{
}

/// A message that its producer has sent before is not written: it is acknowledged with the place
/// that it has.
pub proof fn known_message_is_not_written(
    before: StorageState,
    settings: StorageSettings,
    input: AppendInput,
    hash: Option<u32>,
    clock_ms: Option<u128>,
    work: Work,
    after: StorageState,
    job: Job,
    sent: ProducerIdentity,
    chosen: u32,
    turned: StorageState,
    offset: u64,
)
    requires
        before.has_topic(input.topic@),
        input.producer == Some(sent),
        before.routed(input.topic@, input.partition, hash) == Ok::<_, StorageError>(
            (chosen, turned),
        ),
        before.has_log(input.topic@, chosen),
        broker::stored_under(before, input.topic@, chosen, sent.id@, sent.sequence) == Some(offset),
        appends(before, settings, input, hash, clock_ms, work, after, job),
    ensures
        gives_reply(job, StorageReply::Ack(ProduceAck { partition: chosen, offset })),
        job is Reply <==> input.ack_mode != AckMode::Durable,
        job matches Job::Sync { topic, partitions, .. } ==> topic@ == input.topic@ && partitions@
            == seq![chosen],
        after.logs == turned.logs,
{
}

/// A message is refused for these reasons only: its topic is not there and may not be created, it
/// names a partition that is not there, the clock has no time, or it is too large. A message to a
/// topic that may be created is not lost: the topic is created first, with the default count.
pub proof fn messages_are_refused_for_reasons(
    before: StorageState,
    settings: StorageSettings,
    input: AppendInput,
    hash: Option<u32>,
    clock_ms: Option<u128>,
    work: Work,
    after: StorageState,
    job: Job,
)
    requires
        appends(before, settings, input, hash, clock_ms, work, after, job),
    ensures
        !before.has_topic(input.topic@) && !settings.auto_create_topics ==> job.fails_with(
            StorageError::UnknownTopic,
        ) && after == before,
        !before.has_topic(input.topic@) && settings.auto_create_topics ==> {
            let creation = if job is OpenNewLog {
                job->OpenNewLog_creation
            } else {
                job->WriteTopicFile_creation
            };
            &&& after == before
            &&& job is OpenNewLog || job is WriteTopicFile
            &&& job is OpenNewLog ==> job->OpenNewLog_work == work
            &&& job is WriteTopicFile ==> job->WriteTopicFile_work == work
            &&& creation.topic@ == input.topic@
            &&& creation.partitions == settings.default_partition_count
        },
        before.has_topic(input.topic@) ==> (input.partition matches Some(number) ==> (number
            >= before.topics[input.topic@] ==> job.fails_with(
            StorageError::UnknownPartition(number),
        ) && after == before)),
        job matches Job::Reply { reply: Err(error) } ==> error == StorageError::UnknownTopic
            || error is UnknownPartition || error == StorageError::InvalidTopic || error
            == StorageError::InvalidTimestamp || error == StorageError::RecordTooLarge,
{
}

/// Once the bytes of a message are written it is acknowledged with the partition and the offset
/// that its record has, and the partition's next offset is the one behind it. A record that is to
/// be durable is forced to disk first.
pub proof fn written_message_is_acknowledged(
    before: StorageState,
    settings: StorageSettings,
    write: Write,
    input: AppendInput,
    clock_ms: Option<u128>,
    after: StorageState,
    job: Job,
)
    requires
        before.has_log(write.topic@, write.partition),
        write.plan.suits(before.log(write.topic@, write.partition)),
        before.log(write.topic@, write.partition).next_offset < u64::MAX,
        before.log(write.topic@, write.partition).active().len + buffer::buffered(
            write.plan.encoded,
        ).len() <= u64::MAX,
        takes_record(before, settings, write, Work::Append { input }, clock_ms, after, job),
    ensures
        ({
            let offset = before.log(write.topic@, write.partition).next_offset;
            &&& gives_reply(
                job,
                StorageReply::Ack(ProduceAck { partition: write.partition, offset }),
            )
            &&& write.sync ==> (job matches Job::Sync { topic, partitions, synced, .. } && topic@
                == write.topic@ && partitions@ == seq![write.partition] && synced == 0)
            &&& !write.sync ==> job is Reply
            &&& after.log(write.topic@, write.partition).next_offset == offset + 1
            &&& input.producer matches Some(sent) ==> broker::stored_under(
                after,
                write.topic@,
                write.partition,
                sent.id@,
                sent.sequence,
            ) == Some(offset)
        }),
{
}

/// A reply that waits for the disk is given once all its partitions were forced there, one after
/// the other, and it is the reply that was held back.
pub proof fn reply_waits_for_all_partitions(job: Job, next: Job)
    requires
        job is Sync,
        job->synced < job->partitions@.len(),
        syncs_on(job, next),
    ensures
        job->synced + 1 < job->partitions@.len() ==> (next matches Job::Sync {
            topic,
            partitions,
            synced,
            reply,
        } && topic == job->Sync_topic && partitions == job->partitions && synced == job->synced + 1
            && reply == job->Sync_reply),
        job->synced + 1 == job->partitions@.len() ==> next == (Job::Reply {
            reply: Ok(job->Sync_reply),
        }),
{
    assert(job->partitions@.len() == job->partitions.len());
}

/// A new segment starts at the next offset of its partition, and the record that asked for it is
/// written next.
pub proof fn segments_start_at_next_offset(
    before: StorageState,
    write: Write,
    work: Work,
    after: StorageState,
    job: Job,
)
    requires
        takes_segment(before, write, work, after, job),
    ensures
        ({
            let log = before.log(write.topic@, write.partition);
            let now = after.log(write.topic@, write.partition);
            &&& now.segments.len() == log.segments.len() + 1
            &&& now.segments.drop_last() =~= log.segments
            &&& now.segments.last().base_offset == log.next_offset
            &&& now.segments.last().len == 0
            &&& now.next_offset == log.next_offset
            &&& after.marks == before.marks
            &&& after.sequences == before.sequences
            &&& job == (Job::WriteRecord { write, work })
        }),
{
}

/// Each message of a batch is appended in turn, as it was sent and to the partition that the batch
/// names. The batch is answered once all are, with a place for each, in order.
pub proof fn batches_are_appended_in_order(
    before: StorageState,
    settings: StorageSettings,
    batch: Batch,
    clock_ms: Option<u128>,
    after: StorageState,
    job: Job,
)
    requires
        batches_on(before, settings, batch, clock_ms, after, job),
    ensures
        batch.acks@.len() >= batch.records@.len() ==> gives_reply(
            job,
            StorageReply::Acks(batch.acks),
        ) && after == before,
        batch.acks@.len() >= batch.records@.len() && batch.ack_mode != AckMode::Durable ==> job
            is Reply,
        batch.acks@.len() < batch.records@.len() ==> exists|input: AppendInput|
            {
                let message = batch.records@[batch.acks@.len() as int];
                &&& buffer::content(input.key) == buffer::content(message.key)
                &&& buffer::content(input.value) == buffer::content(message.payload)
                &&& input.topic@ == batch.topic@
                &&& input.partition == batch.partition
                &&& input.producer is None
                &&& #[trigger] appends(
                    before,
                    settings,
                    input,
                    broker::routing_hash(broker::routing_key(input)),
                    clock_ms,
                    Work::Batch { batch },
                    after,
                    job,
                )
            },
{
    if batch.acks@.len() < batch.records@.len() {
        let input = choose|input: AppendInput| #[trigger]
            is_next_input(batch, input) && appends(
                before,
                settings,
                input,
                broker::routing_hash(broker::routing_key(input)),
                clock_ms,
                Work::Batch { batch },
                after,
                job,
            );
        assert(appends(
            before,
            settings,
            input,
            broker::routing_hash(broker::routing_key(input)),
            clock_ms,
            Work::Batch { batch },
            after,
            job,
        ));
    }
}

/// A message of a batch that is written adds its place behind those of the messages before it.
pub proof fn batch_counts_written_messages(
    before: StorageState,
    settings: StorageSettings,
    write: Write,
    batch: Batch,
    clock_ms: Option<u128>,
    after: StorageState,
    job: Job,
)
    requires
        write.plan.suits(before.log(write.topic@, write.partition)),
        before.log(write.topic@, write.partition).next_offset < u64::MAX,
        before.log(write.topic@, write.partition).active().len + buffer::buffered(
            write.plan.encoded,
        ).len() <= u64::MAX,
        takes_record(before, settings, write, Work::Batch { batch }, clock_ms, after, job),
    ensures
        exists|acks: Vec<ProduceAck>|
            {
                &&& acks@ == batch.acks@.push(
                    ProduceAck {
                        partition: write.partition,
                        offset: before.log(write.topic@, write.partition).next_offset,
                    },
                )
                &&& #[trigger] batches_on(
                    before.written(
                        write.topic@,
                        write.partition,
                        buffer::buffered(write.plan.encoded).len(),
                        None,
                        settings.min_in_sync_replicas,
                    ),
                    settings,
                    Batch { acks, ..batch },
                    clock_ms,
                    after,
                    job,
                )
            },
{
}

/// A topic is created once, with the partitions that were asked for: without partitions it is
/// refused, and so is one that is there. Each partition that lacks a log gets one, and the topic
/// then has its count; the work that asked for it goes on.
pub proof fn topics_are_created_as_asked(
    before: StorageState,
    settings: StorageSettings,
    topic: String,
    partitions: u32,
    clock_ms: Option<u128>,
    after: StorageState,
    job: Job,
    written: StorageState,
    end: Job,
)
    requires
        starts(
            before,
            settings,
            StorageCommand::CreateTopic { topic, partitions },
            clock_ms,
            after,
            job,
        ),
        job matches Job::WriteTopicFile { creation, work } ==> takes_topic(
            after,
            settings,
            creation,
            work,
            clock_ms,
            written,
            end,
        ),
    ensures
        after == before,
        partitions == 0 ==> job.fails_with(StorageError::InvalidTopic),
        partitions > 0 && before.has_topic(topic@) ==> job.fails_with(
            StorageError::TopicAlreadyExists,
        ),
        partitions > 0 && !before.has_topic(topic@) ==> job is OpenNewLog || job is WriteTopicFile,
        job matches Job::OpenNewLog { creation, work } ==> creation.topic@ == topic@
            && creation.partitions == partitions && creation.opened == 0 && work is CreateTopic
            && (forall|partition: u32| #[trigger]
            creation.missing@.contains(partition) <==> partition < partitions && !before.has_log(
                topic@,
                partition,
            )),
        job is WriteTopicFile ==> {
            &&& written.has_topic(topic@)
            &&& written.topics[topic@] == partitions
            &&& written.logs == before.logs
            &&& forall|partition: u32|
                partition < partitions ==> #[trigger] before.has_log(topic@, partition)
            &&& end matches Job::Reply { reply: Ok(StorageReply::Topic(metadata)) }
                && metadata.topic@ == topic@ && metadata.partitions == partitions
        },
{
    let missing = broker::missing_partitions(before, topic@, partitions as nat);
    assert forall|partition: u32| #[trigger]
        missing.contains(partition) <==> partition < partitions && !before.has_log(
            topic@,
            partition,
        ) by {
        broker::missing_partitions_are_found(before, topic@, partitions as nat, partition);
    }
    if missing.len() == 0 && partitions > 0 && !before.has_topic(topic@) {
        assert forall|partition: u32| partition < partitions implies #[trigger] before.has_log(
            topic@,
            partition,
        ) by {
            assert(!missing.contains(partition));
        }
    }
}

/// A follower takes the records of its leader one after the other. It refuses those of a leader
/// that was replaced, and cuts off what is not committed before it follows a new one. Of the
/// leader that it follows it writes the record that comes next, as it is; for any other it tells
/// the offset that it needs, and writes nothing.
pub proof fn followers_take_next_record(
    before: StorageState,
    record: ReplicateRecord,
    after: StorageState,
    job: Job,
)
    requires
        before.has_topic(record.topic@),
        record.partition < before.topics[record.topic@],
        before.has_log(record.topic@, record.partition),
        replicates(before, record, after, job),
    ensures
        ({
            let log = before.log(record.topic@, record.partition);
            let mark = before.mark(record.topic@, record.partition);
            let now = after.mark(record.topic@, record.partition);
            let stale = record.leader_epoch < mark.epoch;
            let diverges = !stale && record.leader_epoch > mark.followed && log.next_offset
                > mark.high_watermark;
            let write = if job is CreateSegment {
                job->CreateSegment_write
            } else {
                job->WriteRecord_write
            };
            &&& after.logs == before.logs
            &&& after.sequences == before.sequences
            &&& stale ==> after == before && job.fails_with(
                StorageError::StaleEpoch { expected: mark.epoch, actual: record.leader_epoch },
            )
            &&& diverges ==> after == before && job == (Job::ReadTail {
                record,
                to: mark.high_watermark,
            })
            &&& !stale && !diverges ==> {
                &&& record.leader_epoch <= now.followed
                &&& now.high_watermark >= mark.high_watermark
                &&& record.high_watermark <= log.next_offset ==> now.high_watermark
                    >= record.high_watermark
                &&& record.offset != log.next_offset ==> job == (Job::Reply {
                    reply: Ok(StorageReply::Offset(log.next_offset)),
                })
                &&& record.offset == log.next_offset && !record@.fits() ==> job.fails_with(
                    StorageError::RecordTooLarge,
                )
                &&& record.offset == log.next_offset && record@.fits() ==> {
                    &&& job is CreateSegment || job is WriteRecord
                    &&& job is CreateSegment ==> job->CreateSegment_work == (Work::Replicate {
                        record,
                    })
                    &&& job is WriteRecord ==> job->WriteRecord_work == (Work::Replicate { record })
                    &&& write.topic@ == record.topic@
                    &&& write.partition == record.partition
                    &&& write.plan.offset == record.offset
                    &&& buffer::buffered(write.plan.encoded) == record@.encoded()
                    &&& write.sync == record.durable
                }
            }
        }),
{
}

/// A follower that has written a record tells the offset behind it.
pub proof fn followers_tell_next_offset(
    before: StorageState,
    settings: StorageSettings,
    write: Write,
    record: ReplicateRecord,
    clock_ms: Option<u128>,
    after: StorageState,
    job: Job,
)
    requires
        before.log(write.topic@, write.partition).next_offset < u64::MAX,
        before.log(write.topic@, write.partition).active().len + buffer::buffered(
            write.plan.encoded,
        ).len() <= u64::MAX,
        takes_record(before, settings, write, Work::Replicate { record }, clock_ms, after, job),
    ensures
        ({
            let offset = before.log(write.topic@, write.partition).next_offset;
            &&& gives_reply(job, StorageReply::Offset((offset + 1) as u64))
            &&& after.log(write.topic@, write.partition).next_offset == offset + 1
            &&& write.sync <==> job is Sync
            &&& record.producer matches Some(sent) ==> broker::stored_under(
                after,
                write.topic@,
                write.partition,
                sent.id@,
                sent.sequence,
            ) == Some(offset)
        }),
{
}

/// The commands that only look change nothing, and a commit and an adopted leadership are answered
/// with the high watermark that the partition then has.
pub proof fn commands_answer_with_state(
    before: StorageState,
    settings: StorageSettings,
    command: StorageCommand,
    clock_ms: Option<u128>,
    after: StorageState,
    job: Job,
)
    requires
        starts(before, settings, command, clock_ms, after, job),
    ensures
        command is ListTopics || command is PartitionOffset || command is Snapshot || command
            is FindProducer || command is Read ==> after == before,
        command matches StorageCommand::PartitionOffset { topic, partition } ==> {
            &&& before.has_log(topic@, partition) ==> job == (Job::Reply {
                reply: Ok(StorageReply::Offset(before.log(topic@, partition).next_offset)),
            })
            &&& !before.has_log(topic@, partition) ==> job.fails_with(
                StorageError::UnknownPartition(partition),
            )
        },
        command matches StorageCommand::Commit { topic, partition, offset } ==> {
            &&& !before.has_log(topic@, partition) ==> after == before && job.fails_with(
                StorageError::UnknownPartition(partition),
            )
            &&& before.has_log(topic@, partition) ==> {
                let end = before.log(topic@, partition).next_offset;
                let told = if offset <= end {
                    offset
                } else {
                    end
                };
                let known = before.mark(topic@, partition).high_watermark;
                job == (Job::Reply {
                    reply: Ok(
                        StorageReply::Offset(
                            if told > known {
                                told
                            } else {
                                known
                            },
                        ),
                    ),
                })
            }
        },
        command matches StorageCommand::ListTopics ==> (job matches Job::Reply {
            reply: Ok(StorageReply::Topics(topics)),
        } && forall|i: int|
            0 <= i < topics@.len() ==> before.topics.dom().contains(
                (#[trigger] topics@[i]).topic@,
            ) && topics@[i].partitions == before.topics[topics@[i].topic@]),
{
    if command is ListTopics {
        let topics = job->Reply_reply->Ok_0->Topics_0;
        let names = broker::topic_names(topics@);
        assert forall|i: int| 0 <= i < topics@.len() implies before.topics.dom().contains(
            (#[trigger] topics@[i]).topic@,
        ) && topics@[i].partitions == before.topics[topics@[i].topic@] by {
            assert(names[i] == topics@[i].topic@);
            assert(names.contains(names[i]));
        }
    }
}

/// Retention looks at each partition in turn and counts what it removes from all of them.
pub proof fn sweeps_go_through_partitions(sweep: Sweep, job: Job)
    requires
        sweeps_on(sweep, job),
    ensures
        sweep.position < sweep.partitions@.len() ==> job == (Job::ReadAges { sweep }),
        sweep.position >= sweep.partitions@.len() ==> job == (Job::Reply {
            reply: Ok(StorageReply::Removed(sweep.removed)),
        }),
        sweep.position < usize::MAX ==> sweep.advanced().position == sweep.position + 1
            && sweep.advanced().removed == sweep.removed && sweep.advanced().partitions
            == sweep.partitions,
{
}

/// Segments that are removed add up.
pub proof fn removed_segments_add_up(count: usize, more: nat)
    ensures
        count + more <= usize::MAX ==> counted_up(count, more) == count + more,
        counted_up(count, more) >= count,
{
}

/// A follower refuses records of partitions that it does not have, takes no note of them, and
/// refuses no others on that account.
pub proof fn followers_refuse_unknown_partitions(
    before: StorageState,
    record: ReplicateRecord,
    after: StorageState,
    job: Job,
)
    requires
        replicates(before, record, after, job),
    ensures
        ({
            let at = (record.topic@, record.partition);
            let unknown = StorageError::UnknownPartition(record.partition);
            let next_offset = before.logs[at].next_offset;
            let counted = before.topics.dom().contains(record.topic@);
            &&& !before.logs.dom().contains(at) ==> after == before && job.fails_with(unknown)
            &&& before.logs.dom().contains(at) && record.offset <= next_offset && !counted ==> after
                == before && job.fails_with(StorageError::UnknownTopic)
            &&& before.logs.dom().contains(at) && record.offset <= next_offset && counted
                && record.partition >= before.topics[record.topic@] ==> after == before
                && job.fails_with(unknown)
            &&& before.logs.dom().contains(at) && counted && record.partition
                < before.topics[record.topic@] && broker::epoch_checked(before, record).0 is Ok
                ==> !job.fails_with(unknown) && !job.fails_with(StorageError::UnknownTopic)
        }),
{
}

/// A batch begins with its first message, of which nothing is acknowledged yet. One without
/// messages is answered without acknowledgements, and nothing changes.
pub proof fn batches_begin_with_first_message(
    before: StorageState,
    settings: StorageSettings,
    topic: String,
    partition: Option<u32>,
    records: Vec<BatchRecord>,
    ack_mode: AckMode,
    clock_ms: Option<u128>,
    after: StorageState,
    job: Job,
)
    requires
        starts(
            before,
            settings,
            StorageCommand::AppendBatch { topic, partition, records, ack_mode },
            clock_ms,
            after,
            job,
        ),
    ensures
        records@.len() > 0 ==> exists|batch: Batch, input: AppendInput|
            {
                &&& batch.acks@.len() == 0
                &&& batch.records == records
                &&& input.topic@ == topic@
                &&& input.partition == partition
                &&& buffer::content(input.key) == buffer::content(records@[0].key)
                &&& buffer::content(input.value) == buffer::content(records@[0].payload)
                &&& #[trigger] appends(
                    before,
                    settings,
                    input,
                    broker::routing_hash(broker::routing_key(input)),
                    clock_ms,
                    Work::Batch { batch },
                    after,
                    job,
                )
            },
        records@.len() == 0 ==> after == before && (job matches Job::Reply {
            reply: Ok(StorageReply::Acks(acks)),
        } ==> acks@.len() == 0) && (job matches Job::Sync { reply: StorageReply::Acks(acks), .. }
            ==> acks@.len() == 0) && (job is Reply || job is Sync),
{
    let acks = choose|acks: Vec<ProduceAck>|
        acks@.len() == 0 && #[trigger] batches_on(
            before,
            settings,
            Batch { topic, partition, records, ack_mode, acks },
            clock_ms,
            after,
            job,
        );
    let batch = Batch { topic, partition, records, ack_mode, acks };
    assert(batches_on(before, settings, batch, clock_ms, after, job));
    if records@.len() > 0 {
        let input = choose|input: AppendInput| #[trigger]
            is_next_input(batch, input) && appends(
                before,
                settings,
                input,
                broker::routing_hash(broker::routing_key(input)),
                clock_ms,
                Work::Batch { batch },
                after,
                job,
            );
        assert(is_next_input(batch, input));
    }
}

/// A log whose offsets are used up acknowledges no record: nothing but its bytes changes.
pub proof fn full_logs_acknowledge_nothing(
    before: StorageState,
    settings: StorageSettings,
    write: Write,
    work: Work,
    clock_ms: Option<u128>,
    after: StorageState,
    job: Job,
)
    requires
        takes_record(before, settings, write, work, clock_ms, after, job),
        before.log(write.topic@, write.partition).next_offset == u64::MAX,
        before.has_log(write.topic@, write.partition),
    ensures
        ({
            let at = (write.topic@, write.partition);
            &&& job.fails_with(StorageError::OffsetOverflow) || job.fails_with(
                StorageError::RecordTooLarge,
            )
            &&& after.logs.remove(at) == before.logs.remove(at)
            &&& after.log(write.topic@, write.partition).next_offset == u64::MAX
            &&& after.marks == before.marks
            &&& after.sequences == before.sequences
            &&& after.topics == before.topics
            &&& after.round_robin == before.round_robin
        }),
{
    let at = (write.topic@, write.partition);
    assert(after.logs.remove(at) =~= before.logs.remove(at));
}

/// The producer of a record is found where its message is noted under the record's offset, and one
/// that is found sent the message at that offset.
pub proof fn producers_are_found(
    before: StorageState,
    settings: StorageSettings,
    topic: String,
    partition: u32,
    offset: u64,
    clock_ms: Option<u128>,
    after: StorageState,
    job: Job,
    id: Seq<char>,
    sequence: u64,
)
    requires
        starts(
            before,
            settings,
            StorageCommand::FindProducer { topic, partition, offset },
            clock_ms,
            after,
            job,
        ),
    ensures
        after == before,
        job matches Job::Reply { reply: Ok(StorageReply::Producer(found)) } && (
        broker::stored_under(before, topic@, partition, id, sequence) == Some(offset)
            ==> found is Some) && (found matches Some(sent) ==> broker::stored_under(
            before,
            topic@,
            partition,
            sent.id@,
            sent.sequence,
        ) == Some(offset)),
{
}

} // verus!
