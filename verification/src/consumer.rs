//! A member of a consumer group at work: what it asks of the broker in a generation, in which
//! order it commits and handles messages, and what it prints.

use vstd::prelude::*;

use crate::broker;
use crate::buffer;
use crate::cli::{CliError, Command, DeliveryMode};
use crate::client::ClientError;
use crate::messages::{AckMode, BrokerRequest, ProducerIdentity};
use crate::record::{Entry, FetchedRecord};
use crate::retry;
use crate::retry::{FailureRoute, Message, MessageContext};
use crate::sorted::SortedMap;
use crate::text;

verus! {

/// How long a consumer without partitions waits before it looks again.
pub const IDLE_MS: u64 = 250;

/// What a consumer was started with.
#[derive(Debug)]
pub struct Options {
    pub topic: String,
    pub group: String,
    pub member: String,
    pub delivery: DeliveryMode,
    pub wait_ms: u32,
    pub heartbeat_ms: u64,
    pub max_bytes: u32,
    pub handler: Option<String>,
    pub handler_timeout_ms: u64,
    pub retry_delays_ms: Vec<u64>,
}

impl Options {
    /// The options of a consume command.
    pub fn from_command(command: Command) -> (options: Option<Options>)
        ensures
            match command {
                Command::Consume {
                    topic,
                    group,
                    member,
                    delivery,
                    wait_ms,
                    heartbeat_ms,
                    max_bytes,
                    handler,
                    handler_timeout_ms,
                    retry_delays_ms,
                } => options == Some(
                    Options {
                        topic,
                        group,
                        member,
                        delivery,
                        wait_ms,
                        heartbeat_ms,
                        max_bytes,
                        handler,
                        handler_timeout_ms,
                        retry_delays_ms,
                    },
                ),
                _ => options is None,
            },
    {
        match command {
            Command::Consume {
                topic,
                group,
                member,
                delivery,
                wait_ms,
                heartbeat_ms,
                max_bytes,
                handler,
                handler_timeout_ms,
                retry_delays_ms,
            } => Some(
                Options {
                    topic,
                    group,
                    member,
                    delivery,
                    wait_ms,
                    heartbeat_ms,
                    max_bytes,
                    handler,
                    handler_timeout_ms,
                    retry_delays_ms,
                },
            ),
            _ => None,
        }
    }

    /// Asks to join the group.
    pub fn join_request(&self) -> (request: BrokerRequest)
        ensures
            request matches BrokerRequest::JoinGroup { group, topic, member } && (
                group@,
                topic@,
                member@,
            ) == (self.group@, self.topic@, self.member@),
    {
        BrokerRequest::JoinGroup {
            group: self.group.clone(),
            topic: self.topic.clone(),
            member: self.member.clone(),
        }
    }

    /// Tells that the member is alive.
    pub fn heartbeat_request(&self, current: u64) -> (request: BrokerRequest)
        ensures
            request matches BrokerRequest::Heartbeat { group, topic, member, generation } && (
                group@,
                topic@,
                member@,
                generation,
            ) == (self.group@, self.topic@, self.member@, current),
    {
        BrokerRequest::Heartbeat {
            group: self.group.clone(),
            topic: self.topic.clone(),
            member: self.member.clone(),
            generation: current,
        }
    }

    /// Asks to leave the group.
    pub fn leave_request(&self, current: u64) -> (request: BrokerRequest)
        ensures
            request matches BrokerRequest::LeaveGroup { group, topic, member, generation } && (
                group@,
                topic@,
                member@,
                generation,
            ) == (self.group@, self.topic@, self.member@, current),
    {
        BrokerRequest::LeaveGroup {
            group: self.group.clone(),
            topic: self.topic.clone(),
            member: self.member.clone(),
            generation: current,
        }
    }

    /// Asks where the group stands in a partition.
    pub fn offset_request(&self, wanted: u32) -> (request: BrokerRequest)
        ensures
            request matches BrokerRequest::FetchCommittedOffset { group, topic, partition } && (
                group@,
                topic@,
                partition,
            ) == (self.group@, self.topic@, wanted),
    {
        BrokerRequest::FetchCommittedOffset {
            group: self.group.clone(),
            topic: self.topic.clone(),
            partition: wanted,
        }
    }

    /// Asks for the records of a partition from an offset on.
    pub fn fetch_request(&self, current: u64, wanted: u32, from: u64) -> (request: BrokerRequest)
        ensures
            request matches BrokerRequest::GroupFetch {
                group,
                topic,
                member,
                generation,
                partition,
                offset,
                max_bytes,
                max_wait_ms,
            } && (group@, topic@, member@, generation) == (
                self.group@,
                self.topic@,
                self.member@,
                current,
            ) && (partition, offset, max_bytes, max_wait_ms) == (
                wanted,
                from,
                self.max_bytes,
                self.wait_ms,
            ),
    {
        BrokerRequest::GroupFetch {
            group: self.group.clone(),
            topic: self.topic.clone(),
            member: self.member.clone(),
            generation: current,
            partition: wanted,
            offset: from,
            max_bytes: self.max_bytes,
            max_wait_ms: self.wait_ms,
        }
    }

    /// Asks to commit an offset.
    pub fn commit_request(&self, current: u64, wanted: u32, next: u64) -> (request: BrokerRequest)
        ensures
            request matches BrokerRequest::CommitOffset {
                group,
                topic,
                member,
                generation,
                partition,
                offset,
            } && (group@, topic@, member@, generation) == (
                self.group@,
                self.topic@,
                self.member@,
                current,
            ) && (partition, offset) == (wanted, next),
    {
        BrokerRequest::CommitOffset {
            group: self.group.clone(),
            topic: self.topic.clone(),
            member: self.member.clone(),
            generation: current,
            partition: wanted,
            offset: next,
        }
    }
}

/// Whether a refused commit means that the group has to be joined again. Only an answer of the
/// broker does; what went wrong on the way is an error.
pub fn commit_requires_rejoin(result: Result<(), ClientError>) -> (rejoin: Result<bool, CliError>)
    ensures
        match result {
            Ok(_) => rejoin matches Ok(needed) && !needed,
            Err(ClientError::Server(_)) => rejoin matches Ok(needed) && needed,
            Err(error) => rejoin matches Err(CliError::Client(cause)) && cause == error,
        },
{
    match result {
        Ok(()) => Ok(false),
        Err(ClientError::Server(_)) => Ok(true),
        Err(error) => Err(CliError::Client(error)),
    }
}

/// What a consumer does in a generation.
#[derive(Debug, Clone, Copy, PartialEq, Eq, Structural)]
pub enum Stage {
    /// It looks whether its heartbeat still goes.
    Heartbeat,
    /// It has no partitions and waits.
    Idle,
    /// It asks for records of its next partition.
    Fetch,
    /// It commits the offset behind a record that is not handled yet.
    CommitFirst,
    /// It handles a record.
    Handle,
    /// It commits the offset behind a record that is handled.
    CommitLast,
    /// It has to join its group again.
    Rejoin,
}

/// A consumer in a generation, as a value.
#[verifier::ext_equal]
pub struct Consumption {
    pub delivery: DeliveryMode,
    pub partitions: Seq<u32>,
    /// Where the consumer stands in each partition.
    pub offsets: Map<u32, u64>,
    /// The partition that is worked on.
    pub position: nat,
    /// The records of the last fetch that are left, with the one that is worked on in front.
    pub records: Seq<Entry>,
    pub stage: Stage,
}

/// What happens to a consumer.
pub enum ConsumerEvent {
    /// Its heartbeat was looked at, and has ended or goes on.
    HeartbeatChecked { finished: bool },
    Waited,
    Fetched { records: Seq<Entry> },
    /// A fetch or a commit was refused by the broker.
    Refused,
    Committed,
    Handled,
}

impl Consumption {
    /// The partition that is worked on.
    pub open spec fn partition(self) -> u32 {
        self.partitions[self.position as int]
    }

    /// Where the consumer stands in a partition: at its start where nothing is known.
    pub open spec fn offset_of(self, partition: u32) -> u64 {
        if self.offsets.dom().contains(partition) {
            self.offsets[partition]
        } else {
            0
        }
    }

    /// Turns to the record in front: it is committed first or handled first. Without records the
    /// next partition comes, or a new round. `None` where no offset follows that of the record.
    pub open spec fn next_record(self) -> Option<Consumption> {
        if self.records.len() > 0 {
            if self.records[0].offset == u64::MAX {
                None
            } else if self.delivery == DeliveryMode::AtMostOnce {
                Some(Consumption { stage: Stage::CommitFirst, ..self })
            } else {
                Some(Consumption { stage: Stage::Handle, ..self })
            }
        } else if self.position + 1 < self.partitions.len() {
            Some(Consumption { position: self.position + 1, stage: Stage::Fetch, ..self })
        } else {
            Some(Consumption { position: 0, stage: Stage::Heartbeat, ..self })
        }
    }

    /// The record in front is done: the consumer stands behind it and turns to the next.
    pub open spec fn record_done(self) -> Option<Consumption> {
        (Consumption {
            offsets: self.offsets.insert(
                self.partition(),
                (self.records[0].offset + 1) as u64,
            ),
            records: self.records.skip(1),
            ..self
        }).next_record()
    }

    /// Whether an event can happen in the stage that the consumer is in.
    pub open spec fn awaits(self, event: ConsumerEvent) -> bool {
        match event {
            ConsumerEvent::HeartbeatChecked { .. } => self.stage == Stage::Heartbeat,
            ConsumerEvent::Waited => self.stage == Stage::Idle,
            ConsumerEvent::Fetched { .. } => self.stage == Stage::Fetch,
            ConsumerEvent::Refused => self.stage == Stage::Fetch || self.stage
                == Stage::CommitFirst || self.stage == Stage::CommitLast,
            ConsumerEvent::Committed => self.stage == Stage::CommitFirst || self.stage
                == Stage::CommitLast,
            ConsumerEvent::Handled => self.stage == Stage::Handle,
        }
    }

    /// The consumer after an event. `None` where it meets a record that no offset follows.
    pub open spec fn after(self, event: ConsumerEvent) -> Option<Consumption> {
        match event {
            ConsumerEvent::HeartbeatChecked { finished } => Some(
                Consumption {
                    stage: if finished {
                        Stage::Rejoin
                    } else if self.partitions.len() == 0 {
                        Stage::Idle
                    } else {
                        Stage::Fetch
                    },
                    ..self
                },
            ),
            ConsumerEvent::Waited => Some(Consumption { stage: Stage::Heartbeat, ..self }),
            ConsumerEvent::Fetched { records } => (Consumption { records, ..self }).next_record(),
            ConsumerEvent::Refused => Some(Consumption { stage: Stage::Rejoin, ..self }),
            ConsumerEvent::Committed => if self.stage == Stage::CommitFirst {
                Some(Consumption { stage: Stage::Handle, ..self })
            } else {
                self.record_done()
            },
            ConsumerEvent::Handled => if self.delivery == DeliveryMode::AtMostOnce {
                self.record_done()
            } else {
                Some(Consumption { stage: Stage::CommitLast, ..self })
            },
        }
    }

    /// The stage suits the delivery mode, and there is a partition or a record where one is
    /// worked on.
    pub open spec fn consistent(self) -> bool {
        &&& self.stage == Stage::CommitFirst ==> self.delivery == DeliveryMode::AtMostOnce
        &&& self.stage == Stage::CommitLast ==> self.delivery == DeliveryMode::AtLeastOnce
        &&& match self.stage {
            Stage::Heartbeat => self.position == 0,
            Stage::Idle => self.position == 0,
            Stage::Fetch => self.position < self.partitions.len(),
            Stage::Rejoin => true,
            _ => {
                &&& self.position < self.partitions.len()
                &&& self.records.len() > 0
                &&& self.records[0].offset < u64::MAX
            },
        }
    }
}

/// What a consumer does next.
#[derive(Debug)]
pub enum Step<'a> {
    CheckHeartbeat,
    Wait { millis: u64 },
    Fetch { partition: u32, offset: u64 },
    Commit { partition: u32, offset: u64 },
    Handle { partition: u32, record: &'a FetchedRecord },
    Rejoin,
}

/// A consumer in a generation.
pub struct Consumer {
    delivery: DeliveryMode,
    partitions: Vec<u32>,
    offsets: SortedMap<u32, u64>,
    position: usize,
    records: Vec<FetchedRecord>,
    done: usize,
    stage: Stage,
}

impl View for Consumer {
    type V = Consumption;

    closed spec fn view(&self) -> Consumption {
        Consumption {
            delivery: self.delivery,
            partitions: self.partitions@,
            offsets: self.offsets@,
            position: self.position as nat,
            records: broker::fetched_entries(self.records@).skip(self.done as int),
            stage: self.stage,
        }
    }
}

/// Whether `step` is what a consumer does next.
pub open spec fn is_step(consumer: Consumption, step: Step<'_>) -> bool {
    match consumer.stage {
        Stage::Heartbeat => step is CheckHeartbeat,
        Stage::Idle => step matches Step::Wait { millis } && millis == IDLE_MS,
        Stage::Fetch => step matches Step::Fetch { partition, offset } && partition
            == consumer.partition() && offset == consumer.offset_of(consumer.partition()),
        Stage::Handle => step matches Step::Handle { partition, record } && partition
            == consumer.partition() && record@ == consumer.records[0],
        Stage::Rejoin => step is Rejoin,
        _ => step matches Step::Commit { partition, offset } && partition
            == consumer.partition() && offset == consumer.records[0].offset + 1,
    }
}

/// The offsets that a group has committed, with the start where it has none.
pub open spec fn committed_offsets(partitions: Seq<u32>, committed: Seq<Option<u64>>) -> Map<
    u32,
    u64,
>
    decreases partitions.len(),
{
    if partitions.len() == 0 {
        Map::empty()
    } else {
        committed_offsets(partitions.drop_last(), committed.drop_last()).insert(
            partitions.last(),
            match committed.last() {
                Some(offset) => offset,
                None => 0,
            },
        )
    }
}

impl Consumer {
    pub closed spec fn wf(self) -> bool {
        &&& self.offsets.wf()
        &&& self.done <= self.records@.len()
        &&& self@.consistent()
    }

    /// Whatever has happened, the stage suits the delivery mode and the work at hand.
    pub proof fn consumption_is_consistent(self)
        requires
            self.wf(),
        ensures
            self@.consistent(),
    {
    }

    /// A consumer that has joined its group and starts from the committed offsets.
    pub fn new(delivery: DeliveryMode, partitions: Vec<u32>, committed: &Vec<Option<u64>>) -> (
        consumer: Self)
        requires
            committed@.len() == partitions@.len(),
        ensures
            consumer.wf(),
            consumer@ == (Consumption {
                delivery,
                partitions: partitions@,
                offsets: committed_offsets(partitions@, committed@),
                position: 0,
                records: Seq::empty(),
                stage: Stage::Heartbeat,
            }),
    {
        let mut offsets: SortedMap<u32, u64> = SortedMap::new();
        assert(offsets@ =~= committed_offsets(partitions@.take(0), committed@.take(0)));
        for i in 0..partitions.len()
            invariant
                committed@.len() == partitions@.len(),
                offsets.wf(),
                offsets@ == committed_offsets(
                    partitions@.take(i as int),
                    committed@.take(i as int),
                ),
        {
            proof {
                assert(partitions@.take(i + 1).drop_last() =~= partitions@.take(i as int));
                assert(committed@.take(i + 1).drop_last() =~= committed@.take(i as int));
                assert(partitions@.take(i + 1).last() == partitions@[i as int]);
                assert(committed@.take(i + 1).last() == committed@[i as int]);
            }
            let offset: u64 = match committed[i] {
                Some(offset) => offset,
                None => 0,
            };
            offsets.insert(partitions[i], offset);
        }
        assert(partitions@.take(partitions@.len() as int) =~= partitions@);
        assert(committed@.take(committed@.len() as int) =~= committed@);
        let records: Vec<FetchedRecord> = Vec::new();
        let consumer = Consumer {
            delivery,
            partitions,
            offsets,
            position: 0,
            records,
            done: 0,
            stage: Stage::Heartbeat,
        };
        assert(consumer@.records =~= Seq::empty());
        consumer
    }

    /// What the consumer does next.
    pub fn next(&self) -> (step: Step<'_>)
        requires
            self.wf(),
        ensures
            is_step(self@, step),
    {
        match self.stage {
            Stage::Heartbeat => Step::CheckHeartbeat,
            Stage::Idle => Step::Wait { millis: IDLE_MS },
            Stage::Rejoin => Step::Rejoin,
            Stage::Fetch => {
                let partition: u32 = self.partitions[self.position];
                let offset: u64 = match self.offsets.get(&partition) {
                    Some(offset) => *offset,
                    None => 0,
                };
                Step::Fetch { partition, offset }
            },
            Stage::Handle => {
                assert(self.done < self.records@.len());
                assert(self@.records[0] == self.records@[self.done as int]@);
                Step::Handle {
                    partition: self.partitions[self.position],
                    record: &self.records[self.done],
                }
            },
            _ => {
                assert(self.done < self.records@.len());
                assert(self@.records[0] == self.records@[self.done as int]@);
                Step::Commit {
                    partition: self.partitions[self.position],
                    offset: self.records[self.done].offset + 1,
                }
            },
        }
    }

    /// Turns to the record in front, to the next partition, or to a new round.
    fn next_record(self) -> (turned: Result<Consumer, CliError>)
        requires
            self.offsets.wf(),
            self.done <= self.records@.len(),
            self.position < self.partitions@.len(),
        ensures
            match self@.next_record() {
                Some(after) => turned matches Ok(consumer) && consumer.wf() && consumer@ == after,
                None => turned matches Err(error) && error is OffsetOverflow,
            },
    {
        let mut consumer = self;
        let last: usize = consumer.partitions.len() - 1;
        if consumer.done < consumer.records.len() {
            assert(self@.records[0] == self.records@[self.done as int]@);
            if consumer.records[consumer.done].offset == u64::MAX {
                return Err(CliError::OffsetOverflow);
            }
            if consumer.delivery == DeliveryMode::AtMostOnce {
                consumer.stage = Stage::CommitFirst;
            } else {
                consumer.stage = Stage::Handle;
            }
        } else if consumer.position < last {
            consumer.position = consumer.position + 1;
            consumer.stage = Stage::Fetch;
        } else {
            consumer.position = 0;
            consumer.stage = Stage::Heartbeat;
        }
        Ok(consumer)
    }

    /// Takes note that the record in front is done.
    fn record_done(self) -> (turned: Result<Consumer, CliError>)
        requires
            self.wf(),
            self@.stage == Stage::Handle || self@.stage == Stage::CommitLast,
        ensures
            match self@.record_done() {
                Some(after) => turned matches Ok(consumer) && consumer.wf() && consumer@ == after,
                None => turned matches Err(error) && error is OffsetOverflow,
            },
    {
        let mut consumer = self;
        assert(self@.records[0] == self.records@[self.done as int]@);
        let next: u64 = consumer.records[consumer.done].offset + 1;
        let partition: u32 = consumer.partitions[consumer.position];
        consumer.offsets.insert(partition, next);
        let held: usize = consumer.records.len();
        assert(consumer.done < held);
        consumer.done = consumer.done + 1;
        proof {
            assert(consumer@.records =~= self@.records.skip(1));
            assert(consumer@ =~= (Consumption {
                offsets: self@.offsets.insert(self@.partition(), next),
                records: self@.records.skip(1),
                ..self@
            }));
        }
        consumer.next_record()
    }

    /// Takes note of whether the heartbeat has ended.
    pub fn heartbeat_checked(self, finished: bool) -> (consumer: Consumer)
        requires
            self.wf(),
            self@.stage == Stage::Heartbeat,
        ensures
            consumer.wf(),
            Some(consumer@) == self@.after(ConsumerEvent::HeartbeatChecked { finished }),
    {
        let mut consumer = self;
        consumer.stage = if finished {
            Stage::Rejoin
        } else if consumer.partitions.len() == 0 {
            Stage::Idle
        } else {
            Stage::Fetch
        };
        consumer
    }

    /// Takes note that the consumer has waited.
    pub fn waited(self) -> (consumer: Consumer)
        requires
            self.wf(),
            self@.stage == Stage::Idle,
        ensures
            consumer.wf(),
            Some(consumer@) == self@.after(ConsumerEvent::Waited),
    {
        let mut consumer = self;
        consumer.stage = Stage::Heartbeat;
        consumer
    }

    /// Takes the answer to a fetch. A refusal of the broker makes the consumer join again; other
    /// errors end it.
    pub fn fetched(self, answer: Result<Vec<FetchedRecord>, ClientError>) -> (turned: Result<
        Consumer,
        CliError,
    >)
        requires
            self.wf(),
            self@.stage == Stage::Fetch,
        ensures
            match answer {
                Ok(records) => match self@.after(
                    ConsumerEvent::Fetched { records: broker::fetched_entries(records@) },
                ) {
                    Some(after) => turned matches Ok(consumer) && consumer.wf() && consumer@
                        == after,
                    None => turned matches Err(error) && error is OffsetOverflow,
                },
                Err(ClientError::Server(_)) => turned matches Ok(consumer) && consumer.wf()
                    && Some(consumer@) == self@.after(ConsumerEvent::Refused),
                Err(error) => turned matches Err(CliError::Client(cause)) && cause == error,
            },
    {
        match answer {
            Ok(records) => {
                let mut consumer = self;
                consumer.records = records;
                consumer.done = 0;
                assert(consumer@.records =~= broker::fetched_entries(records@));
                consumer.next_record()
            },
            Err(ClientError::Server(_)) => {
                let mut consumer = self;
                consumer.stage = Stage::Rejoin;
                Ok(consumer)
            },
            Err(error) => Err(CliError::Client(error)),
        }
    }

    /// Takes the answer to a commit. A refusal of the broker makes the consumer join again; other
    /// errors end it.
    pub fn committed(self, answer: Result<(), ClientError>) -> (turned: Result<Consumer, CliError>)
        requires
            self.wf(),
            self@.stage == Stage::CommitFirst || self@.stage == Stage::CommitLast,
        ensures
            match answer {
                Ok(_) => match self@.after(ConsumerEvent::Committed) {
                    Some(after) => turned matches Ok(consumer) && consumer.wf() && consumer@
                        == after,
                    None => turned matches Err(error) && error is OffsetOverflow,
                },
                Err(ClientError::Server(_)) => turned matches Ok(consumer) && consumer.wf()
                    && Some(consumer@) == self@.after(ConsumerEvent::Refused),
                Err(error) => turned matches Err(CliError::Client(cause)) && cause == error,
            },
    {
        match commit_requires_rejoin(answer) {
            Ok(rejoin) => {
                if rejoin {
                    let mut consumer = self;
                    consumer.stage = Stage::Rejoin;
                    Ok(consumer)
                } else if self.stage == Stage::CommitFirst {
                    let mut consumer = self;
                    consumer.stage = Stage::Handle;
                    Ok(consumer)
                } else {
                    self.record_done()
                }
            },
            Err(error) => Err(error),
        }
    }

    /// Takes note that the record in front was handled, or routed to a retry topic.
    pub fn handled(self) -> (turned: Result<Consumer, CliError>)
        requires
            self.wf(),
            self@.stage == Stage::Handle,
        ensures
            match self@.after(ConsumerEvent::Handled) {
                Some(after) => turned matches Ok(consumer) && consumer.wf() && consumer@ == after,
                None => turned matches Err(error) && error is OffsetOverflow,
            },
    {
        if self.delivery == DeliveryMode::AtMostOnce {
            self.record_done()
        } else {
            let mut consumer = self;
            consumer.stage = Stage::CommitLast;
            Ok(consumer)
        }
    }
}

/// At most once: a record is handled only right after the offset behind it was committed, and
/// never again after that.
pub proof fn at_most_once_commits_first(before: Consumption, event: ConsumerEvent)
    requires
        before.delivery == DeliveryMode::AtMostOnce,
        before.consistent(),
        before.awaits(event),
    ensures
        before.after(event) matches Some(after) ==> {
            &&& after.delivery == before.delivery
            &&& after.consistent()
            &&& after.stage == Stage::Handle ==> before.stage == Stage::CommitFirst && event
                is Committed && after.records == before.records
            &&& before.stage == Stage::Handle ==> after.records == before.records.skip(1)
        },
{
}

/// At least once: the offset behind a record is committed only right after the record was
/// handled, and the consumer moves on only once that is done.
pub proof fn at_least_once_commits_last(before: Consumption, event: ConsumerEvent)
    requires
        before.delivery == DeliveryMode::AtLeastOnce,
        before.consistent(),
        before.awaits(event),
    ensures
        before.after(event) matches Some(after) ==> {
            &&& after.delivery == before.delivery
            &&& after.consistent()
            &&& after.stage == Stage::CommitLast ==> before.stage == Stage::Handle && event
                is Handled && after.records == before.records
            &&& after.offsets != before.offsets ==> before.stage == Stage::CommitLast && event
                is Committed
        },
{
}

/// A consumer moves through a partition record by record: its offset changes only when a record
/// is done, and then stands right behind that record.
pub proof fn offsets_follow_records(before: Consumption, event: ConsumerEvent, partition: u32)
    requires
        before.consistent(),
        before.awaits(event),
    ensures
        before.after(event) matches Some(after) ==> {
            ||| after.offset_of(partition) == before.offset_of(partition)
            ||| {
                &&& partition == before.partition()
                &&& after.offset_of(partition) == before.records[0].offset + 1
                &&& after.records == before.records.skip(1)
            }
        },
{
}

/// How much of what a handler says is kept.
pub open spec fn kept_output(output: Seq<u8>) -> Seq<u8> {
    if output.len() > retry::MAX_ERROR_BYTES {
        output.take(retry::MAX_ERROR_BYTES as int)
    } else {
        output
    }
}

/// Why a handler failed, given what it said as text, and its status.
pub open spec fn failure_text(said: Seq<char>, status: Seq<char>) -> Seq<char> {
    if text::trimmed(said).len() == 0 {
        "handler exited with status "@ + status
    } else {
        text::trimmed(said)
    }
}

/// Why a handler failed, given what it said as text, and its status.
pub fn handler_failure(said: &str, status: &str) -> (failure: String)
    ensures
        failure@ == failure_text(said@, status@),
{
    let error = text::trim(said);
    if error.as_str().is_empty() {
        text::joined("handler exited with status ", status)
    } else {
        error
    }
}

/// Whether a handler succeeded, and why it did not.
pub fn handler_result(success: bool, stderr: &[u8], status: &str) -> (result: Result<(), String>)
    ensures
        if success {
            result is Ok
        } else {
            result matches Err(failure) && failure@ == failure_text(
                text::lossy(kept_output(stderr@)),
                status@,
            )
        },
{
    if success {
        return Ok(());
    }
    let kept: usize = if stderr.len() > retry::MAX_ERROR_BYTES {
        retry::MAX_ERROR_BYTES
    } else {
        stderr.len()
    };
    let output = vstd::slice::slice_subrange(stderr, 0, kept);
    assert(output@ =~= kept_output(stderr@));
    let said = text::from_utf8_lossy(output);
    Err(handler_failure(said.as_str(), status))
}

/// Why a handler that takes too long has failed.
pub fn timeout_failure(timeout_ms: u64) -> (failure: String)
    ensures
        failure@ == "handler timed out after "@ + text::decimal(timeout_ms as nat) + "ms"@,
{
    let mut out = "handler timed out after ".to_owned();
    text::push_decimal(&mut out, timeout_ms);
    out.append("ms");
    out
}

/// Publishes a failed message to where it goes next.
pub fn failure_request(route: &FailureRoute) -> (request: BrokerRequest)
    ensures
        ({
            &&& request matches BrokerRequest::Produce {
                topic,
                partition,
                key,
                payload,
                ack_mode,
                producer,
            }
            &&& topic@ == route.topic@
            &&& partition is None
            &&& buffer::content(key) == buffer::content(route.routing_key)
            &&& buffer::content(payload) == buffer::content(route.envelope)
            &&& ack_mode == AckMode::Durable
            &&& producer matches Some(identity)
            &&& identity.id@ == route.producer_id@
            &&& identity.sequence == 0
        }),
{
    BrokerRequest::Produce {
        topic: route.topic.clone(),
        partition: None,
        key: route.routing_key.clone(),
        payload: route.envelope.clone(),
        ack_mode: AckMode::Durable,
        producer: Some(ProducerIdentity { id: route.producer_id.clone(), sequence: 0 }),
    }
}

/// What is printed of a handled message, given its key and payload as text.
pub open spec fn processed_text(
    partition: u32,
    offset: u64,
    message: Message,
    key: Seq<char>,
    value: Seq<char>,
) -> Seq<char> {
    "partition="@ + text::decimal(partition as nat) + " offset="@ + text::decimal(offset as nat)
        + " original_topic="@ + message.original_topic + " original_partition="@ + text::decimal(
        message.original_partition as nat,
    ) + " original_offset="@ + text::decimal(message.original_offset as nat) + " attempt="@
        + text::decimal(message.attempt as nat) + " key="@ + key + " value="@ + value
}

/// What is printed of a handled message, given its key and payload as text.
pub fn render_processed(
    partition: u32,
    offset: u64,
    context: &MessageContext,
    key: &str,
    value: &str,
) -> (line: String)
    ensures
        line@ == processed_text(partition, offset, context@, key@, value@),
{
    let mut out = "partition=".to_owned();
    text::push_decimal(&mut out, partition as u64);
    out.append(" offset=");
    text::push_decimal(&mut out, offset);
    out.append(" original_topic=");
    out.append(context.original_topic.as_str());
    out.append(" original_partition=");
    text::push_decimal(&mut out, context.original_partition as u64);
    out.append(" original_offset=");
    text::push_decimal(&mut out, context.original_offset);
    out.append(" attempt=");
    text::push_decimal(&mut out, context.attempt as u64);
    out.append(" key=");
    out.append(key);
    out.append(" value=");
    out.append(value);
    out
}

/// What is printed of a handled message. A dash stands for an empty key.
pub fn processed_line(partition: u32, offset: u64, context: &MessageContext) -> (line: String)
    ensures
        line@ == processed_text(
            partition,
            offset,
            context@,
            if context@.key.len() == 0 {
                "-"@
            } else {
                text::lossy(context@.key)
            },
            text::lossy(context@.payload),
        ),
{
    let key: String = if context.key.len() == 0 {
        "-".to_owned()
    } else {
        text::from_utf8_lossy(buffer::as_slice(&context.key))
    };
    let value = text::from_utf8_lossy(buffer::as_slice(&context.payload));
    render_processed(partition, offset, context, key.as_str(), value.as_str())
}

/// What is printed of a failed message.
pub fn failed_line(partition: u32, offset: u64, attempt: u32, error: &str, destination: &str) -> (
    line: String)
    ensures
        line@ == "partition="@ + text::decimal(partition as nat) + " offset="@ + text::decimal(
            offset as nat,
        ) + " attempt="@ + text::decimal(attempt as nat) + " failed="@ + error@ + " routed_to="@
            + destination@,
{
    let mut out = "partition=".to_owned();
    text::push_decimal(&mut out, partition as u64);
    out.append(" offset=");
    text::push_decimal(&mut out, offset);
    out.append(" attempt=");
    text::push_decimal(&mut out, attempt as u64);
    out.append(" failed=");
    out.append(error);
    out.append(" routed_to=");
    out.append(destination);
    out
}

/// A consumer after some events, one after the other, each of which it awaits. `None` where one of
/// them cannot happen, or it meets a record that no offset follows.
pub open spec fn after_all(start: Consumption, events: Seq<ConsumerEvent>) -> Option<Consumption>
    decreases events.len(),
{
    if events.len() == 0 {
        Some(start)
    } else if !start.awaits(events[0]) {
        None
    } else {
        match start.after(events[0]) {
            Some(next) => after_all(next, events.skip(1)),
            None => None,
        }
    }
}

/// The partitions whose fetches were answered on the way.
pub open spec fn fetched_partitions(start: Consumption, events: Seq<ConsumerEvent>) -> Seq<u32>
    decreases events.len(),
{
    if events.len() == 0 {
        Seq::empty()
    } else {
        let front = if events[0] is Fetched {
            seq![start.partitions[start.position as int]]
        } else {
            Seq::empty()
        };
        match start.after(events[0]) {
            Some(next) => front + fetched_partitions(next, events.skip(1)),
            None => front,
        }
    }
}

/// The records that were handed out on the way.
pub open spec fn fetched_records(events: Seq<ConsumerEvent>) -> Seq<Entry>
    decreases events.len(),
{
    if events.len() == 0 {
        Seq::empty()
    } else {
        let front = match events[0] {
            ConsumerEvent::Fetched { records } => records,
            _ => Seq::empty(),
        };
        front + fetched_records(events.skip(1))
    }
}

/// The records that were handled on the way.
pub open spec fn handled_records(start: Consumption, events: Seq<ConsumerEvent>) -> Seq<Entry>
    decreases events.len(),
{
    if events.len() == 0 {
        Seq::empty()
    } else {
        let front = if events[0] is Handled {
            seq![start.records[0]]
        } else {
            Seq::empty()
        };
        match start.after(events[0]) {
            Some(next) => front + handled_records(next, events.skip(1)),
            None => front,
        }
    }
}

/// The records of which the offset behind was committed on the way.
pub open spec fn committed_records(start: Consumption, events: Seq<ConsumerEvent>) -> Seq<Entry>
    decreases events.len(),
{
    if events.len() == 0 {
        Seq::empty()
    } else {
        let front = if events[0] is Committed {
            seq![start.records[0]]
        } else {
            Seq::empty()
        };
        match start.after(events[0]) {
            Some(next) => front + committed_records(next, events.skip(1)),
            None => front,
        }
    }
}

/// Whether a consumer is in the middle of a round: it fetches, or works on a record.
pub open spec fn is_working(consumer: Consumption) -> bool {
    consumer.stage != Stage::Heartbeat && consumer.stage != Stage::Idle && consumer.stage
        != Stage::Rejoin
}

/// Whether the consumer works on throughout some events, but for the last state.
pub open spec fn works_throughout(start: Consumption, events: Seq<ConsumerEvent>) -> bool
    decreases events.len(),
{
    events.len() > 0 ==> {
        &&& is_working(start)
        &&& start.after(events[0]) matches Some(next) ==> works_throughout(next, events.skip(1))
    }
}

/// The records that are left to handle of those that the consumer has.
pub open spec fn left_to_handle(consumer: Consumption) -> Seq<Entry> {
    if consumer.stage == Stage::Fetch {
        Seq::empty()
    } else if consumer.stage == Stage::CommitLast {
        consumer.records.skip(1)
    } else {
        consumer.records
    }
}

/// The records that are left to commit of those that the consumer has.
pub open spec fn left_to_commit(consumer: Consumption) -> Seq<Entry> {
    if consumer.stage == Stage::Fetch {
        Seq::empty()
    } else if consumer.stage == Stage::Handle && consumer.delivery == DeliveryMode::AtMostOnce {
        consumer.records.skip(1)
    } else {
        consumer.records
    }
}

#[verifier::spinoff_prover]
#[verifier::rlimit(40)]
proof fn lemma_rest_of_round(start: Consumption, events: Seq<ConsumerEvent>)
    requires
        start.consistent(),
        is_working(start) || events.len() == 0,
        start.stage == Stage::Heartbeat || is_working(start),
        works_throughout(start, events),
        after_all(start, events) matches Some(end) && end.stage == Stage::Heartbeat,
    ensures
        fetched_partitions(start, events) == if is_working(start) {
            start.partitions.skip(
                if start.stage == Stage::Fetch {
                    start.position as int
                } else {
                    (start.position + 1) as int
                },
            )
        } else {
            Seq::empty()
        },
        is_working(start) ==> {
            &&& handled_records(start, events) == left_to_handle(start) + fetched_records(events)
            &&& committed_records(start, events) == left_to_commit(start) + fetched_records(events)
        },
        !is_working(start) ==> events.len() == 0,
        after_all(start, events)->0.partitions == start.partitions,
    decreases events.len(),
{
    if events.len() > 0 {
        let event = events[0];
        let next = start.after(event)->0;
        let rest = events.skip(1);
        lemma_stays_consistent(start, event);
        assert(works_throughout(next, rest));
        assert(after_all(start, events) == after_all(next, rest));
        reveal_with_fuel(after_all, 2);
        reveal_with_fuel(works_throughout, 2);
        if rest.len() > 0 {
            assert(is_working(next));
        } else {
            assert(next.stage == Stage::Heartbeat);
        }
        lemma_rest_of_round(next, rest);
        assert(fetched_partitions(start, events) == (if event is Fetched {
            seq![start.partitions[start.position as int]]
        } else {
            Seq::empty()
        }) + fetched_partitions(next, rest));
        let expected = start.partitions.skip(
            if start.stage == Stage::Fetch {
                start.position as int
            } else {
                (start.position + 1) as int
            },
        );
        assert(fetched_partitions(start, events) =~= expected);
        let front = match event {
            ConsumerEvent::Fetched { records } => records,
            _ => Seq::empty(),
        };
        assert(fetched_records(events) == front + fetched_records(rest));
        if rest.len() == 0 {
            assert(fetched_records(rest) =~= Seq::empty());
            assert(handled_records(next, rest) =~= Seq::empty());
            assert(committed_records(next, rest) =~= Seq::empty());
        }
        assert(handled_records(start, events) =~= left_to_handle(start) + fetched_records(events));
        assert(committed_records(start, events) =~= left_to_commit(start) + fetched_records(
            events,
        ));
    } else {
        assert(fetched_partitions(start, events) =~= Seq::empty());
    }
}

proof fn lemma_stays_consistent(before: Consumption, event: ConsumerEvent)
    requires
        before.consistent(),
        before.awaits(event),
        before.after(event) is Some,
    ensures
        before.after(event)->0.consistent(),
        before.after(event)->0.delivery == before.delivery,
        before.after(event)->0.partitions == before.partitions,
{
}

/// A round covers all partitions: between two looks at the heartbeat each assigned partition is
/// fetched exactly once, in order. Every record that the fetches bring is handled exactly once and
/// committed exactly once, in the order in which it came.
pub proof fn round_covers_partitions(start: Consumption, events: Seq<ConsumerEvent>)
    requires
        start.consistent(),
        start.stage == Stage::Heartbeat,
        start.partitions.len() > 0,
        events.len() > 0,
        start.after(events[0]) matches Some(next) ==> works_throughout(next, events.skip(1)),
        events[0] == (ConsumerEvent::HeartbeatChecked { finished: false }),
        after_all(start, events) matches Some(end) && end.stage == Stage::Heartbeat,
    ensures
        fetched_partitions(start, events) == start.partitions,
        handled_records(start, events) == fetched_records(events),
        committed_records(start, events) == fetched_records(events),
        after_all(start, events)->0.partitions == start.partitions,
{
    let next = start.after(events[0])->0;
    let rest = events.skip(1);
    assert(is_working(next));
    lemma_rest_of_round(next, rest);
    assert(next.partitions.skip(0) =~= start.partitions);
    assert(fetched_partitions(start, events) =~= fetched_partitions(next, rest));
    assert(fetched_records(events) =~= fetched_records(rest));
    assert(handled_records(start, events) =~= handled_records(next, rest));
    assert(committed_records(start, events) =~= committed_records(next, rest));
}

/// A round goes on by itself: a consumer whose fetches and commits are answered never stops
/// before the next look at its heartbeat. Only a heartbeat that has ended or a refusal makes it
/// join again, and only a consumer without partitions waits.
pub proof fn rounds_go_on(before: Consumption, event: ConsumerEvent)
    requires
        before.consistent(),
        before.awaits(event),
    ensures
        before.after(event) matches Some(after) ==> {
            &&& after.stage == Stage::Rejoin <==> event == (ConsumerEvent::HeartbeatChecked {
                finished: true,
            }) || event is Refused
            &&& after.stage == Stage::Idle <==> event == (ConsumerEvent::HeartbeatChecked {
                finished: false,
            }) && before.partitions.len() == 0
            &&& event is Waited ==> after.stage == Stage::Heartbeat
            &&& after.stage == Stage::Heartbeat && is_working(before) ==> before.position + 1
                == before.partitions.len() && after.position == 0
            &&& after.stage == Stage::Fetch && is_working(before) ==> after.position
                == before.position + 1
            &&& is_working(after) && after.stage != Stage::Fetch ==> after.position
                == before.position
            &&& event matches ConsumerEvent::Fetched { records } ==> {
                &&& after.records == records
                &&& records.len() > 0 ==> after.stage == if before.delivery
                    == DeliveryMode::AtMostOnce {
                    Stage::CommitFirst
                } else {
                    Stage::Handle
                }
                &&& records.len() == 0 ==> after.stage == Stage::Fetch || after.stage
                    == Stage::Heartbeat
            }
            &&& before.stage == Stage::CommitLast && event is Committed ==> after.records
                == before.records.skip(1)
        },
        before.after(event) is None ==> {
            let left = match event {
                ConsumerEvent::Fetched { records } => records,
                _ => before.records.skip(1),
            };
            left.len() > 0 && left[0].offset == u64::MAX
        },
{
}

/// A consumer fetches from where it stands: behind the last record that is done, or where its
/// group has committed, or at the start. What it commits for a record is where it stands once the
/// record is done.
pub proof fn commits_tell_where_to_go_on(before: Consumption, event: ConsumerEvent, step: Step<'_>)
    requires
        before.consistent(),
        before.awaits(event),
        is_step(before, step),
    ensures
        step matches Step::Commit { partition, offset } ==> {
            &&& partition == before.partitions[before.position as int]
            &&& offset == before.records[0].offset + 1
            &&& event is Committed && before.delivery == DeliveryMode::AtLeastOnce
                && before.after(event) is Some ==> before.after(event)->0.offsets.dom().contains(
                partition,
            ) && before.after(event)->0.offsets[partition] == offset
        },
        step matches Step::Fetch { partition, offset } ==> {
            &&& partition == before.partitions[before.position as int]
            &&& before.offsets.dom().contains(partition) ==> offset == before.offsets[partition]
            &&& !before.offsets.dom().contains(partition) ==> offset == 0
        },
        step matches Step::Handle { partition, record } ==> partition
            == before.partitions[before.position as int] && record@ == before.records[0],
        before.stage == Stage::Handle <==> step is Handle,
        before.stage == Stage::Fetch <==> step is Fetch,
        before.stage == Stage::Heartbeat <==> step is CheckHeartbeat,
        before.stage == Stage::Rejoin <==> step is Rejoin,
{
}

/// A consumer starts where its group has committed: at the committed offset of each partition, or
/// at its start where the group has none.
pub proof fn consumer_resumes(partitions: Seq<u32>, committed: Seq<Option<u64>>, place: int)
    requires
        partitions.len() == committed.len(),
        partitions.no_duplicates(),
        0 <= place < partitions.len(),
    ensures
        committed_offsets(partitions, committed).dom().contains(partitions[place]),
        committed[place] matches Some(offset) ==> committed_offsets(
            partitions,
            committed,
        )[partitions[place]] == offset,
        committed[place] is None ==> committed_offsets(partitions, committed)[partitions[place]]
            == 0,
    decreases partitions.len(),
{
    if place < partitions.len() - 1 {
        let fewer = partitions.drop_last();
        assert(fewer.no_duplicates());
        assert(fewer[place] == partitions[place]);
        assert(partitions[place] != partitions.last());
        consumer_resumes(fewer, committed.drop_last(), place);
    }
}

/// What a handler says is kept from its start, all of it where it fits.
pub proof fn handler_output_keeps_its_start(output: Seq<u8>, place: int)
    ensures
        output.len() <= retry::MAX_ERROR_BYTES ==> kept_output(output) == output,
        output.len() > retry::MAX_ERROR_BYTES ==> kept_output(output).len()
            == retry::MAX_ERROR_BYTES,
        0 <= place < kept_output(output).len() ==> kept_output(output)[place] == output[place],
{
}

/// A handler that fails is blamed on what it said, without the white space around it, and on its
/// status where it said nothing.
pub proof fn failures_tell_what_handler_said(
    front: Seq<char>,
    said: Seq<char>,
    back: Seq<char>,
    status: Seq<char>,
)
    requires
        text::is_blank(front),
        text::is_blank(back),
        said.len() > 0 ==> !text::is_space(said[0]) && !text::is_space(said.last()),
    ensures
        said.len() > 0 ==> failure_text(front + said + back, status) == said,
        said.len() == 0 ==> failure_text(front + said + back, status)
            == "handler exited with status "@ + status,
{
    text::space_around_text_is_left_out(front, said, back);
}

/// Whatever comes of a step is awaited: a fetch or a commit may be refused, and each step may
/// succeed.
pub proof fn steps_await_their_outcomes(consumer: Consumption, step: Step<'_>, event: ConsumerEvent)
    requires
        is_step(consumer, step),
    ensures
        event is HeartbeatChecked ==> (consumer.awaits(event) <==> step is CheckHeartbeat),
        event is Waited ==> (consumer.awaits(event) <==> step is Wait),
        event is Fetched ==> (consumer.awaits(event) <==> step is Fetch),
        event is Refused ==> (consumer.awaits(event) <==> step is Fetch || step is Commit),
        event is Committed ==> (consumer.awaits(event) <==> step is Commit),
        event is Handled ==> (consumer.awaits(event) <==> step is Handle),
{
}

} // verus!
