//! Replication: which followers a record goes to, and which records a follower is sent until it
//! has caught up.

use bytes::Bytes;
use vstd::prelude::*;

use crate::broker::ReplicateRecord;
use crate::cluster;
use crate::cluster::{ClusterMetadata, ClusterNode, Node};
use crate::config;
use crate::config::Config;
use crate::jobs::StorageCommand;
use crate::leadership::PartitionLeadership;
use crate::messages::{AckMode, ConnectionError, ProducerIdentity};
use crate::observability;
use crate::observability::RuntimeMetrics;
use crate::record;
use crate::record::{Entry, FetchedRecord};

verus! {

/// Whether a producer is answered only once the followers have its message.
pub fn waits_for_followers(ack_mode: AckMode) -> (waits: bool)
    ensures
        waits == (ack_mode == AckMode::Durable),
{
    ack_mode == AckMode::Durable
}

/// The nodes but one, in order.
pub open spec fn others(nodes: Seq<Node>, id: u32) -> Seq<Node>
    decreases nodes.len(),
{
    if nodes.len() == 0 {
        Seq::empty()
    } else {
        let before = others(nodes.drop_last(), id);
        if nodes.last().id == id {
            before
        } else {
            before.push(nodes.last())
        }
    }
}

/// The brokers that follow a broker in a partition: the others that have a replica.
pub open spec fn following(
    cluster: ClusterMetadata,
    partition: u32,
    factor: usize,
) -> Seq<Node> {
    others(
        cluster::replica_set(cluster::node_views(cluster.nodes@), partition, factor),
        cluster.responding_broker_id,
    )
}

/// The brokers that follow this one in a partition.
pub fn followers(cluster: &ClusterMetadata, partition: u32, factor: usize) -> (found: Vec<
    ClusterNode,
>)
    ensures
        cluster::node_views(found@) == following(*cluster, partition, factor),
{
    let ghost nodes = cluster::node_views(cluster.nodes@);
    let id: u32 = cluster.responding_broker_id;
    let mut found: Vec<ClusterNode> = Vec::new();
    assert(cluster::node_views(found@) =~= others(Seq::empty(), id));
    for i in 0..cluster.nodes.len()
        invariant
            nodes == cluster::node_views(cluster.nodes@),
            cluster::node_views(found@) == others(
                cluster::replicas_among(nodes, partition, factor, i as int),
                id,
            ),
    {
        let ghost before = found@;
        if cluster::holds_replica(i, cluster.nodes.len(), partition, factor) {
            proof {
                let fewer = cluster::replicas_among(nodes, partition, factor, i as int);
                let more = cluster::replicas_among(nodes, partition, factor, i + 1);
                assert(nodes[i as int] == cluster.nodes@[i as int]@);
                assert(more.drop_last() =~= fewer);
                assert(more.last() == cluster.nodes@[i as int]@);
            }
            if cluster.nodes[i].id != id {
                found.push(cluster.nodes[i].clone());
                assert(cluster::node_views(found@) =~= cluster::node_views(before).push(
                    cluster.nodes@[i as int]@,
                ));
            }
        }
    }
    found
}

/// Where a follower takes records.
pub fn replication_address(follower: &ClusterNode) -> (address: String)
    ensures
        address@ == config::address_text(follower.host@, follower.replication_port),
{
    config::socket_address(follower.host.as_str(), follower.replication_port)
}

/// Whether `replica` is what a leader sends of a record to a follower.
pub open spec fn carries(
    replica: ReplicateRecord,
    topic: Seq<char>,
    leadership: PartitionLeadership,
    entry: Entry,
    ack_mode: AckMode,
    producer: Option<ProducerIdentity>,
) -> bool {
    &&& replica.producer == producer
    &&& replica.topic@ == topic
    &&& replica.partition == leadership.partition
    &&& replica@ == entry
    &&& replica.durable == (ack_mode == AckMode::Durable)
    &&& replica.leader_epoch == leadership.leader_epoch
    &&& replica.high_watermark == leadership.high_watermark
}

/// A record as it is sent to a follower.
pub fn replica_of(
    topic: &str,
    leadership: &PartitionLeadership,
    record: &FetchedRecord,
    ack_mode: AckMode,
    producer: Option<ProducerIdentity>,
) -> (replica: ReplicateRecord)
    ensures
        carries(replica, topic@, *leadership, record@, ack_mode, producer),
{
    let key: Option<Bytes> = record::clone_key(&record.key);
    ReplicateRecord {
        topic: topic.to_owned(),
        partition: leadership.partition,
        offset: record.offset,
        timestamp_ms: record.timestamp_ms,
        key,
        value: record.value.clone(),
        durable: ack_mode == AckMode::Durable,
        leader_epoch: leadership.leader_epoch,
        high_watermark: leadership.high_watermark,
        producer,
    }
}

/// What a producer is told of the outcome of a replication.
pub open spec fn told_producer(ack_mode: AckMode, outcome: Result<(), ConnectionError>) -> Result<
    (),
    ConnectionError,
> {
    if ack_mode == AckMode::Durable {
        outcome
    } else {
        Ok(())
    }
}

/// What a producer is told of a replication that has ended. A failure is counted once, and told
/// where the producer waits for the followers.
pub fn settle_replication(
    ack_mode: AckMode,
    outcome: Result<(), ConnectionError>,
    metrics: &mut RuntimeMetrics,
) -> (answer: Result<(), ConnectionError>)
    requires
        old(metrics).wf(),
    ensures
        final(metrics).wf(),
        final(metrics)@ == if outcome is Err {
            observability::Metrics {
                replication_failures: observability::wrapped(
                    old(metrics)@.replication_failures,
                    1,
                ),
                ..old(metrics)@
            }
        } else {
            old(metrics)@
        },
        answer == told_producer(ack_mode, outcome),
{
    if outcome.is_err() {
        metrics.replication_failed();
    }
    if waits_for_followers(ack_mode) {
        outcome
    } else {
        Ok(())
    }
}

/// The next offset of a follower, from its answer to a record of `partition`.
pub fn acknowledged_offset(partition: u32, acknowledged: u32, next_offset: u64) -> (next: Result<
    u64,
    ConnectionError,
>)
    ensures
        if acknowledged == partition {
            next matches Ok(found) && found == next_offset
        } else {
            next matches Err(error) && error is InvalidReplicationAck
        },
{
    if acknowledged != partition {
        return Err(ConnectionError::InvalidReplicationAck);
    }
    Ok(next_offset)
}

/// Whether a follower took the record that it was sent.
pub fn took_record(offset: u64, next_offset: u64) -> (took: bool)
    ensures
        took == (next_offset == after(offset)),
{
    next_offset == offset.saturating_add(1)
}

/// The offset after another one; the last one stays.
pub open spec fn after(offset: u64) -> u64 {
    if offset == u64::MAX {
        offset
    } else {
        (offset + 1) as u64
    }
}

/// How far a record has been replicated, as a value.
#[verifier::ext_equal]
pub struct Progress {
    pub followers: Seq<Node>,
    /// The follower that records are sent to.
    pub position: nat,
    /// The offset of the record to replicate.
    pub offset: u64,
    /// The earlier record that the follower asked for.
    pub missing: Option<u64>,
    /// How many followers have caught up.
    pub confirmed: nat,
}

impl Progress {
    /// The offset of the record that is sent next.
    pub open spec fn wanted(self) -> u64 {
        match self.missing {
            Some(offset) => offset,
            None => self.offset,
        }
    }

    /// Whether a follower claims more records than it can have.
    pub open spec fn is_invalid(self, next_offset: u64) -> bool {
        self.missing is None && next_offset > after(self.offset)
    }

    /// The progress once the follower has answered with its next offset: it is sent the record
    /// at that offset, or has caught up.
    pub open spec fn answered(self, next_offset: u64) -> Progress {
        if next_offset <= self.offset {
            Progress { missing: Some(next_offset), ..self }
        } else {
            self.caught_up()
        }
    }

    /// The progress once the follower has caught up.
    pub open spec fn caught_up(self) -> Progress {
        Progress {
            position: self.position + 1,
            missing: None,
            confirmed: self.confirmed + 1,
            ..self
        }
    }

    /// The progress once the follower was given up.
    pub open spec fn given_up(self) -> Progress {
        Progress { position: self.position + 1, missing: None, ..self }
    }

    /// Whether the followers that have caught up, and the leader, are as many brokers as have to
    /// hold a record.
    pub open spec fn commits(self, needed: usize) -> bool {
        self.confirmed + 1 >= needed
    }
}

/// Whether `command` is what the storage is told of a record that was replicated so far.
pub open spec fn is_commit(
    progress: Progress,
    topic: Seq<char>,
    partition: u32,
    needed: usize,
    command: Option<StorageCommand>,
) -> bool {
    match command {
        Some(command) => {
            &&& progress.commits(needed)
            &&& command matches StorageCommand::Commit { topic: of, partition: number, offset }
            &&& of@ == topic
            &&& number == partition
            &&& offset == after(progress.offset)
        },
        None => !progress.commits(needed),
    }
}

/// How far a record has been replicated.
pub struct Replication {
    followers: Vec<ClusterNode>,
    position: usize,
    offset: u64,
    missing: Option<u64>,
    confirmed: usize,
}

impl View for Replication {
    type V = Progress;

    closed spec fn view(&self) -> Progress {
        Progress {
            followers: cluster::node_views(self.followers@),
            position: self.position as nat,
            offset: self.offset,
            missing: self.missing,
            confirmed: self.confirmed as nat,
        }
    }
}

impl Replication {
    /// The position is that of a follower, or behind the last, and no more than the followers
    /// before it have caught up.
    pub open spec fn wf(self) -> bool {
        self@.confirmed <= self@.position <= self@.followers.len()
    }

    /// Starts to replicate the record at `offset` of a partition to all followers.
    pub fn start(cluster: &ClusterMetadata, partition: u32, factor: usize, offset: u64) -> (
        replication: Self)
        ensures
            replication.wf(),
            replication@ == (Progress {
                followers: following(*cluster, partition, factor),
                position: 0,
                offset,
                missing: None,
                confirmed: 0,
            }),
    {
        Replication {
            followers: followers(cluster, partition, factor),
            position: 0,
            offset,
            missing: None,
            confirmed: 0,
        }
    }

    /// Which follower is sent which record next, until all have caught up.
    pub fn next(&self) -> (send: Option<(&ClusterNode, u64)>)
        requires
            self.wf(),
        ensures
            match send {
                Some((follower, offset)) => {
                    &&& self@.position < self@.followers.len()
                    &&& follower@ == self@.followers[self@.position as int]
                    &&& offset == self@.wanted()
                },
                None => self@.position == self@.followers.len(),
            },
    {
        if self.position < self.followers.len() {
            let offset: u64 = match self.missing {
                Some(offset) => offset,
                None => self.offset,
            };
            Some((&self.followers[self.position], offset))
        } else {
            None
        }
    }

    /// Takes the answer of the follower: the offset that it needs next.
    pub fn answered(&mut self, next_offset: u64) -> (done: Result<(), ConnectionError>)
        requires
            old(self).wf(),
            old(self)@.position < old(self)@.followers.len(),
        ensures
            final(self).wf(),
            if old(self)@.is_invalid(next_offset) {
                &&& done matches Err(error) && error is InvalidReplicationAck
                &&& final(self)@ == old(self)@
            } else {
                &&& done is Ok
                &&& final(self)@ == old(self)@.answered(next_offset)
            },
    {
        if self.missing.is_none() && next_offset > self.offset.saturating_add(1) {
            return Err(ConnectionError::InvalidReplicationAck);
        }
        if next_offset <= self.offset {
            self.missing = Some(next_offset);
        } else {
            let total: usize = self.followers.len();
            assert(self.position < total);
            self.position = self.position + 1;
            self.missing = None;
            self.confirmed = self.confirmed + 1;
        }
        Ok(())
    }

    /// Gives the follower up, which did not answer or gave an answer that was refused: the next one
    /// has its turn.
    pub fn unreachable(&mut self)
        requires
            old(self).wf(),
            old(self)@.position < old(self)@.followers.len(),
        ensures
            final(self).wf(),
            final(self)@ == (Progress {
                position: old(self)@.position + 1,
                missing: None,
                ..old(self)@
            }),
    {
        let total: usize = self.followers.len();
        assert(self.position < total);
        self.position = self.position + 1;
        self.missing = None;
    }

    /// What a replication that was brought to its end comes to: it has failed where too few brokers
    /// hold the record. `failure` is what a follower was given up for.
    pub fn outcome(&self, needed: usize, failure: Option<ConnectionError>) -> (outcome: Result<
        (),
        ConnectionError,
    >)
        requires
            self.wf(),
        ensures
            if self@.commits(needed) {
                outcome is Ok
            } else {
                match failure {
                    Some(error) => outcome matches Err(found) && found == error,
                    None => outcome matches Err(found) && found is ReplicationClosed,
                }
            },
    {
        if needed <= 1 || self.confirmed >= needed - 1 {
            return Ok(());
        }
        match failure {
            Some(error) => Err(error),
            None => Err(ConnectionError::ReplicationClosed),
        }
    }

    /// What the storage is told once enough brokers hold the record: the records up to it are
    /// committed.
    pub fn commit(&self, topic: &str, partition: u32, needed: usize) -> (command: Option<
        StorageCommand,
    >)
        requires
            self.wf(),
        ensures
            command is Some <==> self@.confirmed + 1 >= needed,
            is_commit(self@, topic@, partition, needed, command),
    {
        if needed > 1 && self.confirmed < needed - 1 {
            return None;
        }
        Some(
            StorageCommand::Commit {
                topic: topic.to_owned(),
                partition,
                offset: self.offset.saturating_add(1),
            },
        )
    }
}

/// What a follower holds that was sent a record of the leader: it takes the record that comes
/// next and no other.
pub open spec fn held_after(leader: Seq<Entry>, held: Seq<Entry>, offset: u64) -> Seq<Entry> {
    if offset == held.len() {
        held.push(leader[offset as int])
    } else {
        held
    }
}

/// The progress, and what the follower holds that was sent records first, after some of its
/// answers.
pub open spec fn exchanged(
    start: Progress,
    leader: Seq<Entry>,
    held: Seq<Entry>,
    answers: nat,
) -> (Progress, Seq<Entry>)
    decreases answers,
{
    if answers == 0 {
        (start, held)
    } else {
        let (progress, holds) = exchanged(start, leader, held, (answers - 1) as nat);
        if progress.position != start.position {
            (progress, holds)
        } else {
            let reached = held_after(leader, holds, progress.wanted());
            (progress.answered(reached.len() as u64), reached)
        }
    }
}

/// Where the exchange with a follower that lacks records stands.
proof fn lemma_exchanged(start: Progress, leader: Seq<Entry>, lacking: nat, answers: nat)
    requires
        start.missing is None,
        lacking < start.offset < leader.len(),
        start.offset < u64::MAX,
        0 < answers <= start.offset - lacking + 1,
    ensures
        ({
            let holds = lacking + answers - 1;
            exchanged(start, leader, leader.take(lacking as int), answers) == (
                Progress { missing: Some(holds as u64), ..start },
                leader.take(holds),
            )
        }),
    decreases answers,
{
    let held = leader.take(lacking as int);
    let before = exchanged(start, leader, held, (answers - 1) as nat);
    if answers > 1 {
        lemma_exchanged(start, leader, lacking, (answers - 1) as nat);
        let holds = lacking + answers - 2;
        assert(leader.take(holds).push(leader[holds]) =~= leader.take(holds + 1));
    }
    assert(before.0.position == start.position);
}

/// A follower catches up without a gap: however many of the leader's records it lacks, it is sent
/// each of them in turn, and ends with the records of the leader up to the one that is
/// replicated.
pub proof fn follower_catches_up(start: Progress, leader: Seq<Entry>, lacking: nat)
    requires
        start.missing is None,
        start.offset < u64::MAX,
        start.offset < leader.len(),
        lacking <= start.offset + 1,
    ensures
        exchanged(
            start,
            leader,
            leader.take(lacking as int),
            (start.offset - lacking + 2) as nat,
        ) == (start.caught_up(), leader.take(start.offset + 1)),
{
    let held = leader.take(lacking as int);
    let answers = (start.offset - lacking + 2) as nat;
    let end = start.offset as int;
    assert(leader.take(end).push(leader[end]) =~= leader.take(end + 1));
    if lacking < start.offset {
        lemma_exchanged(start, leader, lacking, (answers - 1) as nat);
    } else {
        let first = exchanged(start, leader, held, 1);
        assert(exchanged(start, leader, held, 0) == (start, held));
        assert(first.0 =~= start.caught_up());
        assert(first.1 == leader.take(end + 1));
        if lacking == start.offset {
            assert(answers == 2);
        } else {
            assert(answers == 1);
        }
    }
}

/// A new leader ends with followers that hold what it holds, whatever they held above the high
/// watermark: they cut that off, and catch up.
pub proof fn new_leader_removes_divergence(
    start: Progress,
    leader: Seq<Entry>,
    held: Seq<Entry>,
    high_watermark: nat,
)
    requires
        start.missing is None,
        start.offset < u64::MAX,
        start.offset < leader.len(),
        high_watermark <= held.len(),
        high_watermark <= start.offset + 1,
        held.take(high_watermark as int) == leader.take(high_watermark as int),
    ensures
        exchanged(
            start,
            leader,
            held.take(high_watermark as int),
            (start.offset - high_watermark + 2) as nat,
        ) == (start.caught_up(), leader.take(start.offset + 1)),
{
    follower_catches_up(start, leader, high_watermark);
}

/// A follower that takes records in turn never gives an answer that is refused, and never gets
/// past the record that is replicated.
pub proof fn honest_answers_are_valid(progress: Progress, leader: Seq<Entry>, held: Seq<Entry>)
    requires
        progress.offset < u64::MAX,
        held.len() <= progress.offset + 1,
        progress.missing matches Some(offset) ==> offset <= progress.offset,
    ensures
        ({
            let holds = held_after(leader, held, progress.wanted());
            &&& !progress.is_invalid(holds.len() as u64)
            &&& holds.len() <= progress.offset + 1
        }),
{
}

/// Each broker but one is listed among the others, where no id repeats.
proof fn lemma_others_len(nodes: Seq<Node>, id: u32)
    requires
        config::ids_of(nodes).no_duplicates(),
    ensures
        config::ids_of(nodes).contains(id) ==> others(nodes, id).len() + 1 == nodes.len(),
        !config::ids_of(nodes).contains(id) ==> others(nodes, id).len() == nodes.len(),
    decreases nodes.len(),
{
    if nodes.len() > 0 {
        let ids = config::ids_of(nodes);
        let fewer = config::ids_of(nodes.drop_last());
        assert(fewer =~= ids.drop_last());
        assert forall|i: int, j: int|
            0 <= i < fewer.len() && 0 <= j < fewer.len() && i != j implies fewer[i]
            != fewer[j] by {
            assert(ids[i] != ids[j]);
        }
        lemma_others_len(nodes.drop_last(), id);
        let last = nodes.len() - 1;
        assert(ids[last] == nodes.last().id);
        if nodes.last().id == id {
            if fewer.contains(id) {
                let i = choose|i: int| 0 <= i < fewer.len() && fewer[i] == id;
                assert(ids[i] == ids[last]);
            }
            assert(ids.contains(id));
        } else {
            if ids.contains(id) {
                let i = choose|i: int| 0 <= i < ids.len() && ids[i] == id;
                assert(i < last);
                assert(fewer[i] == id);
            }
            if fewer.contains(id) {
                let i = choose|i: int| 0 <= i < fewer.len() && fewer[i] == id;
                assert(ids[i] == id);
            }
        }
    }
}

/// The progress once some followers had their turns: those that hold the record have caught up,
/// and the others were given up.
pub open spec fn after_turns(start: Progress, held: Seq<bool>) -> Progress
    decreases held.len(),
{
    if held.len() == 0 {
        start
    } else {
        let before = after_turns(start, held.drop_last());
        if held.last() {
            before.caught_up()
        } else {
            before.given_up()
        }
    }
}

/// How many followers hold the record.
pub open spec fn holders(held: Seq<bool>) -> nat
    decreases held.len(),
{
    if held.len() == 0 {
        0
    } else {
        holders(held.drop_last()) + if held.last() {
            1nat
        } else {
            0nat
        }
    }
}

pub proof fn lemma_after_turns(start: Progress, held: Seq<bool>)
    ensures
        after_turns(start, held).confirmed == start.confirmed + holders(held),
        after_turns(start, held).position == start.position + held.len(),
        after_turns(start, held).followers == start.followers,
        after_turns(start, held).offset == start.offset,
    decreases held.len(),
{
    if held.len() > 0 {
        lemma_after_turns(start, held.drop_last());
    }
}

/// A quorum commits: once as many brokers hold a record as have to, the leader among them, the
/// record is committed, whatever the other followers do; and it is not committed before.
pub proof fn quorum_commits(start: Progress, held: Seq<bool>, needed: usize)
    requires
        start.confirmed == 0,
    ensures
        after_turns(start, held).commits(needed) <==> holders(held) + 1 >= needed,
{
    lemma_after_turns(start, held);
}

proof fn lemma_replica_ids(nodes: Seq<Node>, partition: u32, factor: usize, count: int)
    requires
        0 <= count <= nodes.len(),
        config::ids_of(nodes).no_duplicates(),
    ensures
        ({
            let ids = config::ids_of(cluster::replicas_among(nodes, partition, factor, count));
            &&& ids.no_duplicates()
            &&& forall|i: int|
                0 <= i < ids.len() ==> config::ids_of(nodes).take(count).contains(
                    #[trigger] ids[i],
                )
        }),
    decreases count,
{
    let all = config::ids_of(nodes);
    let after = config::ids_of(cluster::replicas_among(nodes, partition, factor, count));
    if count > 0 {
        lemma_replica_ids(nodes, partition, factor, count - 1);
        let before = config::ids_of(
            cluster::replicas_among(nodes, partition, factor, count - 1),
        );
        let last = nodes[count - 1].id;
        assert(all.take(count)[count - 1] == last);
        assert forall|i: int| 0 <= i < before.len() implies all.take(count).contains(
            #[trigger] before[i],
        ) && before[i] != last by {
            assert(all.take(count - 1).contains(before[i]));
            let fewer = all.take(count - 1);
            let j = choose|j: int| 0 <= j < fewer.len() && fewer[j] == before[i];
            assert(all.take(count)[j] == before[i]);
            assert(all[j] != all[count - 1]);
        }
        if cluster::has_replica(count - 1, nodes.len(), partition, factor) {
            assert(after =~= before.push(last));
            assert forall|i: int| 0 <= i < after.len() implies all.take(count).contains(
                #[trigger] after[i],
            ) by {
                if i < before.len() {
                    assert(after[i] == before[i]);
                }
            }
            assert forall|i: int, j: int|
                0 <= i < after.len() && 0 <= j < after.len() && i != j implies after[i]
                != after[j] by {
                if i < before.len() {
                    assert(after[i] == before[i]);
                }
                if j < before.len() {
                    assert(after[j] == before[j]);
                }
            }
        }
    }
}

/// A leader whose followers all hold a record has a quorum: they and the leader are as many as the
/// replication factor says, and at least as many as have to be in sync.
pub proof fn all_followers_are_a_quorum(
    config: Config,
    addressable: Seq<bool>,
    cluster: ClusterMetadata,
    partition: u32,
    progress: Progress,
)
    requires
        config.cluster_refusal(cluster::node_views(cluster.nodes@), addressable) is None,
        progress.followers == following(cluster, partition, config.cluster.replication_factor),
        config::ids_of(
            cluster::replica_set(
                cluster::node_views(cluster.nodes@),
                partition,
                config.cluster.replication_factor,
            ),
        ).contains(cluster.responding_broker_id),
        progress.confirmed == progress.followers.len(),
    ensures
        progress.confirmed + 1 == config.cluster.replication_factor,
        progress.commits(config.cluster.min_in_sync_replicas),
{
    let nodes = cluster::node_views(cluster.nodes@);
    let factor = config.cluster.replication_factor;
    lemma_replica_ids(nodes, partition, factor, nodes.len() as int);
    cluster::partition_has_factor_replicas(nodes, partition, factor);
    lemma_others_len(
        cluster::replica_set(nodes, partition, factor),
        cluster.responding_broker_id,
    );
}

/// The followers that are counted are different brokers, and none of them is the leader.
pub proof fn followers_are_distinct(nodes: Seq<Node>, id: u32)
    requires
        config::ids_of(nodes).no_duplicates(),
    ensures
        config::ids_of(others(nodes, id)).no_duplicates(),
        !config::ids_of(others(nodes, id)).contains(id),
        forall|other: u32| #[trigger]
            config::ids_of(others(nodes, id)).contains(other) ==> config::ids_of(nodes).contains(
                other,
            ),
    decreases nodes.len(),
{
    if nodes.len() > 0 {
        let ids = config::ids_of(nodes);
        let fewer = config::ids_of(nodes.drop_last());
        assert(fewer =~= ids.drop_last());
        assert forall|i: int, j: int|
            0 <= i < fewer.len() && 0 <= j < fewer.len() && i != j implies fewer[i]
            != fewer[j] by {
            assert(ids[i] != ids[j]);
        }
        followers_are_distinct(nodes.drop_last(), id);
        let before = config::ids_of(others(nodes.drop_last(), id));
        let after = config::ids_of(others(nodes, id));
        let last = nodes.last().id;
        assert(ids[nodes.len() - 1] == last);
        assert forall|other: u32| fewer.contains(other) implies ids.contains(other) && other
            != last by {
            let i = choose|i: int| 0 <= i < fewer.len() && fewer[i] == other;
            assert(ids[i] == other);
        }
        if last == id {
            assert(after == before);
        } else {
            assert(after =~= before.push(last));
            assert(!before.contains(last)) by {
                if before.contains(last) {
                    assert(fewer.contains(last));
                }
            }
            assert forall|other: u32| #[trigger] after.contains(other) implies ids.contains(
                other,
            ) && other != id by {
                let i = choose|i: int| 0 <= i < after.len() && after[i] == other;
                if i < before.len() {
                    assert(before[i] == other);
                    assert(before.contains(other));
                }
            }
            assert forall|i: int, j: int|
                0 <= i < after.len() && 0 <= j < after.len() && i != j implies after[i]
                != after[j] by {
                if i == before.len() {
                    assert(before.contains(before[j]));
                } else if j == before.len() {
                    assert(before.contains(before[i]));
                }
            }
        }
    }
}

/// A record is committed once the leader and as many followers as make it enough brokers hold it,
/// and not before. What is committed is its partition up to and with the record.
pub proof fn enough_holders_commit_record(
    progress: Progress,
    topic: Seq<char>,
    partition: u32,
    needed: usize,
    command: Option<StorageCommand>,
)
    requires
        is_commit(progress, topic, partition, needed, command),
    ensures
        command is Some <==> 1 + progress.confirmed >= needed,
        command matches Some(told) ==> (told matches StorageCommand::Commit {
            topic: name,
            partition: number,
            offset,
        } && name@ == topic && number == partition && (progress.offset < u64::MAX ==> offset
            == progress.offset + 1)),
{
}

/// A follower that needs a record of the leader's or an earlier one is sent that record next. One
/// that needs a later record holds this one: it counts, and the next follower has its turn. One
/// that claims more than the leader has is not believed.
pub proof fn followers_get_what_they_need(progress: Progress, next_offset: u64)
    ensures
        ({
            let answered = progress.answered(next_offset);
            &&& next_offset <= progress.offset ==> {
                &&& answered.wanted() == next_offset
                &&& answered.position == progress.position
                &&& answered.confirmed == progress.confirmed
            }
            &&& next_offset > progress.offset ==> {
                &&& answered.position == progress.position + 1
                &&& answered.confirmed == progress.confirmed + 1
                &&& answered.wanted() == progress.offset
            }
            &&& answered.offset == progress.offset
            &&& answered.followers == progress.followers
            &&& progress.missing is None && progress.offset < u64::MAX ==> (progress.is_invalid(
                next_offset,
            ) <==> next_offset > progress.offset + 1)
            &&& progress.missing is None ==> progress.wanted() == progress.offset
        }),
{
}

/// A follower that is given up does not count, and the others have their turn.
pub proof fn given_up_followers_do_not_count(progress: Progress)
    ensures
        progress.given_up().confirmed == progress.confirmed,
        progress.given_up().position == progress.position + 1,
        progress.given_up().wanted() == progress.offset,
        progress.given_up().followers == progress.followers,
{
}

/// All replicas of a partition follow the broker but itself.
pub proof fn other_replicas_follow(
    cluster: ClusterMetadata,
    partition: u32,
    factor: usize,
    node: Node,
)
    ensures
        following(cluster, partition, factor).contains(node) <==> cluster::replica_set(
            cluster::node_views(cluster.nodes@),
            partition,
            factor,
        ).contains(node) && node.id != cluster.responding_broker_id,
{
    lemma_others_contain(
        cluster::replica_set(cluster::node_views(cluster.nodes@), partition, factor),
        cluster.responding_broker_id,
        node,
    );
}

proof fn lemma_others_contain(nodes: Seq<Node>, id: u32, node: Node)
    ensures
        others(nodes, id).contains(node) <==> nodes.contains(node) && node.id != id,
    decreases nodes.len(),
{
    if nodes.len() > 0 {
        let fewer = nodes.drop_last();
        let before = others(fewer, id);
        let found = others(nodes, id);
        lemma_others_contain(fewer, id, node);
        if fewer.contains(node) {
            let i = choose|i: int| 0 <= i < fewer.len() && fewer[i] == node;
            assert(nodes[i] == node);
        }
        if nodes.contains(node) && node != nodes.last() {
            let i = choose|i: int| 0 <= i < nodes.len() && nodes[i] == node;
            assert(fewer[i] == node);
        }
        if nodes.last().id != id {
            assert(found == before.push(nodes.last()));
            assert(found[before.len() as int] == nodes.last());
            if before.contains(node) {
                let i = choose|i: int| 0 <= i < before.len() && before[i] == node;
                assert(found[i] == node);
            }
            if found.contains(node) && node != nodes.last() {
                let i = choose|i: int| 0 <= i < found.len() && found[i] == node;
                assert(before[i] == node);
            }
        }
        assert(nodes[nodes.len() - 1] == nodes.last());
    }
}

/// A follower is sent the record as it is, under the epoch and with the high watermark of its
/// leader, and is to force it to disk exactly where it is to be durable.
pub proof fn replicas_are_true_copies(
    replica: ReplicateRecord,
    topic: Seq<char>,
    leadership: PartitionLeadership,
    entry: Entry,
    ack_mode: AckMode,
    producer: Option<ProducerIdentity>,
)
    requires
        carries(replica, topic, leadership, entry, ack_mode, producer),
    ensures
        replica.offset == entry.offset,
        replica.timestamp_ms == entry.timestamp_ms,
        replica@.key == entry.key,
        replica@.value == entry.value,
        replica.topic@ == topic,
        replica.partition == leadership.partition,
        replica.leader_epoch == leadership.leader_epoch,
        replica.high_watermark == leadership.high_watermark,
        replica.durable <==> ack_mode == AckMode::Durable,
        replica.producer == producer,
{
}

/// A producer learns of a failed replication exactly where its message is to be durable.
pub proof fn durable_producers_learn_of_failures(
    ack_mode: AckMode,
    outcome: Result<(), ConnectionError>,
)
    ensures
        told_producer(ack_mode, outcome) is Err <==> ack_mode == AckMode::Durable && outcome is Err,
        told_producer(ack_mode, outcome) is Err ==> told_producer(ack_mode, outcome) == outcome,
{
}

} // verus!
