//! Which replica may lead a partition in place of its leader, and when one has to.

use vstd::prelude::*;

use crate::broker;
use crate::broker::{ReplicateRecord, StorageState};
use crate::cluster;
use crate::cluster::ClusterMetadata;
use crate::leadership::{LeadershipRegistry, PartitionLeadership, Registry};
use crate::record::StorageError;
use crate::text;

verus! {

/// What a broker has told of its replica of a partition.
#[derive(Debug, Clone, Copy, PartialEq, Eq, Structural)]
pub struct ReplicaStatus {
    pub broker_id: u32,
    /// The offset behind the last record that the broker holds.
    pub next_offset: u64,
}

/// Why a broker is not made the leader of a partition.
#[derive(Debug, Clone, Copy, PartialEq, Eq, Structural)]
pub enum PromotionError {
    NotController(u32),
    UnknownBroker(u32),
    NotReplica(u32),
    Unreachable(u32),
    BehindHighWatermark { broker_id: u32, next_offset: u64, high_watermark: u64 },
    NotEnoughReplicas { reachable: usize, needed: usize },
    EpochExhausted,
}

impl PromotionError {
    /// What the error says.
    pub open spec fn text(self) -> Seq<char> {
        match self {
            PromotionError::NotController(broker) => "broker "@ + text::decimal(broker as nat)
                + " is not the controller"@,
            PromotionError::UnknownBroker(broker) => "broker "@ + text::decimal(broker as nat)
                + " is not in cluster membership"@,
            PromotionError::NotReplica(broker) => "broker "@ + text::decimal(broker as nat)
                + " has no replica of the partition"@,
            PromotionError::Unreachable(broker) => "broker "@ + text::decimal(broker as nat)
                + " cannot be reached"@,
            PromotionError::BehindHighWatermark { broker_id, next_offset, high_watermark } => {
                "broker "@ + text::decimal(broker_id as nat) + " holds records below "@
                    + text::decimal(next_offset as nat) + " but records below "@ + text::decimal(
                    high_watermark as nat,
                ) + " may be committed"@
            },
            PromotionError::NotEnoughReplicas { reachable, needed } => "only "@ + text::decimal(
                reachable as nat,
            ) + " of "@ + text::decimal(needed as nat) + " in-sync replicas can be reached"@,
            PromotionError::EpochExhausted => "the partition has no further leader epoch"@,
        }
    }

    /// What the error says.
    pub fn message(&self) -> (message: String)
        ensures
            message@ == self.text(),
    {
        let mut out = "broker ".to_owned();
        match self {
            PromotionError::NotController(broker) => {
                text::push_decimal(&mut out, *broker as u64);
                out.append(" is not the controller");
            },
            PromotionError::UnknownBroker(broker) => {
                text::push_decimal(&mut out, *broker as u64);
                out.append(" is not in cluster membership");
            },
            PromotionError::NotReplica(broker) => {
                text::push_decimal(&mut out, *broker as u64);
                out.append(" has no replica of the partition");
            },
            PromotionError::Unreachable(broker) => {
                text::push_decimal(&mut out, *broker as u64);
                out.append(" cannot be reached");
            },
            PromotionError::BehindHighWatermark { broker_id, next_offset, high_watermark } => {
                text::push_decimal(&mut out, *broker_id as u64);
                out.append(" holds records below ");
                text::push_decimal(&mut out, *next_offset);
                out.append(" but records below ");
                text::push_decimal(&mut out, *high_watermark);
                out.append(" may be committed");
            },
            PromotionError::NotEnoughReplicas { reachable, needed } => {
                out = "only ".to_owned();
                text::push_decimal(&mut out, *reachable as u64);
                out.append(" of ");
                text::push_decimal(&mut out, *needed as u64);
                out.append(" in-sync replicas can be reached");
            },
            PromotionError::EpochExhausted => {
                out = "the partition has no further leader epoch".to_owned();
            },
        }
        out
    }
}

/// The next offset that a broker has told first.
pub open spec fn told(statuses: Seq<ReplicaStatus>, broker: u32) -> Option<u64>
    decreases statuses.len(),
{
    if statuses.len() == 0 {
        None
    } else if statuses[0].broker_id == broker {
        Some(statuses[0].next_offset)
    } else {
        told(statuses.skip(1), broker)
    }
}

fn find_told(statuses: &Vec<ReplicaStatus>, broker: u32) -> (found: Option<u64>)
    ensures
        found == told(statuses@, broker),
{
    let mut i: usize = 0;
    assert(statuses@.skip(0) =~= statuses@);
    while i < statuses.len()
        invariant
            i <= statuses@.len(),
            told(statuses@, broker) == told(statuses@.skip(i as int), broker),
        decreases statuses@.len() - i,
    {
        if statuses[i].broker_id == broker {
            return Some(statuses[i].next_offset);
        }
        assert(statuses@.skip(i as int).skip(1) =~= statuses@.skip(i + 1));
        i = i + 1;
    }
    None
}

/// How many of the brokers have told anything.
pub open spec fn reachable(brokers: Seq<u32>, statuses: Seq<ReplicaStatus>) -> nat
    decreases brokers.len(),
{
    if brokers.len() == 0 {
        0
    } else {
        reachable(brokers.drop_last(), statuses) + if told(statuses, brokers.last()) is Some {
            1nat
        } else {
            0nat
        }
    }
}

fn count_reachable(brokers: &Vec<u32>, statuses: &Vec<ReplicaStatus>) -> (count: usize)
    ensures
        count == reachable(brokers@, statuses@),
{
    let mut count: usize = 0;
    for i in 0..brokers.len()
        invariant
            count <= i,
            count == reachable(brokers@.take(i as int), statuses@),
    {
        assert(brokers@.take(i + 1).drop_last() =~= brokers@.take(i as int));
        if find_told(statuses, brokers[i]).is_some() {
            count = count + 1;
        }
    }
    assert(brokers@.take(brokers@.len() as int) =~= brokers@);
    count
}

/// How many of the brokers hold the records below an offset, as they have told.
pub open spec fn holders(brokers: Seq<u32>, statuses: Seq<ReplicaStatus>, end: u64) -> nat
    decreases brokers.len(),
{
    if brokers.len() == 0 {
        0
    } else {
        let last = told(statuses, brokers.last());
        holders(brokers.drop_last(), statuses, end) + if last is Some && last->0 >= end {
            1nat
        } else {
            0nat
        }
    }
}

fn count_holders(brokers: &Vec<u32>, statuses: &Vec<ReplicaStatus>, end: u64) -> (count: usize)
    ensures
        count == holders(brokers@, statuses@, end),
{
    let mut count: usize = 0;
    for i in 0..brokers.len()
        invariant
            count <= i,
            count == holders(brokers@.take(i as int), statuses@, end),
    {
        assert(brokers@.take(i + 1).drop_last() =~= brokers@.take(i as int));
        if let Some(next_offset) = find_told(statuses, brokers[i]) {
            if next_offset >= end {
                count = count + 1;
            }
        }
    }
    assert(brokers@.take(brokers@.len() as int) =~= brokers@);
    count
}

proof fn lemma_reachable_bounded(brokers: Seq<u32>, statuses: Seq<ReplicaStatus>)
    ensures
        reachable(brokers, statuses) <= brokers.len(),
    decreases brokers.len(),
{
    if brokers.len() > 0 {
        lemma_reachable_bounded(brokers.drop_last(), statuses);
    }
}

/// What is asked of a promotion.
pub struct Candidacy {
    /// The leadership that the partition has.
    pub current: PartitionLeadership,
    /// The brokers of the cluster.
    pub members: Seq<u32>,
    /// Those of them that have a replica of the partition.
    pub brokers: Seq<u32>,
    pub statuses: Seq<ReplicaStatus>,
    /// The offset below which all records are known to be committed.
    pub committed: u64,
    /// How many replicas have to be in sync.
    pub needed: usize,
}

impl Candidacy {
    /// The high watermark of the partition, as far as anybody knows.
    pub open spec fn high_watermark(self) -> u64 {
        if self.committed > self.current.high_watermark {
            self.committed
        } else {
            self.current.high_watermark
        }
    }

    /// How many of the brokers do not answer.
    pub open spec fn lost(self) -> int {
        self.brokers.len() - reachable(self.brokers, self.statuses)
    }

    /// Whether so many brokers may hold the records below an offset that these are committed: those
    /// that have told so, and all that do not answer. Where those that do not answer could be a
    /// quorum of their own, what the others have told shows nothing.
    pub open spec fn may_be_committed(self, end: u64) -> bool {
        &&& self.lost() < self.needed
        &&& holders(self.brokers, self.statuses, end) + self.lost() >= self.needed
    }

    /// The largest offset that one of some brokers has told below which records may be committed.
    pub open spec fn shown_end(self, among: Seq<u32>) -> u64
        decreases among.len(),
    {
        if among.len() == 0 {
            0
        } else {
            let before = self.shown_end(among.drop_last());
            match told(self.statuses, among.last()) {
                Some(end) => if end > before && self.may_be_committed(end) {
                    end
                } else {
                    before
                },
                None => before,
            }
        }
    }

    /// The offset below which records are or may be committed: a leader that is lost may have
    /// committed records of which nobody has heard.
    pub open spec fn committed_end(self) -> u64 {
        if self.shown_end(self.brokers) > self.high_watermark() {
            self.shown_end(self.brokers)
        } else {
            self.high_watermark()
        }
    }

    /// Why a broker may not lead the partition: it has no replica, does not answer, lacks
    /// records that may be committed, or would lead too few replicas.
    pub open spec fn refusal(self, broker: u32) -> Option<PromotionError> {
        if !self.members.contains(broker) {
            Some(PromotionError::UnknownBroker(broker))
        } else if !self.brokers.contains(broker) {
            Some(PromotionError::NotReplica(broker))
        } else {
            match told(self.statuses, broker) {
                None => Some(PromotionError::Unreachable(broker)),
                Some(next_offset) => if next_offset < self.committed_end() {
                    Some(
                        PromotionError::BehindHighWatermark {
                            broker_id: broker,
                            next_offset,
                            high_watermark: self.committed_end(),
                        },
                    )
                } else if reachable(self.brokers, self.statuses) < self.needed {
                    Some(
                        PromotionError::NotEnoughReplicas {
                            reachable: reachable(self.brokers, self.statuses) as usize,
                            needed: self.needed,
                        },
                    )
                } else if self.current.leader_epoch == u64::MAX {
                    Some(PromotionError::EpochExhausted)
                } else {
                    None
                },
            }
        }
    }

    /// The leadership of a broker that is promoted: it begins a new epoch.
    pub open spec fn promoted(self, broker: u32) -> PartitionLeadership {
        PartitionLeadership {
            partition: self.current.partition,
            leader_id: broker,
            leader_epoch: (self.current.leader_epoch + 1) as u64,
            high_watermark: self.high_watermark(),
        }
    }

    /// What a request to promote a broker comes to. Only the controller promotes.
    pub open spec fn requested(self, cluster: ClusterMetadata, broker: u32) -> Result<
        PartitionLeadership,
        PromotionError,
    > {
        if cluster.nodes@[0].id != cluster.responding_broker_id {
            Err(PromotionError::NotController(cluster.responding_broker_id))
        } else {
            match self.refusal(broker) {
                Some(error) => Err(error),
                None => Ok(self.promoted(broker)),
            }
        }
    }

    /// The first of some brokers that may lead in place of the leader.
    pub open spec fn successor(self, among: Seq<u32>) -> Option<u32>
        decreases among.len(),
    {
        if among.len() == 0 {
            None
        } else if among[0] != self.current.leader_id && self.refusal(among[0]) is None {
            Some(among[0])
        } else {
            self.successor(among.skip(1))
        }
    }
}

/// What is asked of a promotion in a partition.
pub open spec fn candidacy(
    registry: Registry,
    topic: Seq<char>,
    partition: u32,
    statuses: Seq<ReplicaStatus>,
    committed: u64,
    factor: usize,
    needed: usize,
) -> Candidacy {
    Candidacy {
        current: PartitionLeadership { partition, ..registry.current(topic, partition) },
        members: registry.brokers,
        brokers: cluster::replica_set(registry.brokers, partition, factor),
        statuses,
        committed,
        needed,
    }
}

fn contains_broker(brokers: &Vec<u32>, broker: u32) -> (found: bool)
    ensures
        found == brokers@.contains(broker),
{
    for i in 0..brokers.len()
        invariant
            forall|j: int| 0 <= j < i ==> brokers@[j] != broker,
    {
        if brokers[i] == broker {
            return true;
        }
    }
    false
}

/// Those of the brokers that have a replica of a partition.
fn replicas(brokers: &Vec<u32>, partition: u32, factor: usize) -> (found: Vec<u32>)
    ensures
        found@ == cluster::replica_set(brokers@, partition, factor),
{
    let mut found: Vec<u32> = Vec::new();
    for i in 0..brokers.len()
        invariant
            found@ == cluster::replicas_among(brokers@, partition, factor, i as int),
    {
        if cluster::holds_replica(i, brokers.len(), partition, factor) {
            found.push(brokers[i]);
        }
    }
    found
}

/// Makes a broker the leader of a partition, where it may be.
pub fn promote(
    registry: &LeadershipRegistry,
    topic: &str,
    partition: u32,
    broker: u32,
    statuses: &Vec<ReplicaStatus>,
    committed: u64,
    factor: usize,
    needed: usize,
) -> (promoted: Result<PartitionLeadership, PromotionError>)
    requires
        registry.wf(),
        registry@.brokers.len() > 0,
    ensures
        ({
            let asked = candidacy(registry@, topic@, partition, statuses@, committed, factor, needed);
            promoted == match asked.refusal(broker) {
                Some(error) => Err::<PartitionLeadership, PromotionError>(error),
                None => Ok(asked.promoted(broker)),
            }
        }),
{
    let members = registry.brokers();
    if !contains_broker(&members, broker) {
        return Err(PromotionError::UnknownBroker(broker));
    }
    let brokers = replicas(&members, partition, factor);
    if !contains_broker(&brokers, broker) {
        return Err(PromotionError::NotReplica(broker));
    }
    let next_offset: u64 = match find_told(statuses, broker) {
        Some(next_offset) => next_offset,
        None => return Err(PromotionError::Unreachable(broker)),
    };
    let current = registry.current(topic, partition);
    let high_watermark: u64 = if committed > current.high_watermark {
        committed
    } else {
        current.high_watermark
    };
    let ghost asked = candidacy(registry@, topic@, partition, statuses@, committed, factor, needed);
    let reached: usize = count_reachable(&brokers, statuses);
    proof {
        lemma_reachable_bounded(brokers@, statuses@);
    }
    let lost: usize = brokers.len() - reached;
    let mut shown: u64 = 0;
    for i in 0..brokers.len()
        invariant
            brokers@ == asked.brokers,
            statuses@ == asked.statuses,
            needed == asked.needed,
            lost == asked.lost(),
            shown == asked.shown_end(brokers@.take(i as int)),
    {
        assert(brokers@.take(i + 1).drop_last() =~= brokers@.take(i as int));
        if let Some(end) = find_told(statuses, brokers[i]) {
            if end > shown && lost < needed && count_holders(&brokers, statuses, end) >= needed
                - lost {
                shown = end;
            }
        }
    }
    assert(brokers@.take(brokers@.len() as int) =~= brokers@);
    let end: u64 = if shown > high_watermark {
        shown
    } else {
        high_watermark
    };
    if next_offset < end {
        return Err(
            PromotionError::BehindHighWatermark {
                broker_id: broker,
                next_offset,
                high_watermark: end,
            },
        );
    }
    if reached < needed {
        return Err(PromotionError::NotEnoughReplicas { reachable: reached, needed });
    }
    match current.leader_epoch.checked_add(1) {
        Some(leader_epoch) => Ok(
            PartitionLeadership { partition, leader_id: broker, leader_epoch, high_watermark },
        ),
        None => Err(PromotionError::EpochExhausted),
    }
}

/// Makes a broker the leader of a partition on request. Only the controller, which is the broker
/// that is listed first, does so.
pub fn promote_by_request(
    cluster: &ClusterMetadata,
    registry: &LeadershipRegistry,
    topic: &str,
    partition: u32,
    broker: u32,
    statuses: &Vec<ReplicaStatus>,
    committed: u64,
    factor: usize,
    needed: usize,
) -> (promoted: Result<PartitionLeadership, PromotionError>)
    requires
        cluster.nodes@.len() > 0,
        registry.wf(),
        registry@.brokers.len() > 0,
    ensures
        ({
            let asked = candidacy(registry@, topic@, partition, statuses@, committed, factor, needed);
            promoted == asked.requested(*cluster, broker)
        }),
{
    if cluster.nodes[0].id != cluster.responding_broker_id {
        return Err(PromotionError::NotController(cluster.responding_broker_id));
    }
    promote(registry, topic, partition, broker, statuses, committed, factor, needed)
}

/// The leadership that replaces that of a leader that was lost: the first broker in the order of
/// the cluster takes over that may lead, if any may.
pub fn replace_leader(
    registry: &LeadershipRegistry,
    topic: &str,
    partition: u32,
    statuses: &Vec<ReplicaStatus>,
    committed: u64,
    factor: usize,
    needed: usize,
) -> (replaced: Option<PartitionLeadership>)
    requires
        registry.wf(),
        registry@.brokers.len() > 0,
    ensures
        ({
            let asked = candidacy(registry@, topic@, partition, statuses@, committed, factor, needed);
            replaced == match asked.successor(asked.brokers) {
                Some(broker) => Some(asked.promoted(broker)),
                None => None,
            }
        }),
{
    let brokers = replicas(&registry.brokers(), partition, factor);
    let lost: u32 = registry.current(topic, partition).leader_id;
    let ghost asked = candidacy(registry@, topic@, partition, statuses@, committed, factor, needed);
    let mut i: usize = 0;
    assert(brokers@.skip(0) =~= brokers@);
    while i < brokers.len()
        invariant
            i <= brokers@.len(),
            registry.wf(),
            registry@.brokers.len() > 0,
            lost == asked.current.leader_id,
            asked == candidacy(registry@, topic@, partition, statuses@, committed, factor, needed),
            asked.successor(brokers@) == asked.successor(brokers@.skip(i as int)),
            brokers@ == asked.brokers,
        decreases brokers@.len() - i,
    {
        if brokers[i] != lost {
            let promoted = promote(
                registry,
                topic,
                partition,
                brokers[i],
                statuses,
                committed,
                factor,
                needed,
            );
            if let Ok(leadership) = promoted {
                return Some(leadership);
            }
        }
        assert(brokers@.skip(i as int).skip(1) =~= brokers@.skip(i + 1));
        i = i + 1;
    }
    None
}

/// How many probes of a leader in a row have to fail until the leader is lost.
pub const PROBES: u32 = 3;

/// How many probes of a leader have failed in a row, up to those that it takes, once one more was
/// made.
pub open spec fn failures_after(failures: u32, answered: bool) -> u32 {
    if answered {
        0
    } else if failures >= PROBES {
        PROBES
    } else {
        (failures + 1) as u32
    }
}

/// How many probes have failed in a row after some probes.
pub open spec fn failures(probes: Seq<bool>) -> u32
    decreases probes.len(),
{
    if probes.len() == 0 {
        0
    } else {
        failures_after(failures(probes.drop_last()), probes.last())
    }
}

/// What the controller knows of a leader that it probes.
#[derive(Debug, Clone, Copy, PartialEq, Eq, Structural)]
pub struct LeaderProbe {
    pub failures: u32,
}

impl LeaderProbe {
    pub fn new() -> (probe: Self)
        ensures
            probe.failures == failures(Seq::empty()),
    {
        LeaderProbe { failures: 0 }
    }

    /// Takes the outcome of a probe, and tells whether the leader is lost.
    pub fn probed(&mut self, answered: bool) -> (lost: bool)
        ensures
            final(self).failures == failures_after(old(self).failures, answered),
            lost == (final(self).failures == PROBES),
    {
        if answered {
            self.failures = 0;
        } else if self.failures >= PROBES {
            self.failures = PROBES;
        } else {
            self.failures = self.failures + 1;
        }
        self.failures == PROBES
    }
}

/// A leader is lost after three failed probes in a row, and not before.
pub proof fn three_failures_lose_leader(probes: Seq<bool>)
    ensures
        failures(probes) == PROBES <==> {
            &&& probes.len() >= 3
            &&& !probes[probes.len() - 1]
            &&& !probes[probes.len() - 2]
            &&& !probes[probes.len() - 3]
        },
{
    reveal_with_fuel(failures, 4);
    if probes.len() >= 1 {
        let one = probes.drop_last();
        if one.len() >= 1 {
            let two = one.drop_last();
            if two.len() >= 1 {
                lemma_failures_bounded(two.drop_last());
            }
        }
    }
}

proof fn lemma_failures_bounded(probes: Seq<bool>)
    ensures
        failures(probes) <= PROBES,
{
}

/// A promotion is safe: the new leader has a replica, holds every committed record, and can reach
/// as many replicas as have to be in sync. The registry takes it, and it begins a new epoch.
pub proof fn promotion_is_safe(
    registry: Registry,
    topic: Seq<char>,
    partition: u32,
    broker: u32,
    statuses: Seq<ReplicaStatus>,
    committed: u64,
    factor: usize,
    needed: usize,
)
    requires
        candidacy(registry, topic, partition, statuses, committed, factor, needed).refusal(
            broker,
        ) is None,
    ensures
        ({
            let before = registry.current(topic, partition);
            let after = candidacy(
                registry,
                topic,
                partition,
                statuses,
                committed,
                factor,
                needed,
            ).promoted(broker);
            &&& cluster::replica_set(registry.brokers, partition, factor).contains(
                after.leader_id,
            )
            &&& told(statuses, after.leader_id) matches Some(next_offset) && next_offset
                >= after.high_watermark && next_offset >= candidacy(
                registry,
                topic,
                partition,
                statuses,
                committed,
                factor,
                needed,
            ).committed_end()
            &&& after.high_watermark >= before.high_watermark
            &&& after.high_watermark >= committed
            &&& reachable(
                cluster::replica_set(registry.brokers, partition, factor),
                statuses,
            ) >= needed
            &&& after.leader_epoch == before.leader_epoch + 1
            &&& registry.refusal(topic, after) is None
            &&& registry.with_entry(topic, after).current(topic, partition) == after
        }),
{
}

/// How many brokers hold the record at an offset. `holds` tells of each broker up to where it has
/// the records of the leader.
pub open spec fn keepers(brokers: Seq<u32>, holds: Map<u32, u64>, offset: u64) -> nat
    decreases brokers.len(),
{
    if brokers.len() == 0 {
        0
    } else {
        keepers(brokers.drop_last(), holds, offset) + if holds[brokers.last()] > offset {
            1nat
        } else {
            0nat
        }
    }
}

/// How many brokers have told that they hold the record at an offset.
spec fn telling(brokers: Seq<u32>, statuses: Seq<ReplicaStatus>, offset: u64) -> nat
    decreases brokers.len(),
{
    if brokers.len() == 0 {
        0
    } else {
        let last = told(statuses, brokers.last());
        telling(brokers.drop_last(), statuses, offset) + if last is Some && last->0 > offset {
            1nat
        } else {
            0nat
        }
    }
}

/// The smallest offset behind the given one that a broker has told.
spec fn least_told(brokers: Seq<u32>, statuses: Seq<ReplicaStatus>, offset: u64) -> Option<u64>
    decreases brokers.len(),
{
    if brokers.len() == 0 {
        None
    } else {
        let before = least_told(brokers.drop_last(), statuses, offset);
        match told(statuses, brokers.last()) {
            Some(end) => if end > offset && (before is None || end < before->0) {
                Some(end)
            } else {
                before
            },
            None => before,
        }
    }
}

proof fn lemma_telling(
    brokers: Seq<u32>,
    statuses: Seq<ReplicaStatus>,
    holds: Map<u32, u64>,
    offset: u64,
)
    requires
        forall|i: int|
            0 <= i < brokers.len() ==> (told(statuses, #[trigger] brokers[i]) matches Some(end)
                ==> end == holds[brokers[i]]),
    ensures
        keepers(brokers, holds, offset) <= telling(brokers, statuses, offset) + brokers.len()
            - reachable(brokers, statuses),
        telling(brokers, statuses, offset) > 0 ==> least_told(brokers, statuses, offset) is Some,
        least_told(brokers, statuses, offset) is None ==> forall|i: int|
            0 <= i < brokers.len() ==> (told(statuses, #[trigger] brokers[i]) matches Some(end)
                ==> end <= offset),
        least_told(brokers, statuses, offset) matches Some(least) ==> {
            &&& least > offset
            &&& exists|i: int|
                0 <= i < brokers.len() && told(statuses, #[trigger] brokers[i]) == Some(least)
            &&& forall|i: int|
                0 <= i < brokers.len() ==> (told(statuses, #[trigger] brokers[i]) matches Some(end)
                    ==> end <= offset || end >= least)
        },
    decreases brokers.len(),
{
    if brokers.len() > 0 {
        let fewer = brokers.drop_last();
        assert forall|i: int| 0 <= i < fewer.len() implies (told(statuses, #[trigger] fewer[i])
            matches Some(end) ==> end == holds[fewer[i]]) by {
            assert(fewer[i] == brokers[i]);
        }
        assert(brokers[brokers.len() - 1] == brokers.last());
        lemma_telling(fewer, statuses, holds, offset);
        let least = least_told(brokers, statuses, offset);
        if least is Some {
            assert forall|i: int| 0 <= i < brokers.len() implies (told(
                statuses,
                #[trigger] brokers[i],
            ) matches Some(end) ==> end <= offset || end >= least->0) by {
                if i < fewer.len() {
                    assert(fewer[i] == brokers[i]);
                }
            }
            if least == least_told(fewer, statuses, offset) {
                let i = choose|i: int|
                    0 <= i < fewer.len() && told(statuses, #[trigger] fewer[i]) == least;
                assert(brokers[i] == fewer[i]);
            }
        } else {
            assert forall|i: int| 0 <= i < brokers.len() implies (told(
                statuses,
                #[trigger] brokers[i],
            ) matches Some(end) ==> end <= offset) by {
                if i < fewer.len() {
                    assert(fewer[i] == brokers[i]);
                }
            }
        }
    }
}

proof fn lemma_holders(
    brokers: Seq<u32>,
    statuses: Seq<ReplicaStatus>,
    offset: u64,
    least: u64,
)
    requires
        least > offset,
        forall|i: int|
            0 <= i < brokers.len() ==> (told(statuses, #[trigger] brokers[i]) matches Some(end)
                ==> end <= offset || end >= least),
    ensures
        holders(brokers, statuses, least) == telling(brokers, statuses, offset),
    decreases brokers.len(),
{
    if brokers.len() > 0 {
        let fewer = brokers.drop_last();
        assert forall|i: int| 0 <= i < fewer.len() implies (told(statuses, #[trigger] fewer[i])
            matches Some(end) ==> end <= offset || end >= least) by {
            assert(fewer[i] == brokers[i]);
        }
        assert(brokers[brokers.len() - 1] == brokers.last());
        lemma_holders(fewer, statuses, offset, least);
    }
}

proof fn lemma_shown(asked: Candidacy, among: Seq<u32>, place: int)
    requires
        0 <= place < among.len(),
        told(asked.statuses, among[place]) is Some,
        asked.may_be_committed(told(asked.statuses, among[place])->0),
    ensures
        asked.shown_end(among) >= told(asked.statuses, among[place])->0,
    decreases among.len(),
{
    if place < among.len() - 1 {
        assert(among.drop_last()[place] == among[place]);
        lemma_shown(asked, among.drop_last(), place);
    }
}

/// What a quorum has confirmed survives a promotion: as long as fewer brokers do not answer than
/// have to hold a record, the new leader holds every record that so many brokers hold, also where
/// nobody has heard that it was committed. `holds` tells how many of the leader's records each
/// broker has; those that answer hold no others.
pub proof fn confirmed_records_survive_promotion(
    asked: Candidacy,
    broker: u32,
    holds: Map<u32, u64>,
    offset: u64,
)
    requires
        asked.refusal(broker) is None,
        asked.lost() < asked.needed,
        forall|i: int|
            0 <= i < asked.brokers.len() ==> (told(asked.statuses, #[trigger] asked.brokers[i])
                matches Some(end) ==> end == holds[asked.brokers[i]]),
        keepers(asked.brokers, holds, offset) >= asked.needed,
    ensures
        holds[broker] > offset,
{
    lemma_telling(asked.brokers, asked.statuses, holds, offset);
    let least = least_told(asked.brokers, asked.statuses, offset)->0;
    lemma_holders(asked.brokers, asked.statuses, offset, least);
    let place = choose|i: int|
        0 <= i < asked.brokers.len() && told(asked.statuses, #[trigger] asked.brokers[i]) == Some(
            least,
        );
    assert(asked.may_be_committed(least));
    lemma_shown(asked, asked.brokers, place);
    let own = choose|i: int| 0 <= i < asked.brokers.len() && asked.brokers[i] == broker;
    assert(told(asked.statuses, asked.brokers[own]) is Some);
}

/// A leader that was lost is replaced by another broker, and by one that may lead; and it is
/// replaced whenever another broker may lead.
pub proof fn successor_is_safe(asked: Candidacy, among: Seq<u32>)
    ensures
        match asked.successor(among) {
            Some(broker) => {
                &&& among.contains(broker)
                &&& broker != asked.current.leader_id
                &&& asked.refusal(broker) is None
            },
            None => forall|i: int|
                0 <= i < among.len() ==> (#[trigger] among[i] == asked.current.leader_id
                    || asked.refusal(among[i]) is Some),
        },
    decreases among.len(),
{
    if among.len() > 0 && !(among[0] != asked.current.leader_id && asked.refusal(among[0])
        is None) {
        successor_is_safe(asked, among.skip(1));
        match asked.successor(among) {
            Some(broker) => {
                let i = choose|i: int|
                    0 <= i < among.skip(1).len() && among.skip(1)[i] == broker;
                assert(among[i + 1] == broker);
            },
            None => {
                assert forall|i: int| 0 <= i < among.len() implies (#[trigger] among[i]
                    == asked.current.leader_id || asked.refusal(among[i]) is Some) by {
                    if i > 0 {
                        assert(among.skip(1)[i - 1] == among[i]);
                    }
                }
            },
        }
    }
}

proof fn lemma_shown_is_told(asked: Candidacy, among: Seq<u32>)
    ensures
        asked.shown_end(among) > 0 ==> exists|i: int|
            0 <= i < among.len() && told(asked.statuses, #[trigger] among[i]) == Some(
                asked.shown_end(among),
            ),
    decreases among.len(),
{
    if among.len() > 0 && asked.shown_end(among) > 0 {
        let fewer = among.drop_last();
        lemma_shown_is_told(asked, fewer);
        if asked.shown_end(among) == asked.shown_end(fewer) {
            let i = choose|i: int|
                0 <= i < fewer.len() && told(asked.statuses, #[trigger] fewer[i]) == Some(
                    asked.shown_end(fewer),
                );
            assert(among[i] == fewer[i]);
        } else {
            assert(among[among.len() - 1] == among.last());
        }
    }
}

/// A partition goes on: where its leader does not answer, the brokers that do are as many as have
/// to be in sync, and one of them holds what is known to be committed, a leader is found, as long
/// as there is an epoch left.
pub proof fn lost_leader_is_replaced(
    registry: Registry,
    topic: Seq<char>,
    partition: u32,
    statuses: Seq<ReplicaStatus>,
    committed: u64,
    factor: usize,
    needed: usize,
    holder: u32,
)
    requires
        ({
            let asked = candidacy(registry, topic, partition, statuses, committed, factor, needed);
            &&& told(statuses, asked.current.leader_id) is None
            &&& asked.brokers.contains(holder)
            &&& told(statuses, holder) matches Some(end) && end >= asked.high_watermark()
            &&& reachable(asked.brokers, statuses) >= needed
            &&& asked.current.leader_epoch < u64::MAX
        }),
    ensures
        ({
            let asked = candidacy(registry, topic, partition, statuses, committed, factor, needed);
            asked.successor(asked.brokers) is Some
        }),
{
    let asked = candidacy(registry, topic, partition, statuses, committed, factor, needed);
    cluster::replicas_are_members(
        registry.brokers,
        partition,
        factor,
        registry.brokers.len() as int,
    );
    successor_is_safe(asked, asked.brokers);
    lemma_shown_is_told(asked, asked.brokers);
    let shown = asked.shown_end(asked.brokers);
    if asked.successor(asked.brokers) is None {
        if shown > asked.high_watermark() {
            let i = choose|i: int|
                0 <= i < asked.brokers.len() && told(asked.statuses, #[trigger] asked.brokers[i])
                    == Some(shown);
            assert(asked.brokers.contains(asked.brokers[i]));
            assert(asked.refusal(asked.brokers[i]) is None);
            assert(asked.brokers[i] != asked.current.leader_id);
        } else {
            let i = choose|i: int|
                0 <= i < asked.brokers.len() && asked.brokers[i] == holder;
            assert(asked.refusal(asked.brokers[i]) is None);
        }
    }
}

/// A leader that was replaced replicates nothing more: a broker that knows of the promotion
/// refuses its records, and keeps its own as they are.
pub proof fn replaced_leader_is_refused(
    asked: Candidacy,
    broker: u32,
    state: StorageState,
    record: ReplicateRecord,
)
    requires
        asked.refusal(broker) is None,
        record.partition == asked.current.partition,
        record.leader_epoch <= asked.current.leader_epoch,
    ensures
        ({
            let follows = state.with_epoch(
                record.topic@,
                record.partition,
                asked.promoted(broker).leader_epoch,
            );
            &&& broker::epoch_checked(follows, record).0 matches Err(StorageError::StaleEpoch {
                expected,
                actual,
            })
            &&& expected >= asked.promoted(broker).leader_epoch
            &&& actual == record.leader_epoch
            &&& broker::epoch_checked(follows, record).1 == follows
        }),
{
}

/// What a broker has told is found, and nothing is made up for one that has not.
pub proof fn told_offsets_were_told(statuses: Seq<ReplicaStatus>, broker: u32)
    ensures
        match told(statuses, broker) {
            Some(end) => exists|i: int|
                0 <= i < statuses.len() && (#[trigger] statuses[i]).broker_id == broker
                    && statuses[i].next_offset == end,
            None => forall|i: int|
                0 <= i < statuses.len() ==> (#[trigger] statuses[i]).broker_id != broker,
        },
    decreases statuses.len(),
{
    if statuses.len() > 0 && statuses[0].broker_id != broker {
        let rest = statuses.skip(1);
        told_offsets_were_told(rest, broker);
        match told(statuses, broker) {
            Some(end) => {
                let i = choose|i: int|
                    0 <= i < rest.len() && (#[trigger] rest[i]).broker_id == broker
                        && rest[i].next_offset == end;
                assert(statuses[i + 1] == rest[i]);
            },
            None => {
                assert forall|i: int| 0 <= i < statuses.len() implies (
                #[trigger] statuses[i]).broker_id != broker by {
                    if i > 0 {
                        assert(rest[i - 1] == statuses[i]);
                    }
                }
            },
        }
    } else if statuses.len() > 0 {
        assert(statuses[0].broker_id == broker);
    }
}

/// Brokers are counted one by one: each that has told anything counts as reachable, and each that
/// has told at least an offset as a holder of the records below it.
pub proof fn replicas_are_counted_one_by_one(
    brokers: Seq<u32>,
    broker: u32,
    statuses: Seq<ReplicaStatus>,
    end: u64,
)
    ensures
        reachable(Seq::empty(), statuses) == 0,
        holders(Seq::empty(), statuses, end) == 0,
        reachable(brokers.push(broker), statuses) == reachable(brokers, statuses) + if told(
            statuses,
            broker,
        ) is Some {
            1nat
        } else {
            0
        },
        holders(brokers.push(broker), statuses, end) == holders(brokers, statuses, end) + match told(
            statuses,
            broker,
        ) {
            Some(next_offset) => if next_offset >= end {
                1nat
            } else {
                0
            },
            None => 0,
        },
{
    assert(brokers.push(broker).drop_last() =~= brokers);
}

/// A broker may lead exactly where it is a broker of the cluster with a replica of the partition,
/// answers, holds all records that are or may be committed, answers along with as many replicas as
/// have to be in sync, and an epoch is left. The first of these that fails is what is told.
pub proof fn safe_replicas_may_lead(asked: Candidacy, broker: u32)
    ensures
        ({
            let refusal = asked.refusal(broker);
            let member = asked.members.contains(broker);
            let replica = asked.brokers.contains(broker);
            let end = told(asked.statuses, broker);
            let holds = end is Some && end->0 >= asked.committed_end();
            let quorum = reachable(asked.brokers, asked.statuses) >= asked.needed;
            let epoch = asked.current.leader_epoch < u64::MAX;
            &&& refusal is None <==> member && replica && holds && quorum && epoch
            &&& !member <==> refusal == Some(PromotionError::UnknownBroker(broker))
            &&& member && !replica <==> refusal == Some(PromotionError::NotReplica(broker))
            &&& member && replica && end is None <==> refusal == Some(
                PromotionError::Unreachable(broker),
            )
            &&& member && replica && end is Some && !holds ==> refusal == Some(
                PromotionError::BehindHighWatermark {
                    broker_id: broker,
                    next_offset: end->0,
                    high_watermark: asked.committed_end(),
                },
            )
            &&& member && replica && holds && !quorum ==> refusal is Some && refusal->0
                is NotEnoughReplicas
            &&& member && replica && holds && quorum && !epoch ==> refusal == Some(
                PromotionError::EpochExhausted,
            )
        }),
{
}

/// What is or may be committed is no more than what is known to be, or what a broker has told that
/// may have been committed.
pub proof fn committed_end_is_known_or_told(asked: Candidacy)
    ensures
        asked.committed_end() >= asked.committed,
        asked.committed_end() >= asked.current.high_watermark,
        asked.committed_end() == asked.committed || asked.committed_end()
            == asked.current.high_watermark || exists|i: int|
            0 <= i < asked.brokers.len() && told(asked.statuses, #[trigger] asked.brokers[i])
                == Some(asked.committed_end()),
{
    lemma_shown_is_told(asked, asked.brokers);
}

/// A promotion names the broker as the leader of the partition, begins the epoch after the current
/// one, and goes on from what is known to be committed.
pub proof fn promotion_begins_next_epoch(asked: Candidacy, broker: u32)
    requires
        asked.refusal(broker) is None,
    ensures
        ({
            let promoted = asked.promoted(broker);
            &&& promoted.partition == asked.current.partition
            &&& promoted.leader_id == broker
            &&& promoted.leader_epoch == asked.current.leader_epoch + 1
            &&& promoted.high_watermark >= asked.committed
            &&& promoted.high_watermark >= asked.current.high_watermark
            &&& promoted.high_watermark == asked.committed || promoted.high_watermark
                == asked.current.high_watermark
        }),
{
}

/// The broker that takes over is the first in order that may, and is never the one that was lost.
pub proof fn first_safe_replica_takes_over(asked: Candidacy, among: Seq<u32>, place: int)
    requires
        0 <= place < among.len(),
        among[place] != asked.current.leader_id,
        asked.refusal(among[place]) is None,
        forall|i: int|
            0 <= i < place ==> #[trigger] among[i] == asked.current.leader_id || asked.refusal(
                among[i],
            ) is Some,
    ensures
        asked.successor(among) == Some(among[place]),
    decreases place,
{
    if place > 0 {
        let rest = among.skip(1);
        assert(among[0] == asked.current.leader_id || asked.refusal(among[0]) is Some);
        assert(rest[place - 1] == among[place]);
        assert forall|i: int| 0 <= i < place - 1 implies #[trigger] rest[i]
            == asked.current.leader_id || asked.refusal(rest[i]) is Some by {
            assert(rest[i] == among[i + 1]);
        }
        first_safe_replica_takes_over(asked, rest, place - 1);
    }
}

/// Only the controller, which is the broker that is listed first, promotes on request; and it does
/// so exactly where the broker may lead.
pub proof fn only_controller_promotes(asked: Candidacy, cluster: ClusterMetadata, broker: u32)
    ensures
        cluster.nodes@[0].id != cluster.responding_broker_id ==> asked.requested(cluster, broker)
            == Err::<PartitionLeadership, PromotionError>(
            PromotionError::NotController(cluster.responding_broker_id),
        ),
        cluster.nodes@[0].id == cluster.responding_broker_id ==> (asked.requested(
            cluster,
            broker,
        ) is Ok <==> asked.refusal(broker) is None),
        asked.requested(cluster, broker) matches Ok(leadership) ==> leadership.leader_id == broker
            && leadership.partition == asked.current.partition,
{
}

/// A promotion is asked of the partition as it stands: of its current leadership, of the replicas
/// that it has among the brokers, and of what was told.
pub proof fn candidacy_is_that_of_partition(
    registry: Registry,
    topic: Seq<char>,
    partition: u32,
    statuses: Seq<ReplicaStatus>,
    committed: u64,
    factor: usize,
    needed: usize,
)
    ensures
        ({
            let asked = candidacy(registry, topic, partition, statuses, committed, factor, needed);
            &&& asked.current.partition == partition
            &&& asked.current.leader_id == registry.current(topic, partition).leader_id
            &&& asked.current.leader_epoch == registry.current(topic, partition).leader_epoch
            &&& asked.current.high_watermark == registry.current(topic, partition).high_watermark
            &&& asked.members == registry.brokers
            &&& asked.brokers == cluster::replica_set(registry.brokers, partition, factor)
            &&& asked.statuses == statuses
            &&& asked.committed == committed
            &&& asked.needed == needed
        }),
{
}

proof fn lemma_nothing_shown(asked: Candidacy, among: Seq<u32>)
    requires
        asked.lost() >= asked.needed,
    ensures
        asked.shown_end(among) == 0,
    decreases among.len(),
{
    if among.len() > 0 {
        lemma_nothing_shown(asked, among.drop_last());
    }
}

/// Where so many brokers do not answer that they could have committed records among themselves,
/// what the others tell shows nothing. Where fewer do not answer, the records below an offset may
/// be committed once those that told it and those that do not answer are enough.
pub proof fn silent_brokers_may_have_committed(asked: Candidacy, place: int)
    requires
        0 <= place < asked.brokers.len(),
        told(asked.statuses, asked.brokers[place]) is Some,
    ensures
        ({
            let silent = asked.brokers.len() - reachable(asked.brokers, asked.statuses);
            let end = told(asked.statuses, asked.brokers[place])->0;
            &&& silent >= asked.needed ==> asked.committed_end() == asked.committed
                || asked.committed_end() == asked.current.high_watermark
            &&& silent < asked.needed && holders(asked.brokers, asked.statuses, end) + silent
                >= asked.needed ==> asked.committed_end() >= end
        }),
{
    if asked.lost() >= asked.needed {
        lemma_nothing_shown(asked, asked.brokers);
    } else if asked.may_be_committed(told(asked.statuses, asked.brokers[place])->0) {
        lemma_shown(asked, asked.brokers, place);
    }
}

} // verus!
