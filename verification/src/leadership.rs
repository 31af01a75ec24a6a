//! Which broker leads a partition in which epoch, and how that is kept in a file.

use vstd::prelude::*;

use crate::cluster;
use crate::cluster::ClusterMetadata;
use crate::sorted;
use crate::sorted::{Key, SortedMap};
use crate::storage;
use crate::text;

verus! {

/// The leader of a partition, its epoch, and the high watermark of the partition.
#[derive(Debug, Clone, Copy, PartialEq, Eq, Structural)]
pub struct PartitionLeadership {
    pub partition: u32,
    pub leader_id: u32,
    pub leader_epoch: u64,
    pub high_watermark: u64,
}

#[derive(Debug, Clone, Copy, PartialEq, Eq, Structural)]
pub enum LeadershipError {
    InvalidMetadata,
    Poisoned,
    MissingPartition(u32),
    UnknownBroker(u32),
    StaleEpoch,
}

impl LeadershipError {
    /// What the error says.
    pub open spec fn text(self) -> Seq<char> {
        match self {
            LeadershipError::InvalidMetadata => "leadership metadata is malformed"@,
            LeadershipError::Poisoned => "leadership metadata lock is poisoned"@,
            LeadershipError::MissingPartition(partition) => "partition "@ + text::decimal(
                partition as nat,
            ) + " has no leadership metadata"@,
            LeadershipError::UnknownBroker(broker) => "broker "@ + text::decimal(broker as nat)
                + " is not in cluster membership"@,
            LeadershipError::StaleEpoch =>
                "leadership epoch is not newer than the current epoch"@,
        }
    }

    /// The error in words.
    pub fn message(&self) -> (message: String)
        ensures
            message@ == self.text(),
    {
        match self {
            LeadershipError::InvalidMetadata => "leadership metadata is malformed".to_owned(),
            LeadershipError::Poisoned => "leadership metadata lock is poisoned".to_owned(),
            LeadershipError::MissingPartition(partition) => {
                let mut out = "partition ".to_owned();
                text::push_decimal(&mut out, *partition as u64);
                out.append(" has no leadership metadata");
                out
            },
            LeadershipError::UnknownBroker(broker) => {
                let mut out = "broker ".to_owned();
                text::push_decimal(&mut out, *broker as u64);
                out.append(" is not in cluster membership");
                out
            },
            LeadershipError::StaleEpoch => {
                "leadership epoch is not newer than the current epoch".to_owned()
            },
        }
    }
}

/// The leaderships by topic and partition.
pub type Entries = Map<(Seq<char>, u32), PartitionLeadership>;

/// A line of the leadership file.
pub open spec fn entry_line(topic: Seq<char>, leadership: PartitionLeadership) -> Seq<char> {
    topic + "\t"@ + text::decimal(leadership.partition as nat) + "\t"@ + text::decimal(
        leadership.leader_id as nat,
    ) + "\t"@ + text::decimal(leadership.leader_epoch as nat) + "\t"@ + text::decimal(
        leadership.high_watermark as nat,
    )
}

/// The leadership file: a line for each of `keys`.
pub open spec fn rendered(keys: Seq<(Seq<char>, u32)>, entries: Entries) -> Seq<char>
    decreases keys.len(),
{
    if keys.len() == 0 {
        Seq::empty()
    } else {
        entry_line(keys[0].0, entries[keys[0]]).push('\n') + rendered(keys.skip(1), entries)
    }
}

/// What the fields of a line say, where they say anything. A line without a high watermark
/// stands for the largest one.
pub open spec fn parsed_fields(fields: Seq<Seq<char>>) -> Option<(Seq<char>, PartitionLeadership)> {
    if fields.len() < 4 || fields.len() > 5 {
        None
    } else {
        let partition = text::parsed(fields[1], u32::MAX as nat);
        let leader_id = text::parsed(fields[2], u32::MAX as nat);
        let leader_epoch = text::parsed(fields[3], u64::MAX as nat);
        let high_watermark = if fields.len() == 4 {
            Some(u64::MAX as nat)
        } else {
            text::parsed(fields[4], u64::MAX as nat)
        };
        if partition is Some && leader_id is Some && leader_epoch is Some && high_watermark is Some {
            Some(
                (
                    fields[0],
                    PartitionLeadership {
                        partition: partition->0 as u32,
                        leader_id: leader_id->0 as u32,
                        leader_epoch: leader_epoch->0 as u64,
                        high_watermark: high_watermark->0 as u64,
                    },
                ),
            )
        } else {
            None
        }
    }
}

/// What some lines add to the entries read so far; `None` where a line is malformed. Empty lines
/// say nothing, and a later line for the same partition wins.
pub open spec fn parsed_lines(lines: Seq<Seq<char>>, so_far: Entries) -> Option<Entries>
    decreases lines.len(),
{
    if lines.len() == 0 {
        Some(so_far)
    } else if lines[0].len() == 0 {
        parsed_lines(lines.skip(1), so_far)
    } else {
        match parsed_fields(text::split_on(lines[0], '\t')) {
            None => None,
            Some((topic, leadership)) => parsed_lines(
                lines.skip(1),
                so_far.insert((topic, leadership.partition), leadership),
            ),
        }
    }
}

/// What a leadership file holds.
pub open spec fn parsed_entries(contents: Seq<char>) -> Option<Entries> {
    parsed_lines(text::lines(contents), Map::empty())
}

/// Each entry stands under its own partition.
pub open spec fn keys_agree(entries: Entries) -> bool {
    forall|key: (Seq<char>, u32)| #[trigger]
        entries.dom().contains(key) ==> entries[key].partition == key.1
}

fn parse_field(field: &str, limit: u64) -> (value: Result<u64, LeadershipError>)
    ensures
        value == match text::parsed(field@, limit as nat) {
            Some(number) => Ok::<u64, LeadershipError>(number as u64),
            None => Err(LeadershipError::InvalidMetadata),
        },
        value matches Ok(number) ==> number <= limit,
{
    match text::parse_decimal(field, limit) {
        Some(value) => Ok(value),
        None => Err(LeadershipError::InvalidMetadata),
    }
}

/// Reads one line.
fn parse_line(line: &str) -> (entry: Result<(String, PartitionLeadership), LeadershipError>)
    ensures
        match parsed_fields(text::split_on(line@, '\t')) {
            None => entry matches Err(error) && error == LeadershipError::InvalidMetadata,
            Some((topic, leadership)) => entry matches Ok((found, value)) && found@ == topic
                && value == leadership,
        },
{
    let fields = text::split(line, '\t');
    assert(text::views(fields@).len() == fields@.len());
    if fields.len() < 4 || fields.len() > 5 {
        return Err(LeadershipError::InvalidMetadata);
    }
    proof {
        assert(text::views(fields@)[0] == fields@[0]@);
        assert(text::views(fields@)[1] == fields@[1]@);
        assert(text::views(fields@)[2] == fields@[2]@);
        assert(text::views(fields@)[3] == fields@[3]@);
    }
    let partition: u64 = match parse_field(fields[1].as_str(), u32::MAX as u64) {
        Ok(value) => value,
        Err(error) => return Err(error),
    };
    let leader_id: u64 = match parse_field(fields[2].as_str(), u32::MAX as u64) {
        Ok(value) => value,
        Err(error) => return Err(error),
    };
    let leader_epoch: u64 = match parse_field(fields[3].as_str(), u64::MAX) {
        Ok(value) => value,
        Err(error) => return Err(error),
    };
    let high_watermark: u64 = if fields.len() == 4 {
        u64::MAX
    } else {
        assert(text::views(fields@)[4] == fields@[4]@);
        match parse_field(fields[4].as_str(), u64::MAX) {
            Ok(value) => value,
            Err(error) => return Err(error),
        }
    };
    Ok(
        (
            fields[0].clone(),
            PartitionLeadership {
                partition: partition as u32,
                leader_id: leader_id as u32,
                leader_epoch,
                high_watermark,
            },
        ),
    )
}

/// Reads a leadership file.
pub fn parse_entries(contents: &str) -> (entries: Result<
    SortedMap<(String, u32), PartitionLeadership>,
    LeadershipError,
>)
    ensures
        match parsed_entries(contents@) {
            None => entries matches Err(error) && error == LeadershipError::InvalidMetadata,
            Some(expected) => entries matches Ok(found) && found.wf() && found@ == expected
                && keys_agree(expected),
        },
{
    let lines = text::split_lines(contents);
    let ghost all = text::lines(contents@);
    let mut entries: SortedMap<(String, u32), PartitionLeadership> = SortedMap::new();
    let mut i: usize = 0;
    assert(all.skip(0) =~= all);
    while i < lines.len()
        invariant
            all == text::lines(contents@),
            all == text::views(lines@),
            i <= lines@.len(),
            entries.wf(),
            keys_agree(entries@),
            parsed_entries(contents@) == parsed_lines(all.skip(i as int), entries@),
        decreases lines@.len() - i,
    {
        proof {
            assert(all[i as int] == lines@[i as int]@);
            assert(all.skip(i as int)[0] == all[i as int]);
            assert(all.skip(i as int).skip(1) =~= all.skip(i + 1));
        }
        if !lines[i].as_str().is_empty() {
            match parse_line(lines[i].as_str()) {
                Err(error) => return Err(error),
                Ok((topic, leadership)) => {
                    entries.insert((topic, leadership.partition), leadership);
                },
            }
        }
        i = i + 1;
    }
    assert(all.skip(i as int).len() == 0);
    Ok(entries)
}

/// A registry as a value.
#[verifier::ext_equal]
pub struct Registry {
    /// Where the leadership file is.
    pub path: Seq<char>,
    /// The ids of the cluster's brokers.
    pub brokers: Seq<u32>,
    pub entries: Entries,
}

/// The ids of some brokers.
pub open spec fn broker_ids(cluster: ClusterMetadata) -> Seq<u32> {
    cluster.nodes@.map_values(|node: cluster::ClusterNode| node.id)
}

/// The leadership of a partition that none was recorded for.
pub open spec fn initial_leadership(brokers: Seq<u32>, partition: u32) -> PartitionLeadership {
    PartitionLeadership {
        partition,
        leader_id: brokers[cluster::leader_index(brokers.len(), partition)],
        leader_epoch: 0,
        high_watermark: 0,
    }
}

/// Whether `proposed` may not replace `current`: its epoch is older, or it is of the same epoch
/// with another leader or a lower high watermark.
pub open spec fn is_stale(current: PartitionLeadership, proposed: PartitionLeadership) -> bool {
    proposed.leader_epoch < current.leader_epoch || (proposed.leader_epoch == current.leader_epoch
        && (proposed.leader_id != current.leader_id || proposed.high_watermark
        < current.high_watermark))
}

impl Registry {
    /// The leadership of a partition: the one that was recorded, or else the initial one.
    pub open spec fn current(self, topic: Seq<char>, partition: u32) -> PartitionLeadership {
        if self.entries.dom().contains((topic, partition)) {
            self.entries[(topic, partition)]
        } else {
            initial_leadership(self.brokers, partition)
        }
    }

    /// The leaderships of the first partitions of a topic.
    pub open spec fn leaders(self, topic: Seq<char>, partitions: u32) -> Seq<
        PartitionLeadership,
    > {
        Seq::new(partitions as nat, |i: int| self.current(topic, i as u32))
    }

    /// Whether each of the first partitions of a topic has an entry.
    pub open spec fn has_topic(self, topic: Seq<char>, partitions: u32) -> bool {
        forall|partition: u32|
            partition < partitions ==> #[trigger] self.entries.dom().contains((topic, partition))
    }

    /// The registry with an entry for each of the first partitions of a topic.
    pub open spec fn with_topic(self, topic: Seq<char>, partitions: u32) -> Registry {
        Registry {
            entries: Map::new(
                |key: (Seq<char>, u32)|
                    self.entries.dom().contains(key) || (key.0 == topic && key.1 < partitions),
                |key: (Seq<char>, u32)|
                    if self.entries.dom().contains(key) {
                        self.entries[key]
                    } else {
                        initial_leadership(self.brokers, key.1)
                    },
            ),
            ..self
        }
    }

    /// Why a leadership is refused, or `None`.
    pub open spec fn refusal(self, topic: Seq<char>, proposed: PartitionLeadership) -> Option<
        LeadershipError,
    > {
        let key = (topic, proposed.partition);
        if !self.brokers.contains(proposed.leader_id) {
            Some(LeadershipError::UnknownBroker(proposed.leader_id))
        } else if self.entries.dom().contains(key) && is_stale(self.entries[key], proposed) {
            Some(LeadershipError::StaleEpoch)
        } else {
            None
        }
    }

    /// The registry once all records of a partition below an offset are committed.
    pub open spec fn raised(self, topic: Seq<char>, partition: u32, high_watermark: u64) -> Registry {
        let current = self.current(topic, partition);
        if high_watermark > current.high_watermark {
            self.with_entry(topic, PartitionLeadership { partition, high_watermark, ..current })
        } else {
            self
        }
    }

    /// The registry with a leadership recorded.
    pub open spec fn with_entry(self, topic: Seq<char>, entry: PartitionLeadership) -> Registry {
        Registry { entries: self.entries.insert((topic, entry.partition), entry), ..self }
    }
}

/// The leaderships of the cluster's partitions.
pub struct LeadershipRegistry {
    path: String,
    cluster: ClusterMetadata,
    entries: SortedMap<(String, u32), PartitionLeadership>,
}

impl View for LeadershipRegistry {
    type V = Registry;

    closed spec fn view(&self) -> Registry {
        Registry {
            path: self.path@,
            brokers: broker_ids(self.cluster),
            entries: self.entries@,
        }
    }
}

impl LeadershipRegistry {
    pub closed spec fn wf(self) -> bool {
        self.entries.wf() && keys_agree(self.entries@)
    }

    /// The registry of a data directory, from the contents of its leadership file where there is
    /// one.
    pub fn open(data_dir: &str, cluster: ClusterMetadata, contents: Option<&str>) -> (
        registry: Result<LeadershipRegistry, LeadershipError>)
        ensures
            ({
                let entries = match contents {
                    Some(found) => parsed_entries(found@),
                    None => Some(Map::empty()),
                };
                match entries {
                    None => registry matches Err(error) && error
                        == LeadershipError::InvalidMetadata,
                    Some(expected) => {
                        &&& registry matches Ok(opened)
                        &&& opened.wf()
                        &&& opened@ == (Registry {
                            path: storage::path_below(
                                storage::path_below(data_dir@, "__cluster"@),
                                "leadership.meta"@,
                            ),
                            brokers: broker_ids(cluster),
                            entries: expected,
                        })
                    },
                }
            }),
    {
        let directory = storage::join_path(data_dir, "__cluster");
        let path = storage::join_path(directory.as_str(), "leadership.meta");
        let entries = match contents {
            Some(found) => match parse_entries(found) {
                Ok(entries) => entries,
                Err(error) => return Err(error),
            },
            None => SortedMap::new(),
        };
        Ok(LeadershipRegistry { path, cluster, entries })
    }

    /// Where the leadership file is.
    pub fn path(&self) -> (path: &str)
        ensures
            path@ == self@.path,
    {
        self.path.as_str()
    }

    /// The contents of the leadership file: a line for each partition, by topic and number.
    pub fn render(&self) -> (contents: String)
        requires
            self.wf(),
        ensures
            contents@ == rendered(
                sorted::in_order::<(String, u32)>(self@.entries.dom()),
                self@.entries,
            ),
            self@.entries.dom().finite(),
            keys_agree(self@.entries),
    {
        let ghost keys = self.entries.key_values();
        let mut out = String::new();
        let mut i: usize = 0;
        proof {
            self.entries.lemma_ordered();
            assert(keys.skip(0) =~= keys);
            assert(out@ + rendered(keys, self.entries@) =~= rendered(keys, self.entries@));
        }
        while i < self.entries.len()
            invariant
                self.wf(),
                keys == self.entries.key_values(),
                i <= keys.len(),
                out@ + rendered(keys.skip(i as int), self.entries@) == rendered(
                    keys,
                    self.entries@,
                ),
            decreases keys.len() - i,
        {
            let ghost before = out@;
            let key = &self.entries.keys[i];
            let leadership: PartitionLeadership = self.entries.values[i];
            proof {
                self.entries.lemma_at(i as int);
                assert(keys.skip(i as int)[0] == key.value());
                assert(keys.skip(i as int).skip(1) =~= keys.skip(i + 1));
            }
            let line = render_line(key.0.as_str(), leadership);
            out.append(line.as_str());
            out.push('\n');
            proof {
                let rest = rendered(keys.skip(i + 1), self.entries@);
                assert(out@ + rest =~= before + (entry_line(key.0@, leadership).push('\n')
                    + rest));
            }
            i = i + 1;
        }
        assert(out@ + rendered(keys.skip(i as int), self.entries@) =~= out@);
        out
    }

    /// Gives each of the first partitions of a topic an entry, and tells whether that changed
    /// anything, so that the file has to be written.
    pub fn ensure_topic(&mut self, topic: &str, partitions: u32) -> (changed: bool)
        requires
            old(self).wf(),
            old(self)@.brokers.len() > 0 || partitions == 0,
        ensures
            final(self).wf(),
            final(self)@ == old(self)@.with_topic(topic@, partitions),
            changed == !old(self)@.has_topic(topic@, partitions),
    {
        let ghost before = self@;
        let mut changed: bool = false;
        let mut partition: u32 = 0;
        assert(self@.entries =~= before.with_topic(topic@, 0).entries);
        while partition < partitions
            invariant
                self.wf(),
                before.brokers.len() > 0 || partitions == 0,
                partition <= partitions,
                self@ == before.with_topic(topic@, partition),
                changed == !before.has_topic(topic@, partition),
            decreases partitions - partition,
        {
            let ghost current = self@;
            let key = (topic.to_owned(), partition);
            if !self.entries.contains_key(&key) {
                proof {
                    assert(self@.brokers.len() == self.cluster.nodes@.len());
                }
                let leader = cluster::leader_for_partition(&self.cluster, partition);
                let entry = PartitionLeadership {
                    partition,
                    leader_id: leader.id,
                    leader_epoch: 0,
                    high_watermark: 0,
                };
                proof {
                    let place = cluster::leader_index(self.cluster.nodes@.len(), partition);
                    assert(0 <= place < self.cluster.nodes@.len()) by (nonlinear_arith)
                        requires
                            self.cluster.nodes@.len() > 0,
                            place == partition as int % self.cluster.nodes@.len() as int,
                    ;
                    assert(self@.brokers[place] == self.cluster.nodes@[place].id);
                }
                self.entries.insert(key, entry);
                changed = true;
                assert(!before.entries.dom().contains((topic@, partition)));
            } else {
                assert(before.entries.dom().contains((topic@, partition)));
            }
            proof {
                let wanted = before.with_topic(topic@, (partition + 1) as u32).entries;
                assert forall|key: (Seq<char>, u32)| #[trigger]
                    self@.entries.dom().contains(key) <==> wanted.dom().contains(key) by {
                    assert(current.entries.dom().contains(key)
                        == before.with_topic(topic@, partition).entries.dom().contains(key));
                }
                assert(self@.entries =~= wanted);
                if before.has_topic(topic@, (partition + 1) as u32) {
                    assert(before.entries.dom().contains((topic@, partition)));
                }
            }
            partition = partition + 1;
        }
        changed
    }

    /// The leaderships of the first partitions of a topic, which get an entry where they have
    /// none; and whether the file has to be written for that.
    pub fn topic(&mut self, topic: &str, partitions: u32) -> (found: Result<
        (Vec<PartitionLeadership>, bool),
        LeadershipError,
    >)
        requires
            old(self).wf(),
            old(self)@.brokers.len() > 0 || partitions == 0,
        ensures
            final(self).wf(),
            final(self)@ == old(self)@.with_topic(topic@, partitions),
            found matches Ok((leaderships, changed)) && {
                &&& changed == !old(self)@.has_topic(topic@, partitions)
                &&& leaderships@ == Seq::new(
                    partitions as nat,
                    |i: int| final(self)@.entries[(topic@, i as u32)],
                )
            },
    {
        let changed: bool = self.ensure_topic(topic, partitions);
        let mut leaderships: Vec<PartitionLeadership> = Vec::new();
        let mut partition: u32 = 0;
        while partition < partitions
            invariant
                self.wf(),
                partition <= partitions,
                self@ == old(self)@.with_topic(topic@, partitions),
                leaderships@ == Seq::new(
                    partition as nat,
                    |i: int| self@.entries[(topic@, i as u32)],
                ),
            decreases partitions - partition,
        {
            match self.partition(topic, partition) {
                Ok(leadership) => leaderships.push(leadership),
                Err(error) => return Err(error),
            }
            partition = partition + 1;
        }
        Ok((leaderships, changed))
    }

    /// The leadership of a partition.
    pub fn partition(&self, topic: &str, partition: u32) -> (found: Result<
        PartitionLeadership,
        LeadershipError,
    >)
        requires
            self.wf(),
        ensures
            found == if self@.entries.dom().contains((topic@, partition)) {
                Ok::<PartitionLeadership, LeadershipError>(self@.entries[(topic@, partition)])
            } else {
                Err(LeadershipError::MissingPartition(partition))
            },
    {
        match self.entries.get(&(topic.to_owned(), partition)) {
            Some(leadership) => Ok(*leadership),
            None => Err(LeadershipError::MissingPartition(partition)),
        }
    }

    /// The leadership of a partition: the one that was recorded, or else the initial one.
    pub fn current(&self, topic: &str, partition: u32) -> (leadership: PartitionLeadership)
        requires
            self.wf(),
            self@.brokers.len() > 0,
        ensures
            leadership == self@.current(topic@, partition),
    {
        match self.partition(topic, partition) {
            Ok(leadership) => leadership,
            Err(_) => {
                let leader_id: u32 = cluster::leader_for_partition(&self.cluster, partition).id;
                proof {
                    let place = cluster::leader_index(self.cluster.nodes@.len(), partition);
                    assert(0 <= place < self.cluster.nodes@.len()) by (nonlinear_arith)
                        requires
                            self.cluster.nodes@.len() > 0,
                            place == partition as int % self.cluster.nodes@.len() as int,
                    ;
                    assert(self@.brokers[place] == self.cluster.nodes@[place].id);
                }
                PartitionLeadership { partition, leader_id, leader_epoch: 0, high_watermark: 0 }
            },
        }
    }

    /// The brokers of the cluster.
    pub fn brokers(&self) -> (brokers: Vec<u32>)
        ensures
            brokers@ == self@.brokers,
    {
        let mut brokers: Vec<u32> = Vec::new();
        for i in 0..self.cluster.nodes.len()
            invariant
                brokers@ == broker_ids(self.cluster).take(i as int),
        {
            brokers.push(self.cluster.nodes[i].id);
            assert(brokers@ =~= broker_ids(self.cluster).take(i + 1));
        }
        assert(brokers@ =~= broker_ids(self.cluster));
        brokers
    }

    fn knows_broker(&self, broker: u32) -> (known: bool)
        ensures
            known == self@.brokers.contains(broker),
    {
        let mut i: usize = 0;
        while i < self.cluster.nodes.len()
            invariant
                i <= self.cluster.nodes@.len(),
                self@.brokers == broker_ids(self.cluster),
                forall|j: int| 0 <= j < i ==> #[trigger] self@.brokers[j] != broker,
            decreases self.cluster.nodes@.len() - i,
        {
            assert(self@.brokers[i as int] == self.cluster.nodes@[i as int].id);
            if self.cluster.nodes[i].id == broker {
                return true;
            }
            i = i + 1;
        }
        false
    }

    /// Records a leadership, and tells whether that changed anything, so that the file has to be
    /// written. A stale one is refused.
    pub fn apply(&mut self, topic: &str, leadership: PartitionLeadership) -> (changed: Result<
        bool,
        LeadershipError,
    >)
        requires
            old(self).wf(),
        ensures
            final(self).wf(),
            match old(self)@.refusal(topic@, leadership) {
                Some(error) => changed == Err::<bool, LeadershipError>(error) && final(self)@
                    == old(self)@,
                None => {
                    let key = (topic@, leadership.partition);
                    &&& final(self)@ == old(self)@.with_entry(topic@, leadership)
                    &&& changed == Ok::<bool, LeadershipError>(
                        !(old(self)@.entries.dom().contains(key) && old(self)@.entries[key]
                            == leadership),
                    )
                },
            },
    {
        if !self.knows_broker(leadership.leader_id) {
            return Err(LeadershipError::UnknownBroker(leadership.leader_id));
        }
        let key = (topic.to_owned(), leadership.partition);
        if let Some(found) = self.entries.get(&key) {
            let current: PartitionLeadership = *found;
            if leadership.leader_epoch < current.leader_epoch || (leadership.leader_epoch
                == current.leader_epoch && (leadership.leader_id != current.leader_id
                || leadership.high_watermark < current.high_watermark)) {
                return Err(LeadershipError::StaleEpoch);
            }
            if leadership == current {
                proof {
                    assert(self@.entries =~= self@.with_entry(topic@, leadership).entries);
                }
                return Ok(false);
            }
        }
        self.entries.insert(key, leadership);
        Ok(true)
    }

    /// Takes note of the offset below which all records of a partition are committed, and tells
    /// whether that changed anything, so that the file has to be written. The high watermark
    /// never falls.
    pub fn raise_high_watermark(&mut self, topic: &str, partition: u32, high_watermark: u64) -> (
        changed: bool)
        requires
            old(self).wf(),
            old(self)@.brokers.len() > 0,
        ensures
            final(self).wf(),
            ({
                let current = old(self)@.current(topic@, partition);
                &&& changed == (high_watermark > current.high_watermark)
                &&& final(self)@ == old(self)@.raised(topic@, partition, high_watermark)
            }),
    {
        let current = self.current(topic, partition);
        if high_watermark <= current.high_watermark {
            return false;
        }
        self.entries.insert(
            (topic.to_owned(), partition),
            PartitionLeadership {
                partition,
                leader_id: current.leader_id,
                leader_epoch: current.leader_epoch,
                high_watermark,
            },
        );
        true
    }

    /// Sets the high watermark of a partition whose entry lacks one, and tells whether that
    /// changed anything, so that the file has to be written.
    pub fn migrate_high_watermark(
        &mut self,
        topic: &str,
        partition: u32,
        high_watermark: u64,
    ) -> (changed: Result<bool, LeadershipError>)
        requires
            old(self).wf(),
        ensures
            final(self).wf(),
            ({
                let key = (topic@, partition);
                let entry = old(self)@.entries[key];
                if !old(self)@.entries.dom().contains(key) {
                    &&& changed == Err::<bool, LeadershipError>(
                        LeadershipError::MissingPartition(partition),
                    )
                    &&& final(self)@ == old(self)@
                } else if entry.high_watermark != u64::MAX {
                    &&& changed == Ok::<bool, LeadershipError>(false)
                    &&& final(self)@ == old(self)@
                } else {
                    &&& changed == Ok::<bool, LeadershipError>(true)
                    &&& final(self)@ == old(self)@.with_entry(
                        topic@,
                        (PartitionLeadership { high_watermark, ..entry }),
                    )
                }
            }),
    {
        let key = (topic.to_owned(), partition);
        let entry: PartitionLeadership = match self.entries.get(&key) {
            Some(found) => *found,
            None => return Err(LeadershipError::MissingPartition(partition)),
        };
        if entry.high_watermark != u64::MAX {
            return Ok(false);
        }
        self.entries.insert(
            key,
            PartitionLeadership {
                partition: entry.partition,
                leader_id: entry.leader_id,
                leader_epoch: entry.leader_epoch,
                high_watermark,
            },
        );
        Ok(true)
    }
}

/// A line of the leadership file, without its end.
fn render_line(topic: &str, leadership: PartitionLeadership) -> (line: String)
    ensures
        line@ == entry_line(topic@, leadership),
{
    let mut out = topic.to_owned();
    out.append("\t");
    text::push_decimal(&mut out, leadership.partition as u64);
    out.append("\t");
    text::push_decimal(&mut out, leadership.leader_id as u64);
    out.append("\t");
    text::push_decimal(&mut out, leadership.leader_epoch);
    out.append("\t");
    text::push_decimal(&mut out, leadership.high_watermark);
    out
}

/// Recording the same leadership twice is the same as once: the second time it is accepted and
/// nothing changes.
pub proof fn apply_is_idempotent(
    registry: Registry,
    topic: Seq<char>,
    leadership: PartitionLeadership,
)
    requires
        registry.refusal(topic, leadership) is None,
    ensures
        ({
            let after = registry.with_entry(topic, leadership);
            &&& after.refusal(topic, leadership) is None
            &&& after.with_entry(topic, leadership) == after
        }),
{
    let after = registry.with_entry(topic, leadership);
    assert(after.with_entry(topic, leadership).entries =~= after.entries);
}

/// What is accepted never takes a partition back: the epoch does not fall, and within an epoch
/// the leader stays and the high watermark does not fall. What it replaced is refused from then
/// on, unless it is the same.
pub proof fn leadership_only_advances(
    registry: Registry,
    topic: Seq<char>,
    leadership: PartitionLeadership,
)
    requires
        registry.refusal(topic, leadership) is None,
        registry.entries.dom().contains((topic, leadership.partition)),
    ensures
        ({
            let before = registry.entries[(topic, leadership.partition)];
            let after = registry.with_entry(topic, leadership);
            &&& before.leader_epoch <= leadership.leader_epoch
            &&& before.leader_epoch == leadership.leader_epoch ==> before.leader_id
                == leadership.leader_id && before.high_watermark <= leadership.high_watermark
            &&& before.partition == leadership.partition && registry.brokers.contains(
                before.leader_id,
            ) && before != leadership ==> after.refusal(topic, before) == Some(
                LeadershipError::StaleEpoch,
            )
        }),
{
}

/// A decimal number holds neither a tabulator nor a line feed.
proof fn lemma_decimal_lacks(value: nat)
    ensures
        text::lacks(text::decimal(value), '\t'),
        text::lacks(text::decimal(value), '\n'),
{
    text::lemma_decimal(value);
    assert forall|i: int| 0 <= i < text::decimal(value).len() implies #[trigger] text::decimal(
        value,
    )[i] != '\t' && text::decimal(value)[i] != '\n' by {
        assert(text::is_digit(text::decimal(value)[i]));
    }
}

/// A line is split into the fields that it was made of.
proof fn lemma_line_fields(topic: Seq<char>, leadership: PartitionLeadership)
    requires
        text::lacks(topic, '\t'),
        text::lacks(topic, '\n'),
    ensures
        parsed_fields(text::split_on(entry_line(topic, leadership), '\t')) == Some(
            (topic, leadership),
        ),
        text::lacks(entry_line(topic, leadership), '\n'),
        entry_line(topic, leadership).len() > 0,
        text::without_return(entry_line(topic, leadership)) == entry_line(topic, leadership),
{
    reveal_strlit("\t");
    let partition = text::decimal(leadership.partition as nat);
    let leader_id = text::decimal(leadership.leader_id as nat);
    let epoch = text::decimal(leadership.leader_epoch as nat);
    let watermark = text::decimal(leadership.high_watermark as nat);
    let line = entry_line(topic, leadership);
    lemma_decimal_lacks(leadership.partition as nat);
    lemma_decimal_lacks(leadership.leader_id as nat);
    lemma_decimal_lacks(leadership.leader_epoch as nat);
    lemma_decimal_lacks(leadership.high_watermark as nat);
    let from_epoch = epoch.push('\t') + watermark;
    let from_leader = leader_id.push('\t') + from_epoch;
    let from_partition = partition.push('\t') + from_leader;
    assert("\t"@ =~= seq!['\t']);
    assert(line =~= topic.push('\t') + from_partition);
    text::lemma_split_piece(topic, '\t', from_partition);
    text::lemma_split_piece(partition, '\t', from_leader);
    text::lemma_split_piece(leader_id, '\t', from_epoch);
    text::lemma_split_piece(epoch, '\t', watermark);
    text::lemma_split_whole(watermark, '\t');
    let fields = text::split_on(line, '\t');
    assert(fields =~= seq![topic, partition, leader_id, epoch, watermark]);
    text::lemma_decimal_parses(leadership.partition as nat, u32::MAX as nat);
    text::lemma_decimal_parses(leadership.leader_id as nat, u32::MAX as nat);
    text::lemma_decimal_parses(leadership.leader_epoch as nat, u64::MAX as nat);
    text::lemma_decimal_parses(leadership.high_watermark as nat, u64::MAX as nat);
    text::lemma_decimal(leadership.high_watermark as nat);
    assert(line.last() == watermark.last());
    assert(text::is_digit(watermark.last()));
}

proof fn lemma_parse_rendered(keys: Seq<(Seq<char>, u32)>, entries: Entries, so_far: Entries)
    requires
        keys_agree(entries),
        forall|i: int|
            0 <= i < keys.len() ==> entries.dom().contains(#[trigger] keys[i]) && text::lacks(
                keys[i].0,
                '\t',
            ) && text::lacks(keys[i].0, '\n'),
    ensures
        parsed_lines(text::lines(rendered(keys, entries)), so_far) == Some(
            added(keys, entries, so_far),
        ),
    decreases keys.len(),
{
    if keys.len() > 0 {
        let key = keys[0];
        let line = entry_line(key.0, entries[key]);
        let more = keys.skip(1);
        let rest = rendered(more, entries);
        assert forall|i: int| 0 <= i < more.len() implies entries.dom().contains(
            #[trigger] more[i],
        ) && text::lacks(more[i].0, '\t') && text::lacks(more[i].0, '\n') by {
            assert(more[i] == keys[i + 1]);
        }
        lemma_line_fields(key.0, entries[key]);
        text::lemma_lines_first(line, rest);
        let all = text::lines(rendered(keys, entries));
        assert(all =~= seq![line] + text::lines(rest));
        assert(all.skip(1) =~= text::lines(rest));
        assert(all[0] == line);
        lemma_parse_rendered(more, entries, so_far.insert(key, entries[key]));
    } else {
        assert(text::lines(rendered(keys, entries)) =~= Seq::empty());
    }
}

/// `so_far` with the entries of `keys`.
spec fn added(keys: Seq<(Seq<char>, u32)>, entries: Entries, so_far: Entries) -> Entries
    decreases keys.len(),
{
    if keys.len() == 0 {
        so_far
    } else {
        added(keys.skip(1), entries, so_far.insert(keys[0], entries[keys[0]]))
    }
}

proof fn lemma_added(keys: Seq<(Seq<char>, u32)>, entries: Entries, so_far: Entries)
    requires
        forall|key: (Seq<char>, u32)| #[trigger]
            so_far.dom().contains(key) ==> so_far[key] == entries[key],
    ensures
        forall|key: (Seq<char>, u32)| #[trigger]
            added(keys, entries, so_far).dom().contains(key) <==> so_far.dom().contains(key)
                || keys.contains(key),
        forall|key: (Seq<char>, u32)| #[trigger]
            added(keys, entries, so_far).dom().contains(key) ==> added(
                keys,
                entries,
                so_far,
            )[key] == entries[key],
    decreases keys.len(),
{
    if keys.len() > 0 {
        let more = keys.skip(1);
        let next = so_far.insert(keys[0], entries[keys[0]]);
        lemma_added(more, entries, next);
        let all = added(more, entries, next);
        assert(added(keys, entries, so_far) == all);
        assert forall|key: (Seq<char>, u32)| #[trigger]
            added(keys, entries, so_far).dom().contains(key) <==> so_far.dom().contains(key)
                || keys.contains(key) by {
            assert(all.dom().contains(key) <==> next.dom().contains(key) || more.contains(key));
            if more.contains(key) {
                let i = choose|i: int| 0 <= i < more.len() && more[i] == key;
                assert(keys[i + 1] == key);
            }
            if keys.contains(key) && key != keys[0] {
                let i = choose|i: int| 0 <= i < keys.len() && keys[i] == key;
                assert(more[i - 1] == key);
            }
            assert(keys.contains(keys[0]));
        }
        assert forall|key: (Seq<char>, u32)| #[trigger]
            added(keys, entries, so_far).dom().contains(key) implies added(
            keys,
            entries,
            so_far,
        )[key] == entries[key] by {
            assert(all.dom().contains(key));
        }
    }
}

/// The entries of every registry are such as a leadership file keeps.
pub proof fn registry_entries_agree(registry: LeadershipRegistry)
    requires
        registry.wf(),
    ensures
        registry@.entries.dom().finite(),
        keys_agree(registry@.entries),
{
    registry.entries.lemma_ordered();
}

/// What is written to the leadership file is read back, for topics that hold neither a
/// tabulator nor a line feed.
pub proof fn leadership_file_round_trip(entries: Entries)
    requires
        entries.dom().finite(),
        keys_agree(entries),
        forall|key: (Seq<char>, u32)| #[trigger]
            entries.dom().contains(key) ==> text::lacks(key.0, '\t') && text::lacks(key.0, '\n'),
    ensures
        parsed_entries(
            rendered(sorted::in_order::<(String, u32)>(entries.dom()), entries),
        ) == Some(entries),
{
    let keys = sorted::in_order::<(String, u32)>(entries.dom());
    sorted::lemma_finite_order::<(String, u32)>(entries.dom());
    assert forall|i: int| 0 <= i < keys.len() implies entries.dom().contains(#[trigger] keys[i])
        && text::lacks(keys[i].0, '\t') && text::lacks(keys[i].0, '\n') by {
        assert(keys.contains(keys[i]));
    }
    lemma_parse_rendered(keys, entries, Map::empty());
    lemma_added(keys, entries, Map::empty());
    let read = added(keys, entries, Map::empty());
    assert forall|key: (Seq<char>, u32)| #[trigger] read.dom().contains(key) <==> entries.dom()
        .contains(key) by {
        assert(entries.dom().contains(key) <==> keys.contains(key));
    }
    assert(read =~= entries);
}

/// A leadership is accepted exactly where its leader is a broker of the cluster and it is newer
/// than the one that is recorded: of a later epoch, or of the same epoch and leader with a high
/// watermark that is not lower. A partition without a recorded one takes any.
pub proof fn newer_leaderships_are_accepted(
    registry: Registry,
    topic: Seq<char>,
    proposed: PartitionLeadership,
)
    ensures
        ({
            let key = (topic, proposed.partition);
            let current = registry.entries[key];
            let known = registry.entries.dom().contains(key);
            let newer = proposed.leader_epoch > current.leader_epoch || (proposed.leader_epoch
                == current.leader_epoch && proposed.leader_id == current.leader_id
                && proposed.high_watermark >= current.high_watermark);
            &&& registry.refusal(topic, proposed) is None <==> registry.brokers.contains(
                proposed.leader_id,
            ) && (!known || newer)
            &&& !registry.brokers.contains(proposed.leader_id) ==> registry.refusal(topic, proposed)
                == Some(LeadershipError::UnknownBroker(proposed.leader_id))
            &&& registry.brokers.contains(proposed.leader_id) && known && !newer
                ==> registry.refusal(topic, proposed) == Some(LeadershipError::StaleEpoch)
        }),
{
}

/// What is recorded of a partition is its leadership from then on, and nothing else changes.
pub proof fn recorded_leadership_is_current(
    registry: Registry,
    topic: Seq<char>,
    leadership: PartitionLeadership,
    other_topic: Seq<char>,
    other: u32,
)
    ensures
        ({
            let after = registry.with_entry(topic, leadership);
            &&& after.current(topic, leadership.partition) == leadership
            &&& (other_topic, other) != (topic, leadership.partition) ==> after.current(
                other_topic,
                other,
            ) == registry.current(other_topic, other)
            &&& after.brokers == registry.brokers
            &&& after.path == registry.path
        }),
{
}

/// A partition for which nothing was recorded is led by the broker whose turn it is, in the first
/// epoch, with nothing committed.
pub proof fn partitions_start_in_turn(registry: Registry, topic: Seq<char>, partition: u32)
    requires
        registry.brokers.len() > 0,
        !registry.entries.dom().contains((topic, partition)),
    ensures
        ({
            let current = registry.current(topic, partition);
            &&& current.partition == partition
            &&& exists|round: int, place: int|
                #![trigger round * registry.brokers.len(), registry.brokers[place]]
                0 <= place < registry.brokers.len() && partition == round
                    * registry.brokers.len() + place && current.leader_id
                    == registry.brokers[place]
            &&& current.leader_epoch == 0
            &&& current.high_watermark == 0
        }),
{
    let count = registry.brokers.len() as int;
    let round = partition as int / count;
    let place = partition as int % count;
    vstd::arithmetic::div_mod::lemma_fundamental_div_mod(partition as int, count);
    vstd::arithmetic::div_mod::lemma_mod_bound(partition as int, count);
    vstd::arithmetic::mul::lemma_mul_is_commutative(count, round);
    assert(partition == round * registry.brokers.len() + place);
    assert(registry.current(topic, partition).leader_id == registry.brokers[place]);
}

/// A new topic gets a leadership for each of its partitions. Those that were recorded stay, and no
/// partition's leadership changes by it.
pub proof fn new_topic_keeps_leaderships(
    registry: Registry,
    topic: Seq<char>,
    partitions: u32,
    other_topic: Seq<char>,
    other: u32,
)
    ensures
        ({
            let after = registry.with_topic(topic, partitions);
            &&& other < partitions ==> after.entries.dom().contains((topic, other))
            &&& after.current(other_topic, other) == registry.current(other_topic, other)
            &&& after.entries.dom().contains((other_topic, other)) ==> registry.entries.dom()
                .contains((other_topic, other)) || (other_topic == topic && other < partitions)
            &&& registry.entries.dom().contains((other_topic, other)) ==> after.entries.dom()
                .contains((other_topic, other))
        }),
{
}

/// A high watermark that is recorded is the highest that was: it never falls, and the leader and
/// the epoch stay.
pub proof fn raised_watermark_is_highest(
    registry: Registry,
    topic: Seq<char>,
    partition: u32,
    high_watermark: u64,
    other_topic: Seq<char>,
    other: u32,
)
    requires
        keys_agree(registry.entries),
    ensures
        ({
            let before = registry.current(topic, partition);
            let after = registry.raised(topic, partition, high_watermark);
            let now = after.current(topic, partition);
            &&& now.high_watermark >= high_watermark
            &&& now.high_watermark >= before.high_watermark
            &&& now.high_watermark == high_watermark || now.high_watermark == before.high_watermark
            &&& now.leader_id == before.leader_id
            &&& now.leader_epoch == before.leader_epoch
            &&& now.partition == before.partition
            &&& (other_topic, other) != (topic, partition) ==> after.current(other_topic, other)
                == registry.current(other_topic, other)
        }),
{
}

/// The listed leaders of a topic are the current ones of its partitions, in order.
pub proof fn leaders_are_current(registry: Registry, topic: Seq<char>, partitions: u32, place: u32)
    requires
        place < partitions,
    ensures
        registry.leaders(topic, partitions).len() == partitions,
        registry.leaders(topic, partitions)[place as int] == registry.current(topic, place),
{
}

/// A registry has a topic exactly where completing the topic changes nothing, and once the topic is
/// completed the registry has it.
pub proof fn completed_topic_is_there(registry: Registry, topic: Seq<char>, partitions: u32)
    ensures
        registry.has_topic(topic, partitions) <==> registry.with_topic(topic, partitions)
            == registry,
        registry.with_topic(topic, partitions).has_topic(topic, partitions),
{
    let completed = registry.with_topic(topic, partitions);
    if registry.has_topic(topic, partitions) {
        assert forall|key: (Seq<char>, u32)| completed.entries.dom().contains(key)
            == registry.entries.dom().contains(key) by {
            if key.0 == topic && key.1 < partitions {
                assert(registry.entries.dom().contains((topic, key.1)));
            }
        }
        assert(completed.entries =~= registry.entries);
    } else {
        let partition = choose|partition: u32|
            partition < partitions && !(#[trigger] registry.entries.dom().contains(
                (topic, partition),
            ));
        assert(completed.entries.dom().contains((topic, partition)));
    }
}

} // verus!
