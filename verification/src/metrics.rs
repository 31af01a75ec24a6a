//! The metrics page of a broker: runtime metrics, topics, partitions, replicas and consumer
//! groups in the text format that Prometheus reads.

use vstd::prelude::*;

use crate::cluster::{ClusterMetadata, ClusterNode};
use crate::groups::GroupSnapshot;
use crate::observability;
use crate::observability::RuntimeMetrics;
use crate::sorted;
use crate::sorted::SortedMap;
use crate::text;

verus! {

/// A partition and the extent of its log.
#[derive(Debug)]
pub struct PartitionSnapshot {
    pub topic: String,
    pub partition: u32,
    pub log_end_offset: u64,
    pub high_watermark: u64,
    pub low_watermark: u64,
    pub log_size_bytes: u64,
    pub segments: usize,
}

/// The next offset that a follower acknowledged for a partition.
#[derive(Debug)]
pub struct ReplicaOffset {
    pub follower: u32,
    pub topic: String,
    pub partition: u32,
    pub offset: u64,
}

/// Where the entry of a follower for a partition stands: behind the last, where there is none.
pub open spec fn place_of(
    replicas: Seq<ReplicaOffset>,
    follower: u32,
    topic: Seq<char>,
    partition: u32,
) -> nat
    decreases replicas.len(),
{
    if replicas.len() == 0 || (replicas[0].follower == follower && replicas[0].topic@ == topic
        && replicas[0].partition == partition) {
        0
    } else {
        1 + place_of(replicas.skip(1), follower, topic, partition)
    }
}

/// Whether `after` differs from `before` in what is noted of a follower and a partition alone.
pub open spec fn notes_replica(
    before: Seq<ReplicaOffset>,
    after: Seq<ReplicaOffset>,
    follower: u32,
    topic: Seq<char>,
    partition: u32,
    offset: u64,
) -> bool {
    let place = place_of(before, follower, topic, partition) as int;
    let noted = after[place];
    &&& noted.follower == follower
    &&& noted.topic@ == topic
    &&& noted.partition == partition
    &&& noted.offset == offset
    &&& after == if place < before.len() {
        before.update(place, noted)
    } else {
        before.push(noted)
    }
}

/// Takes note of the next offset that a follower acknowledged for a partition.
pub fn note_replica(
    replicas: &mut Vec<ReplicaOffset>,
    follower: u32,
    topic: &str,
    partition: u32,
    offset: u64,
)
    ensures
        notes_replica(
            old(replicas)@,
            final(replicas)@,
            follower,
            topic@,
            partition,
            offset,
        ),
{
    let ghost before = replicas@;
    let entry = ReplicaOffset { follower, topic: topic.to_owned(), partition, offset };
    let mut i: usize = 0;
    assert(before.skip(0) =~= before);
    while i < replicas.len() && !(replicas[i].follower == follower && replicas[i].partition
        == partition && text::same(replicas[i].topic.as_str(), topic))
        invariant
            replicas@ == before,
            i <= before.len(),
            place_of(before, follower, topic@, partition) == i + place_of(
                before.skip(i as int),
                follower,
                topic@,
                partition,
            ),
        decreases before.len() - i,
    {
        assert(before.skip(i as int).skip(1) =~= before.skip(i + 1));
        i = i + 1;
    }
    if i < replicas.len() {
        replicas.set(i, entry);
    } else {
        replicas.push(entry);
    }
}

pub open spec fn gauge_header(name: Seq<char>, help: Seq<char>) -> Seq<char> {
    observability::header_text(name, help, "gauge"@)
}

/// A value with its labels.
pub open spec fn labelled(name: Seq<char>, labels: Seq<char>, value: nat) -> Seq<char> {
    name + "{"@ + labels + "} "@ + text::decimal(value) + "\n"@
}

/// `a - b`, or zero where `b` is larger.
pub open spec fn difference(a: u64, b: u64) -> nat {
    if a > b {
        (a - b) as nat
    } else {
        0
    }
}

/// A sum as it is counted: the largest count stands for larger ones.
pub open spec fn capped(sum: nat) -> nat {
    if sum > u64::MAX {
        u64::MAX as nat
    } else {
        sum
    }
}

pub open spec fn topic_label(topic: Seq<char>) -> Seq<char> {
    "topic=\""@ + observability::escaped(topic) + "\""@
}

pub open spec fn partition_labels(topic: Seq<char>, partition: u32) -> Seq<char> {
    topic_label(topic) + ",partition=\""@ + text::decimal(partition as nat) + "\""@
}

/// The lines of one partition.
pub open spec fn partition_lines(snapshot: PartitionSnapshot) -> Seq<char> {
    let labels = partition_labels(snapshot.topic@, snapshot.partition);
    labelled("sevlamq_partition_high_watermark"@, labels, snapshot.high_watermark as nat)
        + labelled("sevlamq_partition_low_watermark"@, labels, snapshot.low_watermark as nat)
        + labelled(
        "sevlamq_partition_records"@,
        labels,
        difference(snapshot.log_end_offset, snapshot.low_watermark),
    ) + labelled("sevlamq_partition_log_size_bytes"@, labels, snapshot.log_size_bytes as nat)
        + labelled("sevlamq_partition_segments"@, labels, snapshot.segments as nat)
}

pub open spec fn all_partition_lines(partitions: Seq<PartitionSnapshot>) -> Seq<char>
    decreases partitions.len(),
{
    if partitions.len() == 0 {
        Seq::empty()
    } else {
        all_partition_lines(partitions.drop_last()) + partition_lines(partitions.last())
    }
}

pub open spec fn partition_section(partitions: Seq<PartitionSnapshot>) -> Seq<char> {
    gauge_header("sevlamq_partition_high_watermark"@, "Next offset of a partition."@)
        + gauge_header("sevlamq_partition_low_watermark"@, "Earliest available offset."@)
        + gauge_header(
        "sevlamq_partition_records"@,
        "Records currently retained in a partition."@,
    ) + gauge_header("sevlamq_partition_log_size_bytes"@, "Bytes stored in partition logs."@)
        + gauge_header("sevlamq_partition_segments"@, "Number of log segments."@)
        + all_partition_lines(partitions)
}

fn gauge(name: &str, help: &str) -> (lines: String)
    ensures
        lines@ == gauge_header(name@, help@),
{
    observability::header(name, help, "gauge")
}

fn labelled_line(name: &str, labels: &str, value: u64) -> (line: String)
    ensures
        line@ == labelled(name@, labels@, value as nat),
{
    let mut out = name.to_owned();
    out.append("{");
    out.append(labels);
    out.append("} ");
    text::push_decimal(&mut out, value);
    out.append("\n");
    out
}

fn render_topic_label(topic: &str) -> (label: String)
    ensures
        label@ == topic_label(topic@),
{
    let mut out = "topic=\"".to_owned();
    let escaped = observability::escape_label(topic);
    out.append(escaped.as_str());
    out.append("\"");
    out
}

fn render_partition_labels(topic: &str, partition: u32) -> (labels: String)
    ensures
        labels@ == partition_labels(topic@, partition),
{
    let mut out = render_topic_label(topic);
    out.append(",partition=\"");
    text::push_decimal(&mut out, partition as u64);
    out.append("\"");
    out
}

fn render_partition(snapshot: &PartitionSnapshot) -> (lines: String)
    ensures
        lines@ == partition_lines(*snapshot),
{
    let labels = render_partition_labels(snapshot.topic.as_str(), snapshot.partition);
    let mut out = labelled_line(
        "sevlamq_partition_high_watermark",
        labels.as_str(),
        snapshot.high_watermark,
    );
    out.append(
        labelled_line(
            "sevlamq_partition_low_watermark",
            labels.as_str(),
            snapshot.low_watermark,
        ).as_str(),
    );
    out.append(
        labelled_line(
            "sevlamq_partition_records",
            labels.as_str(),
            snapshot.log_end_offset.saturating_sub(snapshot.low_watermark),
        ).as_str(),
    );
    out.append(
        labelled_line(
            "sevlamq_partition_log_size_bytes",
            labels.as_str(),
            snapshot.log_size_bytes,
        ).as_str(),
    );
    out.append(
        labelled_line(
            "sevlamq_partition_segments",
            labels.as_str(),
            snapshot.segments as u64,
        ).as_str(),
    );
    out
}

/// Appends the section of the partitions.
pub fn render_partition_metrics(output: &mut String, partitions: &Vec<PartitionSnapshot>)
    ensures
        final(output)@ == old(output)@ + partition_section(partitions@),
{
    let mut out = gauge("sevlamq_partition_high_watermark", "Next offset of a partition.");
    out.append(gauge("sevlamq_partition_low_watermark", "Earliest available offset.").as_str());
    out.append(
        gauge(
            "sevlamq_partition_records",
            "Records currently retained in a partition.",
        ).as_str(),
    );
    out.append(
        gauge("sevlamq_partition_log_size_bytes", "Bytes stored in partition logs.").as_str(),
    );
    out.append(gauge("sevlamq_partition_segments", "Number of log segments.").as_str());
    let mut lines = String::new();
    let mut i: usize = 0;
    while i < partitions.len()
        invariant
            i <= partitions@.len(),
            lines@ == all_partition_lines(partitions@.take(i as int)),
        decreases partitions@.len() - i,
    {
        proof {
            assert(partitions@.take(i + 1).drop_last() =~= partitions@.take(i as int));
        }
        lines.append(render_partition(&partitions[i]).as_str());
        i = i + 1;
    }
    assert(partitions@.take(i as int) =~= partitions@);
    out.append(lines.as_str());
    output.append(out.as_str());
}

/// Where the log of a partition ends, from the first snapshot of it; zero where there is none.
pub open spec fn log_end_of(
    partitions: Seq<PartitionSnapshot>,
    topic: Seq<char>,
    partition: u32,
) -> u64
    decreases partitions.len(),
{
    if partitions.len() == 0 {
        0
    } else if partitions[0].topic@ == topic && partitions[0].partition == partition {
        partitions[0].log_end_offset
    } else {
        log_end_of(partitions.skip(1), topic, partition)
    }
}

/// The lines of one replica.
pub open spec fn replica_lines(replica: ReplicaOffset, partitions: Seq<PartitionSnapshot>) -> Seq<
    char,
> {
    let labels = "follower_id=\""@ + text::decimal(replica.follower as nat) + "\","@
        + partition_labels(replica.topic@, replica.partition);
    labelled("sevlamq_replica_offset"@, labels, replica.offset as nat) + labelled(
        "sevlamq_replication_lag_records"@,
        labels,
        difference(
            log_end_of(partitions, replica.topic@, replica.partition),
            replica.offset,
        ),
    )
}

pub open spec fn all_replica_lines(
    replicas: Seq<ReplicaOffset>,
    partitions: Seq<PartitionSnapshot>,
) -> Seq<char>
    decreases replicas.len(),
{
    if replicas.len() == 0 {
        Seq::empty()
    } else {
        all_replica_lines(replicas.drop_last(), partitions) + replica_lines(
            replicas.last(),
            partitions,
        )
    }
}

pub open spec fn replication_section(
    replicas: Seq<ReplicaOffset>,
    partitions: Seq<PartitionSnapshot>,
) -> Seq<char> {
    gauge_header("sevlamq_replica_offset"@, "Next offset acknowledged by a follower."@)
        + gauge_header(
        "sevlamq_replication_lag_records"@,
        "Records not yet acknowledged by a follower."@,
    ) + all_replica_lines(replicas, partitions)
}

fn find_log_end(partitions: &Vec<PartitionSnapshot>, topic: &str, partition: u32) -> (
    log_end: u64)
    ensures
        log_end == log_end_of(partitions@, topic@, partition),
{
    let mut i: usize = 0;
    assert(partitions@.skip(0) =~= partitions@);
    while i < partitions.len()
        invariant
            i <= partitions@.len(),
            log_end_of(partitions@, topic@, partition) == log_end_of(
                partitions@.skip(i as int),
                topic@,
                partition,
            ),
        decreases partitions@.len() - i,
    {
        assert(partitions@.skip(i as int).skip(1) =~= partitions@.skip(i + 1));
        let snapshot = &partitions[i];
        if text::same(snapshot.topic.as_str(), topic) && snapshot.partition == partition {
            return snapshot.log_end_offset;
        }
        i = i + 1;
    }
    0
}

fn render_replica(replica: &ReplicaOffset, partitions: &Vec<PartitionSnapshot>) -> (lines: String)
    ensures
        lines@ == replica_lines(*replica, partitions@),
{
    let log_end: u64 = find_log_end(
        partitions,
        replica.topic.as_str(),
        replica.partition,
    );
    let mut labels = "follower_id=\"".to_owned();
    text::push_decimal(&mut labels, replica.follower as u64);
    labels.append("\",");
    labels.append(render_partition_labels(replica.topic.as_str(), replica.partition).as_str());
    let mut out = labelled_line("sevlamq_replica_offset", labels.as_str(), replica.offset);
    out.append(
        labelled_line(
            "sevlamq_replication_lag_records",
            labels.as_str(),
            log_end.saturating_sub(replica.offset),
        ).as_str(),
    );
    out
}

/// Appends the section of the replicas.
pub fn render_replication_metrics(
    output: &mut String,
    replicas: &Vec<ReplicaOffset>,
    partitions: &Vec<PartitionSnapshot>,
)
    ensures
        final(output)@ == old(output)@ + replication_section(replicas@, partitions@),
{
    let mut out = gauge("sevlamq_replica_offset", "Next offset acknowledged by a follower.");
    out.append(
        gauge(
            "sevlamq_replication_lag_records",
            "Records not yet acknowledged by a follower.",
        ).as_str(),
    );
    let mut lines = String::new();
    let mut i: usize = 0;
    while i < replicas.len()
        invariant
            i <= replicas@.len(),
            lines@ == all_replica_lines(replicas@.take(i as int), partitions@),
        decreases replicas@.len() - i,
    {
        proof {
            assert(replicas@.take(i + 1).drop_last() =~= replicas@.take(i as int));
        }
        lines.append(render_replica(&replicas[i], partitions).as_str());
        i = i + 1;
    }
    assert(replicas@.take(i as int) =~= replicas@);
    out.append(lines.as_str());
    output.append(out.as_str());
}

/// How many followers have all committed records of a partition.
pub open spec fn followers_in_sync(replicas: Seq<ReplicaOffset>, snapshot: PartitionSnapshot) -> nat
    decreases replicas.len(),
{
    if replicas.len() == 0 {
        0
    } else {
        let last = replicas.last();
        followers_in_sync(replicas.drop_last(), snapshot) + if last.topic@ == snapshot.topic@
            && last.partition == snapshot.partition && last.offset >= snapshot.high_watermark {
            1nat
        } else {
            0nat
        }
    }
}

/// The end of a partition's log, and how many replicas are in sync: the leader, and the followers
/// that have all committed records.
pub open spec fn extent_lines(snapshot: PartitionSnapshot, replicas: Seq<ReplicaOffset>) -> Seq<
    char,
> {
    let labels = partition_labels(snapshot.topic@, snapshot.partition);
    labelled("sevlamq_partition_log_end_offset"@, labels, snapshot.log_end_offset as nat)
        + labelled(
        "sevlamq_partition_isr"@,
        labels,
        capped(1 + followers_in_sync(replicas, snapshot)),
    )
}

pub open spec fn all_extent_lines(
    partitions: Seq<PartitionSnapshot>,
    replicas: Seq<ReplicaOffset>,
) -> Seq<char>
    decreases partitions.len(),
{
    if partitions.len() == 0 {
        Seq::empty()
    } else {
        all_extent_lines(partitions.drop_last(), replicas) + extent_lines(
            partitions.last(),
            replicas,
        )
    }
}

pub open spec fn extent_section(
    partitions: Seq<PartitionSnapshot>,
    replicas: Seq<ReplicaOffset>,
) -> Seq<char> {
    gauge_header(
        "sevlamq_partition_log_end_offset"@,
        "Offset behind the last record of a partition log."@,
    ) + gauge_header(
        "sevlamq_partition_isr"@,
        "Replicas that hold all committed records of a partition."@,
    ) + all_extent_lines(partitions, replicas)
}

fn count_in_sync(replicas: &Vec<ReplicaOffset>, snapshot: &PartitionSnapshot) -> (count: usize)
    ensures
        count == followers_in_sync(replicas@, *snapshot),
        count <= replicas@.len(),
{
    let mut count: usize = 0;
    let mut i: usize = 0;
    while i < replicas.len()
        invariant
            i <= replicas@.len(),
            count <= i,
            count == followers_in_sync(replicas@.take(i as int), *snapshot),
        decreases replicas@.len() - i,
    {
        assert(replicas@.take(i + 1).drop_last() =~= replicas@.take(i as int));
        let replica = &replicas[i];
        if replica.partition == snapshot.partition && replica.offset >= snapshot.high_watermark
            && text::same(replica.topic.as_str(), snapshot.topic.as_str()) {
            count = count + 1;
        }
        i = i + 1;
    }
    assert(replicas@.take(i as int) =~= replicas@);
    count
}

/// Appends the section on the ends of the logs and on the replicas that are in sync.
pub fn render_extent_metrics(
    output: &mut String,
    partitions: &Vec<PartitionSnapshot>,
    replicas: &Vec<ReplicaOffset>,
)
    ensures
        final(output)@ == old(output)@ + extent_section(partitions@, replicas@),
{
    let mut out = gauge(
        "sevlamq_partition_log_end_offset",
        "Offset behind the last record of a partition log.",
    );
    out.append(
        gauge(
            "sevlamq_partition_isr",
            "Replicas that hold all committed records of a partition.",
        ).as_str(),
    );
    let mut lines = String::new();
    let mut i: usize = 0;
    while i < partitions.len()
        invariant
            i <= partitions@.len(),
            lines@ == all_extent_lines(partitions@.take(i as int), replicas@),
        decreases partitions@.len() - i,
    {
        proof {
            assert(partitions@.take(i + 1).drop_last() =~= partitions@.take(i as int));
        }
        let snapshot = &partitions[i];
        let labels = render_partition_labels(snapshot.topic.as_str(), snapshot.partition);
        let following: usize = count_in_sync(replicas, snapshot);
        let in_sync: u64 = (following as u64).saturating_add(1);
        let mut line = labelled_line(
            "sevlamq_partition_log_end_offset",
            labels.as_str(),
            snapshot.log_end_offset,
        );
        line.append(labelled_line("sevlamq_partition_isr", labels.as_str(), in_sync).as_str());
        lines.append(line.as_str());
        i = i + 1;
    }
    assert(partitions@.take(i as int) =~= partitions@);
    out.append(lines.as_str());
    output.append(out.as_str());
}

/// The committed offset of a partition; zero where there is none.
pub open spec fn committed_of(offsets: Seq<(u32, u64)>, partition: u32) -> u64
    decreases offsets.len(),
{
    if offsets.len() == 0 {
        0
    } else if offsets[0].0 == partition {
        offsets[0].1
    } else {
        committed_of(offsets.skip(1), partition)
    }
}

/// How many records of a partition a group has not consumed: those from the committed offset on
/// that the partition still holds.
pub open spec fn lag_of(snapshot: PartitionSnapshot, committed: u64) -> nat {
    difference(
        snapshot.high_watermark,
        if committed > snapshot.low_watermark {
            committed
        } else {
            snapshot.low_watermark
        },
    )
}

/// The lag of a group over all partitions of its topic.
pub open spec fn lag_sum(partitions: Seq<PartitionSnapshot>, group: GroupSnapshot) -> nat
    decreases partitions.len(),
{
    if partitions.len() == 0 {
        0
    } else {
        let last = partitions.last();
        lag_sum(partitions.drop_last(), group) + if last.topic@ == group.topic@ {
            lag_of(last, committed_of(group.committed_offsets@, last.partition))
        } else {
            0
        }
    }
}

pub open spec fn group_labels(group: GroupSnapshot) -> Seq<char> {
    "group=\""@ + observability::escaped(group.group@) + "\","@ + topic_label(group.topic@)
}

/// The lines of a group on the partitions of its topic.
pub open spec fn group_partition_lines(
    partitions: Seq<PartitionSnapshot>,
    group: GroupSnapshot,
) -> Seq<char>
    decreases partitions.len(),
{
    if partitions.len() == 0 {
        Seq::empty()
    } else {
        let last = partitions.last();
        let before = group_partition_lines(partitions.drop_last(), group);
        if last.topic@ == group.topic@ {
            let committed = committed_of(group.committed_offsets@, last.partition);
            let labels = group_labels(group) + ",partition=\""@ + text::decimal(
                last.partition as nat,
            ) + "\""@;
            before + labelled(
                "sevlamq_consumer_group_committed_offset"@,
                labels,
                committed as nat,
            ) + labelled("sevlamq_consumer_group_lag"@, labels, lag_of(last, committed))
        } else {
            before
        }
    }
}

/// The lines of one group.
pub open spec fn group_lines(partitions: Seq<PartitionSnapshot>, group: GroupSnapshot) -> Seq<
    char,
> {
    let labels = group_labels(group);
    labelled("sevlamq_consumer_group_members"@, labels, group.members as nat) + labelled(
        "sevlamq_consumer_group_generation"@,
        labels,
        group.generation as nat,
    ) + labelled(
        "sevlamq_consumer_group_assigned_partitions"@,
        labels,
        group.assigned_partitions as nat,
    ) + group_partition_lines(partitions, group) + labelled(
        "sevlamq_consumer_group_lag_total"@,
        labels,
        capped(lag_sum(partitions, group)),
    )
}

pub open spec fn all_group_lines(
    partitions: Seq<PartitionSnapshot>,
    groups: Seq<GroupSnapshot>,
) -> Seq<char>
    decreases groups.len(),
{
    if groups.len() == 0 {
        Seq::empty()
    } else {
        all_group_lines(partitions, groups.drop_last()) + group_lines(partitions, groups.last())
    }
}

pub open spec fn group_section(
    partitions: Seq<PartitionSnapshot>,
    groups: Seq<GroupSnapshot>,
) -> Seq<char> {
    gauge_header("sevlamq_consumer_group_members"@, "Active consumer group members."@)
        + gauge_header(
        "sevlamq_consumer_group_generation"@,
        "Current consumer group generation."@,
    ) + gauge_header(
        "sevlamq_consumer_group_assigned_partitions"@,
        "Partitions assigned to active members."@,
    ) + gauge_header(
        "sevlamq_consumer_group_committed_offset"@,
        "Committed next offset for a partition."@,
    ) + gauge_header(
        "sevlamq_consumer_group_lag"@,
        "Records between the committed offset and high watermark."@,
    ) + gauge_header(
        "sevlamq_consumer_group_lag_total"@,
        "Total consumer group lag across a topic."@,
    ) + all_group_lines(partitions, groups)
}

fn find_committed(offsets: &Vec<(u32, u64)>, partition: u32) -> (committed: u64)
    ensures
        committed == committed_of(offsets@, partition),
{
    let mut i: usize = 0;
    assert(offsets@.skip(0) =~= offsets@);
    while i < offsets.len()
        invariant
            i <= offsets@.len(),
            committed_of(offsets@, partition) == committed_of(offsets@.skip(i as int), partition),
        decreases offsets@.len() - i,
    {
        assert(offsets@.skip(i as int).skip(1) =~= offsets@.skip(i + 1));
        if offsets[i].0 == partition {
            return offsets[i].1;
        }
        i = i + 1;
    }
    0
}

fn render_group_labels(group: &GroupSnapshot) -> (labels: String)
    ensures
        labels@ == group_labels(*group),
{
    let mut out = "group=\"".to_owned();
    out.append(observability::escape_label(group.group.as_str()).as_str());
    out.append("\",");
    out.append(render_topic_label(group.topic.as_str()).as_str());
    out
}

fn render_group(partitions: &Vec<PartitionSnapshot>, group: &GroupSnapshot) -> (lines: String)
    ensures
        lines@ == group_lines(partitions@, *group),
{
    let labels = render_group_labels(group);
    let mut out = labelled_line(
        "sevlamq_consumer_group_members",
        labels.as_str(),
        group.members as u64,
    );
    out.append(
        labelled_line(
            "sevlamq_consumer_group_generation",
            labels.as_str(),
            group.generation,
        ).as_str(),
    );
    out.append(
        labelled_line(
            "sevlamq_consumer_group_assigned_partitions",
            labels.as_str(),
            group.assigned_partitions as u64,
        ).as_str(),
    );
    let mut lines = String::new();
    let mut total_lag: u64 = 0;
    let mut i: usize = 0;
    while i < partitions.len()
        invariant
            i <= partitions@.len(),
            labels@ == group_labels(*group),
            lines@ == group_partition_lines(partitions@.take(i as int), *group),
            total_lag == capped(lag_sum(partitions@.take(i as int), *group)),
        decreases partitions@.len() - i,
    {
        let snapshot = &partitions[i];
        proof {
            assert(partitions@.take(i + 1).drop_last() =~= partitions@.take(i as int));
            assert(partitions@.take(i + 1).last() == *snapshot);
        }
        if text::same(snapshot.topic.as_str(), group.topic.as_str()) {
            let committed: u64 = find_committed(&group.committed_offsets, snapshot.partition);
            let from: u64 = if committed > snapshot.low_watermark {
                committed
            } else {
                snapshot.low_watermark
            };
            let lag: u64 = snapshot.high_watermark.saturating_sub(from);
            total_lag = total_lag.saturating_add(lag);
            let mut partition_labels = labels.clone();
            partition_labels.append(",partition=\"");
            text::push_decimal(&mut partition_labels, snapshot.partition as u64);
            partition_labels.append("\"");
            lines.append(
                labelled_line(
                    "sevlamq_consumer_group_committed_offset",
                    partition_labels.as_str(),
                    committed,
                ).as_str(),
            );
            lines.append(
                labelled_line(
                    "sevlamq_consumer_group_lag",
                    partition_labels.as_str(),
                    lag,
                ).as_str(),
            );
        }
        i = i + 1;
    }
    assert(partitions@.take(i as int) =~= partitions@);
    out.append(lines.as_str());
    out.append(
        labelled_line(
            "sevlamq_consumer_group_lag_total",
            labels.as_str(),
            total_lag,
        ).as_str(),
    );
    out
}

/// Appends the section of the consumer groups.
pub fn render_group_metrics(
    output: &mut String,
    partitions: &Vec<PartitionSnapshot>,
    groups: &Vec<GroupSnapshot>,
)
    ensures
        final(output)@ == old(output)@ + group_section(partitions@, groups@),
{
    let mut out = gauge("sevlamq_consumer_group_members", "Active consumer group members.");
    out.append(
        gauge("sevlamq_consumer_group_generation", "Current consumer group generation.").as_str(),
    );
    out.append(
        gauge(
            "sevlamq_consumer_group_assigned_partitions",
            "Partitions assigned to active members.",
        ).as_str(),
    );
    out.append(
        gauge(
            "sevlamq_consumer_group_committed_offset",
            "Committed next offset for a partition.",
        ).as_str(),
    );
    out.append(
        gauge(
            "sevlamq_consumer_group_lag",
            "Records between the committed offset and high watermark.",
        ).as_str(),
    );
    out.append(
        gauge(
            "sevlamq_consumer_group_lag_total",
            "Total consumer group lag across a topic.",
        ).as_str(),
    );
    let mut lines = String::new();
    let mut i: usize = 0;
    while i < groups.len()
        invariant
            i <= groups@.len(),
            lines@ == all_group_lines(partitions@, groups@.take(i as int)),
        decreases groups@.len() - i,
    {
        proof {
            assert(groups@.take(i + 1).drop_last() =~= groups@.take(i as int));
        }
        lines.append(render_group(partitions, &groups[i]).as_str());
        i = i + 1;
    }
    assert(groups@.take(i as int) =~= groups@);
    out.append(lines.as_str());
    output.append(out.as_str());
}

/// How many partitions a topic has among the snapshots.
pub open spec fn topic_count(partitions: Seq<PartitionSnapshot>, topic: Seq<char>) -> nat
    decreases partitions.len(),
{
    if partitions.len() == 0 {
        0
    } else {
        topic_count(partitions.drop_last(), topic) + if partitions.last().topic@ == topic {
            1nat
        } else {
            0
        }
    }
}

/// The sum of the high watermarks of a topic's partitions.
pub open spec fn topic_high_watermarks(
    partitions: Seq<PartitionSnapshot>,
    topic: Seq<char>,
) -> nat
    decreases partitions.len(),
{
    if partitions.len() == 0 {
        0
    } else {
        topic_high_watermarks(partitions.drop_last(), topic) + if partitions.last().topic@
            == topic {
            partitions.last().high_watermark as nat
        } else {
            0
        }
    }
}

/// The bytes in the logs of a topic's partitions.
pub open spec fn topic_bytes(partitions: Seq<PartitionSnapshot>, topic: Seq<char>) -> nat
    decreases partitions.len(),
{
    if partitions.len() == 0 {
        0
    } else {
        topic_bytes(partitions.drop_last(), topic) + if partitions.last().topic@ == topic {
            partitions.last().log_size_bytes as nat
        } else {
            0
        }
    }
}

/// The topics among the snapshots, in order.
pub open spec fn topics_of(partitions: Seq<PartitionSnapshot>) -> Seq<Seq<char>> {
    sorted::in_order::<String>(Set::new(|topic: Seq<char>| topic_count(partitions, topic) > 0))
}

pub open spec fn topic_count_lines(
    topics: Seq<Seq<char>>,
    partitions: Seq<PartitionSnapshot>,
) -> Seq<char>
    decreases topics.len(),
{
    if topics.len() == 0 {
        Seq::empty()
    } else {
        topic_count_lines(topics.drop_last(), partitions) + labelled(
            "sevlamq_topic_partitions"@,
            topic_label(topics.last()),
            topic_count(partitions, topics.last()),
        )
    }
}

pub open spec fn topic_total_lines(
    topics: Seq<Seq<char>>,
    partitions: Seq<PartitionSnapshot>,
) -> Seq<char>
    decreases topics.len(),
{
    if topics.len() == 0 {
        Seq::empty()
    } else {
        topic_total_lines(topics.drop_last(), partitions) + labelled(
            "sevlamq_topic_high_watermark_sum"@,
            topic_label(topics.last()),
            capped(topic_high_watermarks(partitions, topics.last())),
        ) + labelled(
            "sevlamq_topic_log_size_bytes"@,
            topic_label(topics.last()),
            capped(topic_bytes(partitions, topics.last())),
        )
    }
}

/// The line of one broker.
pub open spec fn broker_line(node: ClusterNode, current: bool) -> Seq<char> {
    "sevlamq_broker_info{broker_id=\""@ + text::decimal(node.id as nat) + "\",host=\""@
        + observability::escaped(node.host@) + "\",port=\""@ + text::decimal(node.port as nat)
        + if current {
        "\",current=\"1\"} 1\n"@
    } else {
        "\",current=\"0\"} 1\n"@
    }
}

pub open spec fn broker_lines(nodes: Seq<ClusterNode>, responding: u32) -> Seq<char>
    decreases nodes.len(),
{
    if nodes.len() == 0 {
        Seq::empty()
    } else {
        broker_lines(nodes.drop_last(), responding) + broker_line(
            nodes.last(),
            nodes.last().id == responding,
        )
    }
}

/// The part of the page on the broker itself and on the topics.
pub open spec fn broker_section(
    metrics: observability::Metrics,
    storage_queue_depth: usize,
    partitions: Seq<PartitionSnapshot>,
    cluster: ClusterMetadata,
) -> Seq<char> {
    metrics.text() + gauge_header(
        "sevlamq_broker_info"@,
        "Static broker identity and endpoint."@,
    ) + broker_lines(cluster.nodes@, cluster.responding_broker_id) + gauge_header(
        "sevlamq_storage_queue_depth"@,
        "Commands waiting in the storage worker queue."@,
    ) + ("sevlamq_storage_queue_depth "@ + text::decimal(storage_queue_depth as nat) + "\n"@)
        + gauge_header("sevlamq_topic_partitions"@, "Number of partitions in a topic."@)
        + topic_count_lines(topics_of(partitions), partitions) + gauge_header(
        "sevlamq_topic_high_watermark_sum"@,
        "Sum of partition high watermarks."@,
    ) + gauge_header(
        "sevlamq_topic_log_size_bytes"@,
        "Bytes stored by all partitions of a topic."@,
    ) + topic_total_lines(topics_of(partitions), partitions)
}

/// The metrics page.
pub open spec fn metrics_page(
    metrics: observability::Metrics,
    storage_queue_depth: usize,
    partitions: Seq<PartitionSnapshot>,
    groups: Seq<GroupSnapshot>,
    cluster: ClusterMetadata,
    replicas: Seq<ReplicaOffset>,
) -> Seq<char> {
    broker_section(metrics, storage_queue_depth, partitions, cluster) + partition_section(partitions)
        + extent_section(partitions, replicas) + replication_section(replicas, partitions)
        + group_section(partitions, groups)
}

proof fn lemma_topic_count(partitions: Seq<PartitionSnapshot>, topic: Seq<char>)
    ensures
        topic_count(partitions, topic) <= partitions.len(),
    decreases partitions.len(),
{
    if partitions.len() > 0 {
        lemma_topic_count(partitions.drop_last(), topic);
    }
}

/// The count, high watermark sum and bytes of each topic.
fn tally(partitions: &Vec<PartitionSnapshot>) -> (tallies: SortedMap<String, (u64, u64, u64)>)
    ensures
        tallies.wf(),
        tallies.key_values() == topics_of(partitions@),
        forall|topic: Seq<char>| #[trigger]
            tallies@.dom().contains(topic) ==> {
                &&& tallies@[topic].0 == topic_count(partitions@, topic)
                &&& tallies@[topic].1 == capped(topic_high_watermarks(partitions@, topic))
                &&& tallies@[topic].2 == capped(topic_bytes(partitions@, topic))
            },
{
    let mut tallies: SortedMap<String, (u64, u64, u64)> = SortedMap::new();
    let mut i: usize = 0;
    while i < partitions.len()
        invariant
            i <= partitions@.len(),
            tallies.wf(),
            forall|topic: Seq<char>|
                #![trigger tallies@.dom().contains(topic)]
                #![trigger topic_count(partitions@.take(i as int), topic)]
                tallies@.dom().contains(topic) <==> topic_count(partitions@.take(i as int), topic)
                    > 0,
            forall|topic: Seq<char>|
                #![trigger tallies@.dom().contains(topic)]
                {
                    &&& tallies@.dom().contains(topic) ==> {
                        &&& tallies@[topic].0 == topic_count(partitions@.take(i as int), topic)
                        &&& tallies@[topic].1 == capped(
                            topic_high_watermarks(partitions@.take(i as int), topic),
                        )
                        &&& tallies@[topic].2 == capped(
                            topic_bytes(partitions@.take(i as int), topic),
                        )
                    }
                    &&& !tallies@.dom().contains(topic) ==> topic_high_watermarks(
                        partitions@.take(i as int),
                        topic,
                    ) == 0 && topic_bytes(partitions@.take(i as int), topic) == 0
                },
        decreases partitions@.len() - i,
    {
        let snapshot = &partitions[i];
        let ghost before = tallies@;
        let ghost front = partitions@.take(i as int);
        proof {
            assert(partitions@.take(i + 1).drop_last() =~= front);
            assert(partitions@.take(i + 1).last() == *snapshot);
        }
        let current: (u64, u64, u64) = match tallies.get(&snapshot.topic) {
            Some(found) => *found,
            None => (0, 0, 0),
        };
        proof {
            lemma_topic_count(front, snapshot.topic@);
        }
        tallies.insert(
            snapshot.topic.clone(),
            (
                current.0 + 1,
                current.1.saturating_add(snapshot.high_watermark),
                current.2.saturating_add(snapshot.log_size_bytes),
            ),
        );
        proof {
            assert forall|topic: Seq<char>|
                #![trigger tallies@.dom().contains(topic)]
                tallies@.dom().contains(topic) == (before.dom().contains(topic) || topic
                    == snapshot.topic@) by {}
        }
        i = i + 1;
    }
    proof {
        assert(partitions@.take(i as int) =~= partitions@);
        let wanted = Set::new(|topic: Seq<char>| topic_count(partitions@, topic) > 0);
        assert forall|topic: Seq<char>| #[trigger] tallies@.dom().contains(topic)
            <==> wanted.contains(topic) by {}
        assert(tallies@.dom() =~= wanted);
        tallies.lemma_ordered();
    }
    tallies
}

fn render_broker(node: &ClusterNode, current: bool) -> (line: String)
    ensures
        line@ == broker_line(*node, current),
{
    let mut out = "sevlamq_broker_info{broker_id=\"".to_owned();
    text::push_decimal(&mut out, node.id as u64);
    out.append("\",host=\"");
    out.append(observability::escape_label(node.host.as_str()).as_str());
    out.append("\",port=\"");
    text::push_decimal(&mut out, node.port as u64);
    if current {
        out.append("\",current=\"1\"} 1\n");
    } else {
        out.append("\",current=\"0\"} 1\n");
    }
    out
}

fn render_brokers(cluster: &ClusterMetadata) -> (lines: String)
    ensures
        lines@ == broker_lines(cluster.nodes@, cluster.responding_broker_id),
{
    let mut lines = String::new();
    let mut i: usize = 0;
    while i < cluster.nodes.len()
        invariant
            i <= cluster.nodes@.len(),
            lines@ == broker_lines(cluster.nodes@.take(i as int), cluster.responding_broker_id),
        decreases cluster.nodes@.len() - i,
    {
        proof {
            assert(cluster.nodes@.take(i + 1).drop_last() =~= cluster.nodes@.take(i as int));
        }
        let node = &cluster.nodes[i];
        lines.append(render_broker(node, node.id == cluster.responding_broker_id).as_str());
        i = i + 1;
    }
    assert(cluster.nodes@.take(i as int) =~= cluster.nodes@);
    lines
}

/// The count lines and the total lines of all topics.
fn render_topics(partitions: &Vec<PartitionSnapshot>) -> (lines: (String, String))
    ensures
        lines.0@ == topic_count_lines(topics_of(partitions@), partitions@),
        lines.1@ == topic_total_lines(topics_of(partitions@), partitions@),
{
    let tallies = tally(partitions);
    let ghost topics = topics_of(partitions@);
    let mut counts = String::new();
    let mut totals = String::new();
    let mut i: usize = 0;
    while i < tallies.len()
        invariant
            tallies.wf(),
            topics == tallies.key_values(),
            i <= tallies.keys@.len(),
            forall|topic: Seq<char>| #[trigger]
                tallies@.dom().contains(topic) ==> {
                    &&& tallies@[topic].0 == topic_count(partitions@, topic)
                    &&& tallies@[topic].1 == capped(topic_high_watermarks(partitions@, topic))
                    &&& tallies@[topic].2 == capped(topic_bytes(partitions@, topic))
                },
            counts@ == topic_count_lines(topics.take(i as int), partitions@),
            totals@ == topic_total_lines(topics.take(i as int), partitions@),
        decreases tallies.keys@.len() - i,
    {
        proof {
            tallies.lemma_at(i as int);
            assert(topics.take(i + 1).drop_last() =~= topics.take(i as int));
            assert(topics.take(i + 1).last() == tallies.keys@[i as int]@);
        }
        let label = render_topic_label(tallies.keys[i].as_str());
        let totalled: (u64, u64, u64) = tallies.values[i];
        counts.append(
            labelled_line("sevlamq_topic_partitions", label.as_str(), totalled.0).as_str(),
        );
        totals.append(
            labelled_line("sevlamq_topic_high_watermark_sum", label.as_str(), totalled.1).as_str(),
        );
        totals.append(
            labelled_line("sevlamq_topic_log_size_bytes", label.as_str(), totalled.2).as_str(),
        );
        i = i + 1;
    }
    assert(topics.take(i as int) =~= topics);
    (counts, totals)
}

/// The metrics page.
pub fn render_metrics(
    metrics: &RuntimeMetrics,
    storage_queue_depth: usize,
    partitions: &Vec<PartitionSnapshot>,
    groups: &Vec<GroupSnapshot>,
    cluster: &ClusterMetadata,
    replicas: &Vec<ReplicaOffset>,
) -> (page: String)
    requires
        metrics.wf(),
    ensures
        page@ == metrics_page(
            metrics@,
            storage_queue_depth,
            partitions@,
            groups@,
            *cluster,
            replicas@,
        ),
{
    let mut output = String::new();
    metrics.render(&mut output);
    assert(output@ =~= metrics@.text());
    output.append(gauge("sevlamq_broker_info", "Static broker identity and endpoint.").as_str());
    output.append(render_brokers(cluster).as_str());
    output.append(
        gauge(
            "sevlamq_storage_queue_depth",
            "Commands waiting in the storage worker queue.",
        ).as_str(),
    );
    let mut depth = "sevlamq_storage_queue_depth ".to_owned();
    text::push_decimal(&mut depth, storage_queue_depth as u64);
    depth.append("\n");
    output.append(depth.as_str());
    output.append(gauge("sevlamq_topic_partitions", "Number of partitions in a topic.").as_str());
    let (counts, totals) = render_topics(partitions);
    output.append(counts.as_str());
    output.append(
        gauge("sevlamq_topic_high_watermark_sum", "Sum of partition high watermarks.").as_str(),
    );
    output.append(
        gauge(
            "sevlamq_topic_log_size_bytes",
            "Bytes stored by all partitions of a topic.",
        ).as_str(),
    );
    output.append(totals.as_str());
    render_partition_metrics(&mut output, partitions);
    render_extent_metrics(&mut output, partitions, replicas);
    render_replication_metrics(&mut output, replicas, partitions);
    render_group_metrics(&mut output, partitions, groups);
    output
}

/// A group that has consumed everything lags by nothing, and otherwise by no more than the
/// records that the partition holds.
pub proof fn lag_is_bounded(snapshot: PartitionSnapshot, committed: u64)
    ensures
        lag_of(snapshot, committed) <= difference(
            snapshot.high_watermark,
            snapshot.low_watermark,
        ),
        committed >= snapshot.high_watermark ==> lag_of(snapshot, committed) == 0,
        snapshot.low_watermark <= committed <= snapshot.high_watermark ==> lag_of(
            snapshot,
            committed,
        ) == snapshot.high_watermark - committed,
{
}

/// Whether a page is a line with some text before and some behind it.
pub open spec fn surrounds(
    page: Seq<char>,
    front: Seq<char>,
    line: Seq<char>,
    back: Seq<char>,
) -> bool {
    page == front + line + back
}

/// Whether a page has a line.
#[verifier::opaque]
pub open spec fn shows(page: Seq<char>, line: Seq<char>) -> bool {
    exists|front: Seq<char>, back: Seq<char>| surrounds(page, front, line, back)
}

proof fn lemma_shows_itself(line: Seq<char>)
    ensures
        shows(line, line),
{
    reveal(shows);
    let none = Seq::<char>::empty();
    assert(line =~= none + line + none);
    assert(surrounds(line, none, line, none));
}

proof fn lemma_shows_more(page: Seq<char>, line: Seq<char>, before: Seq<char>, behind: Seq<char>)
    requires
        shows(page, line),
    ensures
        shows(before + page, line),
        shows(page + behind, line),
{
    reveal(shows);
    let (front, back) = choose|front: Seq<char>, back: Seq<char>|
        surrounds(page, front, line, back);
    assert(before + page =~= (before + front) + line + back);
    assert(surrounds(before + page, before + front, line, back));
    assert(page + behind =~= front + line + (back + behind));
    assert(surrounds(page + behind, front, line, back + behind));
}

proof fn lemma_partition_lines(partitions: Seq<PartitionSnapshot>, place: int, line: Seq<char>)
    requires
        0 <= place < partitions.len(),
        shows(partition_lines(partitions[place]), line),
    ensures
        shows(all_partition_lines(partitions), line),
    decreases partitions.len(),
{
    let fewer = partitions.drop_last();
    let front = all_partition_lines(fewer);
    let back = partition_lines(partitions.last());
    if place < fewer.len() {
        assert(fewer[place] == partitions[place]);
        lemma_partition_lines(fewer, place, line);
        lemma_shows_more(front, line, Seq::empty(), back);
    } else {
        lemma_shows_more(back, line, front, Seq::empty());
    }
}

proof fn lemma_extent_lines(
    partitions: Seq<PartitionSnapshot>,
    replicas: Seq<ReplicaOffset>,
    place: int,
    line: Seq<char>,
)
    requires
        0 <= place < partitions.len(),
        shows(extent_lines(partitions[place], replicas), line),
    ensures
        shows(all_extent_lines(partitions, replicas), line),
    decreases partitions.len(),
{
    let fewer = partitions.drop_last();
    let front = all_extent_lines(fewer, replicas);
    let back = extent_lines(partitions.last(), replicas);
    if place < fewer.len() {
        assert(fewer[place] == partitions[place]);
        lemma_extent_lines(fewer, replicas, place, line);
        lemma_shows_more(front, line, Seq::empty(), back);
    } else {
        lemma_shows_more(back, line, front, Seq::empty());
    }
}

proof fn lemma_replica_lines(
    replicas: Seq<ReplicaOffset>,
    partitions: Seq<PartitionSnapshot>,
    place: int,
    line: Seq<char>,
)
    requires
        0 <= place < replicas.len(),
        shows(replica_lines(replicas[place], partitions), line),
    ensures
        shows(all_replica_lines(replicas, partitions), line),
    decreases replicas.len(),
{
    let fewer = replicas.drop_last();
    let front = all_replica_lines(fewer, partitions);
    let back = replica_lines(replicas.last(), partitions);
    if place < fewer.len() {
        assert(fewer[place] == replicas[place]);
        lemma_replica_lines(fewer, partitions, place, line);
        lemma_shows_more(front, line, Seq::empty(), back);
    } else {
        lemma_shows_more(back, line, front, Seq::empty());
    }
}

proof fn lemma_group_lines(
    partitions: Seq<PartitionSnapshot>,
    groups: Seq<GroupSnapshot>,
    place: int,
    line: Seq<char>,
)
    requires
        0 <= place < groups.len(),
        shows(group_lines(partitions, groups[place]), line),
    ensures
        shows(all_group_lines(partitions, groups), line),
    decreases groups.len(),
{
    let fewer = groups.drop_last();
    let front = all_group_lines(partitions, fewer);
    let back = group_lines(partitions, groups.last());
    if place < fewer.len() {
        assert(fewer[place] == groups[place]);
        lemma_group_lines(partitions, fewer, place, line);
        lemma_shows_more(front, line, Seq::empty(), back);
    } else {
        lemma_shows_more(back, line, front, Seq::empty());
    }
}

proof fn lemma_group_partition_lines(
    partitions: Seq<PartitionSnapshot>,
    group: GroupSnapshot,
    place: int,
)
    requires
        0 <= place < partitions.len(),
        partitions[place].topic@ == group.topic@,
    ensures
        ({
            let snapshot = partitions[place];
            let labels = group_labels(group) + ",partition=\""@ + text::decimal(
                snapshot.partition as nat,
            ) + "\""@;
            let committed = committed_of(group.committed_offsets@, snapshot.partition);
            &&& shows(
                group_partition_lines(partitions, group),
                labelled("sevlamq_consumer_group_committed_offset"@, labels, committed as nat),
            )
            &&& shows(
                group_partition_lines(partitions, group),
                labelled("sevlamq_consumer_group_lag"@, labels, lag_of(snapshot, committed)),
            )
        }),
    decreases partitions.len(),
{
    let snapshot = partitions[place];
    let labels = group_labels(group) + ",partition=\""@ + text::decimal(snapshot.partition as nat)
        + "\""@;
    let committed = committed_of(group.committed_offsets@, snapshot.partition);
    let first = labelled("sevlamq_consumer_group_committed_offset"@, labels, committed as nat);
    let second = labelled("sevlamq_consumer_group_lag"@, labels, lag_of(snapshot, committed));
    let fewer = partitions.drop_last();
    let front = group_partition_lines(fewer, group);
    let all = group_partition_lines(partitions, group);
    if place < fewer.len() {
        assert(fewer[place] == partitions[place]);
        lemma_group_partition_lines(fewer, group, place);
        if partitions.last().topic@ == group.topic@ {
            let back = all.skip(front.len() as int);
            assert(all =~= front + back);
            lemma_shows_more(front, first, Seq::empty(), back);
            lemma_shows_more(front, second, Seq::empty(), back);
        }
    } else {
        assert(all == front + first + second);
        lemma_shows_itself(first);
        lemma_shows_itself(second);
        lemma_shows_more(first, first, front, Seq::empty());
        lemma_shows_more(front + first, first, Seq::empty(), second);
        lemma_shows_more(second, second, front + first, Seq::empty());
    }
}

/// The page tells of each partition where it starts and ends, what is committed, how many records
/// it retains, and how many replicas hold what is committed.
pub proof fn page_tells_of_partitions(
    metrics: observability::Metrics,
    depth: usize,
    partitions: Seq<PartitionSnapshot>,
    groups: Seq<GroupSnapshot>,
    cluster: ClusterMetadata,
    replicas: Seq<ReplicaOffset>,
    place: int,
)
    requires
        0 <= place < partitions.len(),
        partitions[place].low_watermark <= partitions[place].log_end_offset,
        replicas.len() < u64::MAX,
    ensures
        ({
            let page = metrics_page(metrics, depth, partitions, groups, cluster, replicas);
            let snapshot = partitions[place];
            let labels = partition_labels(snapshot.topic@, snapshot.partition);
            &&& shows(
                page,
                labelled(
                    "sevlamq_partition_high_watermark"@,
                    labels,
                    snapshot.high_watermark as nat,
                ),
            )
            &&& shows(
                page,
                labelled(
                    "sevlamq_partition_low_watermark"@,
                    labels,
                    snapshot.low_watermark as nat,
                ),
            )
            &&& shows(
                page,
                labelled(
                    "sevlamq_partition_records"@,
                    labels,
                    (snapshot.log_end_offset - snapshot.low_watermark) as nat,
                ),
            )
            &&& shows(
                page,
                labelled(
                    "sevlamq_partition_log_size_bytes"@,
                    labels,
                    snapshot.log_size_bytes as nat,
                ),
            )
            &&& shows(
                page,
                labelled("sevlamq_partition_segments"@, labels, snapshot.segments as nat),
            )
            &&& shows(
                page,
                labelled(
                    "sevlamq_partition_log_end_offset"@,
                    labels,
                    snapshot.log_end_offset as nat,
                ),
            )
            &&& shows(
                page,
                labelled(
                    "sevlamq_partition_isr"@,
                    labels,
                    1 + followers_in_sync(replicas, snapshot),
                ),
            )
        }),
{
    let page = metrics_page(metrics, depth, partitions, groups, cluster, replicas);
    let snapshot = partitions[place];
    let labels = partition_labels(snapshot.topic@, snapshot.partition);
    let a = labelled("sevlamq_partition_high_watermark"@, labels, snapshot.high_watermark as nat);
    let b = labelled("sevlamq_partition_low_watermark"@, labels, snapshot.low_watermark as nat);
    let c = labelled(
        "sevlamq_partition_records"@,
        labels,
        difference(snapshot.log_end_offset, snapshot.low_watermark),
    );
    let d = labelled("sevlamq_partition_log_size_bytes"@, labels, snapshot.log_size_bytes as nat);
    let e = labelled("sevlamq_partition_segments"@, labels, snapshot.segments as nat);
    assert(partition_lines(snapshot) == a + b + c + d + e);
    lemma_five(a, b, c, d, e);
    lemma_partition_lines(partitions, place, a);
    lemma_partition_lines(partitions, place, b);
    lemma_partition_lines(partitions, place, c);
    lemma_partition_lines(partitions, place, d);
    lemma_partition_lines(partitions, place, e);
    let f = labelled("sevlamq_partition_log_end_offset"@, labels, snapshot.log_end_offset as nat);
    lemma_in_sync_bounded(replicas, snapshot);
    let g = labelled(
        "sevlamq_partition_isr"@,
        labels,
        capped(1 + followers_in_sync(replicas, snapshot)),
    );
    lemma_shows_itself(f);
    lemma_shows_itself(g);
    lemma_shows_more(f, f, Seq::empty(), g);
    lemma_shows_more(g, g, f, Seq::empty());
    lemma_extent_lines(partitions, replicas, place, f);
    lemma_extent_lines(partitions, replicas, place, g);
    lemma_page_shows(metrics, depth, partitions, groups, cluster, replicas, a);
    lemma_page_shows(metrics, depth, partitions, groups, cluster, replicas, b);
    lemma_page_shows(metrics, depth, partitions, groups, cluster, replicas, c);
    lemma_page_shows(metrics, depth, partitions, groups, cluster, replicas, d);
    lemma_page_shows(metrics, depth, partitions, groups, cluster, replicas, e);
    lemma_page_shows(metrics, depth, partitions, groups, cluster, replicas, f);
    lemma_page_shows(metrics, depth, partitions, groups, cluster, replicas, g);
}

proof fn lemma_in_sync_bounded(replicas: Seq<ReplicaOffset>, snapshot: PartitionSnapshot)
    ensures
        followers_in_sync(replicas, snapshot) <= replicas.len(),
    decreases replicas.len(),
{
    if replicas.len() > 0 {
        lemma_in_sync_bounded(replicas.drop_last(), snapshot);
    }
}

proof fn lemma_five(a: Seq<char>, b: Seq<char>, c: Seq<char>, d: Seq<char>, e: Seq<char>)
    ensures
        shows(a + b + c + d + e, a),
        shows(a + b + c + d + e, b),
        shows(a + b + c + d + e, c),
        shows(a + b + c + d + e, d),
        shows(a + b + c + d + e, e),
{
    lemma_shows_itself(a);
    lemma_shows_itself(b);
    lemma_shows_itself(c);
    lemma_shows_itself(d);
    lemma_shows_itself(e);
    lemma_shows_more(a, a, Seq::empty(), b);
    lemma_shows_more(a + b, a, Seq::empty(), c);
    lemma_shows_more(a + b + c, a, Seq::empty(), d);
    lemma_shows_more(a + b + c + d, a, Seq::empty(), e);
    lemma_shows_more(b, b, a, Seq::empty());
    lemma_shows_more(a + b, b, Seq::empty(), c);
    lemma_shows_more(a + b + c, b, Seq::empty(), d);
    lemma_shows_more(a + b + c + d, b, Seq::empty(), e);
    lemma_shows_more(c, c, a + b, Seq::empty());
    lemma_shows_more(a + b + c, c, Seq::empty(), d);
    lemma_shows_more(a + b + c + d, c, Seq::empty(), e);
    lemma_shows_more(d, d, a + b + c, Seq::empty());
    lemma_shows_more(a + b + c + d, d, Seq::empty(), e);
    lemma_shows_more(e, e, a + b + c + d, Seq::empty());
}

proof fn lemma_section_shows(section: Seq<char>, head: Seq<char>, lines: Seq<char>, line: Seq<char>)
    requires
        section == head + lines,
        shows(lines, line),
    ensures
        shows(section, line),
{
    lemma_shows_more(lines, line, head, Seq::empty());
}

/// What the lines of the partitions, their extents, the replicas or the groups show stands on the
/// page.
proof fn lemma_page_shows(
    metrics: observability::Metrics,
    depth: usize,
    partitions: Seq<PartitionSnapshot>,
    groups: Seq<GroupSnapshot>,
    cluster: ClusterMetadata,
    replicas: Seq<ReplicaOffset>,
    line: Seq<char>,
)
    requires
        shows(all_partition_lines(partitions), line) || shows(
            all_extent_lines(partitions, replicas),
            line,
        ) || shows(all_replica_lines(replicas, partitions), line) || shows(
            all_group_lines(partitions, groups),
            line,
        ),
    ensures
        shows(metrics_page(metrics, depth, partitions, groups, cluster, replicas), line),
{
    let front = broker_section(metrics, depth, partitions, cluster);
    let a = partition_section(partitions);
    let b = extent_section(partitions, replicas);
    let c = replication_section(replicas, partitions);
    let d = group_section(partitions, groups);
    if shows(all_partition_lines(partitions), line) {
        lemma_section_shows(
            a,
            gauge_header("sevlamq_partition_high_watermark"@, "Next offset of a partition."@)
                + gauge_header("sevlamq_partition_low_watermark"@, "Earliest available offset."@)
                + gauge_header(
                "sevlamq_partition_records"@,
                "Records currently retained in a partition."@,
            ) + gauge_header(
                "sevlamq_partition_log_size_bytes"@,
                "Bytes stored in partition logs."@,
            ) + gauge_header("sevlamq_partition_segments"@, "Number of log segments."@),
            all_partition_lines(partitions),
            line,
        );
        lemma_shows_more(a, line, front, Seq::empty());
        lemma_shows_more(front + a, line, Seq::empty(), b);
        lemma_shows_more(front + a + b, line, Seq::empty(), c);
        lemma_shows_more(front + a + b + c, line, Seq::empty(), d);
    } else if shows(all_extent_lines(partitions, replicas), line) {
        lemma_section_shows(
            b,
            gauge_header(
                "sevlamq_partition_log_end_offset"@,
                "Offset behind the last record of a partition log."@,
            ) + gauge_header(
                "sevlamq_partition_isr"@,
                "Replicas that hold all committed records of a partition."@,
            ),
            all_extent_lines(partitions, replicas),
            line,
        );
        lemma_shows_more(b, line, front + a, Seq::empty());
        lemma_shows_more(front + a + b, line, Seq::empty(), c);
        lemma_shows_more(front + a + b + c, line, Seq::empty(), d);
    } else if shows(all_replica_lines(replicas, partitions), line) {
        lemma_section_shows(
            c,
            gauge_header("sevlamq_replica_offset"@, "Next offset acknowledged by a follower."@)
                + gauge_header(
                "sevlamq_replication_lag_records"@,
                "Records not yet acknowledged by a follower."@,
            ),
            all_replica_lines(replicas, partitions),
            line,
        );
        lemma_shows_more(c, line, front + a + b, Seq::empty());
        lemma_shows_more(front + a + b + c, line, Seq::empty(), d);
    } else {
        lemma_section_shows(
            d,
            gauge_header("sevlamq_consumer_group_members"@, "Active consumer group members."@)
                + gauge_header(
                "sevlamq_consumer_group_generation"@,
                "Current consumer group generation."@,
            ) + gauge_header(
                "sevlamq_consumer_group_assigned_partitions"@,
                "Partitions assigned to active members."@,
            ) + gauge_header(
                "sevlamq_consumer_group_committed_offset"@,
                "Committed next offset for a partition."@,
            ) + gauge_header(
                "sevlamq_consumer_group_lag"@,
                "Records between the committed offset and high watermark."@,
            ) + gauge_header(
                "sevlamq_consumer_group_lag_total"@,
                "Total consumer group lag across a topic."@,
            ),
            all_group_lines(partitions, groups),
            line,
        );
        lemma_shows_more(d, line, front + a + b + c, Seq::empty());
    }
}

/// The page tells of each follower how far it gets in a partition, and how many records behind the
/// end of the leader's log that is.
pub proof fn page_tells_of_followers(
    metrics: observability::Metrics,
    depth: usize,
    partitions: Seq<PartitionSnapshot>,
    groups: Seq<GroupSnapshot>,
    cluster: ClusterMetadata,
    replicas: Seq<ReplicaOffset>,
    place: int,
    partition: int,
)
    requires
        0 <= place < replicas.len(),
        0 <= partition < partitions.len(),
        partitions[partition].topic@ == replicas[place].topic@,
        partitions[partition].partition == replicas[place].partition,
        forall|i: int|
            0 <= i < partition ==> !((#[trigger] partitions[i]).topic@ == replicas[place].topic@
                && partitions[i].partition == replicas[place].partition),
    ensures
        ({
            let page = metrics_page(metrics, depth, partitions, groups, cluster, replicas);
            let replica = replicas[place];
            let end = partitions[partition].log_end_offset;
            let labels = "follower_id=\""@ + text::decimal(replica.follower as nat) + "\","@
                + partition_labels(replica.topic@, replica.partition);
            &&& shows(page, labelled("sevlamq_replica_offset"@, labels, replica.offset as nat))
            &&& shows(
                page,
                labelled(
                    "sevlamq_replication_lag_records"@,
                    labels,
                    if end > replica.offset {
                        (end - replica.offset) as nat
                    } else {
                        0
                    },
                ),
            )
        }),
{
    let replica = replicas[place];
    let labels = "follower_id=\""@ + text::decimal(replica.follower as nat) + "\","@
        + partition_labels(replica.topic@, replica.partition);
    lemma_log_end_of(partitions, replica.topic@, replica.partition, partition);
    let a = labelled("sevlamq_replica_offset"@, labels, replica.offset as nat);
    let b = labelled(
        "sevlamq_replication_lag_records"@,
        labels,
        difference(log_end_of(partitions, replica.topic@, replica.partition), replica.offset),
    );
    assert(replica_lines(replica, partitions) == a + b);
    lemma_shows_itself(a);
    lemma_shows_itself(b);
    lemma_shows_more(a, a, Seq::empty(), b);
    lemma_shows_more(b, b, a, Seq::empty());
    lemma_replica_lines(replicas, partitions, place, a);
    lemma_replica_lines(replicas, partitions, place, b);
    lemma_page_shows(metrics, depth, partitions, groups, cluster, replicas, a);
    lemma_page_shows(metrics, depth, partitions, groups, cluster, replicas, b);
}

proof fn lemma_log_end_of(
    partitions: Seq<PartitionSnapshot>,
    topic: Seq<char>,
    partition: u32,
    place: int,
)
    requires
        0 <= place < partitions.len(),
        partitions[place].topic@ == topic,
        partitions[place].partition == partition,
        forall|i: int|
            0 <= i < place ==> !((#[trigger] partitions[i]).topic@ == topic
                && partitions[i].partition == partition),
    ensures
        log_end_of(partitions, topic, partition) == partitions[place].log_end_offset,
    decreases place,
{
    if place > 0 {
        let rest = partitions.skip(1);
        assert(!(partitions[0].topic@ == topic && partitions[0].partition == partition));
        assert(rest[place - 1] == partitions[place]);
        assert forall|i: int| 0 <= i < place - 1 implies !((#[trigger] rest[i]).topic@ == topic
            && rest[i].partition == partition) by {
            assert(rest[i] == partitions[i + 1]);
        }
        lemma_log_end_of(rest, topic, partition, place - 1);
    }
}

/// The page tells of each group its members, its generation and its partitions, and of each
/// partition of its topic what it has committed and how far it lags.
pub proof fn page_tells_of_groups(
    metrics: observability::Metrics,
    depth: usize,
    partitions: Seq<PartitionSnapshot>,
    groups: Seq<GroupSnapshot>,
    cluster: ClusterMetadata,
    replicas: Seq<ReplicaOffset>,
    place: int,
    partition: int,
)
    requires
        0 <= place < groups.len(),
        0 <= partition < partitions.len(),
        partitions[partition].topic@ == groups[place].topic@,
    ensures
        ({
            let page = metrics_page(metrics, depth, partitions, groups, cluster, replicas);
            let group = groups[place];
            let snapshot = partitions[partition];
            let labels = group_labels(group);
            let own = labels + ",partition=\""@ + text::decimal(snapshot.partition as nat) + "\""@;
            let committed = committed_of(group.committed_offsets@, snapshot.partition);
            &&& shows(
                page,
                labelled("sevlamq_consumer_group_members"@, labels, group.members as nat),
            )
            &&& shows(
                page,
                labelled("sevlamq_consumer_group_generation"@, labels, group.generation as nat),
            )
            &&& shows(
                page,
                labelled(
                    "sevlamq_consumer_group_assigned_partitions"@,
                    labels,
                    group.assigned_partitions as nat,
                ),
            )
            &&& shows(
                page,
                labelled("sevlamq_consumer_group_committed_offset"@, own, committed as nat),
            )
            &&& shows(
                page,
                labelled("sevlamq_consumer_group_lag"@, own, lag_of(snapshot, committed)),
            )
            &&& shows(
                page,
                labelled(
                    "sevlamq_consumer_group_lag_total"@,
                    labels,
                    capped(lag_sum(partitions, group)),
                ),
            )
        }),
{
    let group = groups[place];
    let snapshot = partitions[partition];
    let labels = group_labels(group);
    let own = labels + ",partition=\""@ + text::decimal(snapshot.partition as nat) + "\""@;
    let committed = committed_of(group.committed_offsets@, snapshot.partition);
    let a = labelled("sevlamq_consumer_group_members"@, labels, group.members as nat);
    let b = labelled("sevlamq_consumer_group_generation"@, labels, group.generation as nat);
    let c = labelled(
        "sevlamq_consumer_group_assigned_partitions"@,
        labels,
        group.assigned_partitions as nat,
    );
    let d = group_partition_lines(partitions, group);
    let e = labelled(
        "sevlamq_consumer_group_lag_total"@,
        labels,
        capped(lag_sum(partitions, group)),
    );
    let f = labelled("sevlamq_consumer_group_committed_offset"@, own, committed as nat);
    let g = labelled("sevlamq_consumer_group_lag"@, own, lag_of(snapshot, committed));
    assert(group_lines(partitions, group) == a + b + c + d + e);
    lemma_five(a, b, c, d, e);
    lemma_group_partition_lines(partitions, group, partition);
    lemma_shows_more(d, f, a + b + c, Seq::empty());
    lemma_shows_more(a + b + c + d, f, Seq::empty(), e);
    lemma_shows_more(d, g, a + b + c, Seq::empty());
    lemma_shows_more(a + b + c + d, g, Seq::empty(), e);
    lemma_group_lines(partitions, groups, place, a);
    lemma_group_lines(partitions, groups, place, b);
    lemma_group_lines(partitions, groups, place, c);
    lemma_group_lines(partitions, groups, place, e);
    lemma_group_lines(partitions, groups, place, f);
    lemma_group_lines(partitions, groups, place, g);
    lemma_page_shows(metrics, depth, partitions, groups, cluster, replicas, a);
    lemma_page_shows(metrics, depth, partitions, groups, cluster, replicas, b);
    lemma_page_shows(metrics, depth, partitions, groups, cluster, replicas, c);
    lemma_page_shows(metrics, depth, partitions, groups, cluster, replicas, e);
    lemma_page_shows(metrics, depth, partitions, groups, cluster, replicas, f);
    lemma_page_shows(metrics, depth, partitions, groups, cluster, replicas, g);
}

/// A group lags by the committed records from where it stands on that the partition still has.
pub proof fn lag_counts_unread_records(snapshot: PartitionSnapshot, committed: u64)
    ensures
        committed >= snapshot.low_watermark && committed < snapshot.high_watermark ==> lag_of(
            snapshot,
            committed,
        ) == snapshot.high_watermark - committed,
        committed < snapshot.low_watermark && snapshot.low_watermark < snapshot.high_watermark
            ==> lag_of(snapshot, committed) == snapshot.high_watermark - snapshot.low_watermark,
        committed >= snapshot.high_watermark || snapshot.low_watermark >= snapshot.high_watermark
            ==> lag_of(snapshot, committed) == 0,
{
}

/// Totals add up partition by partition, and count only those of the topic.
pub proof fn totals_add_up(
    partitions: Seq<PartitionSnapshot>,
    snapshot: PartitionSnapshot,
    topic: Seq<char>,
    group: GroupSnapshot,
)
    ensures
        ({
            let more = partitions.push(snapshot);
            let own = snapshot.topic@ == topic;
            &&& topic_count(more, topic) == topic_count(partitions, topic) + if own {
                1nat
            } else {
                0
            }
            &&& topic_high_watermarks(more, topic) == topic_high_watermarks(partitions, topic)
                + if own {
                snapshot.high_watermark as nat
            } else {
                0
            }
            &&& topic_bytes(more, topic) == topic_bytes(partitions, topic) + if own {
                snapshot.log_size_bytes as nat
            } else {
                0
            }
            &&& lag_sum(more, group) == lag_sum(partitions, group) + if snapshot.topic@
                == group.topic@ {
                lag_of(snapshot, committed_of(group.committed_offsets@, snapshot.partition))
            } else {
                0
            }
        }),
{
    assert(partitions.push(snapshot).drop_last() =~= partitions);
}

/// A follower counts as in sync where it has all committed records of the partition.
pub proof fn in_sync_followers_are_counted(
    replicas: Seq<ReplicaOffset>,
    replica: ReplicaOffset,
    snapshot: PartitionSnapshot,
)
    ensures
        followers_in_sync(Seq::empty(), snapshot) == 0,
        followers_in_sync(replicas.push(replica), snapshot) == followers_in_sync(replicas, snapshot)
            + if replica.topic@ == snapshot.topic@ && replica.partition == snapshot.partition
            && replica.offset >= snapshot.high_watermark {
            1nat
        } else {
            0
        },
{
    assert(replicas.push(replica).drop_last() =~= replicas);
}

/// The offset that a group has committed of a partition is found.
pub proof fn committed_offsets_are_found(offsets: Seq<(u32, u64)>, place: int)
    requires
        0 <= place < offsets.len(),
        forall|i: int| 0 <= i < place ==> (#[trigger] offsets[i]).0 != offsets[place].0,
    ensures
        committed_of(offsets, offsets[place].0) == offsets[place].1,
    decreases place,
{
    if place > 0 {
        let rest = offsets.skip(1);
        assert(offsets[0].0 != offsets[place].0);
        assert(rest[place - 1] == offsets[place]);
        assert forall|i: int| 0 <= i < place - 1 implies (#[trigger] rest[i]).0 != rest[place
            - 1].0 by {
            assert(rest[i] == offsets[i + 1]);
        }
        committed_offsets_are_found(rest, place - 1);
    }
}

/// Whether an offset is noted of a follower and a partition.
pub open spec fn is_noted_of(
    replica: ReplicaOffset,
    follower: u32,
    topic: Seq<char>,
    partition: u32,
) -> bool {
    replica.follower == follower && replica.topic@ == topic && replica.partition == partition
}

/// Whether one offset is noted of each follower and partition.
pub open spec fn noted_once(replicas: Seq<ReplicaOffset>) -> bool {
    forall|i: int, j: int|
        0 <= i < j < replicas.len() ==> !is_noted_of(
            #[trigger] replicas[i],
            (#[trigger] replicas[j]).follower,
            replicas[j].topic@,
            replicas[j].partition,
        )
}

proof fn lemma_place_of(
    replicas: Seq<ReplicaOffset>,
    follower: u32,
    topic: Seq<char>,
    partition: u32,
)
    ensures
        ({
            let place = place_of(replicas, follower, topic, partition) as int;
            &&& place <= replicas.len()
            &&& place < replicas.len() ==> is_noted_of(replicas[place], follower, topic, partition)
            &&& forall|i: int|
                0 <= i < place ==> !is_noted_of(
                    #[trigger] replicas[i],
                    follower,
                    topic,
                    partition,
                )
        }),
    decreases replicas.len(),
{
    if replicas.len() > 0 && !is_noted_of(replicas[0], follower, topic, partition) {
        let rest = replicas.skip(1);
        lemma_place_of(rest, follower, topic, partition);
        let place = place_of(replicas, follower, topic, partition) as int;
        assert(place == 1 + place_of(rest, follower, topic, partition));
        if place < replicas.len() {
            assert(rest[place - 1] == replicas[place]);
        }
        assert forall|i: int| 0 <= i < place implies !is_noted_of(
            #[trigger] replicas[i],
            follower,
            topic,
            partition,
        ) by {
            if i > 0 {
                assert(rest[i - 1] == replicas[i]);
            }
        }
    }
}

/// The offset that a follower acknowledged last is the one that is noted, once, and what is noted
/// of others stays.
pub proof fn latest_offset_is_noted(
    before: Seq<ReplicaOffset>,
    after: Seq<ReplicaOffset>,
    follower: u32,
    topic: Seq<char>,
    partition: u32,
    offset: u64,
    place: int,
)
    requires
        notes_replica(before, after, follower, topic, partition, offset),
        noted_once(before),
    ensures
        noted_once(after),
        0 <= place < after.len() && is_noted_of(after[place], follower, topic, partition)
            ==> after[place].offset == offset,
        exists|i: int|
            0 <= i < after.len() && is_noted_of(
                #[trigger] after[i],
                follower,
                topic,
                partition,
            ),
        0 <= place < before.len() && !is_noted_of(before[place], follower, topic, partition)
            ==> after[place] == before[place],
{
    lemma_place_of(before, follower, topic, partition);
    let own = place_of(before, follower, topic, partition) as int;
    assert(is_noted_of(after[own], follower, topic, partition));
    assert forall|i: int, j: int| 0 <= i < j < after.len() implies !is_noted_of(
        #[trigger] after[i],
        (#[trigger] after[j]).follower,
        after[j].topic@,
        after[j].partition,
    ) by {
        if i != own && j != own {
            assert(after[i] == before[i] && after[j] == before[j]);
        } else if i == own && own < before.len() {
            assert(!is_noted_of(
                before[i],
                before[j].follower,
                before[j].topic@,
                before[j].partition,
            ));
        } else if j == own {
            assert(after[i] == before[i]);
        }
    }
    if 0 <= place < after.len() && place != own {
        if own < place {
            assert(own < before.len());
            assert(!is_noted_of(
                before[own],
                before[place].follower,
                before[place].topic@,
                before[place].partition,
            ));
        }
    }
}

} // verus!
