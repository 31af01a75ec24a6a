//! Cluster membership, and which broker leads which partition.

use vstd::prelude::*;

use crate::leadership::{LeadershipRegistry, PartitionLeadership};
use crate::text;

verus! {

/// A broker of the cluster and its endpoints.
#[derive(Debug, PartialEq, Eq)]
pub struct ClusterNode {
    pub id: u32,
    pub host: String,
    pub port: u16,
    pub admin_port: u16,
    pub replication_port: u16,
}

/// A broker as a value.
#[verifier::ext_equal]
pub struct Node {
    pub id: u32,
    pub host: Seq<char>,
    pub port: u16,
    pub admin_port: u16,
    pub replication_port: u16,
}

impl View for ClusterNode {
    type V = Node;

    open spec fn view(&self) -> Node {
        Node {
            id: self.id,
            host: self.host@,
            port: self.port,
            admin_port: self.admin_port,
            replication_port: self.replication_port,
        }
    }
}

impl Clone for ClusterNode {
    fn clone(&self) -> (copy: Self)
        ensures
            copy@ == self@,
    {
        ClusterNode {
            id: self.id,
            host: self.host.clone(),
            port: self.port,
            admin_port: self.admin_port,
            replication_port: self.replication_port,
        }
    }
}

/// The brokers of a cluster, as one of them sees it.
#[derive(Debug, PartialEq, Eq)]
pub struct ClusterMetadata {
    pub responding_broker_id: u32,
    pub nodes: Vec<ClusterNode>,
}

/// Several brokers as values.
pub open spec fn node_views(nodes: Seq<ClusterNode>) -> Seq<Node> {
    nodes.map_values(|node: ClusterNode| node@)
}

pub fn clone_nodes(nodes: &Vec<ClusterNode>) -> (copy: Vec<ClusterNode>)
    ensures
        node_views(copy@) == node_views(nodes@),
{
    let mut copy: Vec<ClusterNode> = Vec::new();
    for i in 0..nodes.len()
        invariant
            node_views(copy@) == node_views(nodes@).take(i as int),
    {
        let ghost before = node_views(copy@);
        copy.push(nodes[i].clone());
        proof {
            assert(node_views(copy@) =~= before.push(nodes@[i as int]@));
            assert(node_views(nodes@).take(i + 1) =~= before.push(nodes@[i as int]@));
        }
    }
    assert(node_views(nodes@).take(nodes@.len() as int) =~= node_views(nodes@));
    copy
}

impl Clone for ClusterMetadata {
    fn clone(&self) -> (copy: Self)
        ensures
            copy.responding_broker_id == self.responding_broker_id,
            node_views(copy.nodes@) == node_views(self.nodes@),
    {
        ClusterMetadata {
            responding_broker_id: self.responding_broker_id,
            nodes: clone_nodes(&self.nodes),
        }
    }
}

/// A topic, its partition count, and the leadership of each partition where it is known.
#[derive(Debug, PartialEq, Eq)]
pub struct TopicMetadata {
    pub topic: String,
    pub partitions: u32,
    pub leaders: Vec<PartitionLeadership>,
}

/// The place of the broker that leads a partition: the partitions go round the brokers.
pub open spec fn leader_index(nodes: nat, partition: u32) -> int {
    partition as int % nodes as int
}

/// The broker that leads a partition.
pub fn leader_for_partition(cluster: &ClusterMetadata, partition: u32) -> (leader: &ClusterNode)
    requires
        cluster.nodes@.len() > 0,
    ensures
        *leader == cluster.nodes@[leader_index(cluster.nodes@.len(), partition)],
{
    let index: usize = partition as usize % cluster.nodes.len();
    &cluster.nodes[index]
}

/// Whether the broker at a place has a replica of a partition: so many brokers have one as the
/// replication factor says, from the first leader of the partition on, round the cluster.
pub open spec fn has_replica(place: int, nodes: nat, partition: u32, factor: usize) -> bool {
    let first = leader_index(nodes, partition);
    first <= place < first + factor || place + nodes < first + factor
}

/// Those of the first `count` that have a replica of a partition, in order.
pub open spec fn replicas_among<T>(
    all: Seq<T>,
    partition: u32,
    factor: usize,
    count: int,
) -> Seq<T>
    decreases count,
{
    if count <= 0 {
        Seq::empty()
    } else {
        let before = replicas_among(all, partition, factor, count - 1);
        if has_replica(count - 1, all.len(), partition, factor) {
            before.push(all[count - 1])
        } else {
            before
        }
    }
}

/// Those that have a replica of a partition, in order.
pub open spec fn replica_set<T>(all: Seq<T>, partition: u32, factor: usize) -> Seq<T> {
    replicas_among(all, partition, factor, all.len() as int)
}

/// Whether the broker at a place has a replica of a partition.
pub fn holds_replica(place: usize, nodes: usize, partition: u32, factor: usize) -> (holds: bool)
    requires
        place < nodes,
    ensures
        holds == has_replica(place as int, nodes as nat, partition, factor),
{
    let first: usize = partition as usize % nodes;
    if place >= first {
        place - first < factor
    } else {
        nodes - first < factor && place < factor - (nodes - first)
    }
}

proof fn lemma_replica_count<T>(all: Seq<T>, partition: u32, factor: usize, count: int)
    requires
        0 <= count <= all.len(),
        factor <= all.len(),
        all.len() > 0,
    ensures
        ({
            let first = leader_index(all.len(), partition);
            let end = first + factor;
            let wrapped = if end > all.len() {
                end - all.len()
            } else {
                0
            };
            let behind = if count <= first {
                0
            } else if count <= end {
                count - first
            } else {
                factor as int
            };
            let front = if count <= wrapped {
                count
            } else {
                wrapped
            };
            replicas_among(all, partition, factor, count).len() == behind + front
        }),
    decreases count,
{
    let first = leader_index(all.len(), partition);
    assert(0 <= first < all.len()) by (nonlinear_arith)
        requires
            all.len() > 0,
            first == partition as int % all.len() as int,
    ;
    if count > 0 {
        lemma_replica_count(all, partition, factor, count - 1);
    }
}

/// Each partition has as many replicas as the replication factor says.
pub proof fn partition_has_factor_replicas<T>(all: Seq<T>, partition: u32, factor: usize)
    requires
        factor <= all.len(),
        all.len() > 0,
    ensures
        replica_set(all, partition, factor).len() == factor,
{
    let first = leader_index(all.len(), partition);
    assert(0 <= first < all.len()) by (nonlinear_arith)
        requires
            all.len() > 0,
            first == partition as int % all.len() as int,
    ;
    lemma_replica_count(all, partition, factor, all.len() as int);
}

proof fn lemma_replica_at<T>(
    all: Seq<T>,
    partition: u32,
    factor: usize,
    count: int,
    place: int,
)
    requires
        0 <= place < count <= all.len(),
        has_replica(place, all.len(), partition, factor),
    ensures
        replicas_among(all, partition, factor, count).contains(all[place]),
    decreases count,
{
    let before = replicas_among(all, partition, factor, count - 1);
    if place < count - 1 {
        lemma_replica_at(all, partition, factor, count - 1, place);
        let i = choose|i: int| 0 <= i < before.len() && before[i] == all[place];
        assert(replicas_among(all, partition, factor, count)[i] == all[place]);
    } else {
        assert(before.push(all[place])[before.len() as int] == all[place]);
    }
}

/// Whoever has a replica is of the cluster.
pub proof fn replicas_are_members<T>(all: Seq<T>, partition: u32, factor: usize, count: int)
    requires
        0 <= count <= all.len(),
    ensures
        forall|i: int|
            0 <= i < replicas_among(all, partition, factor, count).len() ==> all.contains(
                #[trigger] replicas_among(all, partition, factor, count)[i],
            ),
    decreases count,
{
    if count > 0 {
        replicas_are_members(all, partition, factor, count - 1);
        let before = replicas_among(all, partition, factor, count - 1);
        let after = replicas_among(all, partition, factor, count);
        assert forall|i: int| 0 <= i < after.len() implies all.contains(#[trigger] after[i]) by {
            if i < before.len() {
                assert(after[i] == before[i]);
            } else {
                assert(after[i] == all[count - 1]);
            }
        }
    }
}

/// The first leader of a partition has a replica of it.
pub proof fn first_leader_has_replica<T>(all: Seq<T>, partition: u32, factor: usize)
    requires
        all.len() > 0,
        factor > 0,
    ensures
        replica_set(all, partition, factor).contains(all[leader_index(all.len(), partition)]),
{
    let first = leader_index(all.len(), partition);
    assert(0 <= first < all.len()) by (nonlinear_arith)
        requires
            all.len() > 0,
            first == partition as int % all.len() as int,
    ;
    lemma_replica_at(all, partition, factor, all.len() as int, first);
}

proof fn lemma_all_replicas<T>(all: Seq<T>, partition: u32, factor: usize, count: int)
    requires
        0 <= count <= all.len(),
        factor >= all.len(),
        all.len() > 0,
    ensures
        replicas_among(all, partition, factor, count) == all.take(count),
    decreases count,
{
    let first = leader_index(all.len(), partition);
    assert(0 <= first < all.len()) by (nonlinear_arith)
        requires
            all.len() > 0,
            first == partition as int % all.len() as int,
    ;
    if count > 0 {
        lemma_all_replicas(all, partition, factor, count - 1);
        assert(all.take(count) =~= all.take(count - 1).push(all[count - 1]));
    } else {
        assert(all.take(0) =~= Seq::empty());
    }
}

/// A replication factor that is the size of the cluster gives every broker a replica.
pub proof fn full_factor_replicates_everywhere<T>(all: Seq<T>, partition: u32, factor: usize)
    requires
        factor >= all.len(),
        all.len() > 0,
    ensures
        replica_set(all, partition, factor) == all,
{
    lemma_all_replicas(all, partition, factor, all.len() as int);
    assert(all.take(all.len() as int) =~= all);
}

/// The metadata of a topic with the leaderships of its partitions.
pub fn with_leaders(metadata: TopicMetadata, registry: &LeadershipRegistry) -> (led: TopicMetadata)
    requires
        registry.wf(),
        registry@.brokers.len() > 0 || metadata.partitions == 0,
    ensures
        led.topic == metadata.topic,
        led.partitions == metadata.partitions,
        led.leaders@ == registry@.leaders(metadata.topic@, metadata.partitions),
{
    let mut leaders: Vec<PartitionLeadership> = Vec::new();
    let partitions: u32 = metadata.partitions;
    for partition in 0..partitions
        invariant
            registry.wf(),
            registry@.brokers.len() > 0 || partitions == 0,
            leaders@ == registry@.leaders(metadata.topic@, partition),
    {
        leaders.push(registry.current(metadata.topic.as_str(), partition));
        assert(leaders@ =~= registry@.leaders(metadata.topic@, (partition + 1) as u32));
    }
    TopicMetadata { topic: metadata.topic, partitions: metadata.partitions, leaders }
}

/// Whether the responding broker leads a partition. A broker on its own leads all.
pub open spec fn leads(cluster: ClusterMetadata, partition: u32) -> bool {
    cluster.nodes@.len() == 1 || cluster.nodes@[leader_index(cluster.nodes@.len(), partition)].id
        == cluster.responding_broker_id
}

/// What a broker answers that does not lead a partition.
pub open spec fn not_leader_text(partition: u32, leader: ClusterNode) -> Seq<char> {
    "not partition leader: partition="@ + text::decimal(partition as nat) + " leader_id="@
        + text::decimal(leader.id as nat) + " leader="@ + leader.host@ + ":"@ + text::decimal(
        leader.port as nat,
    )
}

/// What a broker answers that does not lead a partition.
pub fn not_leader(partition: u32, leader: &ClusterNode) -> (message: String)
    ensures
        message@ == not_leader_text(partition, *leader),
{
    let mut out = "not partition leader: partition=".to_owned();
    text::push_decimal(&mut out, partition as u64);
    out.append(" leader_id=");
    text::push_decimal(&mut out, leader.id as u64);
    out.append(" leader=");
    out.append(leader.host.as_str());
    out.append(":");
    text::push_decimal(&mut out, leader.port as u64);
    out
}

/// The error with which a broker refuses a partition that it does not lead. A broker on its own
/// leads every partition; in a cluster the partition has to be named.
pub fn leadership_error(cluster: &ClusterMetadata, partition: Option<u32>) -> (error: Option<
    String,
>)
    requires
        cluster.nodes@.len() > 0 || partition is None,
    ensures
        if cluster.nodes@.len() == 1 {
            error is None
        } else {
            match partition {
                None => error matches Some(text) && text@
                    == "partition is required for clustered produce"@,
                Some(number) => if leads(*cluster, number) {
                    error is None
                } else {
                    error matches Some(text) && text@ == not_leader_text(
                        number,
                        cluster.nodes@[leader_index(cluster.nodes@.len(), number)],
                    )
                },
            }
        },
{
    if cluster.nodes.len() == 1 {
        return None;
    }
    match partition {
        None => Some("partition is required for clustered produce".to_owned()),
        Some(number) => {
            let leader = leader_for_partition(cluster, number);
            if leader.id == cluster.responding_broker_id {
                None
            } else {
                Some(not_leader(number, leader))
            }
        },
    }
}

/// Each broker of a cluster finds the same leader for a partition, and it is one of the cluster.
/// Of two different brokers of a cluster at most one leads a partition.
pub proof fn leader_is_agreed(a: ClusterMetadata, b: ClusterMetadata, partition: u32)
    requires
        a.nodes@.len() > 0,
        node_views(a.nodes@) == node_views(b.nodes@),
    ensures
        ({
            let place = leader_index(a.nodes@.len(), partition);
            &&& 0 <= place < a.nodes@.len()
            &&& leader_index(b.nodes@.len(), partition) == place
            &&& a.nodes@[place]@ == b.nodes@[place]@
        }),
        a.nodes@.len() > 1 && leads(a, partition) && leads(b, partition) ==> a.responding_broker_id
            == b.responding_broker_id,
{
    let place = leader_index(a.nodes@.len(), partition);
    assert(node_views(a.nodes@).len() == a.nodes@.len());
    assert(node_views(b.nodes@).len() == b.nodes@.len());
    assert(0 <= place < a.nodes@.len()) by (nonlinear_arith)
        requires
            a.nodes@.len() > 0,
            place == partition as int % a.nodes@.len() as int,
    ;
    assert(node_views(a.nodes@)[place] == a.nodes@[place]@);
    assert(node_views(b.nodes@)[place] == b.nodes@[place]@);
}

} // verus!
