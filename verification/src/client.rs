//! The client's side of a request: which broker it goes to, and what the answer means.

use bytes::Bytes;
use vstd::prelude::*;
use vstd::utf8;

use crate::buffer;
use crate::checksum;
use crate::cluster;
use crate::cluster::{ClusterMetadata, ClusterNode, TopicMetadata};
use crate::config;
use crate::groups::JoinGroupResponse;
use crate::leadership::PartitionLeadership;
use crate::messages::{BatchRecord, BrokerResponse};
use crate::protocol::{ProduceAck, ProtocolError};
use crate::record::FetchedRecord;
use crate::sorted;
use crate::text;

verus! {

#[derive(Debug)]
pub enum ClientError {
    Io(String),
    Protocol(ProtocolError),
    ConnectionClosed,
    UnexpectedResponse,
    InvalidBrokerAddress(String),
    EmptyCluster,
    InvalidPartition,
    UnknownLeader(u32),
    BatchSpansPartitions,
    Server(String),
}

impl ClientError {
    /// What the error says.
    pub open spec fn text(self) -> Seq<char> {
        match self {
            ClientError::Io(cause) => "client I/O failed: "@ + cause@,
            ClientError::Protocol(error) => error.text(),
            ClientError::ConnectionClosed =>
                "broker closed the connection before sending a response"@,
            ClientError::UnexpectedResponse =>
                "broker returned a response for a different operation"@,
            ClientError::InvalidBrokerAddress(cause) =>
                "broker advertised an invalid client address: "@ + cause@,
            ClientError::EmptyCluster => "broker returned an empty cluster membership"@,
            ClientError::InvalidPartition =>
                "partition does not fit this platform's address space"@,
            ClientError::UnknownLeader(id) => "topic metadata references unknown leader "@
                + text::decimal(id as nat),
            ClientError::BatchSpansPartitions =>
                "a compressed batch cannot span multiple partitions"@,
            ClientError::Server(message) => "broker rejected the request: "@ + message@,
        }
    }

    /// The error in words.
    pub fn message(&self) -> (message: String)
        ensures
            message@ == self.text(),
    {
        match self {
            ClientError::Io(cause) => text::joined("client I/O failed: ", cause.as_str()),
            ClientError::Protocol(error) => error.message(),
            ClientError::ConnectionClosed => {
                "broker closed the connection before sending a response".to_owned()
            },
            ClientError::UnexpectedResponse => {
                "broker returned a response for a different operation".to_owned()
            },
            ClientError::InvalidBrokerAddress(cause) => {
                text::joined("broker advertised an invalid client address: ", cause.as_str())
            },
            ClientError::EmptyCluster => {
                "broker returned an empty cluster membership".to_owned()
            },
            ClientError::InvalidPartition => {
                "partition does not fit this platform's address space".to_owned()
            },
            ClientError::UnknownLeader(id) => {
                let mut out = "topic metadata references unknown leader ".to_owned();
                text::push_decimal(&mut out, *id as u64);
                out
            },
            ClientError::BatchSpansPartitions => {
                "a compressed batch cannot span multiple partitions".to_owned()
            },
            ClientError::Server(message) => {
                text::joined("broker rejected the request: ", message.as_str())
            },
        }
    }
}

/// Where a broker takes requests.
pub fn node_address(node: &ClusterNode) -> (address: String)
    ensures
        address@ == config::address_text(node.host@, node.port),
{
    config::socket_address(node.host.as_str(), node.port)
}

/// Where the controller takes requests: it is the first broker.
pub fn controller_address(cluster: &ClusterMetadata) -> (address: Result<String, ClientError>)
    ensures
        if cluster.nodes@.len() == 0 {
            address matches Err(error) && error is EmptyCluster
        } else {
            address matches Ok(found) && found@ == config::address_text(
                cluster.nodes@[0].host@,
                cluster.nodes@[0].port,
            )
        },
{
    if cluster.nodes.len() == 0 {
        return Err(ClientError::EmptyCluster);
    }
    Ok(node_address(&cluster.nodes[0]))
}

/// The first broker with this id.
pub open spec fn broker_with(nodes: Seq<ClusterNode>, id: u32) -> Option<ClusterNode>
    decreases nodes.len(),
{
    if nodes.len() == 0 {
        None
    } else if nodes[0].id == id {
        Some(nodes[0])
    } else {
        broker_with(nodes.skip(1), id)
    }
}

/// Whether `address` is where the leader of a partition takes requests, or says why it is not
/// known.
pub open spec fn is_leader_address(
    cluster: ClusterMetadata,
    topic: TopicMetadata,
    partition: u32,
    address: Result<String, ClientError>,
) -> bool {
    if partition >= topic.leaders@.len() {
        address matches Err(error) && error is InvalidPartition
    } else {
        let id = topic.leaders@[partition as int].leader_id;
        match broker_with(cluster.nodes@, id) {
            None => address matches Err(error) && error == ClientError::UnknownLeader(id),
            Some(node) => address matches Ok(found) && found@ == config::address_text(
                node.host@,
                node.port,
            ),
        }
    }
}

/// Where the leader of a partition takes requests.
pub fn topic_leader_address(cluster: &ClusterMetadata, topic: &TopicMetadata, partition: u32) -> (
    address: Result<String, ClientError>)
    ensures
        is_leader_address(*cluster, *topic, partition, address),
{
    let index: usize = partition as usize;
    if index >= topic.leaders.len() {
        return Err(ClientError::InvalidPartition);
    }
    let id: u32 = topic.leaders[index].leader_id;
    let mut i: usize = 0;
    assert(cluster.nodes@.skip(0) =~= cluster.nodes@);
    while i < cluster.nodes.len()
        invariant
            i <= cluster.nodes@.len(),
            partition < topic.leaders@.len(),
            id == topic.leaders@[partition as int].leader_id,
            broker_with(cluster.nodes@, id) == broker_with(cluster.nodes@.skip(i as int), id),
        decreases cluster.nodes@.len() - i,
    {
        if cluster.nodes[i].id == id {
            return Ok(node_address(&cluster.nodes[i]));
        }
        assert(cluster.nodes@.skip(i as int).skip(1) =~= cluster.nodes@.skip(i + 1));
        i = i + 1;
    }
    Err(ClientError::UnknownLeader(id))
}

/// Where a request to a partition goes: to the broker that the client is connected to, or to the
/// leader of the partition.
#[derive(Debug)]
pub enum Route {
    Here,
    Leader { partition: u32, address: String },
}

/// Whether the brokers of a cluster share the partitions out, so that a request has to find its
/// leader.
pub fn needs_leader(cluster: &ClusterMetadata) -> (needed: bool)
    ensures
        needed == (cluster.nodes@.len() != 1),
{
    cluster.nodes.len() != 1
}

/// Whether `route` is that of a request to a partition.
pub open spec fn is_route(
    cluster: ClusterMetadata,
    topic: TopicMetadata,
    chosen: u32,
    route: Result<Route, ClientError>,
) -> bool {
    if cluster.nodes@.len() == 1 {
        route matches Ok(Route::Here)
    } else {
        match route {
            Ok(Route::Here) => false,
            Ok(Route::Leader { partition, address }) => partition == chosen && is_leader_address(
                cluster,
                topic,
                chosen,
                Ok(address),
            ),
            Err(error) => is_leader_address(cluster, topic, chosen, Err(error)),
        }
    }
}

/// The route of a request to a partition.
pub fn partition_route(cluster: &ClusterMetadata, topic: &TopicMetadata, partition: u32) -> (
    route: Result<Route, ClientError>)
    ensures
        is_route(*cluster, *topic, partition, route),
{
    if !needs_leader(cluster) {
        return Ok(Route::Here);
    }
    match topic_leader_address(cluster, topic, partition) {
        Ok(address) => Ok(Route::Leader { partition, address }),
        Err(error) => Err(error),
    }
}

/// The partition of a message whose routing key has this checksum. A message without one goes to
/// the partition whose turn it is.
pub open spec fn partition_for(hash: Option<u32>, partitions: u32, turn: u32) -> u32 {
    match hash {
        Some(hash) => (hash as int % partitions as int) as u32,
        None => if partitions == 0 {
            0
        } else {
            (turn as int % partitions as int) as u32
        },
    }
}

/// The turn after a message: one that went by turn passes it on.
pub open spec fn turn_after(hash: Option<u32>, partitions: u32, turn: u32) -> u32 {
    if hash is Some || partitions == 0 {
        turn
    } else {
        ((turn + 1) as int % partitions as int) as u32
    }
}

/// The partition of a message whose routing key has this checksum, and the turn after it.
pub fn choose_partition(hash: Option<u32>, partitions: u32, turn: u32) -> (chosen: (u32, u32))
    requires
        hash is Some ==> partitions > 0,
    ensures
        chosen.0 == partition_for(hash, partitions, turn),
        chosen.1 == turn_after(hash, partitions, turn),
{
    match hash {
        Some(hash) => (hash % partitions, turn),
        None => {
            if partitions == 0 {
                return (0, turn);
            }
            let next: u64 = (turn as u64 + 1) % (partitions as u64);
            (turn % partitions, next as u32)
        },
    }
}

/// The checksum of what a message is routed by: its key, or else the identity of its producer.
pub open spec fn message_hash(key: Seq<u8>, producer_id: Option<Seq<char>>) -> Option<u32> {
    if key.len() > 0 {
        Some(checksum::crc32(key))
    } else {
        match producer_id {
            Some(id) => Some(checksum::crc32(utf8::encode_utf8(id))),
            None => None,
        }
    }
}

/// The route of a message, and the turn after it. The broker takes turns on its own where it is
/// the only one.
pub fn produce_route(
    cluster: &ClusterMetadata,
    topic: &TopicMetadata,
    key: &Bytes,
    producer_id: Option<&str>,
    turn: u32,
) -> (route: (Result<Route, ClientError>, u32))
    requires
        cluster.nodes@.len() == 1 || (buffer::content(*key).len() == 0 && producer_id is None)
            || topic.partitions > 0,
    ensures
        ({
            let hash = message_hash(
                buffer::content(*key),
                match producer_id {
                    Some(id) => Some(id@),
                    None => None,
                },
            );
            &&& is_route(
                *cluster,
                *topic,
                partition_for(hash, topic.partitions, turn),
                route.0,
            )
            &&& route.1 == if cluster.nodes@.len() == 1 {
                turn
            } else {
                turn_after(hash, topic.partitions, turn)
            }
        }),
{
    if !needs_leader(cluster) {
        return (Ok(Route::Here), turn);
    }
    let hash: Option<u32> = if key.len() > 0 {
        Some(crc32fast::hash(buffer::as_slice(key)))
    } else {
        match producer_id {
            Some(id) => Some(crc32fast::hash(id.as_bytes())),
            None => None,
        }
    };
    let (partition, next) = choose_partition(hash, topic.partitions, turn);
    (partition_route(cluster, topic, partition), next)
}

/// The checksums of the keys of a batch. An empty key has none.
pub open spec fn key_hashes(records: Seq<BatchRecord>) -> Seq<Option<u32>> {
    records.map_values(|message: BatchRecord| message_hash(buffer::content(message.key), None))
}

/// Whether a batch with these checksums goes to one partition: the one of its first message.
pub open spec fn is_one_partition(hashes: Seq<Option<u32>>, partitions: u32, turn: u32) -> bool {
    forall|i: int|
        0 <= i < hashes.len() && hashes[i] is Some ==> partition_for(
            #[trigger] hashes[i],
            partitions,
            turn,
        ) == first_partition(hashes, partitions, turn)
}

/// The checksum of the key of a batch's first message.
pub open spec fn first_hash(hashes: Seq<Option<u32>>) -> Option<u32> {
    if hashes.len() == 0 {
        None
    } else {
        hashes[0]
    }
}

/// The partition of the first message of a batch.
pub open spec fn first_partition(hashes: Seq<Option<u32>>, partitions: u32, turn: u32) -> u32 {
    partition_for(first_hash(hashes), partitions, turn)
}

/// The partition of a batch whose keys have these checksums, and the turn after it. Messages
/// without a key go with the rest.
pub fn batch_partition(hashes: &Vec<Option<u32>>, partitions: u32, turn: u32) -> (chosen: (
    Result<u32, ClientError>,
    u32,
))
    requires
        partitions > 0 || forall|i: int| 0 <= i < hashes@.len() ==> #[trigger] hashes@[i] is None,
    ensures
        if is_one_partition(hashes@, partitions, turn) {
            &&& chosen.0 matches Ok(found)
            &&& found == first_partition(hashes@, partitions, turn)
            &&& chosen.1 == turn_after(first_hash(hashes@), partitions, turn)
        } else {
            &&& chosen.0 matches Err(error) && error is BatchSpansPartitions
            &&& chosen.1 == turn
        },
{
    let first_key: Option<u32> = if hashes.len() == 0 {
        None
    } else {
        hashes[0]
    };
    let (first, next) = choose_partition(first_key, partitions, turn);
    let mut i: usize = 0;
    while i < hashes.len()
        invariant
            i <= hashes@.len(),
            partitions > 0 || forall|j: int|
                0 <= j < hashes@.len() ==> #[trigger] hashes@[j] is None,
            first == first_partition(hashes@, partitions, turn),
            next == turn_after(first_hash(hashes@), partitions, turn),
            forall|j: int|
                0 <= j < i && hashes@[j] is Some ==> partition_for(
                    #[trigger] hashes@[j],
                    partitions,
                    turn,
                ) == first,
        decreases hashes@.len() - i,
    {
        let hash: Option<u32> = hashes[i];
        if hash.is_some() && choose_partition(hash, partitions, turn).0 != first {
            assert(hashes@[i as int] is Some);
            return (Err(ClientError::BatchSpansPartitions), turn);
        }
        i = i + 1;
    }
    (Ok(first), next)
}

/// The route of a batch, and the turn after it.
pub fn batch_route(
    cluster: &ClusterMetadata,
    topic: &TopicMetadata,
    records: &Vec<BatchRecord>,
    turn: u32,
) -> (route: (Result<Route, ClientError>, u32))
    requires
        cluster.nodes@.len() == 1 || topic.partitions > 0 || forall|i: int|
            0 <= i < records@.len() ==> buffer::content(#[trigger] records@[i].key).len() == 0,
    ensures
        ({
            let hashes = key_hashes(records@);
            if cluster.nodes@.len() == 1 {
                route.0 matches Ok(Route::Here) && route.1 == turn
            } else if is_one_partition(hashes, topic.partitions, turn) {
                &&& is_route(
                    *cluster,
                    *topic,
                    first_partition(hashes, topic.partitions, turn),
                    route.0,
                )
                &&& route.1 == turn_after(first_hash(hashes), topic.partitions, turn)
            } else {
                &&& route.0 matches Err(error) && error is BatchSpansPartitions
                &&& route.1 == turn
            }
        }),
{
    if !needs_leader(cluster) {
        return (Ok(Route::Here), turn);
    }
    let mut hashes: Vec<Option<u32>> = Vec::new();
    for i in 0..records.len()
        invariant
            hashes@ == key_hashes(records@).take(i as int),
    {
        let hash: Option<u32> = if records[i].key.len() > 0 {
            Some(crc32fast::hash(buffer::as_slice(&records[i].key)))
        } else {
            None
        };
        hashes.push(hash);
        assert(hashes@ =~= key_hashes(records@).take(i + 1));
    }
    assert(hashes@ =~= key_hashes(records@));
    match batch_partition(&hashes, topic.partitions, turn) {
        (Ok(partition), next) => (partition_route(cluster, topic, partition), next),
        (Err(error), next) => (Err(error), next),
    }
}

/// The error of an answer that is not the one expected: what the broker says, where it refuses.
pub open spec fn is_refusal(response: BrokerResponse, error: ClientError) -> bool {
    match response {
        BrokerResponse::Error(message) => error == ClientError::Server(message),
        _ => error is UnexpectedResponse,
    }
}

fn refusal(response: BrokerResponse) -> (error: ClientError)
    ensures
        is_refusal(response, error),
{
    match response {
        BrokerResponse::Error(message) => ClientError::Server(message),
        _ => ClientError::UnexpectedResponse,
    }
}

/// What the answer to a message says.
pub fn produce_reply(response: BrokerResponse) -> (reply: Result<ProduceAck, ClientError>)
    ensures
        match response {
            BrokerResponse::ProduceAck(ack) => reply matches Ok(found) && found == ack,
            _ => reply matches Err(error) && is_refusal(response, error),
        },
{
    match response {
        BrokerResponse::ProduceAck(ack) => Ok(ack),
        other => Err(refusal(other)),
    }
}

/// What the answer to a batch says.
pub fn batch_reply(response: BrokerResponse) -> (reply: Result<Vec<ProduceAck>, ClientError>)
    ensures
        match response {
            BrokerResponse::ProduceBatchAck(acks) => reply matches Ok(found) && found == acks,
            _ => reply matches Err(error) && is_refusal(response, error),
        },
{
    match response {
        BrokerResponse::ProduceBatchAck(acks) => Ok(acks),
        other => Err(refusal(other)),
    }
}

/// What the answer to a question about all topics says.
pub fn topics_reply(response: BrokerResponse) -> (reply: Result<Vec<TopicMetadata>, ClientError>)
    ensures
        match response {
            BrokerResponse::Topics(topics) => reply matches Ok(found) && found == topics,
            _ => reply matches Err(error) && is_refusal(response, error),
        },
{
    match response {
        BrokerResponse::Topics(topics) => Ok(topics),
        other => Err(refusal(other)),
    }
}

/// What the answer to a request on one topic says.
pub fn topic_reply(response: BrokerResponse) -> (reply: Result<TopicMetadata, ClientError>)
    ensures
        match response {
            BrokerResponse::Topics(topics) => if topics@.len() == 1 {
                reply matches Ok(found) && found == topics@[0]
            } else {
                reply matches Err(error) && error is UnexpectedResponse
            },
            _ => reply matches Err(error) && is_refusal(response, error),
        },
{
    match response {
        BrokerResponse::Topics(topics) => {
            let mut topics = topics;
            if topics.len() == 1 {
                Ok(topics.remove(0))
            } else {
                Err(ClientError::UnexpectedResponse)
            }
        },
        other => Err(refusal(other)),
    }
}

/// Whether a topic was handed on to another broker.
pub fn apply_topic_reply(response: BrokerResponse) -> (reply: Result<(), ClientError>)
    ensures
        match response {
            BrokerResponse::Topics(_) => reply is Ok,
            _ => reply matches Err(error) && is_refusal(response, error),
        },
{
    match response {
        BrokerResponse::Topics(_) => Ok(()),
        other => Err(refusal(other)),
    }
}

/// What the answer to a question about the cluster says.
pub fn cluster_reply(response: BrokerResponse) -> (reply: Result<ClusterMetadata, ClientError>)
    ensures
        match response {
            BrokerResponse::ClusterMetadata(metadata) => reply matches Ok(found) && found
                == metadata,
            _ => reply matches Err(error) && is_refusal(response, error),
        },
{
    match response {
        BrokerResponse::ClusterMetadata(metadata) => Ok(metadata),
        other => Err(refusal(other)),
    }
}

/// What the answer to a promotion says.
pub fn promote_reply(response: BrokerResponse) -> (reply: Result<
    PartitionLeadership,
    ClientError,
>)
    ensures
        match response {
            BrokerResponse::LeadershipChanged(leadership) => reply matches Ok(found) && found
                == leadership,
            _ => reply matches Err(error) && is_refusal(response, error),
        },
{
    match response {
        BrokerResponse::LeadershipChanged(leadership) => Ok(leadership),
        other => Err(refusal(other)),
    }
}

/// Whether a leadership was handed on to another broker.
pub fn apply_leadership_reply(response: BrokerResponse) -> (reply: Result<(), ClientError>)
    ensures
        match response {
            BrokerResponse::LeadershipChanged(_) => reply is Ok,
            _ => reply matches Err(error) && is_refusal(response, error),
        },
{
    match response {
        BrokerResponse::LeadershipChanged(_) => Ok(()),
        other => Err(refusal(other)),
    }
}

/// What the answer to a question about a partition says: its next offset.
pub fn partition_status_reply(response: BrokerResponse) -> (reply: Result<u64, ClientError>)
    ensures
        match response {
            BrokerResponse::PartitionStatus(offset) => reply matches Ok(found) && found == offset,
            _ => reply matches Err(error) && is_refusal(response, error),
        },
{
    match response {
        BrokerResponse::PartitionStatus(offset) => Ok(offset),
        other => Err(refusal(other)),
    }
}

/// What the answer to a fetch says.
pub fn fetch_reply(response: BrokerResponse) -> (reply: Result<Vec<FetchedRecord>, ClientError>)
    ensures
        match response {
            BrokerResponse::Fetch(records) => reply matches Ok(found) && found == records,
            _ => reply matches Err(error) && is_refusal(response, error),
        },
{
    match response {
        BrokerResponse::Fetch(records) => Ok(records),
        other => Err(refusal(other)),
    }
}

/// What the answer to a join says.
pub fn join_reply(response: BrokerResponse) -> (reply: Result<JoinGroupResponse, ClientError>)
    ensures
        match response {
            BrokerResponse::JoinGroup(joined) => reply matches Ok(found) && found == joined,
            _ => reply matches Err(error) && is_refusal(response, error),
        },
{
    match response {
        BrokerResponse::JoinGroup(joined) => Ok(joined),
        other => Err(refusal(other)),
    }
}

/// Whether a heartbeat, a leave or a commit was accepted.
pub fn group_ack_reply(response: BrokerResponse) -> (reply: Result<(), ClientError>)
    ensures
        match response {
            BrokerResponse::GroupAck => reply is Ok,
            _ => reply matches Err(error) && is_refusal(response, error),
        },
{
    match response {
        BrokerResponse::GroupAck => Ok(()),
        other => Err(refusal(other)),
    }
}

/// What the answer to a question about a committed offset says.
pub fn committed_offset_reply(response: BrokerResponse) -> (reply: Result<
    Option<u64>,
    ClientError,
>)
    ensures
        match response {
            BrokerResponse::CommittedOffset(offset) => reply matches Ok(found) && found == offset,
            _ => reply matches Err(error) && is_refusal(response, error),
        },
{
    match response {
        BrokerResponse::CommittedOffset(offset) => Ok(offset),
        other => Err(refusal(other)),
    }
}

/// Once a topic has its leaders, the client finds the one that the cluster agreed on: the
/// address that it sends a request to is that of the broker whose id the topic names.
pub proof fn request_reaches_leader(
    cluster: ClusterMetadata,
    topic: TopicMetadata,
    partition: u32,
)
    requires
        cluster.nodes@.len() > 0,
        partition < topic.leaders@.len(),
        topic.leaders@[partition as int].leader_id == cluster.nodes@[cluster::leader_index(
            cluster.nodes@.len(),
            partition,
        )].id,
    ensures
        broker_with(cluster.nodes@, topic.leaders@[partition as int].leader_id) matches Some(node)
            && node.id == topic.leaders@[partition as int].leader_id,
{
    lemma_broker_found(
        cluster.nodes@,
        cluster::leader_index(cluster.nodes@.len(), partition),
    );
}

/// The turn after some messages without a key.
pub open spec fn turn_after_all(partitions: u32, turn: u32, sent: nat) -> u32
    decreases sent,
{
    if sent == 0 {
        turn
    } else {
        turn_after(None, partitions, turn_after_all(partitions, turn, (sent - 1) as nat))
    }
}

proof fn lemma_turns(partitions: u32, turn: u32, sent: nat)
    requires
        partitions > 0,
    ensures
        partition_for(None, partitions, turn_after_all(partitions, turn, sent)) as int == (turn
            + sent) % partitions as int,
    decreases sent,
{
    let count = partitions as int;
    if sent > 0 {
        let earlier = (sent - 1) as nat;
        lemma_turns(partitions, turn, earlier);
        let before = turn_after_all(partitions, turn, earlier) as int;
        let after = (before + 1) % count;
        assert(0 <= after < count) by (nonlinear_arith)
            requires
                count > 0,
                after == (before + 1) % count,
        ;
        vstd::arithmetic::div_mod::lemma_add_mod_noop(before, 1, count);
        vstd::arithmetic::div_mod::lemma_add_mod_noop(turn + earlier, 1, count);
        vstd::arithmetic::div_mod::lemma_mod_twice(before + 1, count);
        assert(turn + earlier + 1 == turn + sent);
        assert(before % count == (turn + earlier) % count);
    }
}

/// Messages without a key are spread over the partitions: of as many successive messages as there
/// are partitions, no two go to the same one.
pub proof fn unkeyed_messages_are_spread(partitions: u32, turn: u32, first: nat, second: nat)
    requires
        first < second < first + partitions,
    ensures
        partition_for(None, partitions, turn_after_all(partitions, turn, first)) != partition_for(
            None,
            partitions,
            turn_after_all(partitions, turn, second),
        ),
        partition_for(None, partitions, turn_after_all(partitions, turn, first)) < partitions,
{
    lemma_turns(partitions, turn, first);
    lemma_turns(partitions, turn, second);
    let count = partitions as int;
    let a = turn + first;
    let b = turn + second;
    assert(a % count != b % count && 0 <= a % count < count) by {
        vstd::arithmetic::div_mod::lemma_fundamental_div_mod(a, count);
        vstd::arithmetic::div_mod::lemma_fundamental_div_mod(b, count);
        vstd::arithmetic::div_mod::lemma_mod_bound(a, count);
        if a % count == b % count {
            let times = b / count - a / count;
            assert(b - a == count * times) by (nonlinear_arith)
                requires
                    a == count * (a / count) + a % count,
                    b == count * (b / count) + b % count,
                    a % count == b % count,
                    times == b / count - a / count,
            ;
            assert(false) by (nonlinear_arith)
                requires
                    0 < b - a < count,
                    b - a == count * times,
            ;
        }
    }
}

/// The controller is the broker with the lowest id, where the brokers are listed by id.
pub proof fn controller_has_lowest_id(cluster: ClusterMetadata, index: int)
    requires
        sorted::strictly_ascending::<u32>(config::ids_of(cluster::node_views(cluster.nodes@))),
        0 <= index < cluster.nodes@.len(),
    ensures
        cluster.nodes@[0].id <= cluster.nodes@[index].id,
{
    let ids = config::ids_of(cluster::node_views(cluster.nodes@));
    assert(ids[0] == cluster.nodes@[0].id);
    assert(ids[index] == cluster.nodes@[index].id);
}

proof fn lemma_broker_found(nodes: Seq<ClusterNode>, index: int)
    requires
        0 <= index < nodes.len(),
    ensures
        broker_with(nodes, nodes[index].id) matches Some(node) && node.id == nodes[index].id,
    decreases nodes.len(),
{
    if nodes[0].id != nodes[index].id {
        assert(nodes.skip(1)[index - 1] == nodes[index]);
        lemma_broker_found(nodes.skip(1), index - 1);
    }
}

/// A broker is found by its id: where there is one with this id, one with this id is found, and
/// otherwise none is.
pub proof fn brokers_are_found_by_id(nodes: Seq<ClusterNode>, id: u32)
    ensures
        match broker_with(nodes, id) {
            Some(node) => exists|i: int|
                0 <= i < nodes.len() && #[trigger] nodes[i] == node && node.id == id && forall|
                    j: int,
                | 0 <= j < i ==> (#[trigger] nodes[j]).id != id,
            None => forall|i: int| 0 <= i < nodes.len() ==> (#[trigger] nodes[i]).id != id,
        },
    decreases nodes.len(),
{
    if nodes.len() > 0 && nodes[0].id != id {
        let rest = nodes.skip(1);
        brokers_are_found_by_id(rest, id);
        match broker_with(nodes, id) {
            Some(node) => {
                let i = choose|i: int|
                    0 <= i < rest.len() && #[trigger] rest[i] == node && node.id == id && forall|
                        j: int,
                    | 0 <= j < i ==> (#[trigger] rest[j]).id != id;
                assert(nodes[i + 1] == node);
                assert forall|j: int| 0 <= j < i + 1 implies (#[trigger] nodes[j]).id != id by {
                    if j > 0 {
                        assert(rest[j - 1] == nodes[j]);
                    }
                }
            },
            None => {
                assert forall|i: int| 0 <= i < nodes.len() implies (#[trigger] nodes[i]).id
                    != id by {
                    if i > 0 {
                        assert(rest[i - 1] == nodes[i]);
                    }
                }
            },
        }
    } else if nodes.len() > 0 {
        assert(nodes[0].id == id);
    }
}

/// Messages with one key go to one partition, whatever was sent before, and leave the turn to
/// those without a key. Each message goes to a partition that the topic has.
pub proof fn keyed_messages_stay_together(hash: u32, partitions: u32, turn: u32, other_turn: u32)
    requires
        partitions > 0,
    ensures
        partition_for(Some(hash), partitions, turn) == partition_for(
            Some(hash),
            partitions,
            other_turn,
        ),
        partition_for(Some(hash), partitions, turn) < partitions,
        partition_for(None, partitions, turn) < partitions,
        hash < partitions ==> partition_for(Some(hash), partitions, turn) == hash,
        exists|times: int|
            #![trigger times * partitions as int]
            hash == times * partitions as int + partition_for(Some(hash), partitions, turn),
        turn_after(Some(hash), partitions, turn) == turn,
        turn < partitions ==> partition_for(None, partitions, turn) == turn,
        turn + 1 < partitions ==> turn_after(None, partitions, turn) == turn + 1,
        turn + 1 == partitions ==> turn_after(None, partitions, turn) == 0,
{
    let count = partitions as int;
    vstd::arithmetic::div_mod::lemma_fundamental_div_mod(hash as int, count);
    vstd::arithmetic::div_mod::lemma_mod_bound(hash as int, count);
    vstd::arithmetic::div_mod::lemma_mod_bound(turn as int, count);
    vstd::arithmetic::mul::lemma_mul_is_commutative(count, hash as int / count);
    assert(hash == (hash as int / count) * count + hash as int % count);
    if hash < partitions {
        vstd::arithmetic::div_mod::lemma_small_mod(hash as nat, partitions as nat);
    }
    if turn < partitions {
        vstd::arithmetic::div_mod::lemma_small_mod(turn as nat, partitions as nat);
    }
    if turn + 1 < partitions {
        vstd::arithmetic::div_mod::lemma_small_mod((turn + 1) as nat, partitions as nat);
    }
    if turn + 1 == partitions {
        vstd::arithmetic::div_mod::lemma_mod_self_0(count);
    }
}

/// A message is routed by its key where it has one, by its producer where it has only that, and by
/// turn where it has neither.
pub proof fn key_comes_before_producer(key: Seq<u8>, producer_id: Option<Seq<char>>)
    ensures
        key.len() > 0 ==> message_hash(key, producer_id) == Some(checksum::crc32(key)),
        key.len() == 0 ==> (producer_id matches Some(id) ==> message_hash(key, producer_id) == Some(
            checksum::crc32(utf8::encode_utf8(id)),
        )),
        message_hash(key, producer_id) is None <==> key.len() == 0 && producer_id is None,
{
}

/// A batch goes to one partition: it is refused exactly where two of its keys belong to different
/// partitions, or a key to another one than its first message without a key got.
pub proof fn batches_keep_to_one_partition(
    hashes: Seq<Option<u32>>,
    partitions: u32,
    turn: u32,
    i: int,
    j: int,
)
    requires
        partitions > 0,
        0 <= i < hashes.len(),
        0 <= j < hashes.len(),
    ensures
        is_one_partition(hashes, partitions, turn) && hashes[i] is Some && hashes[j] is Some
            ==> hashes[i]->0 as int % partitions as int == hashes[j]->0 as int % partitions as int,
        is_one_partition(hashes, partitions, turn) && hashes[i] is Some ==> hashes[i]->0 as int
            % partitions as int == first_partition(hashes, partitions, turn),
        hashes[0] matches Some(hash) ==> first_partition(hashes, partitions, turn) == hash as int
            % partitions as int,
        hashes[0] is None ==> first_partition(hashes, partitions, turn) == turn as int
            % partitions as int,
        (forall|k: int|
            0 <= k < hashes.len() ==> ((#[trigger] hashes[k]) matches Some(hash) ==> hash as int
                % partitions as int == first_partition(hashes, partitions, turn)))
            ==> is_one_partition(hashes, partitions, turn),
{
    let count = partitions as int;
    vstd::arithmetic::div_mod::lemma_mod_bound(turn as int, count);
    assert forall|k: int| 0 <= k < hashes.len() implies ((#[trigger] hashes[k]) matches Some(hash)
        ==> partition_for(hashes[k], partitions, turn) == hash as int % count) by {
        if let Some(hash) = hashes[k] {
            vstd::arithmetic::div_mod::lemma_mod_bound(hash as int, count);
        }
    }
    assert(hashes[0] is Some || hashes[0] is None);
    assert(hashes[i] is Some || hashes[i] is None);
    assert(hashes[j] is Some || hashes[j] is None);
}

/// A request to a partition is sent to the broker that the topic names as its leader. Only a
/// client of a lone broker sends it where it is connected to.
pub proof fn requests_go_to_leaders(
    cluster: ClusterMetadata,
    topic: TopicMetadata,
    chosen: u32,
    route: Result<Route, ClientError>,
    place: int,
)
    requires
        is_route(cluster, topic, chosen, route),
        cluster.nodes@.len() > 1,
        chosen < topic.leaders@.len(),
        0 <= place < cluster.nodes@.len(),
        cluster.nodes@[place].id == topic.leaders@[chosen as int].leader_id,
        forall|i: int|
            0 <= i < cluster.nodes@.len() && i != place ==> (#[trigger] cluster.nodes@[i]).id
                != cluster.nodes@[place].id,
    ensures
        route matches Ok(Route::Leader { partition, address }) && partition == chosen && address@
            == config::address_text(cluster.nodes@[place].host@, cluster.nodes@[place].port),
{
    brokers_are_found_by_id(cluster.nodes@, cluster.nodes@[place].id);
}

/// A partition whose leader is not known, or that the topic does not have, is not sent to anybody.
pub proof fn unknown_leaders_are_not_guessed(
    cluster: ClusterMetadata,
    topic: TopicMetadata,
    chosen: u32,
    route: Result<Route, ClientError>,
)
    requires
        is_route(cluster, topic, chosen, route),
        cluster.nodes@.len() != 1,
    ensures
        chosen >= topic.leaders@.len() ==> (route matches Err(error) && error is InvalidPartition),
        chosen < topic.leaders@.len() && (forall|i: int|
            0 <= i < cluster.nodes@.len() ==> (#[trigger] cluster.nodes@[i]).id
                != topic.leaders@[chosen as int].leader_id) ==> (route matches Err(error) && error
            == ClientError::UnknownLeader(topic.leaders@[chosen as int].leader_id)),
{
    if chosen < topic.leaders@.len() {
        brokers_are_found_by_id(cluster.nodes@, topic.leaders@[chosen as int].leader_id);
    }
}

/// Where a broker refuses, the client learns what the broker says. Any other answer that was not
/// asked for is told apart from a refusal.
pub proof fn refusals_are_handed_on(response: BrokerResponse, error: ClientError)
    requires
        is_refusal(response, error),
    ensures
        response is Error <==> error is Server,
        response is Error ==> error->Server_0 == response->Error_0,
        response !is Error ==> error is UnexpectedResponse,
{
}

} // verus!
