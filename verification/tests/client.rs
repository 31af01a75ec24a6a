use bytes::Bytes;
use sevlamq::cli::{
    ack_mode, cluster_lines, committed_line, consuming_line, joined_line, now_ms,
    partition_record_line, produced_line, promoted_line, record_line, render_record, topic_line,
    BatchCompression, CliError, ClusterCommand, Command, GroupCommand, ProduceAcks, TopicCommand,
};
use sevlamq::client::{
    apply_leadership_reply, apply_topic_reply, batch_partition, batch_reply, batch_route,
    choose_partition, cluster_reply, controller_address, needs_leader, node_address,
    partition_route, partition_status_reply, produce_reply, produce_route, promote_reply,
    topic_leader_address, topic_reply, topics_reply, ClientError, Route,
};
use sevlamq::cluster::{with_leaders, ClusterMetadata, ClusterNode, TopicMetadata};
use sevlamq::groups::JoinGroupResponse;
use sevlamq::leadership::{LeadershipRegistry, PartitionLeadership};
use sevlamq::messages::{AckMode, BatchRecord, BrokerRequest, BrokerResponse};
use sevlamq::protocol::ProduceAck;
use sevlamq::record::FetchedRecord;
use sevlamq::retry::RetryError;

fn node(id: u32) -> ClusterNode {
    ClusterNode {
        id,
        host: "10.0.0.1".to_owned(),
        port: 7_000 + id as u16,
        admin_port: 7_100,
        replication_port: 7_200,
    }
}

fn cluster(ids: &[u32]) -> ClusterMetadata {
    ClusterMetadata {
        responding_broker_id: 1,
        nodes: ids.iter().map(|id| node(*id)).collect(),
    }
}

fn topic() -> TopicMetadata {
    TopicMetadata {
        topic: "payments".to_owned(),
        partitions: 3,
        leaders: [1, 2, 9]
            .iter()
            .enumerate()
            .map(|(partition, leader_id)| PartitionLeadership {
                partition: partition as u32,
                leader_id: *leader_id,
                leader_epoch: 4,
                high_watermark: 30 + partition as u64,
            })
            .collect(),
    }
}

#[test]
fn finds_the_leader_of_a_partition() {
    let brokers = cluster(&[1, 2]);
    assert_eq!(node_address(&brokers.nodes[1]), "10.0.0.1:7002");
    assert!(matches!(
        topic_leader_address(&brokers, &topic(), 1),
        Ok(address) if address == "10.0.0.1:7002"
    ));
    assert!(matches!(
        topic_leader_address(&brokers, &topic(), 2),
        Err(ClientError::UnknownLeader(9))
    ));
    assert!(matches!(
        topic_leader_address(&brokers, &topic(), 3),
        Err(ClientError::InvalidPartition)
    ));
    assert!(matches!(
        controller_address(&brokers),
        Ok(address) if address == "10.0.0.1:7001"
    ));
    assert!(matches!(
        controller_address(&cluster(&[])),
        Err(ClientError::EmptyCluster)
    ));
}

#[test]
fn routes_messages_by_key_by_producer_or_in_turn() {
    let brokers = cluster(&[1, 2]);
    assert!(needs_leader(&brokers));
    let key = Bytes::from_static(b"customer-123");
    assert!(matches!(
        produce_route(&brokers, &topic(), &key, None, 5),
        (Ok(Route::Leader { partition: 1, .. }), 5)
    ));
    assert!(matches!(
        produce_route(&brokers, &topic(), &Bytes::new(), Some("customer-123"), 5),
        (Ok(Route::Leader { partition: 1, .. }), 5)
    ));
    assert!(matches!(
        produce_route(&brokers, &topic(), &Bytes::new(), None, 0),
        (Ok(Route::Leader { partition: 0, .. }), 1)
    ));
    assert!(matches!(
        produce_route(&cluster(&[1]), &topic(), &key, None, 2),
        (Ok(Route::Here), 2)
    ));
    assert!(matches!(
        partition_route(&brokers, &topic(), 1),
        Ok(Route::Leader { partition: 1, address }) if address == "10.0.0.1:7002"
    ));
    assert_eq!(choose_partition(Some(10), 3, 2), (1, 2));
}

#[test]
fn unkeyed_messages_go_to_one_partition_after_the_other() {
    let mut led = topic();
    led.leaders[2].leader_id = 2;
    let brokers = cluster(&[1, 2]);
    let mut turn = 0;
    let mut taken = Vec::new();
    for _ in 0..5 {
        let (route, next) = produce_route(&brokers, &led, &Bytes::new(), None, turn);
        match route {
            Ok(Route::Leader { partition, .. }) => taken.push(partition),
            _ => panic!("message should go to a leader"),
        }
        turn = next;
    }
    assert_eq!(taken, [0, 1, 2, 0, 1]);
    assert_eq!(turn, 2);
    assert_eq!(choose_partition(None, 3, 7), (1, 2));
    assert_eq!(choose_partition(None, 1, 0), (0, 0));
    let plain = vec![BatchRecord {
        key: Bytes::new(),
        payload: Bytes::from_static(b"x"),
    }];
    assert!(matches!(
        batch_route(&brokers, &led, &plain, turn),
        (Ok(Route::Leader { partition: 2, .. }), 0)
    ));
}

#[test]
fn batches_stay_in_one_partition() {
    assert!(matches!(
        batch_partition(&vec![Some(4), None, Some(7)], 3, 2),
        (Ok(1), 2)
    ));
    assert!(matches!(
        batch_partition(&vec![Some(4), Some(5)], 3, 0),
        (Err(ClientError::BatchSpansPartitions), _)
    ));
    assert!(matches!(batch_partition(&vec![], 3, 0), (Ok(0), 1)));
    let record = |key: &'static [u8]| BatchRecord {
        key: Bytes::from_static(key),
        payload: Bytes::from_static(b"x"),
    };
    let keyed = vec![record(b"customer-123"), record(b"customer-123")];
    assert!(matches!(
        batch_route(&cluster(&[1, 2]), &topic(), &keyed, 0),
        (Ok(Route::Leader { partition: 1, .. }), 0)
    ));
    let mixed = vec![record(b""), record(b"customer-123")];
    assert!(matches!(
        batch_route(&cluster(&[1, 2]), &topic(), &mixed, 0),
        (Err(ClientError::BatchSpansPartitions), _)
    ));
    assert!(matches!(
        batch_route(&cluster(&[1]), &topic(), &mixed, 0),
        (Ok(Route::Here), 0)
    ));
}

#[test]
fn takes_only_the_answer_that_it_asked_for() {
    let ack = ProduceAck {
        partition: 1,
        offset: 2,
    };
    assert!(matches!(
        produce_reply(BrokerResponse::ProduceAck(ack)),
        Ok(found) if found == ack
    ));
    assert!(matches!(
        produce_reply(BrokerResponse::GroupAck),
        Err(ClientError::UnexpectedResponse)
    ));
    assert!(matches!(
        produce_reply(BrokerResponse::Error("no".to_owned())),
        Err(ClientError::Server(message)) if message == "no"
    ));
    assert!(matches!(
        batch_reply(BrokerResponse::ProduceBatchAck(vec![ack])),
        Ok(acks) if acks == [ack]
    ));
    assert!(matches!(
        topic_reply(BrokerResponse::Topics(vec![topic()])),
        Ok(found) if found == topic()
    ));
    assert!(matches!(
        topic_reply(BrokerResponse::Topics(vec![topic(), topic()])),
        Err(ClientError::UnexpectedResponse)
    ));
    assert!(matches!(
        topics_reply(BrokerResponse::Topics(vec![])),
        Ok(found) if found.is_empty()
    ));
    assert!(apply_topic_reply(BrokerResponse::Topics(vec![])).is_ok());
    assert!(apply_topic_reply(BrokerResponse::GroupAck).is_err());
    assert!(matches!(
        cluster_reply(BrokerResponse::ClusterMetadata(cluster(&[1]))),
        Ok(found) if found.nodes.len() == 1
    ));
    let leadership = PartitionLeadership {
        partition: 1,
        leader_id: 3,
        leader_epoch: 2,
        high_watermark: 0,
    };
    assert!(matches!(
        promote_reply(BrokerResponse::LeadershipChanged(leadership)),
        Ok(found) if found == leadership
    ));
    assert!(apply_leadership_reply(BrokerResponse::LeadershipChanged(leadership)).is_ok());
    assert!(matches!(
        partition_status_reply(BrokerResponse::PartitionStatus(9)),
        Ok(9)
    ));
    assert_eq!(
        promoted_line(&leadership),
        "partition=1 leader=3 epoch=2"
    );
}

#[test]
fn describes_client_errors() {
    assert_eq!(
        ClientError::UnknownLeader(4).message(),
        "topic metadata references unknown leader 4"
    );
    assert_eq!(
        ClientError::Server("no".to_owned()).message(),
        "broker rejected the request: no"
    );
    assert_eq!(
        CliError::Client(ClientError::ConnectionClosed).message(),
        "broker closed the connection before sending a response"
    );
    assert_eq!(
        CliError::from_retry(RetryError::InvalidRetryEnvelope).message(),
        "retry envelope is malformed"
    );
    assert_eq!(
        CliError::Io("gone".to_owned()).message(),
        "handler I/O failed: gone"
    );
}

#[test]
fn reads_the_clock() {
    assert!(matches!(now_ms(Some(5)), Ok(5)));
    assert!(matches!(now_ms(None), Err(CliError::InvalidSystemTime)));
    assert!(matches!(
        now_ms(Some(u128::from(u64::MAX) + 1)),
        Err(CliError::InvalidSystemTime)
    ));
}

#[test]
fn turns_message_commands_into_requests() {
    let produce = Command::Produce {
        topic: "payments".to_owned(),
        message: "hello".to_owned(),
        key: Some("customer-123".to_owned()),
        acks: ProduceAcks::Durable,
        producer_id: Some("p".to_owned()),
        sequence: Some(3),
    };
    match produce.message_request() {
        Some(BrokerRequest::Produce {
            topic,
            partition: None,
            key,
            payload,
            ack_mode: AckMode::Durable,
            producer: Some(producer),
        }) => {
            assert_eq!(topic, "payments");
            assert_eq!(key, Bytes::from_static(b"customer-123"));
            assert_eq!(payload, Bytes::from_static(b"hello"));
            assert_eq!((producer.id.as_str(), producer.sequence), ("p", 3));
        }
        other => panic!("unexpected request {other:?}"),
    }
    let batch = Command::ProduceBatch {
        topic: "payments".to_owned(),
        message: vec!["hello".to_owned(), "world".to_owned()],
        key: None,
        acks: ProduceAcks::Leader,
        compression: BatchCompression::Zstd,
    };
    match batch.message_request() {
        Some(BrokerRequest::ProduceBatch {
            records,
            ack_mode,
            compression,
            ..
        }) => {
            assert_eq!(ack_mode, AckMode::Leader);
            assert_eq!(compression, BatchCompression::Zstd);
            assert_eq!(records.len(), 2);
            assert_eq!(records[1].payload, Bytes::from_static(b"world"));
            assert!(records[1].key.is_empty());
        }
        other => panic!("unexpected request {other:?}"),
    }
    let fetch = Command::Fetch {
        topic: "payments".to_owned(),
        partition: 1,
        offset: 2,
        max_bytes: 3,
        wait_ms: 4,
    };
    assert!(matches!(
        fetch.message_request(),
        Some(BrokerRequest::Fetch {
            partition: 1,
            offset: 2,
            max_bytes: 3,
            max_wait_ms: 4,
            ..
        })
    ));
    let list = Command::Topic {
        command: TopicCommand::List,
    };
    assert!(list.message_request().is_none());
    assert_eq!(ack_mode(ProduceAcks::Leader), AckMode::Leader);
}

#[test]
fn prints_records_with_what_is_no_text_replaced() {
    let record = FetchedRecord {
        offset: 3,
        timestamp_ms: 9,
        key: None,
        value: Bytes::from_static(b"a\xffb"),
    };
    assert_eq!(
        record_line(&record),
        "offset=3 timestamp_ms=9 key=- value=a\u{fffd}b"
    );
    let keyed = FetchedRecord {
        key: Some(Bytes::from_static(b"k")),
        ..record
    };
    assert_eq!(
        partition_record_line(1, &keyed),
        "partition=1 offset=3 timestamp_ms=9 key=k value=a\u{fffd}b"
    );
    assert_eq!(
        render_record(1, 2, "k", "v"),
        "offset=1 timestamp_ms=2 key=k value=v"
    );
    assert_eq!(
        produced_line(&ProduceAck {
            partition: 2,
            offset: 5
        }),
        "partition=2 offset=5"
    );
}

#[test]
fn prints_groups_topics_and_clusters() {
    let joined = JoinGroupResponse::new(4, vec![0, 2]);
    assert_eq!(joined_line(&joined), "generation=4 partitions=0,2");
    assert_eq!(
        consuming_line(4, &[0, 2]),
        "generation=4 partitions=[0, 2]"
    );
    assert_eq!(consuming_line(4, &[]), "generation=4 partitions=[]");
    assert_eq!(committed_line(Some(7)), "offset=7");
    assert_eq!(committed_line(None), "offset=-");
    assert_eq!(
        topic_line(&topic()),
        "topic=payments partitions=3 leaders=[0:1@4/hw=30,1:2@4/hw=31,2:9@4/hw=32]"
    );
    assert_eq!(
        cluster_lines(&cluster(&[1, 2])),
        [
            "responding_broker=1",
            "broker=1 address=10.0.0.1:7001 admin=10.0.0.1:7100 replication=10.0.0.1:7200 current",
            "broker=2 address=10.0.0.1:7002 admin=10.0.0.1:7100 replication=10.0.0.1:7200",
        ]
    );
}

#[test]
fn runs_group_and_topic_commands() {
    let join = GroupCommand::Join {
        group: "workers".to_owned(),
        topic: "payments".to_owned(),
        member: "a".to_owned(),
    };
    assert!(matches!(
        join.request(),
        BrokerRequest::JoinGroup { group, topic, member }
            if group == "workers" && topic == "payments" && member == "a"
    ));
    assert!(matches!(
        join.output(BrokerResponse::JoinGroup(JoinGroupResponse::new(1, vec![3]))),
        Ok(lines) if lines == ["generation=1 partitions=3"]
    ));
    assert!(matches!(
        join.output(BrokerResponse::GroupAck),
        Err(ClientError::UnexpectedResponse)
    ));
    let heartbeat = GroupCommand::Heartbeat {
        group: "workers".to_owned(),
        topic: "payments".to_owned(),
        member: "a".to_owned(),
        generation: 5,
    };
    assert!(matches!(
        heartbeat.request(),
        BrokerRequest::Heartbeat { generation: 5, .. }
    ));
    assert!(matches!(
        heartbeat.output(BrokerResponse::GroupAck),
        Ok(lines) if lines == ["heartbeat accepted"]
    ));
    let leave = GroupCommand::Leave {
        group: "workers".to_owned(),
        topic: "payments".to_owned(),
        member: "a".to_owned(),
        generation: 5,
    };
    assert!(matches!(
        leave.request(),
        BrokerRequest::LeaveGroup { generation: 5, .. }
    ));
    assert!(matches!(
        leave.output(BrokerResponse::GroupAck),
        Ok(lines) if lines == ["member left group"]
    ));
    let commit = GroupCommand::Commit {
        group: "workers".to_owned(),
        topic: "payments".to_owned(),
        member: "a".to_owned(),
        generation: 5,
        partition: 1,
        offset: 8,
    };
    assert!(matches!(
        commit.request(),
        BrokerRequest::CommitOffset {
            partition: 1,
            offset: 8,
            ..
        }
    ));
    assert!(matches!(
        commit.output(BrokerResponse::GroupAck),
        Ok(lines) if lines == ["offset committed"]
    ));
    let offset = GroupCommand::Offset {
        group: "workers".to_owned(),
        topic: "payments".to_owned(),
        partition: 1,
    };
    assert!(matches!(
        offset.request(),
        BrokerRequest::FetchCommittedOffset { partition: 1, .. }
    ));
    assert!(matches!(
        offset.output(BrokerResponse::CommittedOffset(Some(8))),
        Ok(lines) if lines == ["offset=8"]
    ));
    let fetch = GroupCommand::Fetch {
        group: "workers".to_owned(),
        topic: "payments".to_owned(),
        member: "a".to_owned(),
        generation: 5,
        partition: 0,
        offset: 13,
        max_bytes: 64,
        wait_ms: 2,
    };
    assert!(matches!(
        fetch.request(),
        BrokerRequest::GroupFetch {
            generation: 5,
            partition: 0,
            offset: 13,
            max_bytes: 64,
            max_wait_ms: 2,
            ..
        }
    ));
    assert!(matches!(
        fetch.output(BrokerResponse::Fetch(vec![])),
        Ok(lines) if lines.is_empty()
    ));
    let create = TopicCommand::Create {
        topic: "orders".to_owned(),
        partitions: 6,
    };
    assert!(matches!(
        create.request(),
        BrokerRequest::CreateTopic { topic, partitions: 6 } if topic == "orders"
    ));
    assert!(matches!(
        create.output(BrokerResponse::Topics(vec![topic()])),
        Ok(lines) if lines == ["topic=payments partitions=3 leaders=[0:1@4/hw=30,1:2@4/hw=31,2:9@4/hw=32]"]
    ));
    assert!(matches!(
        TopicCommand::List.output(BrokerResponse::Topics(vec![topic(), topic()])),
        Ok(lines) if lines.len() == 2
    ));
    let describe = TopicCommand::Describe {
        topic: "orders".to_owned(),
    };
    assert!(matches!(
        describe.output(BrokerResponse::Error("topic does not exist".to_owned())),
        Err(ClientError::Server(_))
    ));
}

#[test]
fn asks_the_controller_for_a_promotion() {
    let promote = ClusterCommand::Promote {
        topic: "orders".to_owned(),
        partition: 1,
        broker_id: 3,
    };
    assert!(matches!(
        promote.request(),
        BrokerRequest::PromoteLeader { topic, partition: 1, leader_id: 3 } if topic == "orders"
    ));
    assert!(matches!(
        ClusterCommand::Status.request(),
        BrokerRequest::ClusterMetadata
    ));
}

#[test]
fn prints_the_leaderships_of_a_new_topic() {
    let metadata = TopicMetadata {
        topic: "orders".to_owned(),
        partitions: 6,
        leaders: Vec::new(),
    };
    let registry = LeadershipRegistry::open("data", cluster(&[1, 2, 3]), None)
        .expect("registry should open");
    assert_eq!(
        topic_line(&with_leaders(metadata, &registry)),
        "topic=orders partitions=6 leaders=[0:1@0/hw=0,1:2@0/hw=0,2:3@0/hw=0,3:1@0/hw=0,\
         4:2@0/hw=0,5:3@0/hw=0]"
    );
}
