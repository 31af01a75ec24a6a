use std::collections::BTreeMap;

use bytes::{Bytes, BytesMut};
use sevlamq::broker::{
    topic_file, AppendInput, ReplicateRecord, Storage, StorageSettings, Visibility,
};
use sevlamq::cli::BatchCompression;
use sevlamq::cluster::{ClusterMetadata, ClusterNode, TopicMetadata};
use sevlamq::jobs::{Job, StorageCommand, StorageReply};
use sevlamq::leadership::{LeadershipRegistry, PartitionLeadership};
use sevlamq::messages::{
    record_at, waits_for_records, AckMode, BatchRecord, BrokerRequest, BrokerResponse,
    ConnectionError, ProducerIdentity,
};
use sevlamq::protocol::{
    decode_request, decode_response, encode_request, encode_response, ProduceAck, ProduceRequest,
    Request, Response,
};
use sevlamq::promotion::ReplicaStatus;
use sevlamq::record::{FetchedRecord, StorageError};
use sevlamq::replication::{replica_of, Replication};
use sevlamq::serving::{Counted, Task};
use sevlamq::storage::{
    create_segment, discover_segments, index_path, ListedFile, PartitionLog,
};

fn worker_settings(auto_create_topics: bool) -> StorageSettings {
    StorageSettings {
        data_dir: "data".to_owned(),
        max_segment_bytes: 100,
        index_interval_bytes: 64,
        default_partition_count: 2,
        retention_bytes: None,
        retention_ms: None,
        auto_create_topics,
        queue_capacity: 16,
        enqueue_timeout_ms: 100,
        min_in_sync_replicas: 1,
    }
}

/// A storage worker whose files are in memory, with a note of each thing that it did.
struct Worker {
    storage: Storage,
    files: BTreeMap<String, Vec<u8>>,
    did: Vec<String>,
    /// How old all segments are.
    age_ms: u64,
}

impl Worker {
    fn new(auto_create_topics: bool) -> Self {
        Worker::with_settings(worker_settings(auto_create_topics))
    }

    fn with_settings(settings: StorageSettings) -> Self {
        Worker {
            storage: Storage::new(settings).expect("settings should be valid"),
            files: BTreeMap::new(),
            did: Vec::new(),
            age_ms: 0,
        }
    }

    fn open_log(&mut self, topic: &str, partition: u32) -> PartitionLog {
        let mut recovery = self
            .storage
            .open_log(topic, partition)
            .expect("topic should be valid");
        let directory = recovery.partition_dir().to_owned();
        let prefix = format!("{directory}/");
        let listed: Vec<ListedFile> = self
            .files
            .iter()
            .filter(|(path, _)| path.starts_with(&prefix))
            .map(|(path, contents)| ListedFile {
                name: path[prefix.len()..].to_owned(),
                len: contents.len() as u64,
            })
            .collect();
        let mut segments = discover_segments(&directory, &listed).expect("files should be listed");
        if segments.is_empty() {
            let segment = create_segment(&directory, 0);
            self.files.insert(segment.path().to_owned(), Vec::new());
            segments.push(segment);
        }
        let last = segments.len() - 1;
        for (i, segment) in segments.into_iter().enumerate() {
            let path = segment.path().to_owned();
            let contents = self.files[&path].clone();
            let repair = recovery
                .recover_segment(segment, &contents, i == last)
                .expect("segment should be recovered");
            self.files.insert(index_path(&path), repair.index);
        }
        recovery.finish()
    }

    fn execute(&mut self, command: StorageCommand) -> Result<StorageReply, StorageError> {
        self.did.clear();
        let mut job = Job::start(&mut self.storage, command, Some(7));
        loop {
            job = match &job {
                Job::Reply { .. } => break,
                Job::OpenNewLog { creation, .. } => {
                    let (topic, partition) =
                        (creation.topic.clone(), creation.missing[creation.opened]);
                    self.did.push(format!("open {partition}"));
                    let log = self.open_log(&topic, partition);
                    job.log_opened(&mut self.storage, log)
                }
                Job::OpenLog {
                    topic, partition, ..
                } => {
                    self.did.push(format!("open {partition}"));
                    let log = self.open_log(&topic.clone(), *partition);
                    job.log_opened(&mut self.storage, log)
                }
                Job::WriteTopicFile { creation, .. } => {
                    let file = topic_file("data", &creation.topic, creation.partitions);
                    self.did.push("topic file".to_owned());
                    self.files.insert(file.path, file.contents.into_bytes());
                    job.topic_written(&mut self.storage, Some(7))
                }
                Job::CreateSegment { write, .. } => {
                    let path = self
                        .storage
                        .next_segment_path(&write.topic, write.partition)
                        .expect("log should be there");
                    self.did.push("segment".to_owned());
                    self.files.insert(path, Vec::new());
                    job.segment_created(&mut self.storage)
                }
                Job::WriteRecord { write, .. } => {
                    let path = self
                        .storage
                        .active_path(&write.topic, write.partition)
                        .expect("log should be there");
                    self.did.push(format!("write {}", write.partition));
                    self.files
                        .get_mut(&path)
                        .expect("segment should be there")
                        .extend_from_slice(&write.plan.encoded);
                    job.record_written(&mut self.storage, Some(7))
                }
                Job::Sync {
                    partitions, synced, ..
                } => {
                    self.did.push(format!("sync {}", partitions[*synced]));
                    job.synced()
                }
                Job::ReadSegment { step, .. } => {
                    self.did.push("read".to_owned());
                    let contents = self.files[&step.path][step.position as usize..].to_vec();
                    job.segment_read(&self.storage, &contents)
                }
                Job::ReadTail { record, to } => {
                    let path = self
                        .storage
                        .cut_path(&record.topic, record.partition, *to)
                        .expect("log should be there");
                    self.did.push(format!("tail {to}"));
                    let contents = self.files[&path].clone();
                    job.tail_read(&self.storage, &contents)
                }
                Job::Truncate { cut, .. } => {
                    self.did.push(format!("cut {}", cut.len));
                    self.files
                        .get_mut(&cut.path)
                        .expect("segment should be there")
                        .truncate(cut.len as usize);
                    self.files.insert(index_path(&cut.path), cut.index.clone());
                    for path in &cut.removed {
                        self.files.remove(path);
                    }
                    job.tail_cut(&mut self.storage)
                }
                Job::ReadAges { sweep } => {
                    let (topic, partition) = &sweep.partitions[sweep.position];
                    self.did.push(format!("ages {partition}"));
                    let count = self.storage.segment_paths(topic, *partition).len();
                    let ages = vec![self.age_ms; count];
                    job.ages_read(&mut self.storage, &ages)
                }
                Job::RemoveSegments { paths, .. } => {
                    for path in paths {
                        self.did.push("remove".to_owned());
                        self.files.remove(path);
                        self.files.remove(&index_path(path));
                    }
                    job.partition_swept(&self.storage)
                }
            };
        }
        match job {
            Job::Reply { reply } => reply,
            _ => unreachable!("the job should be done"),
        }
    }
}

fn input(partition: Option<u32>, value: &str, ack_mode: AckMode) -> AppendInput {
    AppendInput {
        topic: "payments".to_owned(),
        partition,
        key: Bytes::new(),
        value: Bytes::copy_from_slice(value.as_bytes()),
        ack_mode,
        producer: None,
    }
}

fn ack(reply: Result<StorageReply, StorageError>) -> ProduceAck {
    match reply.expect("message should be stored") {
        StorageReply::Ack(ack) => ack,
        other => panic!("unexpected reply {other:?}"),
    }
}

fn records(reply: Result<StorageReply, StorageError>) -> Vec<FetchedRecord> {
    match reply.expect("records should be read") {
        StorageReply::Records(records) => records,
        other => panic!("unexpected reply {other:?}"),
    }
}

fn read(partition: u32, offset: u64) -> StorageCommand {
    StorageCommand::Read {
        topic: "payments".to_owned(),
        partition,
        offset,
        max_bytes: 1024,
        visibility: Visibility::Committed,
    }
}

#[test]
fn a_new_topic_gets_its_logs_and_then_its_file() {
    let mut worker = Worker::new(false);
    let create = || StorageCommand::CreateTopic {
        topic: "payments".to_owned(),
        partitions: 3,
    };
    match worker.execute(create()).expect("topic should be created") {
        StorageReply::Topic(metadata) => {
            assert_eq!(metadata.topic, "payments");
            assert_eq!(metadata.partitions, 3);
        }
        other => panic!("unexpected reply {other:?}"),
    }
    assert_eq!(worker.did, ["open 0", "open 1", "open 2", "topic file"]);
    assert_eq!(
        worker.execute(create()).unwrap_err(),
        StorageError::TopicAlreadyExists
    );
    assert_eq!(
        worker
            .execute(StorageCommand::CreateTopic {
                topic: "orders".to_owned(),
                partitions: 0,
            })
            .unwrap_err(),
        StorageError::InvalidTopic
    );
    match worker.execute(StorageCommand::ListTopics) {
        Ok(StorageReply::Topics(topics)) => {
            assert_eq!(topics.len(), 1);
            assert_eq!(topics[0].partitions, 3);
        }
        other => panic!("unexpected reply {other:?}"),
    }
}

#[test]
fn durable_messages_are_synced_before_they_are_acknowledged() {
    let mut worker = Worker::new(true);
    let reply = worker.execute(StorageCommand::Append {
        input: input(Some(1), "first", AckMode::Durable),
    });
    assert_eq!(
        ack(reply),
        ProduceAck {
            partition: 1,
            offset: 0
        }
    );
    assert_eq!(
        worker.did,
        ["open 0", "open 1", "topic file", "write 1", "sync 1"]
    );
    let reply = worker.execute(StorageCommand::Append {
        input: input(Some(1), "second", AckMode::Leader),
    });
    assert_eq!(ack(reply).offset, 1);
    assert_eq!(worker.did, ["write 1"]);
    let found = records(worker.execute(read(1, 1)));
    assert_eq!(found.len(), 1);
    assert_eq!(found[0].offset, 1);
    assert_eq!(found[0].timestamp_ms, 7);
    assert_eq!(found[0].value, Bytes::from_static(b"second"));
}

#[test]
fn a_durable_batch_is_synced_once_for_each_partition() {
    let mut worker = Worker::new(true);
    let batch = |ack_mode| StorageCommand::AppendBatch {
        topic: "payments".to_owned(),
        partition: None,
        records: ["a", "b", "c"]
            .iter()
            .map(|value| BatchRecord {
                key: Bytes::new(),
                payload: Bytes::copy_from_slice(value.as_bytes()),
            })
            .collect(),
        ack_mode,
    };
    match worker.execute(batch(AckMode::Durable)) {
        Ok(StorageReply::Acks(acks)) => {
            let places: Vec<(u32, u64)> =
                acks.iter().map(|ack| (ack.partition, ack.offset)).collect();
            assert_eq!(places, [(0, 0), (1, 0), (0, 1)]);
        }
        other => panic!("unexpected reply {other:?}"),
    }
    assert_eq!(
        worker.did,
        [
            "open 0", "open 1", "topic file", "write 0", "write 1", "write 0", "sync 0", "sync 1"
        ]
    );
    worker
        .execute(batch(AckMode::Leader))
        .expect("batch should be stored");
    assert_eq!(worker.did.iter().filter(|did| did.starts_with("sync")).count(), 0);
    match worker.execute(StorageCommand::AppendBatch {
        topic: "payments".to_owned(),
        partition: None,
        records: Vec::new(),
        ack_mode: AckMode::Durable,
    }) {
        Ok(StorageReply::Acks(acks)) => assert!(acks.is_empty()),
        other => panic!("unexpected reply {other:?}"),
    }
}

#[test]
fn full_segments_make_room_for_the_next_record() {
    let mut worker = Worker::new(true);
    let long = "x".repeat(60);
    for offset in 0..3 {
        let reply = worker.execute(StorageCommand::Append {
            input: input(Some(0), &long, AckMode::Leader),
        });
        assert_eq!(ack(reply).offset, offset);
    }
    assert_eq!(worker.did, ["segment", "write 0"]);
    let found = records(worker.execute(read(0, 0)));
    assert_eq!(worker.did, ["read", "read", "read"]);
    let offsets: Vec<u64> = found.iter().map(|record| record.offset).collect();
    assert_eq!(offsets, [0, 1, 2]);
}

#[test]
fn storage_refuses_what_it_does_not_know() {
    let mut worker = Worker::new(false);
    assert_eq!(
        worker
            .execute(StorageCommand::Append {
                input: input(None, "first", AckMode::Leader),
            })
            .unwrap_err(),
        StorageError::UnknownTopic
    );
    assert_eq!(
        worker.execute(read(0, 0)).unwrap_err(),
        StorageError::UnknownTopic
    );
    worker
        .execute(StorageCommand::CreateTopic {
            topic: "payments".to_owned(),
            partitions: 1,
        })
        .expect("topic should be created");
    assert_eq!(
        worker.execute(read(4, 0)).unwrap_err(),
        StorageError::UnknownPartition(4)
    );
    assert_eq!(
        worker
            .execute(StorageCommand::Read {
                topic: "payments".to_owned(),
                partition: 0,
                offset: 0,
                max_bytes: 0,
                visibility: Visibility::Committed,
            })
            .unwrap_err(),
        StorageError::InvalidReadLimit
    );
    assert_eq!(
        worker
            .execute(StorageCommand::PartitionOffset {
                topic: "payments".to_owned(),
                partition: 1,
            })
            .unwrap_err(),
        StorageError::UnknownPartition(1)
    );
    match worker.execute(StorageCommand::Snapshot) {
        Ok(StorageReply::Snapshots(snapshots)) => {
            assert_eq!(snapshots.len(), 1);
            assert_eq!(snapshots[0].high_watermark, 0);
        }
        other => panic!("unexpected reply {other:?}"),
    }
}

#[test]
fn replicas_are_written_in_their_order() {
    let mut worker = Worker::new(false);
    worker
        .execute(StorageCommand::CreateTopic {
            topic: "payments".to_owned(),
            partitions: 1,
        })
        .expect("topic should be created");
    let replica = |offset, durable| StorageCommand::Replicate {
        record: ReplicateRecord {
            topic: "payments".to_owned(),
            partition: 0,
            offset,
            timestamp_ms: 3,
            key: None,
            value: Bytes::from_static(b"value"),
            durable,
            leader_epoch: 0,
            high_watermark: 0,
            producer: None,
        },
    };
    let offset = |reply: Result<StorageReply, StorageError>| match reply {
        Ok(StorageReply::Offset(offset)) => offset,
        other => panic!("unexpected reply {other:?}"),
    };
    assert_eq!(offset(worker.execute(replica(0, true))), 1);
    assert_eq!(worker.did, ["write 0", "sync 0"]);
    assert_eq!(offset(worker.execute(replica(0, true))), 1);
    assert!(worker.did.is_empty());
    assert_eq!(offset(worker.execute(replica(1, false))), 2);
    assert_eq!(worker.did, ["write 0"]);
    assert_eq!(offset(worker.execute(replica(5, false))), 2);
    assert!(worker.did.is_empty());
}

fn broker(id: u32) -> ClusterNode {
    ClusterNode {
        id,
        host: "127.0.0.1".to_owned(),
        port: 7000 + id as u16,
        admin_port: 8000 + id as u16,
        replication_port: 9000 + id as u16,
    }
}

fn cluster(brokers: u32) -> ClusterMetadata {
    ClusterMetadata {
        responding_broker_id: 1,
        nodes: (1..=brokers).map(broker).collect(),
    }
}

fn registry(brokers: &ClusterMetadata) -> LeadershipRegistry {
    LeadershipRegistry::open("data", brokers.clone(), None).expect("registry should open")
}

fn produce(partition: Option<u32>) -> BrokerRequest {
    BrokerRequest::Produce {
        topic: "payments".to_owned(),
        partition,
        key: Bytes::from_static(b"key"),
        payload: Bytes::from_static(b"value"),
        ack_mode: AckMode::Durable,
        producer: Some(ProducerIdentity {
            id: "producer".to_owned(),
            sequence: 9,
        }),
    }
}

fn fetched(offset: u64, value: &'static str) -> FetchedRecord {
    FetchedRecord {
        offset,
        timestamp_ms: 1,
        key: None,
        value: Bytes::from_static(value.as_bytes()),
    }
}

fn error_of(task: Task) -> String {
    match task {
        Task::Answer {
            response: BrokerResponse::Error(message),
            counted: Counted::Nothing,
        } => message,
        other => panic!("unexpected task {other:?}"),
    }
}

#[test]
fn messages_are_acknowledged_once_they_are_replicated() {
    let brokers = cluster(2);
    let task = Task::start(produce(Some(0)), &brokers, &registry(&brokers));
    match &task {
        Task::Append { input } => {
            assert_eq!(input.topic, "payments");
            assert_eq!(input.value, Bytes::from_static(b"value"));
            let producer = input.producer.as_ref().expect("producer should be kept");
            assert_eq!((producer.id.as_str(), producer.sequence), ("producer", 9));
        }
        other => panic!("unexpected task {other:?}"),
    }
    let given = ProduceAck {
        partition: 0,
        offset: 4,
    };
    let task = task.appended(given);
    assert!(matches!(task, Task::ReadBack { .. }));
    let task = task.record_read(fetched(4, "value"));
    match &task {
        Task::Replicate { publication } => {
            assert_eq!(publication.records, [fetched(4, "value")]);
            assert_eq!(publication.ack_mode, AckMode::Durable);
        }
        other => panic!("unexpected task {other:?}"),
    }
    let mut replication = Replication::start(&brokers, 0, 2, 4);
    assert!(replication.commit("payments", 0, 2).is_none());
    replication.answered(5).expect("follower should have the record");
    assert!(matches!(
        replication.commit("payments", 0, 2),
        Some(StorageCommand::Commit { topic, partition: 0, offset: 5 }) if topic == "payments"
    ));
    match task.replicated(&brokers, &vec![replication], 2, 2) {
        Task::Answer {
            response: BrokerResponse::ProduceAck(ack),
            counted,
        } => {
            assert_eq!(ack, given);
            assert_eq!(
                counted,
                Counted::Produced {
                    messages: 1,
                    bytes: 5
                }
            );
        }
        other => panic!("unexpected task {other:?}"),
    }
}

#[test]
fn batches_are_read_back_message_by_message() {
    let request = BrokerRequest::ProduceBatch {
        topic: "payments".to_owned(),
        partition: Some(0),
        records: vec![
            BatchRecord {
                key: Bytes::new(),
                payload: Bytes::from_static(b"one"),
            },
            BatchRecord {
                key: Bytes::new(),
                payload: Bytes::from_static(b"four"),
            },
        ],
        ack_mode: AckMode::Leader,
        compression: BatchCompression::Uncompressed,
    };
    let acks = vec![
        ProduceAck {
            partition: 0,
            offset: 2,
        },
        ProduceAck {
            partition: 0,
            offset: 3,
        },
    ];
    let brokers = cluster(1);
    let task = Task::start(request, &brokers, &registry(&brokers)).batch_appended(acks.clone());
    assert!(matches!(task, Task::ReadBack { .. }));
    let task = task.record_read(fetched(2, "one"));
    assert!(matches!(task, Task::ReadBack { .. }));
    let task = task.record_read(fetched(3, "four"));
    match task.replicated(&brokers, &Vec::new(), 1, 1) {
        Task::Answer {
            response: BrokerResponse::ProduceBatchAck(found),
            counted,
        } => {
            assert_eq!(found, acks);
            assert_eq!(
                counted,
                Counted::Produced {
                    messages: 2,
                    bytes: 7
                }
            );
        }
        other => panic!("unexpected task {other:?}"),
    }
}

#[test]
fn brokers_refuse_partitions_that_they_do_not_lead() {
    assert_eq!(
        error_of(Task::start(produce(None), &cluster(2), &registry(&cluster(2)))),
        "partition is required for clustered produce"
    );
    let refusal = error_of(Task::start(produce(Some(1)), &cluster(2), &registry(&cluster(2))));
    assert!(refusal.contains("127.0.0.1:7002"), "{refusal}");
    assert!(matches!(
        Task::start(produce(None), &cluster(1), &registry(&cluster(1))),
        Task::Append { .. }
    ));
}

#[test]
fn members_read_once_the_coordinator_agrees() {
    let request = || BrokerRequest::GroupFetch {
        group: "billing".to_owned(),
        topic: "payments".to_owned(),
        member: "worker".to_owned(),
        generation: 1,
        partition: 0,
        offset: 5,
        max_bytes: 64,
        max_wait_ms: 10,
    };
    let task = Task::start(request(), &cluster(1), &registry(&cluster(1)));
    match task.authorized(BrokerResponse::GroupAck) {
        Task::Read {
            topic,
            partition,
            offset,
            max_bytes,
            max_wait_ms,
        } => {
            assert_eq!((topic.as_str(), partition, offset), ("payments", 0, 5));
            assert_eq!((max_bytes, max_wait_ms), (64, 10));
        }
        other => panic!("unexpected task {other:?}"),
    }
    let task = Task::start(request(), &cluster(1), &registry(&cluster(1)));
    let refused = task.authorized(BrokerResponse::Error("stale".to_owned()));
    assert_eq!(error_of(refused), "stale");
    let task = Task::start(request(), &cluster(1), &registry(&cluster(1)));
    assert_eq!(
        error_of(task.authorized(BrokerResponse::CommittedOffset(None))),
        "invalid group authorization response"
    );
}

#[test]
fn fetched_records_are_counted_by_their_values() {
    let task = Task::start(
        BrokerRequest::Fetch {
            topic: "payments".to_owned(),
            partition: 0,
            offset: 0,
            max_bytes: 64,
            max_wait_ms: 0,
        },
        &cluster(1),
        &registry(&cluster(1)),
    );
    match task.records_read(vec![fetched(0, "one"), fetched(1, "three")]) {
        Task::Answer {
            response: BrokerResponse::Fetch(records),
            counted,
        } => {
            assert_eq!(records.len(), 2);
            assert_eq!(
                counted,
                Counted::Fetched {
                    messages: 2,
                    bytes: 8
                }
            );
        }
        other => panic!("unexpected task {other:?}"),
    }
}

fn topic(name: &str, partitions: u32) -> TopicMetadata {
    TopicMetadata {
        topic: name.to_owned(),
        partitions,
        leaders: Vec::new(),
    }
}

fn topics_of(task: Task) -> Vec<TopicMetadata> {
    match task {
        Task::Answer {
            response: BrokerResponse::Topics(topics),
            counted: Counted::Nothing,
        } => topics,
        other => panic!("unexpected task {other:?}"),
    }
}

fn leader_ids(topic: &TopicMetadata) -> Vec<u32> {
    topic.leaders.iter().map(|leader| leader.leader_id).collect()
}

#[test]
fn topics_are_described_with_their_leaders() {
    let brokers = cluster(2);
    let leaders = registry(&brokers);
    let task = Task::start(
        BrokerRequest::CreateTopic {
            topic: "payments".to_owned(),
            partitions: 3,
        },
        &brokers,
        &leaders,
    );
    let task = task.topic_created(topic("payments", 3));
    assert!(matches!(task, Task::SetPartitions { .. }));
    let described = topics_of(task.partitions_set(&leaders));
    assert_eq!(described.len(), 1);
    assert_eq!(leader_ids(&described[0]), [1, 2, 1]);

    let all = || vec![topic("orders", 1), topic("payments", 2)];
    let task = Task::start(BrokerRequest::ListTopics, &brokers, &leaders);
    assert_eq!(topics_of(task.topics_listed(all(), &leaders)).len(), 2);
    let describe = |name: &str| {
        Task::start(
            BrokerRequest::DescribeTopic {
                topic: name.to_owned(),
            },
            &brokers,
            &leaders,
        )
    };
    let described = topics_of(describe("payments").topics_listed(all(), &leaders));
    assert_eq!(described.len(), 1);
    assert_eq!(leader_ids(&described[0]), [1, 2]);
    assert_eq!(
        error_of(describe("refunds").topics_listed(all(), &leaders)),
        "topic does not exist"
    );
}

#[test]
fn failures_are_told_where_the_connection_can_go_on() {
    let task = || Task::start(produce(Some(0)), &cluster(1), &registry(&cluster(1)));
    assert_eq!(
        error_of(task().failed(ConnectionError::BrokerBusy).expect("client should be told")),
        "broker busy: storage queue timeout"
    );
    assert_eq!(
        error_of(
            task()
                .failed(ConnectionError::Storage(StorageError::UnknownTopic))
                .expect("client should be told")
        ),
        "topic does not exist"
    );
    assert!(matches!(
        task().failed(ConnectionError::ReplicationClosed),
        Err(ConnectionError::ReplicationClosed)
    ));
}

/// Answers a request as a broker on its own does.
fn serve(worker: &mut Worker, request: BrokerRequest) -> BrokerResponse {
    let brokers = cluster(1);
    let mut task = Task::start(request, &brokers, &registry(&brokers));
    loop {
        if let Task::Answer { response, .. } = task {
            return response;
        }
        task = match &task {
            Task::Append { input } => {
                let reply = worker.execute(StorageCommand::Append {
                    input: input.clone(),
                });
                task.appended(ack(reply))
            }
            Task::ReadBack { publication } => {
                let given = publication.acks[publication.records.len()];
                let found = records(worker.execute(StorageCommand::Read {
                    topic: publication.topic.clone(),
                    partition: given.partition,
                    offset: given.offset,
                    max_bytes: 16 * 1024 * 1024,
                    visibility: Visibility::Stored,
                }));
                let found = record_at(&found, given.offset).expect("record should be there");
                task.record_read(found)
            }
            Task::Replicate { publication } => {
                let finished: Vec<Replication> = publication
                    .records
                    .iter()
                    .zip(&publication.acks)
                    .map(|(record, ack)| {
                        Replication::start(&brokers, ack.partition, 1, record.offset)
                    })
                    .collect();
                task.replicated(&brokers, &finished, 1, 1)
            }
            Task::Read {
                topic,
                partition,
                offset,
                max_bytes,
                ..
            } => {
                let found = records(worker.execute(StorageCommand::Read {
                    topic: topic.clone(),
                    partition: *partition,
                    offset: *offset,
                    max_bytes: *max_bytes,
                    visibility: Visibility::Committed,
                }));
                task.records_read(found)
            }
            other => panic!("unexpected task {other:?}"),
        };
    }
}

fn stored_settings(partitions: u32) -> StorageSettings {
    StorageSettings {
        max_segment_bytes: 1024,
        default_partition_count: partitions,
        ..worker_settings(true)
    }
}

#[test]
fn produces_and_fetches_persisted_records() {
    let mut worker = Worker::with_settings(stored_settings(3));
    let mut selected_partition = None;
    for (expected_offset, value) in ["zero", "one", "two"].into_iter().enumerate() {
        let request = ProduceRequest::new(
            "payments".to_owned(),
            Bytes::from_static(b"customer-123"),
            Bytes::copy_from_slice(value.as_bytes()),
        )
        .expect("request should be valid");
        let mut sent = BytesMut::new();
        encode_request(&Request::Produce(request), &mut sent).expect("request should encode");
        let Some(Request::Produce(received)) =
            decode_request(&mut sent).expect("request should decode")
        else {
            panic!("request should be complete");
        };
        let answer = serve(
            &mut worker,
            BrokerRequest::Produce {
                topic: received.topic().to_owned(),
                partition: None,
                key: received.key().clone(),
                payload: received.payload().clone(),
                ack_mode: AckMode::Leader,
                producer: None,
            },
        );
        let BrokerResponse::ProduceAck(given) = answer else {
            panic!("broker should acknowledge produce");
        };
        let mut sent = BytesMut::new();
        encode_response(Response::ProduceAck(given), &mut sent);
        let Some(Response::ProduceAck(ack)) =
            decode_response(&mut sent).expect("answer should decode")
        else {
            panic!("answer should be complete");
        };
        assert_eq!(*selected_partition.get_or_insert(ack.partition), ack.partition);
        assert_eq!(
            ack.offset,
            u64::try_from(expected_offset).expect("offset should fit in u64")
        );
    }
    for partition in 0..3 {
        let directory = format!("data/payments/{partition}/");
        assert!(worker.files.keys().any(|path| path.starts_with(&directory)));
    }
    let answer = serve(
        &mut worker,
        BrokerRequest::Fetch {
            topic: "payments".to_owned(),
            partition: selected_partition.expect("partition should be selected"),
            offset: 1,
            max_bytes: 1024,
            max_wait_ms: 0,
        },
    );
    let BrokerResponse::Fetch(records) = answer else {
        panic!("broker should return records");
    };
    assert_eq!(records.len(), 2);
    assert_eq!(records[0].offset, 1);
    assert_eq!(records[0].value, Bytes::from_static(b"one"));
    assert_eq!(records[1].offset, 2);
    assert_eq!(records[1].value, Bytes::from_static(b"two"));
}

#[test]
fn wakes_long_poll_when_a_record_is_appended() {
    let mut worker = Worker::with_settings(stored_settings(1));
    let found = records(worker.execute(read(0, 0)));
    assert!(waits_for_records(found.len(), 1_000));
    assert!(!waits_for_records(found.len(), 0));
    let reply = worker.execute(StorageCommand::Append {
        input: input(None, "hello", AckMode::Durable),
    });
    assert_eq!(ack(reply).offset, 0);
    let records = records(worker.execute(read(0, 0)));
    assert!(!waits_for_records(records.len(), 1_000));
    assert_eq!(records.len(), 1);
    assert_eq!(records[0].offset, 0);
    assert_eq!(records[0].value, Bytes::from_static(b"hello"));
}

#[test]
fn promoted_leaders_are_served_and_described() {
    let brokers = cluster(3);
    let mut leaders = registry(&brokers);
    let promote = || BrokerRequest::PromoteLeader {
        topic: "payments".to_owned(),
        partition: 1,
        leader_id: 1,
    };
    let told = |broker_id, next_offset| ReplicaStatus {
        broker_id,
        next_offset,
    };
    assert!(matches!(
        Task::start(produce(Some(1)), &brokers, &leaders),
        Task::Answer { .. }
    ));
    let task = Task::start(promote(), &brokers, &leaders);
    assert_eq!(
        error_of(task.statuses_read(&brokers, &leaders, &vec![told(3, 8)], 7, 3, 2)),
        "broker 1 cannot be reached"
    );
    let task = Task::start(promote(), &brokers, &leaders);
    let statuses = vec![told(1, 8), told(3, 7)];
    let task = task.statuses_read(&brokers, &leaders, &statuses, 7, 3, 2);
    let promoted = PartitionLeadership {
        partition: 1,
        leader_id: 1,
        leader_epoch: 1,
        high_watermark: 7,
    };
    match &task {
        Task::Lead { topic, leadership } => {
            assert_eq!(topic, "payments");
            assert_eq!(*leadership, promoted);
        }
        other => panic!("unexpected task {other:?}"),
    }
    let (task, changed) = task.leadership_recorded(&brokers, &mut leaders);
    assert!(changed);
    assert!(matches!(
        task,
        Task::Answer { response: BrokerResponse::LeadershipChanged(found), .. }
            if found == promoted
    ));
    assert!(matches!(
        Task::start(produce(Some(1)), &brokers, &leaders),
        Task::Append { .. }
    ));
    let described = topics_of(
        Task::start(BrokerRequest::ListTopics, &brokers, &leaders)
            .topics_listed(vec![topic("payments", 3)], &leaders),
    );
    assert_eq!(leader_ids(&described[0]), [1, 1, 3]);
    assert_eq!(described[0].leaders[1], promoted);

    let stale = BrokerRequest::ApplyLeadership {
        topic: "payments".to_owned(),
        leadership: PartitionLeadership {
            leader_epoch: 0,
            leader_id: 2,
            ..promoted
        },
    };
    let (task, changed) =
        Task::start(stale, &brokers, &leaders).leadership_recorded(&brokers, &mut leaders);
    assert!(!changed);
    assert!(matches!(task, Task::Answer { response: BrokerResponse::Error(_), .. }));
    let mut elsewhere = cluster(3);
    elsewhere.responding_broker_id = 2;
    let task = Task::start(promote(), &elsewhere, &leaders);
    assert_eq!(
        error_of(task.statuses_read(&elsewhere, &leaders, &statuses, 7, 3, 2)),
        "broker 2 is not the controller"
    );
}

#[test]
fn brokers_tell_where_a_partition_ends() {
    let mut worker = Worker::new(true);
    worker
        .execute(StorageCommand::Append {
            input: input(Some(1), "first", AckMode::Leader),
        })
        .expect("message should be stored");
    let snapshots = match worker.execute(StorageCommand::Snapshot) {
        Ok(StorageReply::Snapshots(snapshots)) => snapshots,
        other => panic!("unexpected reply {other:?}"),
    };
    let brokers = cluster(1);
    let ask = |partition| {
        Task::start(
            BrokerRequest::PartitionStatus {
                topic: "payments".to_owned(),
                partition,
            },
            &brokers,
            &registry(&brokers),
        )
    };
    assert!(matches!(
        ask(1).status_read(&snapshots),
        Task::Answer { response: BrokerResponse::PartitionStatus(1), .. }
    ));
    assert!(matches!(
        ask(0).status_read(&snapshots),
        Task::Answer { response: BrokerResponse::PartitionStatus(0), .. }
    ));
    assert_eq!(
        error_of(ask(7).status_read(&snapshots)),
        StorageError::UnknownPartition(7).message()
    );
}

#[test]
fn retention_removes_old_segments_of_all_logs() {
    let mut worker = Worker::with_settings(StorageSettings {
        retention_ms: Some(50),
        ..worker_settings(true)
    });
    let long = "x".repeat(60);
    for partition in [0, 0, 0, 1, 1] {
        worker
            .execute(StorageCommand::Append {
                input: input(Some(partition), &long, AckMode::Leader),
            })
            .expect("message should be stored");
    }
    let sweep = |worker: &mut Worker| match worker.execute(StorageCommand::ApplyRetention) {
        Ok(StorageReply::Removed(count)) => count,
        other => panic!("unexpected reply {other:?}"),
    };
    worker.age_ms = 50;
    assert_eq!(sweep(&mut worker), 0);
    assert_eq!(worker.did, ["ages 0", "ages 1"]);
    worker.age_ms = 51;
    assert_eq!(sweep(&mut worker), 3);
    assert_eq!(worker.did, ["ages 0", "remove", "remove", "ages 1", "remove"]);
    assert_eq!(sweep(&mut worker), 0);
    match worker.execute(StorageCommand::Snapshot) {
        Ok(StorageReply::Snapshots(snapshots)) => {
            assert_eq!((snapshots[0].low_watermark, snapshots[0].high_watermark), (2, 3));
            assert_eq!(snapshots[0].segments, 1);
        }
        other => panic!("unexpected reply {other:?}"),
    }
    let found = records(worker.execute(read(0, 2)));
    assert_eq!(found.len(), 1);
    assert_eq!(found[0].offset, 2);
}

#[test]
fn followers_cut_off_what_a_new_leader_does_not_have() {
    let mut worker = Worker::with_settings(StorageSettings {
        min_in_sync_replicas: 2,
        ..worker_settings(true)
    });
    worker
        .execute(StorageCommand::CreateTopic {
            topic: "payments".to_owned(),
            partitions: 1,
        })
        .expect("topic should be created");
    let replica = |leader_epoch, offset| StorageCommand::Replicate {
        record: ReplicateRecord {
            topic: "payments".to_owned(),
            partition: 0,
            offset,
            timestamp_ms: 3,
            key: None,
            value: Bytes::from_static(b"value"),
            durable: false,
            leader_epoch,
            high_watermark: 1,
            producer: None,
        },
    };
    for offset in 0..3 {
        worker.execute(replica(1, offset)).expect("record should be taken");
    }
    assert_eq!(records(worker.execute(read(0, 0))).len(), 1);
    match worker.execute(replica(2, 1)) {
        Ok(StorageReply::Offset(next)) => assert_eq!(next, 2),
        other => panic!("unexpected reply {other:?}"),
    }
    assert_eq!(worker.did.len(), 3);
    assert_eq!(worker.did[0], "tail 1");
    assert!(worker.did[1].starts_with("cut "));
    assert_eq!(worker.did[2], "write 0");
    assert_eq!(
        worker.execute(replica(1, 2)).unwrap_err(),
        StorageError::StaleEpoch {
            expected: 2,
            actual: 1
        }
    );
    worker
        .execute(StorageCommand::Commit {
            topic: "payments".to_owned(),
            partition: 0,
            offset: 2,
        })
        .expect("offset should be committed");
    assert_eq!(records(worker.execute(read(0, 0))).len(), 2);
    worker
        .execute(StorageCommand::Adopt {
            topic: "payments".to_owned(),
            leadership: PartitionLeadership {
                partition: 0,
                leader_id: 3,
                leader_epoch: 4,
                high_watermark: 2,
            },
            leads: false,
        })
        .expect("leadership should be adopted");
    assert_eq!(
        worker.execute(replica(3, 2)).unwrap_err(),
        StorageError::StaleEpoch {
            expected: 4,
            actual: 3
        }
    );
}

#[test]
fn a_lagging_follower_answers_with_the_offset_that_it_needs() {
    let settings = || StorageSettings {
        min_in_sync_replicas: 2,
        ..worker_settings(true)
    };
    let create = || StorageCommand::CreateTopic {
        topic: "payments".to_owned(),
        partitions: 1,
    };
    let mut leader = Worker::with_settings(settings());
    let mut follower = Worker::with_settings(settings());
    leader.execute(create()).expect("topic should be created");
    follower.execute(create()).expect("topic should be created");
    for value in ["zero", "one", "two"] {
        let mut sent = input(Some(0), value, AckMode::Leader);
        sent.producer = Some(ProducerIdentity {
            id: value.to_owned(),
            sequence: 1,
        });
        leader
            .execute(StorageCommand::Append { input: sent })
            .expect("message should be stored");
    }
    let brokers = cluster(3);
    let leadership = PartitionLeadership {
        partition: 0,
        leader_id: 1,
        leader_epoch: 0,
        high_watermark: 0,
    };
    let mut replication = Replication::start(&brokers, 0, 3, 2);
    let mut asked = Vec::new();
    while let Some((to, offset)) = replication.next() {
        if to.id == 3 {
            replication.unreachable();
            continue;
        }
        asked.push(offset);
        let found = records(leader.execute(StorageCommand::Read {
            topic: "payments".to_owned(),
            partition: 0,
            offset,
            max_bytes: 1024,
            visibility: Visibility::Stored,
        }));
        let found = record_at(&found, offset).expect("record should be there");
        let producer = match leader.execute(StorageCommand::FindProducer {
            topic: "payments".to_owned(),
            partition: 0,
            offset,
        }) {
            Ok(StorageReply::Producer(producer)) => producer,
            other => panic!("unexpected reply {other:?}"),
        };
        let record = replica_of("payments", &leadership, &found, AckMode::Leader, producer);
        match follower.execute(StorageCommand::Replicate { record }) {
            Ok(StorageReply::Offset(next)) => {
                replication.answered(next).expect("answer should be valid");
            }
            other => panic!("unexpected reply {other:?}"),
        }
    }
    assert_eq!(asked, [2, 0, 1, 2]);
    let command = replication
        .commit("payments", 0, 2)
        .expect("a quorum should hold the record");
    assert!(records(leader.execute(read(0, 0))).is_empty());
    leader.execute(command).expect("records should be committed");
    assert_eq!(records(leader.execute(read(0, 0))).len(), 3);
    match follower.execute(StorageCommand::FindProducer {
        topic: "payments".to_owned(),
        partition: 0,
        offset: 1,
    }) {
        Ok(StorageReply::Producer(Some(producer))) => assert_eq!(producer.id, "one"),
        other => panic!("unexpected reply {other:?}"),
    }
}

#[test]
fn followers_keep_the_watermark_that_they_know() {
    let mut brokers = cluster(3);
    brokers.responding_broker_id = 3;
    let mut leaders = registry(&brokers);
    leaders.raise_high_watermark("payments", 0, 4);
    let announced = PartitionLeadership {
        partition: 0,
        leader_id: 2,
        leader_epoch: 1,
        high_watermark: 9,
    };
    let apply = |leadership| BrokerRequest::ApplyLeadership {
        topic: "payments".to_owned(),
        leadership,
    };
    let task = Task::start(apply(announced), &brokers, &leaders);
    let (_, changed) = task.leadership_recorded(&brokers, &mut leaders);
    assert!(changed);
    assert_eq!(
        leaders.current("payments", 0),
        PartitionLeadership {
            high_watermark: 4,
            ..announced
        }
    );
    let own = PartitionLeadership {
        leader_id: 3,
        leader_epoch: 2,
        ..announced
    };
    let task = Task::start(apply(own), &brokers, &leaders);
    task.leadership_recorded(&brokers, &mut leaders);
    assert_eq!(leaders.current("payments", 0), own);
}
