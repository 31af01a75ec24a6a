use std::collections::BTreeMap;

use bytes::Bytes;
use sevlamq::broker::{
    batch_input, fetched_records, partition_in_turn, partition_of_hash, partitions_to_sync,
    select_partition, topic_file, AppendInput, AppendStep, BrokerError, EnsuredTopic, ReadStart,
    ReplicaStep, ReplicateRecord, Storage, StorageSettings,
};
use sevlamq::cluster::{ClusterMetadata, ClusterNode, TopicMetadata};
use sevlamq::config::{
    AdminConfig, BrokerConfig, ClusterConfig, Config, LoggingConfig,
};
use sevlamq::leadership::PartitionLeadership;
use sevlamq::messages::{record_at, AckMode, BatchRecord, ConnectionError, ProducerIdentity};
use sevlamq::observability::RuntimeMetrics;
use sevlamq::producers::{encode_note, keep_below, parse_notes};
use sevlamq::protocol::ProduceAck;
use sevlamq::record::{FetchedRecord, StorageError};
use sevlamq::replication::{
    acknowledged_offset, followers, replica_of, replication_address, settle_replication,
    took_record, waits_for_followers, Replication,
};
use sevlamq::sorted::SortedMap;
use sevlamq::storage::{create_segment, discover_segments, index_path, ListedFile};

fn test_storage_settings(partitions: u32) -> StorageSettings {
    StorageSettings {
        data_dir: "data".to_owned(),
        max_segment_bytes: 1024,
        index_interval_bytes: 64,
        default_partition_count: partitions,
        retention_bytes: None,
        retention_ms: None,
        auto_create_topics: true,
        queue_capacity: 1024,
        enqueue_timeout_ms: 100,
        min_in_sync_replicas: 1,
    }
}

/// A broker whose files are in memory.
struct Broker {
    storage: Storage,
    files: BTreeMap<String, Vec<u8>>,
    synced: Vec<u32>,
}

impl Broker {
    fn new(settings: StorageSettings) -> Self {
        Broker {
            storage: Storage::new(settings).expect("settings should be valid"),
            files: BTreeMap::new(),
            synced: Vec::new(),
        }
    }

    fn open_log(&mut self, topic: &str, partition: u32) -> Result<(), StorageError> {
        let mut recovery = self.storage.open_log(topic, partition)?;
        let directory = recovery.partition_dir().to_owned();
        let prefix = format!("{directory}/");
        let listed: Vec<ListedFile> = self
            .files
            .iter()
            .filter(|(path, _)| path.starts_with(&prefix))
            .map(|(path, contents)| ListedFile {
                name: path[prefix.len()..].to_owned(),
                len: contents.len() as u64,
            })
            .collect();
        let mut segments = discover_segments(&directory, &listed)?;
        if segments.is_empty() {
            let segment = create_segment(&directory, 0);
            self.files.insert(segment.path().to_owned(), Vec::new());
            segments.push(segment);
        }
        let last = segments.len() - 1;
        for (i, segment) in segments.into_iter().enumerate() {
            let path = segment.path().to_owned();
            let contents = self.files[&path].clone();
            let repair = recovery.recover_segment(segment, &contents, i == last)?;
            self.files.insert(index_path(&path), repair.index);
        }
        self.storage.add_log(topic, partition, recovery.finish());
        Ok(())
    }

    fn create_topic(
        &mut self,
        topic: &str,
        partitions: u32,
    ) -> Result<TopicMetadata, StorageError> {
        for partition in self.storage.create_topic(topic, partitions)? {
            self.open_log(topic, partition)?;
        }
        let file = topic_file("data", topic, partitions);
        self.files.insert(file.path, file.contents.into_bytes());
        Ok(self.storage.topic_created(topic, partitions))
    }

    fn write(
        &mut self,
        topic: &str,
        partition: u32,
        plan: &sevlamq::storage::AppendPlan,
        sync: bool,
        producer: &Option<ProducerIdentity>,
    ) -> Result<ProduceAck, StorageError> {
        if plan.rotate {
            let path = self
                .storage
                .next_segment_path(topic, partition)
                .expect("log should be there");
            self.files.insert(path, Vec::new());
            self.storage.rotate(topic, partition);
        }
        let path = self
            .storage
            .active_path(topic, partition)
            .expect("log should be there");
        self.files
            .get_mut(&path)
            .expect("segment should be there")
            .extend_from_slice(&plan.encoded);
        let ack = self.storage.append(topic, partition, plan, producer)?;
        if sync {
            self.synced.push(partition);
        }
        Ok(ack)
    }

    fn append(&mut self, input: &AppendInput) -> Result<ProduceAck, StorageError> {
        loop {
            match self.storage.append_record(input, Some(1))? {
                AppendStep::CreateTopic { partitions } => {
                    self.create_topic(&input.topic, partitions)?;
                }
                AppendStep::Write {
                    partition,
                    plan,
                    sync,
                } => return self.write(&input.topic, partition, &plan, sync, &input.producer),
                AppendStep::Held { ack, sync } => {
                    if sync {
                        self.synced.push(ack.partition);
                    }
                    return Ok(ack);
                }
            }
        }
    }

    fn append_batch(
        &mut self,
        topic: &str,
        records: &[BatchRecord],
        ack_mode: AckMode,
    ) -> Result<Vec<ProduceAck>, StorageError> {
        let mut acks = Vec::new();
        for record in records {
            acks.push(self.append(&batch_input(topic, None, record))?);
        }
        self.synced.extend(partitions_to_sync(&acks, ack_mode));
        Ok(acks)
    }

    fn read(
        &mut self,
        topic: &str,
        partition: u32,
        offset: u64,
        max_bytes: u32,
    ) -> Result<Vec<FetchedRecord>, StorageError> {
        loop {
            match self
                .storage
                .read_records(topic, partition, offset, max_bytes)?
            {
                ReadStart::CreateTopic { partitions } => {
                    self.create_topic(topic, partitions)?;
                }
                ReadStart::OpenLog => self.open_log(topic, partition)?,
                ReadStart::Read(mut reader) => {
                    while let Some(step) = self.storage.next_read(topic, partition, &reader) {
                        let contents = &self.files[&step.path][step.position as usize..];
                        reader = reader.feed(&step, contents)?;
                    }
                    return Ok(fetched_records(&reader.finish()));
                }
            }
        }
    }

    /// Takes a record of the leader and gives the next offset.
    fn receive(&mut self, record: &ReplicateRecord) -> Result<u64, StorageError> {
        loop {
            match self.storage.receive_replica(record)? {
                ReplicaStep::Held { next_offset } => return Ok(next_offset),
                ReplicaStep::Write { plan, sync } => {
                    self.write(&record.topic, record.partition, &plan, sync, &record.producer)?;
                    return self
                        .storage
                        .partition_offset(&record.topic, record.partition);
                }
                ReplicaStep::Truncate { to } => self.truncate(record, to)?,
            }
        }
    }

    /// Cuts the log of a follower off at an offset.
    fn truncate(&mut self, record: &ReplicateRecord, to: u64) -> Result<(), StorageError> {
        let path = self
            .storage
            .cut_path(&record.topic, record.partition, to)
            .expect("log should be there");
        let cut = self.storage.plan_truncation(
            &record.topic,
            record.partition,
            to,
            &self.files[&path],
        )?;
        assert_eq!(cut.path, path);
        self.files
            .get_mut(&path)
            .expect("segment should be there")
            .truncate(cut.len as usize);
        self.files.insert(index_path(&path), cut.index);
        for removed in &cut.removed {
            self.files.remove(removed);
        }
        self.storage.truncated(
            &record.topic,
            record.partition,
            cut.log,
            record.leader_epoch,
        );
        Ok(())
    }
}

fn message(partition: Option<u32>, key: &'static [u8], value: &str) -> AppendInput {
    AppendInput {
        topic: "payments".to_owned(),
        partition,
        key: Bytes::from_static(key),
        value: Bytes::copy_from_slice(value.as_bytes()),
        ack_mode: AckMode::Durable,
        producer: None,
    }
}

#[test]
fn selects_partitions_deterministically_and_round_robins_unkeyed_messages() {
    let mut round_robin = SortedMap::new();
    let key = Bytes::from_static(b"customer-123");

    assert_eq!(
        select_partition(3, &mut round_robin, "payments", Some(&key)),
        1
    );
    assert_eq!(
        select_partition(3, &mut round_robin, "payments", Some(&key)),
        1
    );

    let selected: Vec<u32> = (0..4)
        .map(|_| select_partition(3, &mut round_robin, "payments", None))
        .collect();
    assert_eq!(selected, [0, 1, 2, 0]);
}

#[test]
fn each_topic_has_its_own_turn() {
    let mut round_robin = SortedMap::new();
    assert_eq!(partition_in_turn(2, &mut round_robin, "a"), 0);
    assert_eq!(partition_in_turn(2, &mut round_robin, "b"), 0);
    assert_eq!(partition_in_turn(2, &mut round_robin, "a"), 1);
    assert_eq!(partition_of_hash(10, 3), 1);
}

#[test]
fn rejects_unknown_topics_when_auto_create_is_disabled() {
    let mut settings = test_storage_settings(3);
    settings.auto_create_topics = false;
    let mut broker = Broker::new(settings);

    assert!(matches!(
        broker.read("missing", 0, 0, 1024),
        Err(StorageError::UnknownTopic)
    ));
    assert!(matches!(
        broker.append(&message(None, b"", "x")),
        Err(StorageError::UnknownTopic)
    ));
}

#[test]
fn appends_a_durable_batch_and_returns_each_offset() {
    let mut broker = Broker::new(test_storage_settings(1));

    let acks = broker
        .append_batch(
            "payments",
            &[
                BatchRecord {
                    key: Bytes::new(),
                    payload: Bytes::from_static(b"hello"),
                },
                BatchRecord {
                    key: Bytes::new(),
                    payload: Bytes::from_static(b"world"),
                },
            ],
            AckMode::Durable,
        )
        .expect("batch should append");

    assert_eq!(acks.len(), 2);
    assert_eq!(acks[0].offset, 0);
    assert_eq!(acks[1].offset, 1);
    assert_eq!(broker.synced, [0]);
}

#[test]
fn fetches_an_empty_partition_before_the_first_produce() {
    let mut broker = Broker::new(test_storage_settings(3));

    let records = broker
        .read("payments", 2, 0, 1024)
        .expect("configured partition should open lazily");

    assert!(records.is_empty());
    assert!(broker
        .files
        .contains_key("data/payments/2/00000000000000000000.log"));
    assert_eq!(broker.files["data/payments/topic.meta"], b"partitions=3\n");
}

#[test]
fn recovers_existing_partitions_before_starting_worker() {
    let mut broker = Broker::new(test_storage_settings(3));
    broker.open_log("payments", 0).expect("log should open");
    broker
        .create_topic("payments", 1)
        .expect("topic should be created");
    broker
        .append(&message(Some(0), b"", "hello"))
        .expect("record should append");
    let index = "data/payments/0/00000000000000000000.idx".to_owned();
    broker.files.insert(index.clone(), b"broken index".to_vec());

    let mut restarted = Broker::new(test_storage_settings(3));
    restarted.files = broker.files;
    restarted
        .open_log("payments", 0)
        .expect("storage recovery should complete");
    assert_eq!(restarted.files[&index].len(), 16);
    assert_eq!(restarted.storage.partition_offset("payments", 0), Ok(1));
}

#[test]
fn recovered_logs_make_up_their_topics() {
    let mut storage = Storage::new(test_storage_settings(3)).expect("settings should be valid");
    for partition in [2, 0] {
        let mut recovery = storage.open_log("payments", partition).expect("log should open");
        let segment = create_segment(recovery.partition_dir(), 0);
        recovery
            .recover_segment(segment, &[], true)
            .expect("segment should recover");
        storage.recover_log("payments", partition, recovery.finish());
    }
    let topics = storage.list_topics();
    assert_eq!(topics.len(), 1);
    assert_eq!(topics[0].topic, "payments");
    assert_eq!(topics[0].partitions, 3);
    assert_eq!(
        storage
            .create_topic("payments", 1)
            .expect_err("topic should be there"),
        StorageError::TopicAlreadyExists
    );
    assert!(matches!(
        storage.read_records("payments", 1, 0, 1024),
        Ok(ReadStart::OpenLog)
    ));
}

#[test]
fn routes_keyed_messages_to_one_partition_and_reads_them_back() {
    let mut broker = Broker::new(test_storage_settings(3));
    for (offset, value) in ["zero", "one", "two"].into_iter().enumerate() {
        let ack = broker
            .append(&message(None, b"customer-123", value))
            .expect("message should append");
        assert_eq!(ack.partition, 1);
        assert_eq!(ack.offset, offset as u64);
    }
    for partition in 0..3 {
        assert!(broker
            .files
            .contains_key(&format!("data/payments/{partition}/00000000000000000000.log")));
    }
    let records = broker
        .read("payments", 1, 1, 1024)
        .expect("broker should return records");
    assert_eq!(records.len(), 2);
    assert_eq!(records[0].offset, 1);
    assert_eq!(records[0].value, Bytes::from_static(b"one"));
    assert_eq!(records[0].key, Some(Bytes::from_static(b"customer-123")));
    assert_eq!(records[1].offset, 2);
    assert_eq!(records[1].value, Bytes::from_static(b"two"));
    assert_eq!(broker.synced, [1, 1, 1]);
}

#[test]
fn routes_messages_without_a_key_by_their_producer() {
    let mut broker = Broker::new(test_storage_settings(3));
    let mut input = message(None, b"", "x");
    input.producer = Some(ProducerIdentity {
        id: "customer-123".to_owned(),
        sequence: 0,
    });
    let ack = broker.append(&input).expect("message should append");
    assert_eq!(ack.partition, 1);
    let records = broker
        .read("payments", 1, 0, 1024)
        .expect("broker should return records");
    assert_eq!(records[0].key, None);
}

#[test]
fn refuses_messages_that_cannot_be_stored() {
    let mut broker = Broker::new(test_storage_settings(2));
    broker
        .create_topic("payments", 2)
        .expect("topic should be created");
    assert_eq!(
        broker
            .append(&message(Some(2), b"", "x"))
            .expect_err("partition should be refused"),
        StorageError::UnknownPartition(2)
    );
    assert!(matches!(
        broker.storage.append_record(&message(Some(0), b"", "x"), None),
        Err(StorageError::InvalidTimestamp)
    ));
    assert!(matches!(
        broker
            .storage
            .append_record(&message(Some(0), b"", "x"), Some(1 << 64)),
        Err(StorageError::InvalidTimestamp)
    ));
    assert!(matches!(
        broker.storage.create_topic("orders", 0),
        Err(StorageError::InvalidTopic)
    ));
    assert_eq!(
        broker.read("payments", 7, 0, 1024).expect_err("refused"),
        StorageError::UnknownPartition(7)
    );
    assert_eq!(
        broker.storage.partition_offset("payments", 7),
        Err(StorageError::UnknownPartition(7))
    );
    assert_eq!(
        broker.storage.ensure_topic("orders"),
        Ok(EnsuredTopic::Create { partitions: 2 })
    );
}

#[test]
fn snapshots_show_each_log() {
    let mut broker = Broker::new(test_storage_settings(2));
    broker
        .append(&message(Some(1), b"", "hello"))
        .expect("message should append");
    let snapshots = broker.storage.snapshot_logs();
    assert_eq!(snapshots.len(), 2);
    assert_eq!((snapshots[0].partition, snapshots[0].high_watermark), (0, 0));
    assert_eq!((snapshots[1].partition, snapshots[1].high_watermark), (1, 1));
    assert_eq!(snapshots[1].low_watermark, 0);
    assert_eq!(snapshots[1].log_size_bytes, 38);
    assert_eq!(snapshots[1].segments, 1);
}

#[test]
fn batches_sync_each_partition_once() {
    let ack = |partition| ProduceAck {
        partition,
        offset: 0,
    };
    let acks = vec![ack(2), ack(0), ack(2)];
    assert_eq!(partitions_to_sync(&acks, AckMode::Durable), [0, 2]);
    assert!(partitions_to_sync(&acks, AckMode::Leader).is_empty());
}

fn node(id: u32) -> ClusterNode {
    ClusterNode {
        id,
        host: "127.0.0.1".to_owned(),
        port: 1,
        admin_port: 2,
        replication_port: 3,
    }
}

fn leadership(leader_epoch: u64, high_watermark: u64) -> PartitionLeadership {
    PartitionLeadership {
        partition: 0,
        leader_id: 1,
        leader_epoch,
        high_watermark,
    }
}

#[test]
fn catches_up_a_follower_without_creating_offset_gaps() {
    let mut leader = Broker::new(test_storage_settings(1));
    let mut follower = Broker::new(test_storage_settings(1));
    leader
        .create_topic("payments", 1)
        .expect("leader topic should be created");
    follower
        .create_topic("payments", 1)
        .expect("follower topic should be created");
    for value in ["first", "second", "third"] {
        leader
            .append(&message(Some(0), b"", value))
            .expect("leader append should succeed");
    }
    let cluster = ClusterMetadata {
        responding_broker_id: 1,
        nodes: vec![node(1), node(2)],
    };
    let mut replication = Replication::start(&cluster, 0, 2, 2);
    let mut sent = Vec::new();
    while let Some((to, offset)) = replication.next() {
        assert_eq!(to.id, 2);
        sent.push(offset);
        let found = leader
            .read("payments", 0, offset, 16 * 1024 * 1024)
            .expect("leader records should be readable");
        let record = record_at(&found, offset).expect("record should be there");
        let replica = replica_of("payments", &leadership(0, 0), &record, AckMode::Durable, None);
        let next = follower.receive(&replica).expect("record should be taken");
        let next = acknowledged_offset(0, 0, next).expect("answer should be valid");
        replication.answered(next).expect("follower should catch up");
    }
    assert_eq!(sent, [2, 0, 1, 2]);
    let records = follower
        .read("payments", 0, 0, 1024)
        .expect("follower records should be readable");
    assert_eq!(records.len(), 3);
    assert_eq!(records[2].offset, 2);
    assert_eq!(records[2].value, Bytes::from_static(b"third"));
}

#[test]
fn followers_hold_back_gaps_and_keep_what_they_have() {
    let mut follower = Broker::new(test_storage_settings(1));
    follower
        .create_topic("payments", 1)
        .expect("topic should be created");
    let replica = |offset, value: &'static str| ReplicateRecord {
        topic: "payments".to_owned(),
        partition: 0,
        offset,
        timestamp_ms: 5,
        key: None,
        value: Bytes::from_static(value.as_bytes()),
        durable: false,
        leader_epoch: 0,
        high_watermark: 0,
        producer: None,
    };
    assert_eq!(follower.receive(&replica(4, "late")), Ok(0));
    assert_eq!(follower.receive(&replica(0, "first")), Ok(1));
    assert_eq!(follower.receive(&replica(0, "again")), Ok(1));
    assert!(matches!(
        follower.storage.append_replica(&replica(4, "late")),
        Err(StorageError::UnexpectedOffset {
            expected: 1,
            actual: 4
        })
    ));
    let records = follower
        .read("payments", 0, 0, 1024)
        .expect("records should be readable");
    assert_eq!(records.len(), 1);
    assert_eq!(records[0].value, Bytes::from_static(b"first"));
    assert_eq!(records[0].timestamp_ms, 5);
    let mut strange = replica(0, "x");
    strange.partition = 3;
    assert_eq!(
        follower.receive(&strange),
        Err(StorageError::UnknownPartition(3))
    );
    strange.topic = "orders".to_owned();
    assert!(matches!(
        follower.storage.append_replica(&strange),
        Err(StorageError::UnknownTopic)
    ));
}

#[test]
fn refuses_answers_that_claim_too_much() {
    let cluster = ClusterMetadata {
        responding_broker_id: 2,
        nodes: vec![node(1), node(2), node(3)],
    };
    let ids: Vec<u32> = followers(&cluster, 0, 3).iter().map(|node| node.id).collect();
    assert_eq!(ids, [1, 3]);
    assert_eq!(replication_address(&cluster.nodes[0]), "127.0.0.1:3");
    let mut replication = Replication::start(&cluster, 0, 3, 7);
    assert!(replication.answered(9).is_err());
    assert!(replication.answered(8).is_ok());
    assert!(replication.next().is_some_and(|(to, _)| to.id == 3));
    assert!(acknowledged_offset(1, 2, 8).is_err());
    assert!(took_record(7, 8));
    assert!(!took_record(7, 7));
    assert!(waits_for_followers(AckMode::Durable));
    assert!(!waits_for_followers(AckMode::Leader));
}

#[test]
fn checks_the_settings_of_a_broker() {
    let refusal = |settings: StorageSettings| match Storage::new(settings) {
        Ok(_) => panic!("settings should be refused"),
        Err(error) => error.message(),
    };
    assert_eq!(
        refusal(test_storage_settings(0)),
        "default partition count must be greater than zero"
    );
    let mut settings = test_storage_settings(1);
    settings.queue_capacity = 0;
    assert_eq!(
        refusal(settings),
        "storage queue capacity and enqueue timeout must be greater than zero"
    );
    let error = BrokerError::PartitionOutsideConfiguredRange {
        topic: "payments".to_owned(),
        partition: 4,
        partition_count: 3,
    };
    assert_eq!(
        error.message(),
        "topic payments has partition 4, outside configured partition count 3"
    );
}

#[test]
fn reads_settings_from_the_configuration() {
    let config = Config {
        broker: BrokerConfig {
            host: "127.0.0.1".to_owned(),
            port: 7400,
            data_dir: "./data".to_owned(),
            max_segment_bytes: 1024,
            index_interval_bytes: 64,
            default_partition_count: 3,
            group_session_timeout_ms: 10_000,
            retention_bytes: 0,
            retention_ms: 60_000,
            storage_queue_capacity: 16,
            storage_enqueue_timeout_ms: 100,
            auto_create_topics: true,
        },
        admin: AdminConfig::default(),
        logging: LoggingConfig::default(),
        cluster: ClusterConfig::default(),
    };
    let settings = StorageSettings::from_config(&config);
    assert_eq!(settings.data_dir, "./data");
    assert_eq!(settings.retention_bytes, None);
    assert_eq!(settings.retention_ms, Some(60_000));
    assert_eq!(settings.queue_capacity, 16);
    assert!(settings.validate().is_ok());
}

/// A broker of a cluster in which two replicas have to be in sync.
fn clustered_settings() -> StorageSettings {
    StorageSettings {
        min_in_sync_replicas: 2,
        ..test_storage_settings(1)
    }
}

fn values(records: &[FetchedRecord]) -> Vec<String> {
    records
        .iter()
        .map(|record| String::from_utf8_lossy(&record.value).into_owned())
        .collect()
}

fn replicated(epoch: u64, watermark: u64, offset: u64, value: &str) -> ReplicateRecord {
    let record = FetchedRecord {
        offset,
        timestamp_ms: 5,
        key: None,
        value: Bytes::copy_from_slice(value.as_bytes()),
    };
    replica_of("payments", &leadership(epoch, watermark), &record, AckMode::Leader, None)
}

#[test]
fn repeated_messages_of_a_producer_are_stored_once() {
    let mut broker = Broker::new(test_storage_settings(3));
    let sent = |sequence, value: &str| AppendInput {
        producer: Some(ProducerIdentity {
            id: "p".to_owned(),
            sequence,
        }),
        ..message(None, b"", value)
    };
    let first = broker.append(&sent(1, "one")).expect("message should append");
    let second = broker.append(&sent(2, "two")).expect("message should append");
    assert_eq!(first.partition, second.partition);
    assert_eq!((first.offset, second.offset), (0, 1));
    broker.synced.clear();
    assert_eq!(broker.append(&sent(1, "one")), Ok(first));
    assert_eq!(broker.append(&sent(2, "two")), Ok(second));
    assert_eq!(broker.synced, [first.partition, first.partition]);
    let found = broker
        .read("payments", first.partition, 0, 1024)
        .expect("records should be readable");
    assert_eq!(values(&found), ["one", "two"]);
    let mut other = sent(1, "other");
    other.producer = Some(ProducerIdentity {
        id: "q".to_owned(),
        sequence: 1,
    });
    other.partition = Some(first.partition);
    assert_eq!(broker.append(&other).expect("message should append").offset, 2);
    assert_eq!(
        broker.append(&message(Some(first.partition), b"", "three")),
        Ok(ProduceAck {
            partition: first.partition,
            offset: 3
        })
    );
}

#[test]
fn fetches_stop_at_the_high_watermark() {
    let mut leader = Broker::new(clustered_settings());
    leader.create_topic("payments", 1).expect("topic should be created");
    for value in ["zero", "one", "two"] {
        leader
            .append(&message(Some(0), b"", value))
            .expect("message should append");
    }
    assert!(leader.read("payments", 0, 0, 1024).expect("log should be readable").is_empty());
    leader.storage.commit("payments", 0, 2);
    let found = leader.read("payments", 0, 0, 1024).expect("log should be readable");
    assert_eq!(values(&found), ["zero", "one"]);
    leader.storage.commit("payments", 0, 1);
    assert_eq!(leader.storage.mark("payments", 0).high_watermark, 2);
    leader.storage.commit("payments", 0, 9);
    assert_eq!(leader.storage.mark("payments", 0).high_watermark, 3);
    let found = leader.read("payments", 0, 2, 1024).expect("log should be readable");
    assert_eq!(values(&found), ["two"]);
}

#[test]
fn stale_leaders_are_refused() {
    let mut follower = Broker::new(clustered_settings());
    follower.create_topic("payments", 1).expect("topic should be created");
    assert_eq!(follower.receive(&replicated(3, 0, 0, "zero")), Ok(1));
    let stale = StorageError::StaleEpoch {
        expected: 3,
        actual: 2,
    };
    assert_eq!(stale.message(), "leader epoch 2 is older than 3");
    assert_eq!(follower.receive(&replicated(2, 9, 1, "one")), Err(stale));
    assert_eq!(follower.storage.mark("payments", 0).epoch, 3);
    assert_eq!(follower.storage.mark("payments", 0).high_watermark, 0);
    assert_eq!(follower.storage.partition_offset("payments", 0), Ok(1));
    follower.storage.adopt("payments", &leadership(5, 1), false);
    assert_eq!(
        follower.receive(&replicated(4, 0, 1, "one")),
        Err(StorageError::StaleEpoch {
            expected: 5,
            actual: 4
        })
    );
    let found = follower.read("payments", 0, 0, 1024).expect("log should be readable");
    assert_eq!(values(&found), ["zero"]);
}

#[test]
fn divergent_tails_are_cut_off_in_a_new_epoch() {
    let mut settings = clustered_settings();
    settings.max_segment_bytes = 100;
    let mut follower = Broker::new(settings);
    follower.create_topic("payments", 1).expect("topic should be created");
    let long = "x".repeat(40);
    for offset in 0..5 {
        let watermark = if offset < 2 { offset } else { 2 };
        let next = follower.receive(&replicated(1, watermark, offset, &format!("{long}{offset}")));
        assert_eq!(next, Ok(offset + 1));
    }
    assert_eq!(follower.storage.mark("payments", 0).high_watermark, 2);
    let segments = follower.storage.segment_paths("payments", 0).len();
    assert!(segments > 2);
    assert_eq!(follower.receive(&replicated(2, 2, 4, "new")), Ok(2));
    assert_eq!(follower.receive(&replicated(2, 2, 2, "new two")), Ok(3));
    assert_eq!(follower.receive(&replicated(2, 3, 3, "new three")), Ok(4));
    assert_eq!(follower.storage.mark("payments", 0).epoch, 2);
    follower.storage.commit("payments", 0, 4);
    let found = follower.read("payments", 0, 0, 4096).expect("log should be readable");
    assert_eq!(
        values(&found),
        [format!("{long}0"), format!("{long}1"), "new two".to_owned(), "new three".to_owned()]
    );
    assert_eq!(follower.storage.partition_offset("payments", 0), Ok(4));
    let mut reopened = Broker::new(follower_settings());
    reopened.files = follower.files;
    assert_eq!(reopened.open_log("payments", 0), Ok(()));
    assert_eq!(
        reopened.storage.segment_paths("payments", 0),
        follower.storage.segment_paths("payments", 0)
    );
}

fn follower_settings() -> StorageSettings {
    StorageSettings {
        max_segment_bytes: 100,
        ..clustered_settings()
    }
}

#[test]
fn failed_replications_are_counted_once() {
    let mut metrics = RuntimeMetrics::default();
    let closed = || Err(ConnectionError::ReplicationClosed);
    assert!(settle_replication(AckMode::Leader, closed(), &mut metrics).is_ok());
    assert!(matches!(
        settle_replication(AckMode::Durable, closed(), &mut metrics),
        Err(ConnectionError::ReplicationClosed)
    ));
    assert!(settle_replication(AckMode::Durable, Ok(()), &mut metrics).is_ok());
    let mut page = String::new();
    metrics.render(&mut page);
    assert!(page.contains("sevlamq_replication_failures_total 2\n"));
}

#[test]
fn a_lone_broker_serves_what_it_finds_at_start() {
    let mut broker = Broker::new(test_storage_settings(1));
    broker.create_topic("payments", 1).expect("topic should be created");
    for value in ["zero", "one"] {
        broker
            .append(&message(Some(0), b"", value))
            .expect("message should append");
    }
    let mut reopened = Broker::new(test_storage_settings(1));
    reopened.files = broker.files.clone();
    reopened.create_topic("payments", 1).expect("topic should be opened");
    let found = reopened.read("payments", 0, 0, 1024).expect("log should be readable");
    assert_eq!(values(&found), ["zero", "one"]);

    let mut follower = Broker::new(clustered_settings());
    follower.files = broker.files;
    follower.create_topic("payments", 1).expect("topic should be opened");
    assert!(follower.read("payments", 0, 0, 1024).expect("log should be readable").is_empty());
    follower.storage.adopt("payments", &leadership(2, 1), false);
    let found = follower.read("payments", 0, 0, 1024).expect("log should be readable");
    assert_eq!(values(&found), ["zero"]);
    assert_eq!(follower.storage.mark("payments", 0).epoch, 2);
}

#[test]
fn a_replaced_leader_cuts_off_its_tail_when_it_follows() {
    let mut replaced = Broker::new(clustered_settings());
    replaced.create_topic("payments", 1).expect("topic should be created");
    for value in ["zero", "lost", "lost too"] {
        replaced
            .append(&message(Some(0), b"", value))
            .expect("message should append");
    }
    replaced.storage.commit("payments", 0, 1);
    replaced.storage.adopt("payments", &leadership(1, 1), false);
    assert_eq!(
        replaced.receive(&replicated(0, 1, 3, "stale")),
        Err(StorageError::StaleEpoch {
            expected: 1,
            actual: 0
        })
    );
    assert_eq!(replaced.receive(&replicated(1, 1, 1, "one")), Ok(2));
    assert_eq!(replaced.receive(&replicated(1, 2, 2, "two")), Ok(3));
    replaced.storage.commit("payments", 0, 3);
    let found = replaced.read("payments", 0, 0, 1024).expect("log should be readable");
    assert_eq!(values(&found), ["zero", "one", "two"]);
}

#[test]
fn a_quorum_commits_without_the_other_followers() {
    let cluster = ClusterMetadata {
        responding_broker_id: 1,
        nodes: vec![node(1), node(2), node(3)],
    };
    let mut replication = Replication::start(&cluster, 0, 3, 7);
    assert!(replication.commit("payments", 0, 2).is_none());
    replication.unreachable();
    assert!(replication.next().is_some_and(|(to, offset)| (to.id, offset) == (3, 7)));
    assert!(replication.commit("payments", 0, 2).is_none());
    assert!(matches!(
        replication.outcome(2, Some(ConnectionError::InvalidReplicationAck)),
        Err(ConnectionError::InvalidReplicationAck)
    ));
    assert!(matches!(
        replication.outcome(2, None),
        Err(ConnectionError::ReplicationClosed)
    ));
    replication.answered(5).expect("answer should be valid");
    assert!(replication.next().is_some_and(|(to, offset)| (to.id, offset) == (3, 5)));
    replication.answered(8).expect("answer should be valid");
    assert!(replication.next().is_none());
    assert!(replication.commit("payments", 0, 2).is_some());
    assert!(replication.outcome(2, Some(ConnectionError::ReplicationClosed)).is_ok());
    assert!(replication.commit("payments", 0, 3).is_none());
    assert!(replication.commit("payments", 0, 1).is_some());
    assert!(replication.commit("payments", 0, 0).is_some());
}

#[test]
fn partitions_have_as_many_replicas_as_the_factor_says() {
    let cluster = |responding_broker_id| ClusterMetadata {
        responding_broker_id,
        nodes: vec![node(1), node(2), node(3)],
    };
    let ids = |broker, partition, factor| -> Vec<u32> {
        followers(&cluster(broker), partition, factor)
            .iter()
            .map(|node| node.id)
            .collect()
    };
    assert_eq!(ids(1, 0, 2), [2]);
    assert_eq!(ids(2, 1, 2), [3]);
    assert_eq!(ids(3, 2, 2), [1]);
    assert_eq!(ids(3, 5, 2), [1]);
    assert_eq!(ids(1, 0, 1), [] as [u32; 0]);
    assert_eq!(ids(2, 1, 3), [1, 3]);
    assert_eq!(ids(2, 4, 9), [1, 3]);
}

#[test]
fn producers_are_remembered_over_a_restart_and_by_followers() {
    let mut leader = Broker::new(clustered_settings());
    leader.create_topic("payments", 1).expect("topic should be created");
    let identity = |id: &str, sequence| ProducerIdentity {
        id: id.to_owned(),
        sequence,
    };
    let mut contents = Vec::new();
    for (offset, producer) in [identity("p", 1), identity("p", 2), identity("q", 1)]
        .into_iter()
        .enumerate()
    {
        contents.extend(encode_note(&producer, offset as u64));
        let input = AppendInput {
            producer: Some(producer),
            ..message(Some(0), b"", "value")
        };
        leader.append(&input).expect("message should append");
    }
    assert_eq!(
        leader.storage.notes_path("payments", 0).as_deref(),
        Some("data/payments/0/producers.meta")
    );
    assert_eq!(leader.storage.producer_at("payments", 0, 1), Some(identity("p", 2)));
    assert_eq!(leader.storage.producer_at("payments", 0, 3), None);

    let mut torn = contents.clone();
    torn.extend(&encode_note(&identity("r", 9), 3)[..20]);
    assert_eq!(parse_notes(&torn).len(), 3);
    let (kept, bytes) = keep_below(&torn, 2);
    assert_eq!(kept.len(), 2);
    assert_eq!(bytes, contents[..50]);
    let (kept, bytes) = keep_below(&torn, 3);
    assert_eq!(bytes, contents);

    let mut reopened = Broker::new(clustered_settings());
    reopened.files = leader.files.clone();
    reopened.create_topic("payments", 1).expect("topic should be opened");
    reopened.storage.restore_sequences("payments", 0, &kept);
    let again = AppendInput {
        producer: Some(identity("p", 2)),
        ..message(Some(0), b"", "value")
    };
    assert_eq!(
        reopened.append(&again),
        Ok(ProduceAck {
            partition: 0,
            offset: 1
        })
    );
    assert_eq!(reopened.storage.partition_offset("payments", 0), Ok(3));

    let mut follower = Broker::new(clustered_settings());
    follower.create_topic("payments", 1).expect("topic should be created");
    for offset in 0..3 {
        let mut record = replicated(0, 0, offset, "value");
        record.producer = leader.storage.producer_at("payments", 0, offset);
        assert_eq!(follower.receive(&record), Ok(offset + 1));
    }
    follower.storage.adopt("payments", &leadership(1, 3), true);
    assert_eq!(follower.append(&again).map(|ack| ack.offset), Ok(1));
    assert_eq!(follower.storage.partition_offset("payments", 0), Ok(3));
}

#[test]
fn a_new_leader_follows_itself() {
    let mut broker = Broker::new(clustered_settings());
    broker.create_topic("payments", 1).expect("topic should be created");
    broker
        .append(&message(Some(0), b"", "zero"))
        .expect("message should append");
    broker.storage.adopt("payments", &leadership(4, 1), true);
    let mark = broker.storage.mark("payments", 0);
    assert_eq!((mark.epoch, mark.followed, mark.high_watermark), (4, 4, 1));
    broker.storage.adopt("payments", &leadership(6, 1), false);
    let mark = broker.storage.mark("payments", 0);
    assert_eq!((mark.epoch, mark.followed), (6, 4));
}
