use sevlamq::broker::{cluster_of, local_node, BrokerError};
use sevlamq::cluster::{
    leader_for_partition, leadership_error, with_leaders, ClusterMetadata, ClusterNode,
    TopicMetadata,
};
use sevlamq::config::{
    AdminConfig, BrokerConfig, ClusterConfig, ClusterNodeConfig, Config, ConfigError,
    LoggingConfig,
};
use sevlamq::leadership::{
    parse_entries, LeadershipError, LeadershipRegistry, PartitionLeadership,
};

fn three_node_cluster() -> ClusterMetadata {
    ClusterMetadata {
        responding_broker_id: 1,
        nodes: (1..=3)
            .map(|id| ClusterNode {
                id,
                host: "127.0.0.1".to_owned(),
                port: u16::try_from(7_300 + id * 100).expect("test port should fit"),
                admin_port: u16::try_from(7_301 + id * 100).expect("test port should fit"),
                replication_port: u16::try_from(7_302 + id * 100).expect("test port should fit"),
            })
            .collect(),
    }
}

#[test]
fn assigns_partition_leaders_deterministically() {
    let cluster = three_node_cluster();

    let leaders: Vec<u32> = (0..6)
        .map(|partition| leader_for_partition(&cluster, partition).id)
        .collect();

    assert_eq!(leaders, [1, 2, 3, 1, 2, 3]);
    assert!(leadership_error(&cluster, Some(0)).is_none());
    assert!(leadership_error(&cluster, Some(1)).is_some());
    assert!(leadership_error(&cluster, None).is_some());
}

#[test]
fn tells_who_leads_a_partition() {
    let mut cluster = three_node_cluster();
    assert_eq!(
        leadership_error(&cluster, Some(1)),
        Some("not partition leader: partition=1 leader_id=2 leader=127.0.0.1:7500".to_owned())
    );
    assert_eq!(
        leadership_error(&cluster, None),
        Some("partition is required for clustered produce".to_owned())
    );
    let topic = TopicMetadata {
        topic: "payments".to_owned(),
        partitions: 4,
        leaders: Vec::new(),
    };
    let registry =
        LeadershipRegistry::open("data", cluster.clone(), None).expect("registry should open");
    let leaders: Vec<u32> = with_leaders(topic, &registry)
        .leaders
        .iter()
        .map(|leader| leader.leader_id)
        .collect();
    assert_eq!(leaders, [1, 2, 3, 1]);
    cluster.nodes.truncate(1);
    assert_eq!(leadership_error(&cluster, None), None);
}

fn leadership_cluster() -> ClusterMetadata {
    ClusterMetadata {
        responding_broker_id: 1,
        nodes: (1_u16..=3)
            .map(|id| ClusterNode {
                id: u32::from(id),
                host: "127.0.0.1".to_owned(),
                port: 7390 + id * 10,
                admin_port: 7391 + id * 10,
                replication_port: 7392 + id * 10,
            })
            .collect(),
    }
}

#[test]
fn persists_promoted_leadership_and_rejects_stale_epochs() {
    let mut registry =
        LeadershipRegistry::open("data", leadership_cluster(), None).expect("registry should open");
    assert!(registry.ensure_topic("payments", 3));
    assert_eq!(
        registry
            .partition("payments", 1)
            .expect("partition should exist")
            .leader_id,
        2
    );
    let promoted = PartitionLeadership {
        partition: 1,
        leader_id: 3,
        leader_epoch: 1,
        high_watermark: 7,
    };
    registry
        .apply("payments", promoted)
        .expect("new epoch should be accepted");
    registry
        .apply("payments", promoted)
        .expect("reapplying identical metadata should be idempotent");
    let stale = PartitionLeadership {
        high_watermark: 6,
        ..promoted
    };
    assert!(matches!(
        registry.apply("payments", stale),
        Err(LeadershipError::StaleEpoch)
    ));
    let committed = PartitionLeadership {
        high_watermark: 8,
        ..promoted
    };
    registry
        .apply("payments", committed)
        .expect("high watermark should advance within an epoch");

    let written = registry.render();
    let reopened = LeadershipRegistry::open("data", leadership_cluster(), Some(&written))
        .expect("registry should reopen");
    assert_eq!(
        reopened
            .partition("payments", 1)
            .expect("promoted partition should persist"),
        committed
    );
}

#[test]
fn refuses_leadership_that_makes_no_sense() {
    let mut registry =
        LeadershipRegistry::open("data", leadership_cluster(), None).expect("registry should open");
    registry.ensure_topic("payments", 1);
    let promoted = PartitionLeadership {
        partition: 0,
        leader_id: 9,
        leader_epoch: 1,
        high_watermark: 0,
    };
    assert_eq!(
        registry.apply("payments", promoted),
        Err(LeadershipError::UnknownBroker(9))
    );
    assert_eq!(
        registry
            .partition("payments", 4)
            .expect_err("partition should be missing"),
        LeadershipError::MissingPartition(4)
    );
    match LeadershipRegistry::open("data", leadership_cluster(), Some("payments one two\n")) {
        Ok(_) => panic!("file should be refused"),
        Err(error) => assert_eq!(error, LeadershipError::InvalidMetadata),
    }
    assert!(parse_entries("").is_ok());
}

#[test]
fn migrates_entries_without_a_high_watermark_once() {
    let mut registry =
        LeadershipRegistry::open("data", leadership_cluster(), Some("payments\t0\t2\t4\n"))
            .expect("registry should open");
    assert_eq!(registry.path(), "data/__cluster/leadership.meta");
    assert_eq!(registry.migrate_high_watermark("payments", 0, 5), Ok(true));
    assert_eq!(registry.migrate_high_watermark("payments", 0, 6), Ok(false));
    assert_eq!(
        registry.migrate_high_watermark("payments", 1, 6),
        Err(LeadershipError::MissingPartition(1))
    );
    assert_eq!(
        registry.partition("payments", 0),
        Ok(PartitionLeadership {
            partition: 0,
            leader_id: 2,
            leader_epoch: 4,
            high_watermark: 5,
        })
    );
    assert_eq!(registry.render(), "payments\t0\t2\t4\t5\n");
    let (leaders, changed) = registry
        .topic("payments", 2)
        .expect("topic should be there");
    assert!(changed);
    assert_eq!(leaders.len(), 2);
    assert_eq!(leaders[0].leader_epoch, 4);
    assert_eq!(leaders[1].leader_id, 2);
}

const CONFIGURATION: &str = r#"
    [broker]
    host = "127.0.0.1"
    port = 7400
    data_dir = "./data"
    max_segment_bytes = 268435456
    index_interval_bytes = 4096
    default_partition_count = 3
    group_session_timeout_ms = 10000
    retention_bytes = 0
    retention_ms = 0
    storage_queue_capacity = 1024
    storage_enqueue_timeout_ms = 100
    auto_create_topics = true
"#;

const SMALL_CONFIGURATION: &str = r#"
    [broker]
    host = "127.0.0.1"
    port = 7400
    data_dir = "./data"
    max_segment_bytes = 1024
    index_interval_bytes = 64
    default_partition_count = 3
    group_session_timeout_ms = 10000
    retention_bytes = 0
    retention_ms = 0
    storage_queue_capacity = 16
    storage_enqueue_timeout_ms = 100
    auto_create_topics = false
"#;

fn number(table: &toml::Table, key: &str) -> i64 {
    table[key].as_integer().expect("value should be a number")
}

fn text(table: &toml::Table, key: &str) -> String {
    table[key].as_str().expect("value should be text").to_owned()
}

fn parse(contents: &str) -> Config {
    let table: toml::Table = contents.parse().expect("configuration should be valid");
    let broker = table["broker"].as_table().expect("broker should be a table");
    Config {
        broker: BrokerConfig {
            host: text(broker, "host"),
            port: number(broker, "port") as u16,
            data_dir: text(broker, "data_dir"),
            max_segment_bytes: number(broker, "max_segment_bytes") as u64,
            index_interval_bytes: number(broker, "index_interval_bytes") as u64,
            default_partition_count: number(broker, "default_partition_count") as u32,
            group_session_timeout_ms: number(broker, "group_session_timeout_ms") as u64,
            retention_bytes: number(broker, "retention_bytes") as u64,
            retention_ms: number(broker, "retention_ms") as u64,
            storage_queue_capacity: number(broker, "storage_queue_capacity") as usize,
            storage_enqueue_timeout_ms: number(broker, "storage_enqueue_timeout_ms") as u64,
            auto_create_topics: broker["auto_create_topics"]
                .as_bool()
                .expect("value should be a flag"),
        },
        admin: AdminConfig::default(),
        logging: LoggingConfig::default(),
        cluster: ClusterConfig::default(),
    }
}

#[test]
fn parses_broker_configuration() {
    let config = parse(CONFIGURATION);

    assert_eq!(config.broker.host, "127.0.0.1");
    assert_eq!(config.broker.port, 7400);
    assert_eq!(config.broker.data_dir, "./data");
    assert_eq!(config.broker.max_segment_bytes, 268_435_456);
    assert_eq!(config.broker.index_interval_bytes, 4096);
    assert_eq!(config.broker.default_partition_count, 3);
    assert_eq!(config.broker.group_session_timeout_ms, 10_000);
    assert_eq!(config.broker.retention_bytes, 0);
    assert_eq!(config.broker.retention_ms, 0);
    assert_eq!(config.broker.storage_queue_capacity, 1024);
    assert_eq!(config.broker.storage_enqueue_timeout_ms, 100);
    assert!(config.broker.auto_create_topics);
    assert_eq!(config.admin, AdminConfig::default());
    assert_eq!(config.logging, LoggingConfig::default());
    assert_eq!(config.cluster, ClusterConfig::default());
    assert_eq!(
        config
            .cluster_nodes(&vec![true])
            .expect("cluster should validate")
            .len(),
        1
    );
    assert_eq!(config.broker.socket_addr(), "127.0.0.1:7400");
}

#[test]
fn validates_static_cluster_membership() {
    let mut config = parse(SMALL_CONFIGURATION);
    config.cluster.replication_factor = 2;
    assert!(matches!(
        config.cluster_nodes(&vec![true]),
        Err(ConfigError::InvalidReplicationPolicy)
    ));
    config.cluster = ClusterConfig {
        broker_id: 2,
        replication_factor: 1,
        min_in_sync_replicas: 1,
        nodes: vec![ClusterNodeConfig {
            id: 1,
            host: "127.0.0.1".to_owned(),
            port: 7400,
            admin_port: 7401,
            replication_port: 7402,
        }],
    };

    assert!(matches!(
        config.cluster_nodes(&vec![true]),
        Err(ConfigError::LocalBrokerMissing)
    ));
}

#[test]
fn fills_in_the_configured_defaults() {
    let config = parse(CONFIGURATION);
    assert_eq!(config.admin.host, "127.0.0.1");
    assert_eq!(config.admin.port, 7401);
    assert_eq!(config.admin.socket_addr(), "127.0.0.1:7401");
    assert!(!config.logging.json);
    assert_eq!(config.cluster.broker_id, 1);
    let nodes = config
        .cluster_nodes(&vec![true])
        .expect("cluster should validate");
    assert_eq!(nodes[0].replication_port, 7500);
    let cluster = cluster_of(&config, &nodes);
    assert_eq!(cluster.responding_broker_id, 1);
    assert_eq!(
        local_node(&cluster).expect("broker should be there").port,
        7400
    );
    let strange = ClusterMetadata {
        responding_broker_id: 4,
        nodes: cluster.nodes,
    };
    assert!(matches!(
        local_node(&strange),
        Err(BrokerError::InvalidClusterMetadata)
    ));
}

#[test]
fn lists_brokers_by_id_and_refuses_clashes() {
    let node = |id: u32, port: u16| ClusterNodeConfig {
        id,
        host: "127.0.0.1".to_owned(),
        port,
        admin_port: port + 1,
        replication_port: port + 2,
    };
    let mut config = parse(SMALL_CONFIGURATION);
    config.cluster.nodes = vec![node(3, 7600), node(1, 7400), node(2, 7500)];
    let ids: Vec<u32> = config
        .cluster_nodes(&vec![true, true, true])
        .expect("cluster should validate")
        .iter()
        .map(|node| node.id)
        .collect();
    assert_eq!(ids, [1, 2, 3]);
    assert!(matches!(
        config.cluster_nodes(&vec![true, false, true]),
        Err(ConfigError::InvalidCluster)
    ));
    config.cluster.nodes[2].port = 7401;
    assert!(matches!(
        config.cluster_nodes(&vec![true, true, true]),
        Err(ConfigError::InvalidCluster)
    ));
    config.cluster.nodes[2] = node(3, 7700);
    assert!(matches!(
        config.cluster_nodes(&vec![true, true, true]),
        Err(ConfigError::InvalidCluster)
    ));
}

#[test]
fn high_watermarks_are_recorded_and_never_fall() {
    let mut registry = LeadershipRegistry::open("data", leadership_cluster(), None)
        .expect("registry should open");
    assert!(registry.raise_high_watermark("payments", 1, 5));
    assert!(!registry.raise_high_watermark("payments", 1, 5));
    assert!(!registry.raise_high_watermark("payments", 1, 4));
    let current = registry.current("payments", 1);
    assert_eq!((current.leader_id, current.leader_epoch, current.high_watermark), (2, 0, 5));
    assert_eq!(registry.current("payments", 0).high_watermark, 0);
    let reopened =
        LeadershipRegistry::open("data", leadership_cluster(), Some(&registry.render()))
            .expect("registry should open");
    assert_eq!(reopened.current("payments", 1), current);
}
