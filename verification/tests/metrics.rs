use sevlamq::cluster::{ClusterMetadata, ClusterNode};
use sevlamq::groups::GroupSnapshot;
use sevlamq::metrics::{note_replica, render_metrics, PartitionSnapshot, ReplicaOffset};
use sevlamq::observability::{escape_label, format_seconds, Histogram, RuntimeMetrics};

fn test_cluster() -> ClusterMetadata {
    ClusterMetadata {
        responding_broker_id: 1,
        nodes: vec![ClusterNode {
            id: 1,
            host: "127.0.0.1".to_owned(),
            port: 7400,
            admin_port: 7401,
            replication_port: 7500,
        }],
    }
}

fn payments() -> Vec<PartitionSnapshot> {
    vec![PartitionSnapshot {
        topic: "payments".to_owned(),
        partition: 0,
        log_end_offset: 13,
        high_watermark: 13,
        low_watermark: 0,
        log_size_bytes: 512,
        segments: 2,
    }]
}

#[test]
fn renders_partition_and_consumer_group_lag_metrics() {
    let mut metrics = RuntimeMetrics::default();
    metrics.produced(2, 10);
    metrics.broker_busy();
    metrics.retention_removed(3);
    metrics.observe_produce(2_000);
    let partitions = payments();
    let groups = vec![GroupSnapshot {
        group: "workers".to_owned(),
        topic: "payments".to_owned(),
        generation: 3,
        members: 1,
        assigned_partitions: 1,
        committed_offsets: vec![(0, 8)],
    }];

    let rendered = render_metrics(
        &metrics,
        0,
        &partitions,
        &groups,
        &test_cluster(),
        &Vec::new(),
    );

    assert!(rendered.contains("sevlamq_messages_produced_total 2"));
    assert!(rendered.contains("sevlamq_broker_busy_total 1"));
    assert!(rendered.contains("sevlamq_retention_segments_removed_total 3"));
    assert!(rendered.contains("sevlamq_produce_duration_seconds_count 1"));
    assert!(rendered
        .contains("sevlamq_partition_log_size_bytes{topic=\"payments\",partition=\"0\"} 512"));
    assert!(rendered.contains(
        "sevlamq_consumer_group_lag{group=\"workers\",topic=\"payments\",partition=\"0\"} 5"
    ));
}

#[test]
fn renders_how_far_followers_are_behind() {
    let replicas = vec![ReplicaOffset {
        follower: 2,
        topic: "payments".to_owned(),
        partition: 0,
        offset: 9,
    }];
    let rendered = render_metrics(
        &RuntimeMetrics::default(),
        4,
        &payments(),
        &Vec::new(),
        &test_cluster(),
        &replicas,
    );
    assert!(rendered.contains("sevlamq_storage_queue_depth 4"));
    let lag = rendered
        .lines()
        .find(|line| line.starts_with("sevlamq_replication_lag_records{"))
        .expect("lag should be rendered");
    assert!(lag.ends_with("} 4"));
}

#[test]
fn counts_connections_and_messages() {
    let mut metrics = RuntimeMetrics::default();
    metrics.connection_opened();
    metrics.connection_opened();
    metrics.connection_closed();
    metrics.fetched(3, 30);
    metrics.observe_fetch(1);
    metrics.observe_append(1);
    metrics.observe_flush(1);
    let mut page = String::new();
    metrics.render(&mut page);
    assert!(page.contains("sevlamq_active_connections 1"));
    assert!(page.contains("sevlamq_messages_fetched_total 3"));
    assert!(page.contains("sevlamq_fetch_duration_seconds_count 1"));
}

#[test]
fn histograms_are_cumulative() {
    let mut histogram = Histogram::default();
    histogram.observe(1);
    histogram.observe(2_000_000_000);
    let mut page = String::new();
    histogram.render(&mut page, "x", "Test.");
    let counts: Vec<u64> = page
        .lines()
        .filter(|line| line.starts_with("x_bucket"))
        .map(|line| {
            line.rsplit(' ')
                .next()
                .and_then(|count| count.parse().ok())
                .expect("bucket should have a count")
        })
        .collect();
    assert_eq!(counts[0], 1);
    assert_eq!(counts.last(), Some(&2));
    assert!(counts.windows(2).all(|pair| pair[0] <= pair[1]));
    assert!(page.contains("x_sum 2000.000001"));
}

#[test]
fn formats_labels_and_seconds() {
    assert_eq!(escape_label("a\"b\\c\nd"), "a\\\"b\\\\c\\nd");
    assert_eq!(format_seconds(1_500_000), "1.500000");
    assert_eq!(format_seconds(42), "0.000042");
}

#[test]
fn renders_the_extent_and_the_replicas_of_partitions() {
    let mut brokers = test_cluster();
    for id in 2..=3 {
        brokers.nodes.push(ClusterNode {
            id,
            host: "127.0.0.1".to_owned(),
            port: 7400,
            admin_port: 7401,
            replication_port: 7500,
        });
    }
    let mut partitions = payments();
    partitions[0].log_end_offset = 15;
    let replica = |follower, offset| ReplicaOffset {
        follower,
        topic: "payments".to_owned(),
        partition: 0,
        offset,
    };
    let mut metrics = RuntimeMetrics::default();
    metrics.leader_promoted();
    let rendered = render_metrics(
        &metrics,
        0,
        &partitions,
        &Vec::new(),
        &brokers,
        &vec![replica(2, 13), replica(3, 12)],
    );
    let labels = "{topic=\"payments\",partition=\"0\"}";
    assert!(rendered.contains(&format!("sevlamq_partition_log_end_offset{labels} 15\n")));
    assert!(rendered.contains(&format!("sevlamq_partition_high_watermark{labels} 13\n")));
    assert!(rendered.contains(&format!("sevlamq_partition_isr{labels} 2\n")));
    assert!(rendered.contains("sevlamq_automatic_leader_promotions_total 1\n"));
}

#[test]
fn follower_offsets_are_kept_for_each_partition() {
    let mut replicas = Vec::new();
    note_replica(&mut replicas, 2, "payments", 0, 4);
    note_replica(&mut replicas, 2, "payments", 1, 5);
    note_replica(&mut replicas, 3, "payments", 0, 6);
    note_replica(&mut replicas, 2, "payments", 0, 7);
    let noted: Vec<(u32, u32, u64)> = replicas
        .iter()
        .map(|replica| (replica.follower, replica.partition, replica.offset))
        .collect();
    assert_eq!(noted, [(2, 0, 7), (2, 1, 5), (3, 0, 6)]);
}

#[test]
fn records_are_counted_up_to_the_end_of_the_log() {
    let mut partitions = payments();
    partitions[0].log_end_offset = 10;
    partitions[0].high_watermark = 4;
    let mut replicas = Vec::new();
    note_replica(&mut replicas, 2, "payments", 0, 4);
    let rendered = render_metrics(
        &RuntimeMetrics::default(),
        0,
        &partitions,
        &Vec::new(),
        &test_cluster(),
        &replicas,
    );
    let labels = "topic=\"payments\",partition=\"0\"";
    assert!(rendered.contains(&format!("sevlamq_partition_records{{{labels}}} 10\n")));
    assert!(rendered.contains(&format!(
        "sevlamq_replication_lag_records{{follower_id=\"2\",{labels}}} 6\n"
    )));
}
