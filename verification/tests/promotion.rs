use sevlamq::cluster::{ClusterMetadata, ClusterNode};
use sevlamq::leadership::{LeadershipRegistry, PartitionLeadership};
use sevlamq::promotion::{
    promote, promote_by_request, replace_leader, LeaderProbe, PromotionError, ReplicaStatus,
};

fn three_brokers(responding_broker_id: u32) -> ClusterMetadata {
    ClusterMetadata {
        responding_broker_id,
        nodes: (1..=3)
            .map(|id| ClusterNode {
                id,
                host: "127.0.0.1".to_owned(),
                port: 7400,
                admin_port: 7401,
                replication_port: 7402,
            })
            .collect(),
    }
}

/// A registry in which broker 2 leads partition 1 of the orders in its fourth epoch.
fn led() -> LeadershipRegistry {
    let mut registry = LeadershipRegistry::open("data", three_brokers(1), None)
        .expect("registry should open");
    registry
        .apply(
            "orders",
            PartitionLeadership {
                partition: 1,
                leader_id: 2,
                leader_epoch: 4,
                high_watermark: 10,
            },
        )
        .expect("leadership should be recorded");
    registry
}

fn told(broker_id: u32, next_offset: u64) -> ReplicaStatus {
    ReplicaStatus {
        broker_id,
        next_offset,
    }
}

#[test]
fn promotes_a_replica_that_holds_what_is_committed() {
    let registry = led();
    let statuses = vec![told(1, 9), told(3, 12)];
    assert_eq!(
        promote(&registry, "orders", 1, 3, &statuses, 0, 3, 2),
        Ok(PartitionLeadership {
            partition: 1,
            leader_id: 3,
            leader_epoch: 5,
            high_watermark: 10
        })
    );
    assert_eq!(
        promote(&registry, "orders", 1, 3, &statuses, 12, 3, 2).map(|led| led.high_watermark),
        Ok(12)
    );
    assert_eq!(
        promote(&registry, "orders", 0, 3, &statuses, 0, 3, 2).map(|led| led.leader_epoch),
        Ok(1)
    );
}

#[test]
fn refuses_promotions_that_are_not_safe() {
    let registry = led();
    let refuse = |broker, statuses: &Vec<ReplicaStatus>, committed, needed| {
        promote(&registry, "orders", 1, broker, statuses, committed, 3, needed)
            .expect_err("promotion should be refused")
    };
    let statuses = vec![told(1, 9), told(3, 12)];
    assert_eq!(refuse(9, &statuses, 0, 2), PromotionError::UnknownBroker(9));
    assert_eq!(refuse(2, &statuses, 0, 2), PromotionError::Unreachable(2));
    assert_eq!(
        refuse(1, &statuses, 0, 2),
        PromotionError::BehindHighWatermark {
            broker_id: 1,
            next_offset: 9,
            high_watermark: 12
        }
    );
    assert_eq!(
        refuse(3, &statuses, 0, 3),
        PromotionError::NotEnoughReplicas {
            reachable: 2,
            needed: 3
        }
    );
    assert_eq!(
        promote_by_request(&three_brokers(2), &registry, "orders", 1, 3, &statuses, 0, 3, 2),
        Err(PromotionError::NotController(2))
    );
    assert!(
        promote_by_request(&three_brokers(1), &registry, "orders", 1, 3, &statuses, 0, 3, 2).is_ok()
    );
    let mut last = led();
    last.apply(
        "orders",
        PartitionLeadership {
            partition: 1,
            leader_id: 2,
            leader_epoch: u64::MAX,
            high_watermark: 10,
        },
    )
    .expect("leadership should be recorded");
    assert_eq!(
        promote(&last, "orders", 1, 3, &statuses, 0, 3, 2),
        Err(PromotionError::EpochExhausted)
    );
}

#[test]
fn tells_why_a_promotion_is_refused() {
    let texts: Vec<String> = [
        PromotionError::NotController(2),
        PromotionError::UnknownBroker(9),
        PromotionError::NotReplica(3),
        PromotionError::Unreachable(2),
        PromotionError::BehindHighWatermark {
            broker_id: 1,
            next_offset: 9,
            high_watermark: 10,
        },
        PromotionError::NotEnoughReplicas {
            reachable: 1,
            needed: 2,
        },
        PromotionError::EpochExhausted,
    ]
    .iter()
    .map(PromotionError::message)
    .collect();
    assert_eq!(
        texts,
        [
            "broker 2 is not the controller",
            "broker 9 is not in cluster membership",
            "broker 3 has no replica of the partition",
            "broker 2 cannot be reached",
            "broker 1 holds records below 9 but records below 10 may be committed",
            "only 1 of 2 in-sync replicas can be reached",
            "the partition has no further leader epoch",
        ]
    );
}

#[test]
fn a_lost_leader_is_replaced_by_the_first_safe_replica() {
    let mut registry = led();
    let replaced = replace_leader(&registry, "orders", 1, &vec![told(1, 9), told(3, 10)], 0, 3, 2)
        .expect("a replica should take over");
    assert_eq!((replaced.leader_id, replaced.leader_epoch), (3, 5));
    let replaced = replace_leader(&registry, "orders", 1, &vec![told(1, 10), told(3, 10)], 0, 3, 2)
        .expect("a replica should take over");
    assert_eq!(replaced.leader_id, 1);
    assert!(replace_leader(&registry, "orders", 1, &vec![told(3, 10)], 0, 3, 2).is_none());
    assert!(replace_leader(&registry, "orders", 1, &vec![told(1, 9), told(2, 10)], 0, 3, 2).is_none());
    assert_eq!(registry.apply("orders", replaced), Ok(true));
    assert_eq!(registry.current("orders", 1), replaced);
}

#[test]
fn three_failed_probes_in_a_row_lose_a_leader() {
    let mut probe = LeaderProbe::new();
    let outcomes = [false, false, true, false, false, false, false, true, false];
    let lost: Vec<bool> = outcomes.iter().map(|answered| probe.probed(*answered)).collect();
    assert_eq!(lost, [false, false, false, false, false, true, true, false, false]);
}

#[test]
fn what_a_lost_leader_may_have_committed_is_kept() {
    let registry = led();
    let asked = |broker, statuses: &Vec<ReplicaStatus>| {
        promote(&registry, "orders", 1, broker, statuses, 0, 3, 2).map(|led| led.high_watermark)
    };
    let behind = |broker_id, next_offset, high_watermark| {
        Err(PromotionError::BehindHighWatermark {
            broker_id,
            next_offset,
            high_watermark,
        })
    };
    let without_leader = vec![told(1, 11), told(3, 12)];
    assert_eq!(asked(1, &without_leader), behind(1, 11, 12));
    assert_eq!(asked(3, &without_leader), Ok(10));
    let with_leader = vec![told(1, 11), told(2, 12), told(3, 10)];
    assert_eq!(asked(1, &with_leader), Ok(10));
    assert_eq!(asked(3, &with_leader), behind(3, 10, 11));
    let replaced = replace_leader(&registry, "orders", 1, &without_leader, 0, 3, 2)
        .expect("a replica should take over");
    assert_eq!(replaced.leader_id, 3);
}

#[test]
fn only_replicas_lead() {
    let registry = led();
    let statuses = vec![told(1, 10), told(3, 10)];
    assert_eq!(
        promote(&registry, "orders", 1, 1, &statuses, 0, 2, 1),
        Err(PromotionError::NotReplica(1))
    );
    assert!(promote(&registry, "orders", 1, 3, &statuses, 0, 2, 1).is_ok());
    assert!(promote(&registry, "orders", 2, 1, &statuses, 0, 2, 1).is_ok());
}
