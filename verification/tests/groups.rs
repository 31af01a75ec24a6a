use sevlamq::group_requests::{
    commit_written, execute_group_request, group_response, needed_files, GroupFiles, GroupOutcome,
    NeededFiles,
};
use sevlamq::groups::{validate_id, GroupCoordinator, GroupError, GroupIdentity};
use sevlamq::messages::{BrokerRequest, BrokerResponse};

const SECOND: u128 = 1_000_000_000;

fn no_files() -> Vec<Option<String>> {
    vec![None, None, None]
}

fn nothing_read() -> GroupFiles {
    GroupFiles {
        offsets: Vec::new(),
        committed: None,
    }
}

#[test]
fn rebalances_members_rejects_stale_generations_and_recovers_offsets() {
    let mut coordinator = GroupCoordinator::open("data", 3, 10 * SECOND);

    let worker_a = coordinator
        .join("workers", "payments", "worker-a", &no_files(), 0)
        .expect("first member should join");
    assert_eq!(worker_a.generation(), 1);
    assert_eq!(worker_a.partitions(), [0, 1, 2]);

    let worker_b = coordinator
        .join("workers", "payments", "worker-b", &no_files(), 0)
        .expect("second member should join");
    assert_eq!(worker_b.generation(), 2);
    assert_eq!(worker_b.partitions(), [1]);
    assert!(matches!(
        coordinator.heartbeat("workers", "payments", "worker-a", 1, 0),
        Err(GroupError::StaleGeneration { .. })
    ));

    let worker_a = coordinator
        .join("workers", "payments", "worker-a", &no_files(), 0)
        .expect("first member should rejoin after rebalance");
    assert_eq!(worker_a.generation(), 2);
    assert_eq!(worker_a.partitions(), [0, 2]);
    let write = match coordinator.commit(
        &GroupIdentity {
            group: "workers",
            topic: "payments",
            member: "worker-a",
            generation: 2,
        },
        0,
        42,
        0,
    ) {
        Ok(write) => write,
        Err(error) => panic!("assigned offset should commit: {error:?}"),
    };
    assert_eq!(write.directory, "data/__consumer_offsets/workers/payments");
    assert_eq!(write.contents, "42\n");
    coordinator
        .committed("workers", "payments", 0, 42)
        .expect("commit should be noted");
    drop(coordinator);

    let mut recovered = GroupCoordinator::open("data", 3, 10 * SECOND);
    recovered
        .recover_group(
            "workers",
            "payments",
            &vec![Some(write.contents.clone()), None, None],
        )
        .expect("coordinator should reopen");
    assert_eq!(
        recovered
            .committed_offset("workers", "payments", Some(&write.contents))
            .expect("offset should load"),
        Some(42)
    );
    let snapshots = recovered.snapshot();
    assert_eq!(snapshots.len(), 1);
    assert_eq!(snapshots[0].members, 0);
    assert_eq!(snapshots[0].committed_offsets, [(0, 42)]);
}

#[test]
fn drops_members_that_stay_silent_past_the_timeout() {
    let mut coordinator = GroupCoordinator::open("data", 2, 10 * SECOND);
    for member in ["a", "b"] {
        coordinator
            .join("workers", "payments", member, &no_files(), 0)
            .expect("member should join");
    }
    coordinator
        .heartbeat("workers", "payments", "a", 2, 10 * SECOND)
        .expect("member should live through its timeout");
    coordinator
        .expire_sessions(10 * SECOND + 1)
        .expect("sessions should expire");
    let snapshot = coordinator.snapshot().remove(0);
    assert_eq!(snapshot.members, 1);
    assert_eq!(snapshot.generation, 3);
    assert_eq!(snapshot.assigned_partitions, 2);
    assert_eq!(
        coordinator.heartbeat("workers", "payments", "b", 3, 10 * SECOND + 1),
        Err(GroupError::UnknownMember)
    );
}

#[test]
fn members_that_leave_give_up_their_partitions() {
    let mut coordinator = GroupCoordinator::open("data", 3, 10 * SECOND);
    for member in ["a", "b"] {
        coordinator
            .join("workers", "payments", member, &no_files(), 0)
            .expect("member should join");
    }
    coordinator
        .leave("workers", "payments", "a", 2, 0)
        .expect("member should leave");
    let identity = GroupIdentity {
        group: "workers",
        topic: "payments",
        member: "b",
        generation: 3,
    };
    for partition in 0..3 {
        assert_eq!(
            coordinator.authorize_fetch(&identity, partition, 0),
            Ok(())
        );
    }
    assert_eq!(
        coordinator.authorize_fetch(&identity, 3, 0),
        Err(GroupError::PartitionNotAssigned(3))
    );
}

#[test]
fn refuses_requests_of_strangers() {
    let mut coordinator = GroupCoordinator::open("data", 3, 10 * SECOND);
    assert_eq!(
        coordinator.heartbeat("workers", "payments", "a", 1, 0),
        Err(GroupError::UnknownGroup)
    );
    assert_eq!(validate_id("../a"), Err(GroupError::InvalidId));
    assert_eq!(validate_id("worker-a.1_x"), Ok(()));
    assert_eq!(
        coordinator
            .join("workers", "payments", "", &no_files(), 0)
            .expect_err("empty id should be refused"),
        GroupError::InvalidId
    );
    assert_eq!(
        coordinator
            .join(
                "workers",
                "payments",
                "a",
                &vec![Some("many".to_owned())],
                0
            )
            .expect_err("broken file should be refused"),
        GroupError::InvalidOffsetFile
    );
}

#[test]
fn keeps_the_partition_count_of_each_topic() {
    let mut coordinator = GroupCoordinator::open("data", 3, 10 * SECOND);
    coordinator
        .join("workers", "payments", "a", &no_files(), 0)
        .expect("member should join");
    let groups = coordinator.set_topic_partitions("payments", 5);
    assert_eq!(groups, ["workers"]);
    assert_eq!(coordinator.partition_count("payments"), 5);
    assert_eq!(coordinator.partition_count("orders"), 3);
    coordinator
        .restore_offsets(
            "workers",
            "payments",
            &vec![None, None, None, None, Some("9\n".to_owned())],
        )
        .expect("offsets should load");
    assert_eq!(coordinator.snapshot()[0].committed_offsets, [(4, 9)]);
}

#[test]
fn executes_group_requests_with_the_files_they_need() {
    let mut coordinator = GroupCoordinator::open("data", 2, 10 * SECOND);
    let join = BrokerRequest::JoinGroup {
        group: "workers".to_owned(),
        topic: "payments".to_owned(),
        member: "a".to_owned(),
    };
    assert!(matches!(
        needed_files(&coordinator, &join),
        Ok(NeededFiles::GroupOffsets { partitions: 2 })
    ));
    let read = GroupFiles {
        offsets: vec![Some("7\n".to_owned()), None],
        committed: None,
    };
    match execute_group_request(&mut coordinator, &join, &read, 0) {
        Ok(GroupOutcome::Respond(BrokerResponse::JoinGroup(joined))) => {
            assert_eq!(joined.generation(), 1);
            assert_eq!(joined.partitions(), [0, 1]);
        }
        _ => panic!("member should join"),
    }
    assert!(matches!(
        needed_files(&coordinator, &join),
        Ok(NeededFiles::Nothing)
    ));

    let commit = BrokerRequest::CommitOffset {
        group: "workers".to_owned(),
        topic: "payments".to_owned(),
        member: "a".to_owned(),
        generation: 1,
        partition: 1,
        offset: 12,
    };
    match execute_group_request(&mut coordinator, &commit, &nothing_read(), 0) {
        Ok(GroupOutcome::Persist(write)) => assert_eq!(write.contents, "12\n"),
        _ => panic!("commit should be allowed"),
    }
    assert!(matches!(
        commit_written(&mut coordinator, "workers", "payments", 1, 12),
        Ok(BrokerResponse::GroupAck)
    ));
    assert_eq!(
        coordinator.snapshot()[0].committed_offsets,
        [(0, 7), (1, 12)]
    );

    let offset = BrokerRequest::FetchCommittedOffset {
        group: "workers".to_owned(),
        topic: "payments".to_owned(),
        partition: 1,
    };
    match needed_files(&coordinator, &offset) {
        Ok(NeededFiles::CommittedOffset { path }) => {
            assert!(path.starts_with("data/__consumer_offsets/workers/payments/1"));
        }
        _ => panic!("one file should be needed"),
    }
    let read = GroupFiles {
        offsets: Vec::new(),
        committed: Some("12\n".to_owned()),
    };
    assert!(matches!(
        execute_group_request(&mut coordinator, &offset, &read, 0),
        Ok(GroupOutcome::Respond(BrokerResponse::CommittedOffset(
            Some(12)
        )))
    ));

    let fetch = BrokerRequest::GroupFetch {
        group: "workers".to_owned(),
        topic: "payments".to_owned(),
        member: "a".to_owned(),
        generation: 9,
        partition: 0,
        offset: 0,
        max_bytes: 1024,
        max_wait_ms: 0,
    };
    assert!(matches!(
        execute_group_request(&mut coordinator, &fetch, &nothing_read(), 0),
        Err(GroupError::StaleGeneration {
            expected: 1,
            actual: 9
        })
    ));
    for request in [
        BrokerRequest::Heartbeat {
            group: "workers".to_owned(),
            topic: "payments".to_owned(),
            member: "a".to_owned(),
            generation: 1,
        },
        BrokerRequest::LeaveGroup {
            group: "workers".to_owned(),
            topic: "payments".to_owned(),
            member: "a".to_owned(),
            generation: 1,
        },
    ] {
        assert!(matches!(
            execute_group_request(&mut coordinator, &request, &nothing_read(), 0),
            Ok(GroupOutcome::Respond(BrokerResponse::GroupAck))
        ));
    }
    assert_eq!(coordinator.snapshot()[0].members, 0);
}

#[test]
fn answers_group_errors_by_their_text() {
    let response = group_response(Err(GroupError::StaleGeneration {
        expected: 2,
        actual: 1,
    }));
    assert!(matches!(
        response,
        BrokerResponse::Error(message) if message == "stale generation: expected 2, received 1"
    ));
    assert!(matches!(
        group_response(Ok(BrokerResponse::GroupAck)),
        BrokerResponse::GroupAck
    ));
    assert_eq!(
        GroupError::PartitionNotAssigned(3).message(),
        "partition 3 is not assigned to this member"
    );
    assert_eq!(
        GroupError::GenerationOverflow.message(),
        "consumer group generation space is exhausted"
    );
}

#[test]
fn generations_before_a_leave_stay_stale() {
    let mut coordinator = GroupCoordinator::open("data", 3, 10 * SECOND);
    for member in ["a", "b"] {
        coordinator
            .join("workers", "payments", member, &no_files(), 0)
            .expect("member should join");
    }
    coordinator
        .leave("workers", "payments", "b", 2, 0)
        .expect("member should leave");
    let stale = |expected| {
        Err(GroupError::StaleGeneration {
            expected,
            actual: 2,
        })
    };
    assert_eq!(
        coordinator.heartbeat("workers", "payments", "a", 2, 0),
        stale(3)
    );
    coordinator
        .join("workers", "payments", "b", &no_files(), 0)
        .expect("member should join again");
    coordinator.set_topic_partitions("payments", 6);
    coordinator
        .committed("workers", "payments", 0, 1)
        .expect("offset should be noted");
    assert_eq!(
        coordinator.heartbeat("workers", "payments", "a", 2, SECOND),
        stale(4)
    );
    coordinator
        .expire_sessions(30 * SECOND)
        .expect("sessions should expire");
    assert_eq!(
        coordinator.leave("workers", "payments", "a", 2, 30 * SECOND),
        stale(5)
    );
}
