use bytes::Bytes;
use sevlamq::cli::{CliError, Command, DeliveryMode};
use sevlamq::client::ClientError;
use sevlamq::consumer::{
    commit_requires_rejoin, failed_line, failure_request, handler_failure, handler_result,
    processed_line, render_processed, timeout_failure, Consumer, Options, Step,
};
use sevlamq::messages::{AckMode, BrokerRequest};
use sevlamq::record::FetchedRecord;
use sevlamq::retry::{route_failure, MessageContext};

fn record(offset: u64) -> FetchedRecord {
    FetchedRecord {
        offset,
        timestamp_ms: 1,
        key: None,
        value: Bytes::from_static(b"x"),
    }
}

/// Runs a consumer until it has asked for records a given number of times, and lists its steps.
fn steps(mut consumer: Consumer, fetches: &mut Vec<Vec<FetchedRecord>>) -> Vec<String> {
    let mut seen = Vec::new();
    loop {
        let step = match consumer.next() {
            Step::CheckHeartbeat => "heartbeat".to_owned(),
            Step::Wait { millis } => format!("wait {millis}"),
            Step::Fetch { partition, offset } => format!("fetch {partition} {offset}"),
            Step::Commit { partition, offset } => format!("commit {partition} {offset}"),
            Step::Handle { partition, record } => format!("handle {partition} {}", record.offset),
            Step::Rejoin => "rejoin".to_owned(),
        };
        seen.push(step.clone());
        consumer = if step == "heartbeat" {
            consumer.heartbeat_checked(fetches.is_empty())
        } else if step.starts_with("wait") {
            consumer.waited()
        } else if step.starts_with("fetch") {
            let records = if fetches.is_empty() {
                Vec::new()
            } else {
                fetches.remove(0)
            };
            consumer.fetched(Ok(records)).expect("fetch should work")
        } else if step.starts_with("commit") {
            consumer.committed(Ok(())).expect("commit should work")
        } else if step.starts_with("handle") {
            consumer.handled().expect("handling should work")
        } else {
            return seen;
        };
    }
}

#[test]
fn at_least_once_handles_before_it_commits() {
    let consumer = Consumer::new(
        DeliveryMode::AtLeastOnce,
        vec![0, 2],
        &vec![None, Some(7)],
    );
    let seen = steps(
        consumer,
        &mut vec![vec![record(0), record(1)], vec![record(7)]],
    );
    assert_eq!(
        seen,
        [
            "heartbeat",
            "fetch 0 0",
            "handle 0 0",
            "commit 0 1",
            "handle 0 1",
            "commit 0 2",
            "fetch 2 7",
            "handle 2 7",
            "commit 2 8",
            "heartbeat",
            "rejoin",
        ]
    );
}

#[test]
fn at_most_once_commits_before_it_handles() {
    let consumer = Consumer::new(DeliveryMode::AtMostOnce, vec![1], &vec![Some(3)]);
    let seen = steps(consumer, &mut vec![vec![record(3)], Vec::new()]);
    assert_eq!(
        seen,
        [
            "heartbeat",
            "fetch 1 3",
            "commit 1 4",
            "handle 1 3",
            "heartbeat",
            "fetch 1 4",
            "heartbeat",
            "rejoin",
        ]
    );
}

#[test]
fn consumers_without_partitions_wait() {
    let consumer = Consumer::new(DeliveryMode::AtLeastOnce, Vec::new(), &Vec::new());
    let consumer = consumer.heartbeat_checked(false);
    assert!(matches!(consumer.next(), Step::Wait { millis: 250 }));
    let consumer = consumer.waited();
    assert!(matches!(consumer.next(), Step::CheckHeartbeat));
}

#[test]
fn refusals_of_the_broker_make_a_consumer_join_again() {
    let start = || {
        Consumer::new(DeliveryMode::AtMostOnce, vec![0], &vec![None]).heartbeat_checked(false)
    };
    let refused = start()
        .fetched(Err(ClientError::Server("stale generation".to_owned())))
        .expect("consumer should go on");
    assert!(matches!(refused.next(), Step::Rejoin));
    assert!(matches!(
        start().fetched(Err(ClientError::ConnectionClosed)),
        Err(CliError::Client(ClientError::ConnectionClosed))
    ));
    let committing = start()
        .fetched(Ok(vec![record(0)]))
        .expect("fetch should work");
    let refused = committing
        .committed(Err(ClientError::Server("stale generation".to_owned())))
        .expect("consumer should go on");
    assert!(matches!(refused.next(), Step::Rejoin));
    assert!(matches!(
        start().fetched(Ok(vec![record(u64::MAX)])),
        Err(CliError::OffsetOverflow)
    ));
}

#[test]
fn only_refused_commits_require_a_rejoin() {
    assert!(matches!(commit_requires_rejoin(Ok(())), Ok(false)));
    assert!(matches!(
        commit_requires_rejoin(Err(ClientError::Server("no".to_owned()))),
        Ok(true)
    ));
    assert!(matches!(
        commit_requires_rejoin(Err(ClientError::UnexpectedResponse)),
        Err(CliError::Client(ClientError::UnexpectedResponse))
    ));
}

fn options() -> Options {
    Options::from_command(Command::Consume {
        topic: "payments".to_owned(),
        group: "workers".to_owned(),
        member: "worker-a".to_owned(),
        delivery: DeliveryMode::AtLeastOnce,
        wait_ms: 1_000,
        heartbeat_ms: 3_000,
        max_bytes: 4_096,
        handler: None,
        handler_timeout_ms: 30_000,
        retry_delays_ms: vec![1_000],
    })
    .expect("options should be those of a consumer")
}

#[test]
fn asks_the_broker_as_its_member() {
    let options = options();
    assert!(matches!(
        options.join_request(),
        BrokerRequest::JoinGroup { group, topic, member }
            if group == "workers" && topic == "payments" && member == "worker-a"
    ));
    assert!(matches!(
        options.heartbeat_request(4),
        BrokerRequest::Heartbeat { generation: 4, .. }
    ));
    assert!(matches!(
        options.leave_request(4),
        BrokerRequest::LeaveGroup { generation: 4, .. }
    ));
    assert!(matches!(
        options.offset_request(2),
        BrokerRequest::FetchCommittedOffset { partition: 2, .. }
    ));
    assert!(matches!(
        options.fetch_request(4, 2, 9),
        BrokerRequest::GroupFetch {
            generation: 4,
            partition: 2,
            offset: 9,
            max_bytes: 4_096,
            max_wait_ms: 1_000,
            ..
        }
    ));
    assert!(matches!(
        options.commit_request(4, 2, 10),
        BrokerRequest::CommitOffset {
            generation: 4,
            partition: 2,
            offset: 10,
            ..
        }
    ));
}

#[test]
fn tells_why_a_handler_failed() {
    assert!(handler_result(true, b"ignored", "exit status: 0").is_ok());
    assert_eq!(
        handler_result(false, b"  no funds\n", "exit status: 1"),
        Err("no funds".to_owned())
    );
    assert_eq!(
        handler_result(false, b" \n", "exit status: 1"),
        Err("handler exited with status exit status: 1".to_owned())
    );
    assert_eq!(
        handler_result(false, &[b'a', 0xff, b'b'], "exit status: 1"),
        Err("a\u{fffd}b".to_owned())
    );
    let long = vec![b'e'; 5_000];
    assert_eq!(
        handler_result(false, &long, "exit status: 1"),
        Err("e".repeat(4_096))
    );
    assert_eq!(handler_failure(" x ", "s"), "x");
    assert_eq!(timeout_failure(30_000), "handler timed out after 30000ms");
}

fn message() -> MessageContext {
    MessageContext {
        original_topic: "payments".to_owned(),
        original_partition: 2,
        original_offset: 41,
        original_timestamp_ms: 1_234,
        attempt: 1,
        available_at_ms: 0,
        key: Bytes::new(),
        payload: Bytes::from_static(b"h\xffi"),
    }
}

#[test]
fn prints_handled_and_failed_messages() {
    assert_eq!(
        processed_line(0, 5, &message()),
        "partition=0 offset=5 original_topic=payments original_partition=2 original_offset=41 \
         attempt=1 key=- value=h\u{fffd}i"
    );
    assert_eq!(
        render_processed(0, 5, &message(), "k", "v"),
        "partition=0 offset=5 original_topic=payments original_partition=2 original_offset=41 \
         attempt=1 key=k value=v"
    );
    assert_eq!(
        failed_line(0, 5, 1, "boom", "payments.DLQ"),
        "partition=0 offset=5 attempt=1 failed=boom routed_to=payments.DLQ"
    );
}

#[test]
fn publishes_failures_durably_under_their_own_producer() {
    let route = route_failure("workers", &message(), "boom", &vec![], 100)
        .expect("failure should be routed");
    match failure_request(&route) {
        BrokerRequest::Produce {
            topic,
            partition: None,
            key,
            payload,
            ack_mode: AckMode::Durable,
            producer: Some(producer),
        } => {
            assert_eq!(topic, "payments.DLQ");
            assert_eq!(key, producer.id.as_bytes());
            assert_eq!(payload, route.envelope);
            assert_eq!(producer.id, route.producer_id);
            assert_eq!(producer.sequence, 0);
        }
        _ => panic!("failure should be published"),
    }
}
