use sevlamq::admin::{
    http_response, live_response, metrics_response, next_step, not_found_response, ready_response,
    request_path, route, too_large_response, AdminRoute, AdminStep, MAX_REQUEST_BYTES,
};
use sevlamq::cluster::{ClusterMetadata, ClusterNode, TopicMetadata};
use sevlamq::leadership::LeadershipRegistry;
use sevlamq::messages::{
    after_authorization, describe_topic, end_of_stream, fetched_bytes, plan_request,
    produced_bytes, record_at, topics_response, waits_for_records, AckMode, BatchRecord,
    BrokerRequest, BrokerResponse, ConnectionError, Operation, RequestPlan,
};
use sevlamq::record::{FetchedRecord, StorageError};

#[test]
fn reads_requests_up_to_an_empty_line() {
    assert_eq!(next_step(b"GET / HTTP/1.1\r\n"), AdminStep::ReadMore);
    assert_eq!(
        next_step(b"GET / HTTP/1.1\r\nHost: x\r\n\r\n"),
        AdminStep::Answer
    );
    assert_eq!(next_step(b""), AdminStep::ReadMore);
    assert_eq!(
        next_step(&vec![b'a'; MAX_REQUEST_BYTES - 1]),
        AdminStep::ReadMore
    );
    assert_eq!(
        next_step(&vec![b'a'; MAX_REQUEST_BYTES]),
        AdminStep::TooLarge
    );
}

#[test]
fn routes_requests_by_their_path() {
    assert_eq!(
        route(b"GET /health/live HTTP/1.1\r\n\r\n"),
        AdminRoute::Live
    );
    assert_eq!(
        route(b"GET   /health/ready\tHTTP/1.1\r\n\r\n"),
        AdminRoute::Ready
    );
    assert_eq!(route(b"GET /metrics\r\n\r\n"), AdminRoute::Metrics);
    assert_eq!(route(b"GET /metrics/ x\r\n\r\n"), AdminRoute::NotFound);
    assert_eq!(route(b"GET\r\n\r\n"), AdminRoute::NotFound);
    assert_eq!(route(b"G\xff /metrics\r\n\r\n"), AdminRoute::NotFound);
    assert_eq!(
        request_path(b"GET /a b\nGET /c\r\n\r\n"),
        Some("/a".to_owned())
    );
}

#[test]
fn answers_with_the_length_of_the_body() {
    assert_eq!(
        live_response(),
        "HTTP/1.1 200 OK\r\nContent-Type: text/plain\r\nContent-Length: 3\r\nConnection: \
         close\r\n\r\nok\n"
    );
    assert!(ready_response(true, true).ends_with("\r\n\r\nready\n"));
    assert!(ready_response(true, false).starts_with("HTTP/1.1 503 Service Unavailable\r\n"));
    assert!(too_large_response().starts_with("HTTP/1.1 413 Payload Too Large\r\n"));
    assert!(not_found_response().ends_with("Content-Length: 10\r\nConnection: close\r\n\r\nnot found\n"));
    assert!(metrics_response("x 1\n")
        .contains("Content-Type: text/plain; version=0.0.4; charset=utf-8\r\n"));
    assert!(http_response("200 OK", "text/plain", "\u{e9}").contains("Content-Length: 2\r\n"));
}

fn cluster(ids: &[u32]) -> ClusterMetadata {
    ClusterMetadata {
        responding_broker_id: 1,
        nodes: ids
            .iter()
            .map(|id| ClusterNode {
                id: *id,
                host: "127.0.0.1".to_owned(),
                port: 7400,
                admin_port: 7401,
                replication_port: 7402,
            })
            .collect(),
    }
}

fn registry(brokers: &ClusterMetadata) -> LeadershipRegistry {
    LeadershipRegistry::open("data", brokers.clone(), None).expect("registry should open")
}

fn fetch(partition: u32) -> BrokerRequest {
    BrokerRequest::Fetch {
        topic: "payments".to_owned(),
        partition,
        offset: 0,
        max_bytes: 1,
        max_wait_ms: 0,
    }
}

#[test]
fn serves_only_the_partitions_that_it_leads() {
    let brokers = cluster(&[1, 2]);
    assert!(matches!(
        plan_request(&fetch(0), &brokers, &registry(&brokers)),
        RequestPlan::Read
    ));
    assert!(matches!(
        plan_request(&fetch(1), &brokers, &registry(&brokers)),
        RequestPlan::Refuse(message)
            if message == "not partition leader: partition=1 leader_id=2 leader=127.0.0.1:7400"
    ));
    let produce = BrokerRequest::Produce {
        topic: "payments".to_owned(),
        partition: None,
        key: bytes::Bytes::new(),
        payload: bytes::Bytes::new(),
        ack_mode: AckMode::Leader,
        producer: None,
    };
    assert!(matches!(
        plan_request(&produce, &brokers, &registry(&brokers)),
        RequestPlan::Refuse(message) if message == "partition is required for clustered produce"
    ));
    assert!(matches!(
        plan_request(&produce, &cluster(&[1]), &registry(&cluster(&[1]))),
        RequestPlan::Append
    ));
    assert!(matches!(
        plan_request(&BrokerRequest::ListTopics, &brokers, &registry(&brokers)),
        RequestPlan::ListTopics
    ));
    assert!(matches!(produce.operation(), Some(Operation::Produce)));
    assert!(matches!(fetch(0).operation(), Some(Operation::Fetch)));
    assert!(BrokerRequest::ListTopics.operation().is_none());
}

#[test]
fn goes_on_after_errors_that_a_client_can_be_told() {
    assert!(matches!(
        ConnectionError::BrokerBusy.into_response(),
        Ok(BrokerResponse::Error(message)) if message == "broker busy: storage queue timeout"
    ));
    assert!(matches!(
        ConnectionError::Storage(StorageError::UnknownTopic).into_response(),
        Ok(BrokerResponse::Error(message)) if message == "topic does not exist"
    ));
    assert!(matches!(
        ConnectionError::TruncatedFrame.into_response(),
        Err(ConnectionError::TruncatedFrame)
    ));
    assert!(end_of_stream(0).is_ok());
    assert!(matches!(
        end_of_stream(3),
        Err(ConnectionError::TruncatedFrame)
    ));
}

#[test]
fn reads_only_what_the_coordinator_allows() {
    assert!(after_authorization(BrokerResponse::GroupAck).is_none());
    assert!(matches!(
        after_authorization(BrokerResponse::Error("no".to_owned())),
        Some(BrokerResponse::Error(message)) if message == "no"
    ));
    assert!(matches!(
        after_authorization(BrokerResponse::CommittedOffset(None)),
        Some(BrokerResponse::Error(message)) if message == "invalid group authorization response"
    ));
    assert!(waits_for_records(0, 5));
    assert!(!waits_for_records(0, 0));
    assert!(!waits_for_records(1, 5));
}

#[test]
fn finds_records_and_counts_bytes() {
    let record = |offset: u64, value: &'static [u8]| FetchedRecord {
        offset,
        timestamp_ms: 0,
        key: None,
        value: bytes::Bytes::from_static(value),
    };
    let records = vec![record(4, b"ab"), record(5, b"cde")];
    assert!(matches!(record_at(&records, 5), Ok(found) if found == records[1]));
    assert!(matches!(
        record_at(&records, 6),
        Err(ConnectionError::MissingAppendedRecord)
    ));
    assert_eq!(fetched_bytes(&records), 5);
    let batch = vec![BatchRecord {
        key: bytes::Bytes::from_static(b"k"),
        payload: bytes::Bytes::from_static(b"abcd"),
    }];
    assert_eq!(produced_bytes(&batch), 4);
}

#[test]
fn describes_topics_with_their_leaders() {
    let topics = || {
        vec![TopicMetadata {
            topic: "payments".to_owned(),
            partitions: 3,
            leaders: Vec::new(),
        }]
    };
    match topics_response(topics(), &registry(&cluster(&[1, 2]))) {
        BrokerResponse::Topics(found) => {
            let ids: Vec<u32> = found[0].leaders.iter().map(|leader| leader.leader_id).collect();
            assert_eq!(ids, [1, 2, 1]);
        },
        other => panic!("unexpected answer {other:?}"),
    }
    assert!(describe_topic(topics(), "payments").is_ok());
    assert!(describe_topic(topics(), "orders").is_err());
}
