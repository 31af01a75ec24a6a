use bytes::Bytes;
use sevlamq::record::FetchedRecord;
use sevlamq::retry::{
    context, encode_envelope, format_delay, retry_producer_id, route_failure, route_with_checksum,
    MessageContext, RetryError, MAX_ERROR_BYTES,
};

fn original_message() -> MessageContext {
    MessageContext {
        original_topic: "payments".to_owned(),
        original_partition: 2,
        original_offset: 41,
        original_timestamp_ms: 1_234,
        attempt: 0,
        available_at_ms: 0,
        key: Bytes::from_static(b"customer-123"),
        payload: Bytes::from_static(b"hello"),
    }
}

fn carried(value: Bytes) -> FetchedRecord {
    FetchedRecord {
        offset: 7,
        timestamp_ms: 5_678,
        key: None,
        value,
    }
}

#[test]
fn preserves_original_message_through_retry_envelope() {
    let original = original_message();
    let encoded = encode_envelope(&original, 1, 9_999, "temporary failure")
        .expect("retry envelope should encode");
    let retry_record = carried(encoded);

    let decoded =
        context("payments.retry.1s", 0, &retry_record).expect("retry envelope should decode");

    assert_eq!(decoded.original_topic, "payments");
    assert_eq!(decoded.original_partition, 2);
    assert_eq!(decoded.original_offset, 41);
    assert_eq!(decoded.original_timestamp_ms, 1_234);
    assert_eq!(decoded.attempt, 1);
    assert_eq!(decoded.available_at_ms, 9_999);
    assert_eq!(decoded.key, Bytes::from_static(b"customer-123"));
    assert_eq!(decoded.payload, Bytes::from_static(b"hello"));
}

#[test]
fn plain_messages_are_their_own_origin() {
    let mut record = carried(Bytes::from_static(b"hello"));
    record.key = Some(Bytes::from_static(b"k"));
    let found = context("payments", 3, &record).expect("message should be plain");
    assert_eq!(found.original_topic, "payments");
    assert_eq!(found.original_partition, 3);
    assert_eq!(found.original_offset, 7);
    assert_eq!(found.original_timestamp_ms, 5_678);
    assert_eq!(found.attempt, 0);
    assert_eq!(found.key, Bytes::from_static(b"k"));
    assert_eq!(found.remaining_delay(1), 0);
}

#[test]
fn refuses_malformed_envelopes() {
    let short = carried(Bytes::from_static(b"SVR1"));
    assert_eq!(
        context("payments", 0, &short).expect_err("envelope should be refused"),
        RetryError::InvalidRetryEnvelope
    );
    let encoded = encode_envelope(&original_message(), 1, 9_999, "failure")
        .expect("retry envelope should encode");
    let cut = carried(encoded.slice(..encoded.len() - 1));
    assert_eq!(
        context("payments", 0, &cut).expect_err("envelope should be refused"),
        RetryError::InvalidRetryEnvelope
    );
    let mut bytes = encoded.to_vec();
    bytes[48] = 0xff;
    assert_eq!(
        context("payments", 0, &carried(Bytes::from(bytes)))
            .expect_err("envelope should be refused"),
        RetryError::InvalidRetryEnvelope
    );
}

#[test]
fn keeps_only_the_front_of_long_errors() {
    let original = original_message();
    let long = "e".repeat(MAX_ERROR_BYTES + 10);
    let encoded = encode_envelope(&original, 1, 0, &long).expect("retry envelope should encode");
    assert_eq!(encoded.len(), 48 + 8 + MAX_ERROR_BYTES + 12 + 5);
    let mut huge = original_message();
    huge.payload = Bytes::from(vec![0; 64 * 1024 * 1024]);
    assert_eq!(
        encode_envelope(&huge, 1, 0, "e").expect_err("envelope should be too large"),
        RetryError::RetryEnvelopeTooLarge
    );
    huge.payload = Bytes::new();
    huge.original_topic = "t".repeat(70_000);
    assert_eq!(
        encode_envelope(&huge, 1, 0, "e").expect_err("topic should be too long"),
        RetryError::RetryEnvelopeTooLarge
    );
}

#[test]
fn formats_delays() {
    assert_eq!(format_delay(1_000), "1s");
    assert_eq!(format_delay(30_000), "30s");
    assert_eq!(format_delay(1_500), "1500ms");
    assert_eq!(format_delay(0), "0s");
}

#[test]
fn retries_once_for_each_delay_and_then_gives_up() {
    let delays = vec![1_000, 2_500];
    let mut message = original_message();
    let mut topics = Vec::new();
    for _ in 0..3 {
        let route = route_failure("workers", &message, "boom", &delays, 100)
            .expect("failure should be routed");
        topics.push((route.topic.clone(), route.attempt, route.available_at_ms));
        let record = carried(route.envelope.clone());
        message = context(&route.topic, 0, &record).expect("retry envelope should decode");
        assert_eq!(message.original_topic, "payments");
        assert_eq!(message.payload, Bytes::from_static(b"hello"));
    }
    assert_eq!(
        topics,
        [
            ("payments.retry.1s".to_owned(), 1, 1_100),
            ("payments.retry.2500ms".to_owned(), 2, 2_600),
            ("payments.DLQ".to_owned(), 2, 100),
        ]
    );
}

#[test]
fn names_the_producer_of_a_retry_by_its_origin() {
    let message = original_message();
    let mut seed = b"workerspayments".to_vec();
    seed.extend_from_slice(&2_u32.to_be_bytes());
    seed.extend_from_slice(&41_u64.to_be_bytes());
    seed.extend_from_slice(&1_u32.to_be_bytes());
    seed.extend_from_slice(b"payments.retry.1s");
    let id = retry_producer_id("workers", &message, 1, "payments.retry.1s");
    assert_eq!(id, format!("retry-{:08x}-1", crc32fast::hash(&seed)));

    let route = route_with_checksum(&message, "boom", &vec![1_000], 0, 0xab)
        .expect("failure should be routed");
    assert_eq!(route.producer_id, "retry-000000ab-1");
    assert_eq!(route.routing_key, Bytes::from_static(b"customer-123"));
    let mut unkeyed = original_message();
    unkeyed.key = Bytes::new();
    let route = route_with_checksum(&unkeyed, "boom", &vec![1_000], 0, 0xab)
        .expect("failure should be routed");
    assert_eq!(route.routing_key, Bytes::from_static(b"retry-000000ab-1"));
}

#[test]
fn waits_until_a_message_is_available() {
    let mut message = original_message();
    message.available_at_ms = 500;
    assert_eq!(message.remaining_delay(200), 300);
    assert_eq!(message.remaining_delay(500), 0);
    assert_eq!(message.remaining_delay(900), 0);
}

#[test]
fn describes_retry_errors() {
    assert_eq!(
        RetryError::AttemptOverflow.message(),
        "retry attempt space is exhausted"
    );
}

#[test]
fn refuses_envelopes_of_any_other_length() {
    let encoded = encode_envelope(&original_message(), 1, 9_999, "failure")
        .expect("retry envelope should encode");
    for len in 4..encoded.len() {
        assert_eq!(
            context("payments", 0, &carried(encoded.slice(..len)))
                .expect_err("envelope should be refused"),
            RetryError::InvalidRetryEnvelope
        );
    }
    let mut longer = encoded.to_vec();
    longer.push(0);
    assert_eq!(
        context("payments", 0, &carried(Bytes::from(longer)))
            .expect_err("envelope should be refused"),
        RetryError::InvalidRetryEnvelope
    );
}
