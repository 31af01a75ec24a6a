use std::collections::BTreeMap;

use bytes::{Bytes, BytesMut};
use sevlamq::record::{decode_record, Record, StorageError, StoredRecord};
use sevlamq::storage::{
    create_segment, discover_partitions, discover_segments, index_path, join_path, validate_topic,
    ListedFile, LogReader, PartitionLog, TopicListing,
};

const INDEX_ENTRY_SIZE: usize = 16;

/// The files of a data directory, in memory.
struct Disk {
    files: BTreeMap<String, Vec<u8>>,
}

impl Disk {
    fn new() -> Self {
        Disk {
            files: BTreeMap::new(),
        }
    }

    fn open(
        &mut self,
        topic: &str,
        partition: u32,
        max_segment_bytes: u64,
        index_interval_bytes: u64,
    ) -> Result<PartitionLog, StorageError> {
        let mut recovery = PartitionLog::open(
            "data",
            topic,
            partition,
            max_segment_bytes,
            index_interval_bytes,
        )?;
        let directory = recovery.partition_dir().to_owned();
        let prefix = format!("{directory}/");
        let listed: Vec<ListedFile> = self
            .files
            .iter()
            .filter(|(path, _)| path.starts_with(&prefix))
            .map(|(path, contents)| ListedFile {
                name: path[prefix.len()..].to_owned(),
                len: contents.len() as u64,
            })
            .collect();
        let mut segments = discover_segments(&directory, &listed)?;
        if segments.is_empty() {
            let segment = create_segment(&directory, 0);
            self.files.insert(segment.path().to_owned(), Vec::new());
            segments.push(segment);
        }
        let last = segments.len() - 1;
        for (i, segment) in segments.into_iter().enumerate() {
            let path = segment.path().to_owned();
            let contents = self.files[&path].clone();
            let repair = recovery.recover_segment(segment, &contents, i == last)?;
            if let Some(len) = repair.truncate_to {
                self.files
                    .get_mut(&path)
                    .expect("segment should exist")
                    .truncate(len as usize);
            }
            self.files.insert(index_path(&path), repair.index);
        }
        Ok(recovery.finish())
    }

    fn append(&mut self, log: &mut PartitionLog, record: &Record) -> Result<u64, StorageError> {
        let plan = log.plan_append(record)?;
        if plan.rotate {
            self.files.insert(log.next_segment_path(), Vec::new());
            log.rotate();
        }
        let path = log.active_path().to_owned();
        let file = self.files.get_mut(&path).expect("segment should exist");
        assert_eq!(file.len() as u64, plan.position);
        file.extend_from_slice(&plan.encoded);
        if let Some(entry) = plan.index_entry() {
            self.files
                .entry(index_path(&path))
                .or_default()
                .extend_from_slice(&entry);
        }
        log.append(&plan)
    }

    fn read(
        &self,
        log: &PartitionLog,
        offset: u64,
        max_bytes: usize,
    ) -> Result<Vec<StoredRecord>, StorageError> {
        let mut reader = LogReader::new(offset, max_bytes, u64::MAX)?;
        while let Some(step) = log.next_read(&reader) {
            let contents = &self.files[&step.path][step.position as usize..];
            reader = reader.feed(&step, contents)?;
        }
        Ok(reader.finish())
    }
}

fn plain(value: &str) -> Record {
    Record::new(None, Bytes::copy_from_slice(value.as_bytes()), 1)
}

#[test]
fn appends_records_with_monotonic_offsets() {
    let mut disk = Disk::new();
    let mut log = disk
        .open("payments", 0, 1024, 64)
        .expect("partition log should be created");

    let first = Record::new(
        Some(Bytes::from_static(b"customer-123")),
        Bytes::from_static(br#"{"amount":150}"#),
        1_700_000_000_000,
    );
    let second = Record::new(None, Bytes::from_static(b"confirmed"), 1_700_000_000_001);

    assert_eq!(
        disk.append(&mut log, &first)
            .expect("first append should work"),
        0
    );
    assert_eq!(
        disk.append(&mut log, &second)
            .expect("second append should work"),
        1
    );

    let mut bytes = BytesMut::from(disk.files[log.active_path()].as_slice());
    let first = decode_record(&mut bytes)
        .expect("first record should decode")
        .expect("first record should be complete");
    let second = decode_record(&mut bytes)
        .expect("second record should decode")
        .expect("second record should be complete");

    assert_eq!(first.offset(), 0);
    assert_eq!(first.key(), Some(&Bytes::from_static(b"customer-123")));
    assert_eq!(second.offset(), 1);
    assert_eq!(second.key(), None);
    assert!(bytes.is_empty());
}

#[test]
fn detects_corrupted_record() {
    let mut disk = Disk::new();
    let mut log = disk
        .open("payments", 0, 1024, 64)
        .expect("partition log should be created");
    disk.append(&mut log, &plain("hello"))
        .expect("append should work");

    let mut bytes = disk.files[log.active_path()].clone();
    let last = bytes.last_mut().expect("record should not be empty");
    *last ^= 0xff;

    assert!(matches!(
        decode_record(&mut BytesMut::from(bytes.as_slice())),
        Err(StorageError::ChecksumMismatch)
    ));
}

#[test]
fn restores_next_offset_when_reopened() {
    let mut disk = Disk::new();
    let path = {
        let mut log = disk
            .open("payments", 0, 1024, 64)
            .expect("partition log should be created");
        disk.append(
            &mut log,
            &Record::new(None, Bytes::from_static(b"first"), 1),
        )
        .expect("first append should work");
        disk.append(
            &mut log,
            &Record::new(None, Bytes::from_static(b"second"), 2),
        )
        .expect("second append should work");
        log.active_path().to_owned()
    };

    let mut log = disk
        .open("payments", 0, 1024, 64)
        .expect("partition log should recover");
    assert_eq!(log.next_offset(), 2);
    assert_eq!(
        disk.append(
            &mut log,
            &Record::new(None, Bytes::from_static(b"third"), 3)
        )
        .expect("append after recovery should work"),
        2
    );

    let mut bytes = BytesMut::from(disk.files[&path].as_slice());
    let offsets: Vec<u64> = std::iter::from_fn(|| {
        decode_record(&mut bytes)
            .expect("record should decode")
            .map(|record| record.offset())
    })
    .collect();
    assert_eq!(offsets, [0, 1, 2]);
}

#[test]
fn truncates_an_incomplete_tail_when_reopened() {
    let mut disk = Disk::new();
    let path = {
        let mut log = disk
            .open("payments", 0, 1024, 64)
            .expect("partition log should be created");
        disk.append(&mut log, &plain("complete"))
            .expect("append should work");
        log.active_path().to_owned()
    };
    let valid_len = disk.files[&path].len();
    disk.files
        .get_mut(&path)
        .expect("segment should open")
        .extend_from_slice(&[0, 0, 0, 100, 1, 2, 3]);

    let log = disk
        .open("payments", 0, 1024, 64)
        .expect("partition log should recover");

    assert_eq!(log.next_offset(), 1);
    assert_eq!(disk.files[log.active_path()].len(), valid_len);
}

#[test]
fn reads_records_from_requested_offset() {
    let mut disk = Disk::new();
    let mut log = disk
        .open("payments", 0, 1024, 64)
        .expect("partition log should be created");
    for value in ["zero", "one", "two"] {
        disk.append(&mut log, &plain(value))
            .expect("append should work");
    }

    let records = disk.read(&log, 1, 1024).expect("read should work");

    assert_eq!(records.len(), 2);
    assert_eq!(records[0].offset(), 1);
    assert_eq!(records[0].value(), &Bytes::from_static(b"one"));
    assert_eq!(records[1].offset(), 2);
    assert_eq!(records[1].value(), &Bytes::from_static(b"two"));
}

#[test]
fn rebuilds_sparse_index_from_segment_log() {
    let mut disk = Disk::new();
    let index = {
        let mut log = disk
            .open("payments", 0, 1024, 1)
            .expect("partition log should be created");
        for value in ["zero", "one", "two"] {
            disk.append(&mut log, &plain(value))
                .expect("append should work");
        }
        index_path(log.active_path())
    };
    assert_eq!(disk.files[&index].len(), 3 * INDEX_ENTRY_SIZE);
    let written = disk.files[&index].clone();

    disk.files.insert(index.clone(), b"broken index".to_vec());
    let log = disk
        .open("payments", 0, 1024, 1)
        .expect("index should be rebuilt from the log");
    let records = disk.read(&log, 2, 1024).expect("indexed read should work");

    assert_eq!(records.len(), 1);
    assert_eq!(records[0].offset(), 2);
    assert_eq!(disk.files[&index].len(), 3 * INDEX_ENTRY_SIZE);
    assert_eq!(disk.files[&index], written);
}

#[test]
fn rotates_recovers_and_reads_across_segments() {
    let mut disk = Disk::new();
    {
        let mut log = disk
            .open("payments", 0, 75, 64)
            .expect("partition log should be created");
        for value in ["zero", "one", "two"] {
            disk.append(&mut log, &plain(value))
                .expect("append should work");
        }

        assert_eq!(log.segments().len(), 2);
        assert_eq!(log.segments()[0].base_offset(), 0);
        assert_eq!(log.segments()[1].base_offset(), 2);
        assert_eq!(
            log.segments()[1]
                .path()
                .rsplit('/')
                .next()
                .expect("segment should have a filename"),
            "00000000000000000002.log"
        );
        assert_eq!(log.low_watermark(), 0);
        let total: usize = log
            .segments()
            .iter()
            .map(|segment| disk.files[segment.path()].len())
            .sum();
        assert_eq!(log.log_size_bytes(), total as u64);
        assert!(!log.segments()[0].is_empty());
        assert_eq!(
            log.segments()[0].len(),
            disk.files[log.segments()[0].path()].len() as u64
        );
    }

    let log = disk
        .open("payments", 0, 75, 64)
        .expect("partition log should recover");
    let records = disk
        .read(&log, 1, 1024)
        .expect("read should cross segments");

    assert_eq!(log.next_offset(), 3);
    assert_eq!(records.len(), 2);
    assert_eq!(records[0].offset(), 1);
    assert_eq!(records[1].offset(), 2);
}

#[test]
fn lays_a_record_out_byte_by_byte() {
    let mut disk = Disk::new();
    let mut log = disk
        .open("payments", 3, 1024, 64)
        .expect("partition log should be created");
    let plan = log
        .plan_append(&Record::new(
            Some(Bytes::from_static(b"k")),
            Bytes::from_static(b"hi"),
            7,
        ))
        .expect("record should fit");
    // Length, checksum, version, offset, timestamp, key length, value length, key, value.
    assert_eq!(plan.encoded.len(), 4 + 4 + 1 + 8 + 8 + 4 + 4 + 1 + 2);
    assert_eq!(&plan.encoded[..4], [0, 0, 0, 32]);
    let checksum = crc32fast::hash(&plan.encoded[8..]).to_be_bytes();
    assert_eq!(plan.encoded[4..8], checksum);
    assert_eq!(plan.encoded[8], 1);
    assert_eq!(plan.encoded[9..17], [0; 8]);
    assert_eq!(plan.encoded[17..25], [0, 0, 0, 0, 0, 0, 0, 7]);
    assert_eq!(plan.encoded[25..33], [0, 0, 0, 1, 0, 0, 0, 2]);
    assert_eq!(&plan.encoded[33..], b"khi");
    assert_eq!(
        plan.index_entry(),
        Some(vec![0, 0, 0, 0, 0, 0, 0, 0, 0, 0, 0, 0, 0, 0, 0, 0])
    );
    assert_eq!(
        log.active_path(),
        "data/payments/3/00000000000000000000.log"
    );
    assert_eq!(log.append(&plan), Ok(0));
}

#[test]
fn indexes_records_an_interval_apart() {
    let mut disk = Disk::new();
    let mut log = disk
        .open("payments", 0, 1024, 64)
        .expect("partition log should be created");
    for value in ["zero", "one", "two", "three"] {
        disk.append(&mut log, &plain(value))
            .expect("append should work");
    }
    // Records take 37, 36, 36 and 38 bytes; the one at position 73 is indexed next.
    let index = &disk.files[&index_path(log.active_path())];
    assert_eq!(index.len(), 2 * INDEX_ENTRY_SIZE);
    assert_eq!(index[16..24], [0, 0, 0, 0, 0, 0, 0, 2]);
    assert_eq!(index[24..32], [0, 0, 0, 0, 0, 0, 0, 73]);
}

#[test]
fn keeps_the_read_limit_but_always_makes_progress() {
    let mut disk = Disk::new();
    let mut log = disk
        .open("payments", 0, 1024, 64)
        .expect("partition log should be created");
    for value in ["zero", "one", "two"] {
        disk.append(&mut log, &plain(value))
            .expect("append should work");
    }
    assert_eq!(disk.read(&log, 0, 1).expect("read should work").len(), 1);
    assert_eq!(disk.read(&log, 0, 73).expect("read should work").len(), 2);
    assert_eq!(disk.read(&log, 0, 72).expect("read should work").len(), 1);
    assert!(disk.read(&log, 3, 1024).expect("read should work").is_empty());
    assert!(disk.read(&log, 9, 1024).expect("read should work").is_empty());
    assert_eq!(
        disk.read(&log, 0, 0).expect_err("limit should be refused"),
        StorageError::InvalidReadLimit
    );
}

#[test]
fn refuses_logs_that_cannot_be_opened() {
    let mut disk = Disk::new();
    let refusal = |disk: &mut Disk, topic: &str, bytes: u64, interval: u64| {
        match disk.open(topic, 0, bytes, interval) {
            Ok(_) => panic!("log should be refused"),
            Err(error) => error,
        }
    };
    assert_eq!(
        refusal(&mut disk, "a/b", 1024, 64),
        StorageError::InvalidTopic
    );
    assert_eq!(refusal(&mut disk, "", 1024, 64), StorageError::InvalidTopic);
    assert_eq!(
        refusal(&mut disk, "payments", 0, 64),
        StorageError::InvalidSegmentLimit
    );
    assert_eq!(
        refusal(&mut disk, "payments", 1024, 0),
        StorageError::InvalidIndexInterval
    );
    disk.files
        .insert("data/payments/0/nonsense.log".to_owned(), Vec::new());
    assert_eq!(
        refusal(&mut disk, "payments", 1024, 64),
        StorageError::InvalidSegmentName
    );
    assert_eq!(validate_topic("orders_1.retry-2"), Ok(()));
}

#[test]
fn refuses_segments_that_do_not_follow() {
    let mut disk = Disk::new();
    disk.files.insert(
        "data/payments/0/00000000000000000005.log".to_owned(),
        Vec::new(),
    );
    let refusal = match disk.open("payments", 0, 1024, 64) {
        Ok(_) => panic!("log should be refused"),
        Err(error) => error,
    };
    assert_eq!(
        refusal,
        StorageError::UnexpectedSegmentBase {
            expected: 0,
            actual: 5
        }
    );

    let mut disk = Disk::new();
    let mut log = disk
        .open("payments", 0, 75, 64)
        .expect("partition log should be created");
    for value in ["zero", "one", "two"] {
        disk.append(&mut log, &plain(value))
            .expect("append should work");
    }
    disk.files
        .get_mut("data/payments/0/00000000000000000000.log")
        .expect("segment should exist")
        .push(0);
    let refusal = match disk.open("payments", 0, 75, 64) {
        Ok(_) => panic!("log should be refused"),
        Err(error) => error,
    };
    assert_eq!(refusal, StorageError::IncompleteClosedSegment(0));
}

#[test]
fn refuses_records_at_the_wrong_offset() {
    let mut disk = Disk::new();
    let mut log = disk
        .open("payments", 0, 1024, 64)
        .expect("partition log should be created");
    disk.append(&mut log, &plain("zero"))
        .expect("append should work");
    let path = log.active_path().to_owned();
    let once = disk.files[&path].clone();
    disk.files
        .get_mut(&path)
        .expect("segment should exist")
        .extend_from_slice(&once);
    let refusal = match disk.open("payments", 0, 1024, 64) {
        Ok(_) => panic!("log should be refused"),
        Err(error) => error,
    };
    assert_eq!(
        refusal,
        StorageError::UnexpectedOffset {
            expected: 1,
            actual: 0
        }
    );
}

#[test]
fn refuses_malformed_records() {
    let mut short = BytesMut::from(&[0, 0, 0, 1, 0][..]);
    assert_eq!(decode_record(&mut short), Err(StorageError::InvalidRecord));

    let mut disk = Disk::new();
    let mut log = disk
        .open("payments", 0, 1024, 64)
        .expect("partition log should be created");
    disk.append(&mut log, &plain("hello"))
        .expect("append should work");
    let mut bytes = disk.files[log.active_path()].clone();
    let partial = &bytes[..bytes.len() - 1];
    assert_eq!(decode_record(&mut BytesMut::from(partial)), Ok(None));
    bytes[8] = 9;
    let checksum = crc32fast::hash(&bytes[8..]).to_be_bytes();
    bytes[4..8].copy_from_slice(&checksum);
    assert_eq!(
        decode_record(&mut BytesMut::from(bytes.as_slice())),
        Err(StorageError::UnsupportedVersion(9))
    );

    let huge = Record::new(None, Bytes::from(vec![0; 16 * 1024 * 1024]), 1);
    match log.plan_append(&huge) {
        Ok(_) => panic!("record should be refused"),
        Err(error) => assert_eq!(error, StorageError::RecordTooLarge),
    }
}

#[test]
fn discovers_partitions_in_order() {
    let listings = vec![
        TopicListing {
            topic: "payments".to_owned(),
            partitions: vec!["10".to_owned(), "2".to_owned()],
        },
        TopicListing {
            topic: "orders".to_owned(),
            partitions: vec!["0".to_owned()],
        },
    ];
    let found: Vec<(String, u32)> = discover_partitions(&listings)
        .expect("names should be valid")
        .iter()
        .map(|identity| (identity.topic().to_owned(), identity.partition()))
        .collect();
    assert_eq!(
        found,
        [
            ("orders".to_owned(), 0),
            ("payments".to_owned(), 2),
            ("payments".to_owned(), 10)
        ]
    );
    let invalid = vec![TopicListing {
        topic: "payments".to_owned(),
        partitions: vec!["first".to_owned()],
    }];
    assert_eq!(
        discover_partitions(&invalid).expect_err("name should be refused"),
        StorageError::InvalidPartitionName
    );
}

#[test]
fn joins_paths() {
    assert_eq!(join_path("data", "payments"), "data/payments");
    assert_eq!(join_path("data/", "payments"), "data/payments");
    assert_eq!(join_path("", "payments"), "payments");
    assert_eq!(
        index_path("data/0/00000000000000000000.log"),
        "data/0/00000000000000000000.idx"
    );
}

#[test]
fn describes_storage_errors() {
    assert_eq!(
        StorageError::UnknownPartition(4).message(),
        "partition 4 does not exist"
    );
    assert_eq!(
        StorageError::UnexpectedOffset {
            expected: 2,
            actual: 5
        }
        .message(),
        "expected offset 2, found 5"
    );
}

#[test]
fn retention_removes_closed_segments_from_the_front() {
    let mut disk = Disk::new();
    let mut log = disk
        .open("payments", 0, 100, 64)
        .expect("partition log should be created");
    let long = "x".repeat(60);
    for _ in 0..4 {
        disk.append(&mut log, &plain(&long)).expect("record should append");
    }
    assert_eq!(log.segments().len(), 4);
    let size = log.segments()[0].len();
    let first = |log: &PartitionLog| log.segments()[0].base_offset();
    assert_eq!(log.apply_retention(&vec![9, 8, 7, 6], None, None), 0);
    assert_eq!(log.apply_retention(&vec![9, 8, 7, 6], None, Some(9)), 0);
    assert_eq!(first(&log), 0);
    assert_eq!(log.apply_retention(&vec![9, 8, 7, 6], None, Some(8)), 1);
    assert_eq!(first(&log), 1);
    assert_eq!(log.apply_retention(&vec![8, 7, 6], Some(2 * size), None), 1);
    assert_eq!(first(&log), 2);
    assert_eq!(log.apply_retention(&vec![7, 6], Some(1), Some(0)), 1);
    assert_eq!(log.segments().len(), 1);
    assert_eq!(log.next_offset(), 4);
    let found = disk.read(&log, 3, 4096).expect("log should be readable");
    assert_eq!(found.len(), 1);
    assert_eq!(found[0].offset(), 3);
}

#[test]
fn a_log_is_cut_off_at_an_offset() {
    let mut disk = Disk::new();
    let mut log = disk
        .open("payments", 0, 150, 64)
        .expect("partition log should be created");
    let long = "x".repeat(40);
    for _ in 0..5 {
        disk.append(&mut log, &plain(&long)).expect("record should append");
    }
    let (_, path) = log.cut_path(3);
    let cut = match log.truncate(3, &disk.files[&path]) {
        Ok(cut) => cut,
        Err(error) => panic!("log should be cut off: {error:?}"),
    };
    assert_eq!(cut.path, path);
    assert_eq!(cut.log.next_offset(), 3);
    disk.files
        .get_mut(&cut.path)
        .expect("segment should exist")
        .truncate(cut.len as usize);
    for removed in &cut.removed {
        disk.files.remove(removed);
    }
    let mut log = cut.log;
    let found = disk.read(&log, 0, 4096).expect("log should be readable");
    assert_eq!(found.len(), 3);
    assert_eq!(disk.append(&mut log, &plain("next")), Ok(3));
    let found = disk.read(&log, 3, 4096).expect("log should be readable");
    assert_eq!(found.len(), 1);
}

#[test]
fn reads_stop_at_their_limit() {
    let mut disk = Disk::new();
    let mut log = disk
        .open("payments", 0, 1024, 64)
        .expect("partition log should be created");
    for value in ["zero", "one", "two"] {
        disk.append(&mut log, &plain(value)).expect("record should append");
    }
    let mut reader = LogReader::new(0, 1024, 2).expect("limit should be valid");
    while let Some(step) = log.next_read(&reader) {
        let contents = &disk.files[&step.path][step.position as usize..];
        reader = reader.feed(&step, contents).expect("segment should be readable");
    }
    let offsets: Vec<u64> = reader.finish().iter().map(|record| record.offset()).collect();
    assert_eq!(offsets, [0, 1]);
}
