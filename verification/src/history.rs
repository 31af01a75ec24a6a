//! What the files of a partition hold, and that appending, recovery and reading agree on it.

use vstd::prelude::*;

use crate::broker;
use crate::broker::{ReplicaStep, ReplicateRecord, StorageState};
use crate::record;
use crate::record::{Entry, StorageError};
use crate::replication;
use crate::storage;
use crate::storage::{IndexEntry, Log, Reading, Scan, Segment};

verus! {

/// Entries within the size limit, with consecutive offsets from `first` on.
pub open spec fn numbered(entries: Seq<Entry>, first: int) -> bool {
    forall|i: int|
        0 <= i < entries.len() ==> (#[trigger] entries[i]).offset == first + i && entries[i].fits()
}

/// The sparse index of the records of a segment.
pub open spec fn sparse_index(entries: Seq<Entry>, interval: u64) -> Seq<IndexEntry>
    decreases entries.len(),
{
    if entries.len() == 0 {
        Seq::empty()
    } else {
        let before = sparse_index(entries.drop_last(), interval);
        let position = storage::encoded_entries(entries.drop_last()).len();
        if storage::is_indexed(before, position as int, interval as int) {
            before.push(
                IndexEntry { offset: entries.last().offset, position: position as u64 },
            )
        } else {
            before
        }
    }
}

/// The offset behind the last record of a segment.
pub open spec fn segment_end(log: Log, segment: int) -> int {
    if segment + 1 < log.segments.len() {
        log.segments[segment + 1].base_offset as int
    } else {
        log.next_offset as int
    }
}

/// The records of a segment.
pub open spec fn segment_entries(log: Log, entries: Seq<Entry>, segment: int) -> Seq<Entry> {
    entries.subrange(log.segments[segment].base_offset as int, segment_end(log, segment))
}

/// Whether a segment and its file hold their part of `entries`.
pub open spec fn segment_holds(
    log: Log,
    files: Seq<Seq<u8>>,
    entries: Seq<Entry>,
    segment: int,
) -> bool {
    let part = segment_entries(log, entries, segment);
    &&& 0 <= log.segments[segment].base_offset <= segment_end(log, segment) <= entries.len()
    &&& files[segment] == storage::encoded_entries(part)
    &&& log.segments[segment].len == files[segment].len()
    &&& log.segments[segment].index == sparse_index(part, log.index_interval_bytes)
    &&& log.segments[segment].path == storage::segment_path(
        log.partition_dir,
        log.segments[segment].base_offset as nat,
    )
}

/// Whether `log` and the contents of its segments' files hold exactly what is retained of
/// `entries`, all that was ever appended: those from the first segment on.
pub open spec fn holds(log: Log, files: Seq<Seq<u8>>, entries: Seq<Entry>) -> bool {
    &&& log.segments.len() > 0
    &&& files.len() == log.segments.len()
    &&& log.next_offset == entries.len()
    &&& numbered(entries, 0)
    &&& forall|i: int|
        0 <= i < log.segments.len() ==> #[trigger] segment_holds(log, files, entries, i)
}

/// The files after the bytes of one record were written, to a new segment or to the last one.
pub open spec fn written(files: Seq<Seq<u8>>, rotate: bool, bytes: Seq<u8>) -> Seq<Seq<u8>> {
    if rotate {
        files.push(bytes)
    } else {
        files.update(files.len() - 1, files.last() + bytes)
    }
}

pub proof fn lemma_encoded_concat(a: Seq<Entry>, b: Seq<Entry>)
    ensures
        storage::encoded_entries(a + b) == storage::encoded_entries(a) + storage::encoded_entries(
            b,
        ),
    decreases b.len(),
{
    if b.len() == 0 {
        assert(a + b =~= a);
        assert(storage::encoded_entries(a) + storage::encoded_entries(b)
            =~= storage::encoded_entries(a));
    } else {
        lemma_encoded_concat(a, b.drop_last());
        assert((a + b).drop_last() =~= a + b.drop_last());
        assert(storage::encoded_entries(a + b) =~= storage::encoded_entries(a)
            + storage::encoded_entries(b));
    }
}

/// The bytes of several records start with those of the first.
pub proof fn lemma_encoded_head(entries: Seq<Entry>)
    requires
        entries.len() > 0,
    ensures
        storage::encoded_entries(entries) == entries[0].encoded() + storage::encoded_entries(
            entries.skip(1),
        ),
{
    let head = seq![entries[0]];
    assert(entries =~= head + entries.skip(1));
    lemma_encoded_concat(head, entries.skip(1));
    assert(head.drop_last() =~= Seq::empty());
    assert(storage::encoded_entries(head.drop_last()) =~= Seq::<u8>::empty());
    assert(storage::encoded_entries(head) =~= entries[0].encoded());
}

/// An append adds its record behind those that the log holds: the log, with the bytes of the
/// plan written, holds one record more, at the next offset.
pub proof fn append_extends_history(
    log: Log,
    files: Seq<Seq<u8>>,
    entries: Seq<Entry>,
    entry: Entry,
)
    requires
        holds(log, files, entries),
        entry.offset == log.next_offset,
        entry.fits(),
        log.next_offset < u64::MAX,
        log.ready_for(entry.encoded().len()).active().len + entry.encoded().len() <= u64::MAX,
    ensures
        holds(
            log.ready_for(entry.encoded().len()).appended(entry.encoded().len()),
            written(files, log.rotates_for(entry.encoded().len()), entry.encoded()),
            entries.push(entry),
        ),
{
    let size = entry.encoded().len();
    let ready = log.ready_for(size);
    let after = ready.appended(size);
    let rotate = log.rotates_for(size);
    let new_files = written(files, rotate, entry.encoded());
    let new_entries = entries.push(entry);
    let last = after.segments.len() - 1;
    assert(segment_holds(log, files, entries, log.segments.len() - 1));
    assert forall|i: int| 0 <= i < after.segments.len() implies #[trigger] segment_holds(
        after,
        new_files,
        new_entries,
        i,
    ) by {
        if i < last {
            assert(segment_holds(log, files, entries, i));
            assert(after.segments[i] == log.segments[i]);
            if i + 1 < last {
                assert(after.segments[i + 1] == log.segments[i + 1]);
            }
            assert(segment_end(after, i) == segment_end(log, i));
            assert(segment_entries(after, new_entries, i) =~= segment_entries(log, entries, i));
        } else {
            let part = segment_entries(after, new_entries, i);
            let before = if rotate {
                Seq::empty()
            } else {
                segment_entries(log, entries, i)
            };
            assert(part =~= before.push(entry));
            assert(part.drop_last() =~= before);
            if rotate {
                assert(storage::encoded_entries(before) =~= Seq::<u8>::empty());
                assert(storage::encoded_entries(part) =~= entry.encoded());
                assert(sparse_index(before, log.index_interval_bytes) =~= Seq::empty());
            }
            assert(after.segments[i] == ready.grown_segment(size));
            assert(after.segments[i].index =~= sparse_index(part, log.index_interval_bytes));
        }
    }
    assert forall|i: int| 0 <= i < new_entries.len() implies (#[trigger] new_entries[i]).offset
        == i && new_entries[i].fits() by {
        if i < entries.len() {
            assert(new_entries[i] == entries[i]);
        }
    }
}

/// What a scan has learned after the first `count` entries of a segment.
spec fn scan_after(entries: Seq<Entry>, first: u64, count: int, interval: u64) -> Scan {
    Scan {
        next_offset: (first + count) as u64,
        len: storage::encoded_entries(entries.take(count)).len(),
        index: sparse_index(entries.take(count), interval),
    }
}

/// A scan takes a record within the limits that has the expected offset.
proof fn lemma_scan_step(entry: Entry, rest: Seq<u8>, so_far: Scan, interval: u64)
    requires
        entry.fits(),
        entry.offset == so_far.next_offset,
        so_far.next_offset < u64::MAX,
    ensures
        storage::scanned(entry.encoded() + rest, so_far, interval) == storage::scanned(
            rest,
            so_far.advanced(entry.encoded().len(), interval),
            interval,
        ),
{
    reveal(storage::scanned);
    record::record_round_trip(entry, rest);
    record::lemma_encoded_len(entry);
}

proof fn lemma_scan_from(
    entries: Seq<Entry>,
    first: u64,
    count: int,
    tail: Seq<u8>,
    interval: u64,
)
    requires
        numbered(entries, first as int),
        first + entries.len() <= u64::MAX,
        0 <= count <= entries.len(),
        record::front_record(tail) is Partial,
    ensures
        storage::scanned(
            storage::encoded_entries(entries.skip(count)) + tail,
            scan_after(entries, first, count, interval),
            interval,
        ) == Ok::<Scan, StorageError>(
            scan_after(entries, first, entries.len() as int, interval),
        ),
    decreases entries.len() - count,
{
    if count == entries.len() {
        assert(storage::encoded_entries(entries.skip(count)) + tail =~= tail);
        reveal(storage::scanned);
    } else {
        let entry = entries[count];
        let left = entries.skip(count);
        let rest = storage::encoded_entries(entries.skip(count + 1)) + tail;
        let scan = scan_after(entries, first, count, interval);
        assert(left.skip(1) =~= entries.skip(count + 1));
        lemma_encoded_head(left);
        assert(storage::encoded_entries(left) + tail =~= entry.encoded() + rest);
        lemma_scan_step(entry, rest, scan, interval);
        assert(entries.take(count + 1).drop_last() =~= entries.take(count));
        assert(scan.advanced(entry.encoded().len(), interval) =~= scan_after(
            entries,
            first,
            count + 1,
            interval,
        ));
        lemma_scan_from(entries, first, count + 1, tail, interval);
    }
}

/// Scanning the file of a segment finds all its records and no more, whatever incomplete record
/// follows them.
pub proof fn scan_finds_records(
    entries: Seq<Entry>,
    first: u64,
    tail: Seq<u8>,
    interval: u64,
)
    requires
        numbered(entries, first as int),
        first + entries.len() <= u64::MAX,
        record::front_record(tail) is Partial,
    ensures
        storage::scanned(storage::encoded_entries(entries) + tail, Scan::start(first), interval)
            == Ok::<Scan, StorageError>(
            Scan {
                next_offset: (first + entries.len()) as u64,
                len: storage::encoded_entries(entries).len(),
                index: sparse_index(entries, interval),
            },
        ),
{
    lemma_scan_from(entries, first, 0, tail, interval);
    assert(entries.skip(0) =~= entries);
    assert(entries.take(0) =~= Seq::empty());
    assert(entries.take(entries.len() as int) =~= entries);
    assert(scan_after(entries, first, 0, interval) =~= Scan::start(first));
}

/// A log without segments, whose first one is expected at an offset.
pub open spec fn unopened(log: Log, base_offset: u64) -> Log {
    Log { next_offset: base_offset, segments: Seq::empty(), ..log }
}

/// The segments as they are found before recovery: as long as their files, without an index.
pub open spec fn found_before_recovery(log: Log, files: Seq<Seq<u8>>) -> Seq<Segment> {
    Seq::new(
        log.segments.len(),
        |i: int|
            Segment { len: files[i].len() as u64, index: Seq::empty(), ..log.segments[i] },
    )
}

/// The log after the first `count` of the found segments were recovered in turn.
pub open spec fn recovered_segments(
    start: Log,
    found: Seq<Segment>,
    files: Seq<Seq<u8>>,
    count: int,
) -> Result<Log, StorageError>
    decreases count,
{
    if count <= 0 {
        Ok(start)
    } else {
        match recovered_segments(start, found, files, count - 1) {
            Err(error) => Err(error),
            Ok(log) => log.recovered(found[count - 1], files[count - 1], count == found.len()),
        }
    }
}

/// Recovery restores the log that was written, next offset, lengths and indexes, also where an
/// incomplete record was left at the end of the last file.
pub proof fn recovery_restores_log(
    log: Log,
    files: Seq<Seq<u8>>,
    entries: Seq<Entry>,
    tail: Seq<u8>,
)
    requires
        holds(log, files, entries),
        record::front_record(tail) is Partial,
        files.last().len() + tail.len() <= u64::MAX,
    ensures
        ({
            let torn = files.update(files.len() - 1, files.last() + tail);
            recovered_segments(
                unopened(log, log.segments[0].base_offset),
                found_before_recovery(log, torn),
                torn,
                log.segments.len() as int,
            ) == Ok::<Log, StorageError>(log)
        }),
{
    let torn = files.update(files.len() - 1, files.last() + tail);
    let found = found_before_recovery(log, torn);
    lemma_recovery_from(log, files, entries, tail, log.segments.len() as int);
    assert(log.segments.take(log.segments.len() as int) =~= log.segments);
}

/// The log with its first `count` segments only.
spec fn log_prefix(log: Log, count: int) -> Log {
    Log {
        next_offset: if count == 0 {
            log.segments[0].base_offset
        } else {
            segment_end(log, count - 1) as u64
        },
        segments: log.segments.take(count),
        ..log
    }
}

proof fn lemma_recovery_from(
    log: Log,
    files: Seq<Seq<u8>>,
    entries: Seq<Entry>,
    tail: Seq<u8>,
    count: int,
)
    requires
        holds(log, files, entries),
        record::front_record(tail) is Partial,
        files.last().len() + tail.len() <= u64::MAX,
        0 <= count <= log.segments.len(),
    ensures
        ({
            let torn = files.update(files.len() - 1, files.last() + tail);
            recovered_segments(
                unopened(log, log.segments[0].base_offset),
                found_before_recovery(log, torn),
                torn,
                count,
            ) == Ok::<Log, StorageError>(log_prefix(log, count))
        }),
    decreases count,
{
    let torn = files.update(files.len() - 1, files.last() + tail);
    let found = found_before_recovery(log, torn);
    if count == 0 {
        assert(log.segments.take(0) =~= Seq::empty());
    } else {
        let i = count - 1;
        let before = log_prefix(log, i);
        lemma_recovery_from(log, files, entries, tail, i);
        assert(segment_holds(log, files, entries, i));
        if i > 0 {
            assert(segment_holds(log, files, entries, i - 1));
        }
        let part = segment_entries(log, entries, i);
        let base = log.segments[i].base_offset;
        let behind = if count == log.segments.len() {
            tail
        } else {
            Seq::empty()
        };
        assert(before.next_offset == base);
        assert(torn[i] =~= storage::encoded_entries(part) + behind);
        assert(numbered(part, base as int)) by {
            assert forall|k: int| 0 <= k < part.len() implies (#[trigger] part[k]).offset == base
                + k && part[k].fits() by {
                assert(part[k] == entries[base + k]);
            }
        }
        scan_finds_records(part, base, behind, log.index_interval_bytes);
        let recovered = before.recovered(found[i], torn[i], count == found.len());
        let restored = log.segments[i];
        assert(recovered is Ok);
        assert(recovered->Ok_0.segments =~= before.segments.push(restored));
        assert(log.segments.take(count) =~= before.segments.push(restored));
    }
}

pub proof fn lemma_next_segment(log: Log, cursor: int, offset: u64)
    ensures
        log.next_segment(cursor, offset) >= cursor,
    decreases log.segments.len() - cursor,
{
    if cursor < log.segments.len() && log.read_position(cursor, offset) is None {
        lemma_next_segment(log, cursor + 1, offset);
    }
}

/// What a read gives that goes on from `reading`, where each step is fed with the bytes of the
/// file that it names.
pub open spec fn read_result(log: Log, files: Seq<Seq<u8>>, reading: Reading) -> Result<
    Seq<Entry>,
    StorageError,
>
    decreases log.segments.len() - reading.cursor,
{
    let segment = log.next_segment(reading.cursor as int, reading.offset);
    proof {
        lemma_next_segment(log, reading.cursor as int, reading.offset);
    }
    if reading.full || segment >= log.segments.len() {
        Ok(storage::visible(reading.taken, reading.limit))
    } else {
        let position = log.read_position(segment, reading.offset)->0;
        match storage::collected(
            files[segment].skip(position as int),
            reading.offset,
            reading.max_bytes,
            reading.taken,
        ) {
            Err(error) => Err(error),
            Ok((taken, full)) => read_result(
                log,
                files,
                Reading { cursor: (segment + 1) as nat, taken, full, ..reading },
            ),
        }
    }
}

/// `taken`, and behind it what the limit allows of `left`.
pub open spec fn limited(taken: Seq<Entry>, left: Seq<Entry>, max_bytes: usize) -> Seq<Entry>
    decreases left.len(),
{
    if left.len() == 0 || storage::is_full(taken, left[0].encoded().len(), max_bytes) {
        taken
    } else {
        limited(taken.push(left[0]), left.skip(1), max_bytes)
    }
}

/// What a read takes of `entries`, and whether it stopped at its limit.
spec fn gathered(
    entries: Seq<Entry>,
    offset: u64,
    max_bytes: usize,
    taken: Seq<Entry>,
) -> (Seq<Entry>, bool)
    decreases entries.len(),
{
    if entries.len() == 0 {
        (taken, false)
    } else if entries[0].offset < offset {
        gathered(entries.skip(1), offset, max_bytes, taken)
    } else if storage::is_full(taken, entries[0].encoded().len(), max_bytes) {
        (taken, true)
    } else {
        gathered(entries.skip(1), offset, max_bytes, taken.push(entries[0]))
    }
}

proof fn lemma_collected(entries: Seq<Entry>, offset: u64, max_bytes: usize, taken: Seq<Entry>)
    requires
        forall|i: int| 0 <= i < entries.len() ==> (#[trigger] entries[i]).fits(),
    ensures
        storage::collected(storage::encoded_entries(entries), offset, max_bytes, taken) == Ok::<
            (Seq<Entry>, bool),
            StorageError,
        >(gathered(entries, offset, max_bytes, taken)),
    decreases entries.len(),
{
    reveal(storage::collected);
    if entries.len() > 0 {
        let entry = entries[0];
        let left = entries.skip(1);
        assert forall|i: int| 0 <= i < left.len() implies (#[trigger] left[i]).fits() by {
            assert(left[i] == entries[i + 1]);
        }
        lemma_encoded_head(entries);
        record::lemma_encoded_len(entry);
        lemma_collect_step(entry, storage::encoded_entries(left), offset, max_bytes, taken);
        lemma_collected(left, offset, max_bytes, taken);
        lemma_collected(left, offset, max_bytes, taken.push(entry));
    }
}

proof fn lemma_collect_step(
    entry: Entry,
    rest: Seq<u8>,
    offset: u64,
    max_bytes: usize,
    taken: Seq<Entry>,
)
    requires
        entry.fits(),
    ensures
        storage::collected(entry.encoded() + rest, offset, max_bytes, taken) == if entry.offset
            < offset {
            storage::collected(rest, offset, max_bytes, taken)
        } else if storage::is_full(taken, entry.encoded().len(), max_bytes) {
            Ok((taken, true))
        } else {
            storage::collected(rest, offset, max_bytes, taken.push(entry))
        },
{
    reveal(storage::collected);
    record::lemma_encoded_len(entry);
    record::record_round_trip(entry, rest);
}

/// Entries below the offset make no difference.
proof fn lemma_gathered_skip(
    entries: Seq<Entry>,
    count: int,
    offset: u64,
    max_bytes: usize,
    taken: Seq<Entry>,
)
    requires
        0 <= count <= entries.len(),
        forall|i: int| 0 <= i < count ==> (#[trigger] entries[i]).offset < offset,
    ensures
        gathered(entries, offset, max_bytes, taken) == gathered(
            entries.skip(count),
            offset,
            max_bytes,
            taken,
        ),
    decreases count,
{
    if count == 0 {
        assert(entries.skip(0) =~= entries);
    } else {
        let left = entries.skip(1);
        assert forall|i: int| 0 <= i < count - 1 implies (#[trigger] left[i]).offset < offset by {
            assert(left[i] == entries[i + 1]);
        }
        assert(entries[0].offset < offset);
        lemma_gathered_skip(left, count - 1, offset, max_bytes, taken);
        assert(left.skip(count - 1) =~= entries.skip(count));
    }
}

proof fn lemma_gathered_concat(
    a: Seq<Entry>,
    b: Seq<Entry>,
    offset: u64,
    max_bytes: usize,
    taken: Seq<Entry>,
)
    ensures
        gathered(a + b, offset, max_bytes, taken) == ({
            let front = gathered(a, offset, max_bytes, taken);
            if front.1 {
                front
            } else {
                gathered(b, offset, max_bytes, front.0)
            }
        }),
    decreases a.len(),
{
    if a.len() == 0 {
        assert(a + b =~= b);
    } else {
        assert((a + b).skip(1) =~= a.skip(1) + b);
        lemma_gathered_concat(a.skip(1), b, offset, max_bytes, taken);
        lemma_gathered_concat(a.skip(1), b, offset, max_bytes, taken.push(a[0]));
    }
}

/// Each entry of a sparse index points at its record.
proof fn lemma_sparse_index(entries: Seq<Entry>, first: int, interval: u64)
    requires
        numbered(entries, first),
        storage::encoded_entries(entries).len() <= u64::MAX,
    ensures
        forall|j: int|
            0 <= j < sparse_index(entries, interval).len() ==> {
                let indexed = #[trigger] sparse_index(entries, interval)[j];
                &&& first <= indexed.offset < first + entries.len()
                &&& indexed.position == storage::encoded_entries(
                    entries.take(indexed.offset - first),
                ).len()
            },
    decreases entries.len(),
{
    if entries.len() > 0 {
        let front = entries.drop_last();
        let index = sparse_index(entries, interval);
        assert forall|i: int| 0 <= i < front.len() implies (#[trigger] front[i]).offset == first + i
            && front[i].fits() by {
            assert(front[i] == entries[i]);
        }
        lemma_sparse_index(front, first, interval);
        assert forall|j: int| 0 <= j < index.len() implies {
            let indexed = #[trigger] index[j];
            &&& first <= indexed.offset < first + entries.len()
            &&& indexed.position == storage::encoded_entries(
                entries.take(indexed.offset - first),
            ).len()
        } by {
            let before = sparse_index(front, interval);
            if j < before.len() {
                assert(index[j] == before[j]);
                assert(entries.take(index[j].offset - first) =~= front.take(
                    index[j].offset - first,
                ));
            } else {
                assert(index[j].offset == entries.last().offset);
                assert(entries.last() == entries[entries.len() - 1]);
                assert(entries.take(entries.len() - 1) =~= front);
            }
        }
    }
}

proof fn lemma_leading(index: Seq<IndexEntry>, offset: u64)
    ensures
        storage::leading_entries(index, offset) <= index.len(),
        forall|j: int|
            0 <= j < storage::leading_entries(index, offset) ==> (#[trigger] index[j]).offset
                <= offset,
    decreases index.len(),
{
    if index.len() > 0 && index[0].offset <= offset {
        let left = index.skip(1);
        lemma_leading(left, offset);
        assert forall|j: int|
            0 <= j < storage::leading_entries(index, offset) implies (#[trigger] index[j]).offset
            <= offset by {
            if j > 0 {
                assert(left[j - 1] == index[j]);
            }
        }
    }
}

/// A read that starts where the index of a segment says takes what it would take from the front
/// of the segment.
proof fn lemma_segment_read(
    log: Log,
    files: Seq<Seq<u8>>,
    entries: Seq<Entry>,
    segment: int,
    offset: u64,
    max_bytes: usize,
    taken: Seq<Entry>,
)
    requires
        holds(log, files, entries),
        0 <= segment < log.segments.len(),
    ensures
        ({
            let position = storage::index_position(log.segments[segment].index, offset);
            storage::collected(files[segment].skip(position as int), offset, max_bytes, taken)
                == Ok::<(Seq<Entry>, bool), StorageError>(
                gathered(segment_entries(log, entries, segment), offset, max_bytes, taken),
            )
        }),
{
    assert(segment_holds(log, files, entries, segment));
    let part = segment_entries(log, entries, segment);
    let base = log.segments[segment].base_offset as int;
    let index = log.segments[segment].index;
    let position = storage::index_position(index, offset);
    assert forall|k: int| 0 <= k < part.len() implies (#[trigger] part[k]).offset == base + k
        && part[k].fits() by {
        assert(part[k] == entries[base + k]);
    }
    lemma_sparse_index(part, base, log.index_interval_bytes);
    lemma_leading(index, offset);
    let leading = storage::leading_entries(index, offset);
    let skipped = if leading == 0 {
        0
    } else {
        index[leading - 1].offset - base
    };
    assert(storage::encoded_entries(part.take(skipped)).len() == position) by {
        if leading == 0 {
            assert(part.take(0) =~= Seq::empty());
        }
    }
    lemma_encoded_concat(part.take(skipped), part.skip(skipped));
    assert(part.take(skipped) + part.skip(skipped) =~= part);
    assert(files[segment].skip(position as int) =~= storage::encoded_entries(part.skip(skipped)));
    let left = part.skip(skipped);
    assert forall|k: int| 0 <= k < left.len() implies (#[trigger] left[k]).fits() by {
        assert(left[k] == part[skipped + k]);
    }
    lemma_collected(left, offset, max_bytes, taken);
    lemma_gathered_skip(part, skipped, offset, max_bytes, taken);
}

/// The offset at which a segment starts; behind the last one, the next offset.
spec fn segment_start(log: Log, segment: int) -> int {
    if segment < log.segments.len() {
        log.segments[segment].base_offset as int
    } else {
        log.next_offset as int
    }
}

proof fn lemma_read_from(
    log: Log,
    files: Seq<Seq<u8>>,
    entries: Seq<Entry>,
    reading: Reading,
)
    requires
        holds(log, files, entries),
        reading.cursor <= log.segments.len(),
        !reading.full,
    ensures
        read_result(log, files, reading) == Ok::<Seq<Entry>, StorageError>(
            storage::visible(
                gathered(
                    entries.skip(segment_start(log, reading.cursor as int)),
                    reading.offset,
                    reading.max_bytes,
                    reading.taken,
                ).0,
                reading.limit,
            ),
        ),
    decreases log.segments.len() - reading.cursor,
{
    let cursor = reading.cursor as int;
    let offset = reading.offset;
    let max_bytes = reading.max_bytes;
    let start = segment_start(log, cursor);
    if cursor == log.segments.len() {
        assert(entries.skip(start) =~= Seq::empty());
    } else {
        assert(segment_holds(log, files, entries, cursor));
        let part = segment_entries(log, entries, cursor);
        let end = segment_end(log, cursor);
        assert(segment_start(log, cursor + 1) == end);
        assert(entries.skip(start) =~= part + entries.skip(end));
        if log.read_position(cursor, offset) is None {
            let next = Reading { cursor: (cursor + 1) as nat, ..reading };
            lemma_read_from(log, files, entries, next);
            assert(log.next_segment(cursor, offset) == log.next_segment(cursor + 1, offset));
            assert(read_result(log, files, reading) == read_result(log, files, next));
            let all = entries.skip(start);
            assert forall|i: int| 0 <= i < end - start implies (#[trigger] all[i]).offset
                < offset by {
                assert(all[i] == entries[start + i]);
            }
            lemma_gathered_skip(all, end - start, offset, max_bytes, reading.taken);
            assert(all.skip(end - start) =~= entries.skip(end));
        } else {
            lemma_segment_read(log, files, entries, cursor, offset, max_bytes, reading.taken);
            let front = gathered(part, offset, max_bytes, reading.taken);
            let next = Reading {
                cursor: (cursor + 1) as nat,
                taken: front.0,
                full: front.1,
                ..reading
            };
            assert(log.next_segment(cursor, offset) == cursor);
            assert(read_result(log, files, reading) == read_result(log, files, next));
            lemma_gathered_concat(
                part,
                entries.skip(end),
                offset,
                max_bytes,
                reading.taken,
            );
            if !front.1 {
                lemma_read_from(log, files, entries, next);
            }
        }
    }
}

proof fn lemma_gathered_limited(
    entries: Seq<Entry>,
    offset: u64,
    max_bytes: usize,
    taken: Seq<Entry>,
)
    requires
        forall|i: int| 0 <= i < entries.len() ==> (#[trigger] entries[i]).offset >= offset,
    ensures
        gathered(entries, offset, max_bytes, taken).0 == limited(taken, entries, max_bytes),
    decreases entries.len(),
{
    if entries.len() > 0 {
        let left = entries.skip(1);
        assert forall|i: int| 0 <= i < left.len() implies (#[trigger] left[i]).offset
            >= offset by {
            assert(left[i] == entries[i + 1]);
        }
        assert(entries[0].offset >= offset);
        lemma_gathered_limited(left, offset, max_bytes, taken.push(entries[0]));
    }
}

proof fn lemma_visible_cut(front: Seq<Entry>, behind: Seq<Entry>, limit: u64)
    requires
        forall|i: int| 0 <= i < front.len() ==> (#[trigger] front[i]).offset < limit,
        behind.len() == 0 || behind[0].offset >= limit,
    ensures
        storage::visible(front + behind, limit) == front,
    decreases front.len(),
{
    let all = front + behind;
    if front.len() == 0 {
        assert(all =~= behind);
        assert(storage::visible(all, limit) =~= front);
    } else {
        let left = front.skip(1);
        assert forall|i: int| 0 <= i < left.len() implies (#[trigger] left[i]).offset < limit by {
            assert(left[i] == front[i + 1]);
        }
        assert(front[0].offset < limit);
        lemma_visible_cut(left, behind, limit);
        assert(all.skip(1) =~= left + behind);
        assert(seq![front[0]] + left =~= front);
    }
}

proof fn lemma_limited_front(taken: Seq<Entry>, left: Seq<Entry>, max_bytes: usize) -> (count: int)
    ensures
        0 <= count <= left.len(),
        limited(taken, left, max_bytes) == taken + left.take(count),
    decreases left.len(),
{
    if left.len() == 0 || storage::is_full(taken, left[0].encoded().len(), max_bytes) {
        assert(taken + left.take(0) =~= taken);
        0
    } else {
        let more = lemma_limited_front(taken.push(left[0]), left.skip(1), max_bytes);
        assert(taken.push(left[0]) + left.skip(1).take(more) =~= taken + left.take(more + 1));
        more + 1
    }
}

/// It makes no difference whether the records from an offset on are left out before the limit in
/// bytes is kept, or behind.
proof fn lemma_visible_limited(
    taken: Seq<Entry>,
    left: Seq<Entry>,
    max_bytes: usize,
    limit: u64,
    count: int,
)
    requires
        0 <= count <= left.len(),
        forall|i: int| 0 <= i < taken.len() ==> (#[trigger] taken[i]).offset < limit,
        forall|i: int| 0 <= i < count ==> (#[trigger] left[i]).offset < limit,
        count < left.len() ==> left[count].offset >= limit,
    ensures
        storage::visible(limited(taken, left, max_bytes), limit) == limited(
            taken,
            left.take(count),
            max_bytes,
        ),
    decreases left.len(),
{
    if left.len() == 0 || storage::is_full(taken, left[0].encoded().len(), max_bytes) {
        lemma_visible_cut(taken, Seq::empty(), limit);
        assert(taken + Seq::<Entry>::empty() =~= taken);
    } else if count == 0 {
        let more = lemma_limited_front(taken, left, max_bytes);
        lemma_visible_cut(taken, left.take(more), limit);
    } else {
        let rest = left.skip(1);
        let grown = taken.push(left[0]);
        assert forall|i: int| 0 <= i < count - 1 implies (#[trigger] rest[i]).offset < limit by {
            assert(rest[i] == left[i + 1]);
        }
        assert(left[0].offset < limit);
        lemma_visible_limited(grown, rest, max_bytes, limit, count - 1);
        assert(left.take(count).skip(1) =~= rest.take(count - 1));
    }
}

/// The offset at which a read from `offset` finds its first record: nothing is left before the
/// first segment.
pub open spec fn read_start(log: Log, offset: u64) -> int {
    if offset < log.segments[0].base_offset {
        log.segments[0].base_offset as int
    } else {
        offset as int
    }
}

/// The offset behind the last record that a read below `limit` can find.
pub open spec fn read_end(entries: Seq<Entry>, limit: u64) -> int {
    if limit < entries.len() {
        limit as int
    } else {
        entries.len() as int
    }
}

/// A read gives back what was written: the records from the requested offset on that are below
/// the limit, in order, as far as the limit in bytes allows. With the high watermark as the limit
/// it never gets past what is committed.
pub proof fn read_returns_history(
    log: Log,
    files: Seq<Seq<u8>>,
    entries: Seq<Entry>,
    offset: u64,
    max_bytes: usize,
    limit: u64,
)
    requires
        holds(log, files, entries),
    ensures
        read_result(
            log,
            files,
            Reading { offset, max_bytes, limit, cursor: 0, taken: Seq::empty(), full: false },
        ) == Ok::<Seq<Entry>, StorageError>(
            if read_start(log, offset) <= read_end(entries, limit) {
                limited(
                    Seq::empty(),
                    entries.take(read_end(entries, limit)).skip(read_start(log, offset)),
                    max_bytes,
                )
            } else {
                Seq::empty()
            },
        ),
{
    let reading = Reading {
        offset,
        max_bytes,
        limit,
        cursor: 0,
        taken: Seq::empty(),
        full: false,
    };
    lemma_read_from(log, files, entries, reading);
    assert(segment_holds(log, files, entries, 0));
    let base = log.segments[0].base_offset as int;
    let retained = entries.skip(base);
    let start = read_start(log, offset);
    let skipped = if start <= entries.len() {
        start - base
    } else {
        entries.len() - base
    };
    assert forall|i: int| 0 <= i < skipped implies (#[trigger] retained[i]).offset < offset by {
        assert(retained[i] == entries[base + i]);
    }
    lemma_gathered_skip(retained, skipped, offset, max_bytes, Seq::empty());
    let left = retained.skip(skipped);
    assert(left =~= entries.skip(base + skipped));
    assert forall|i: int| 0 <= i < left.len() implies (#[trigger] left[i]).offset >= offset
        && left[i].offset == base + skipped + i by {
        assert(left[i] == entries[base + skipped + i]);
    }
    lemma_gathered_limited(left, offset, max_bytes, Seq::empty());
    let end = read_end(entries, limit);
    let count = if base + skipped <= end {
        end - (base + skipped)
    } else {
        0
    };
    assert(count <= left.len());
    assert(count < left.len() ==> left[count].offset >= limit);
    assert forall|i: int| 0 <= i < count implies (#[trigger] left[i]).offset < limit by {
        assert(left[i].offset == base + skipped + i);
    }
    lemma_visible_limited(Seq::empty(), left, max_bytes, limit, count);
    if start <= end {
        assert(left.take(count) =~= entries.take(end).skip(start));
    } else {
        assert(left.take(count) =~= Seq::empty());
    }
}

/// A record that still fits keeps the limit.
proof fn lemma_more_fits(taken: Seq<Entry>, next: Entry, max_bytes: usize)
    requires
        !storage::is_full(taken, next.encoded().len(), max_bytes),
    ensures
        taken.push(next).len() <= 1 || storage::encoded_entries(taken.push(next)).len()
            <= max_bytes || max_bytes == usize::MAX,
{
    assert(taken.push(next).drop_last() =~= taken);
}

#[verifier::spinoff_prover]
proof fn lemma_limited(taken: Seq<Entry>, left: Seq<Entry>, max_bytes: usize)
    requires
        taken.len() <= 1 || storage::encoded_entries(taken).len() <= max_bytes || max_bytes
            == usize::MAX,
    ensures
        ({
            let got = limited(taken, left, max_bytes);
            let count = got.len() - taken.len();
            &&& 0 <= count <= left.len()
            &&& got == taken + left.take(count)
            &&& left.len() > 0 ==> got.len() > 0
            &&& got.len() <= 1 || storage::encoded_entries(got).len() <= max_bytes || max_bytes
                == usize::MAX
            &&& count < left.len() ==> storage::is_full(
                got,
                left[count].encoded().len(),
                max_bytes,
            )
        }),
    decreases left.len(),
{
    let got = limited(taken, left, max_bytes);
    if left.len() == 0 || storage::is_full(taken, left[0].encoded().len(), max_bytes) {
        assert(taken + left.take(0) =~= taken);
    } else {
        let more = taken.push(left[0]);
        lemma_more_fits(taken, left[0], max_bytes);
        lemma_limited(more, left.skip(1), max_bytes);
        assert(got == limited(more, left.skip(1), max_bytes));
        let count = got.len() - taken.len();
        assert(more + left.skip(1).take(count - 1) =~= taken + left.take(count));
        if count < left.len() {
            assert(left.skip(1)[count - 1] == left[count]);
        }
    }
}

/// A limited read is never empty where there is a record, keeps to its limit unless a single
/// record exceeds it, and stops only where the next record would exceed it.
pub proof fn limit_is_kept(entries: Seq<Entry>, max_bytes: usize)
    ensures
        ({
            let got = limited(Seq::empty(), entries, max_bytes);
            &&& got.len() <= entries.len() && got == entries.take(got.len() as int)
            &&& entries.len() > 0 ==> got.len() > 0
            &&& got.len() > 1 && max_bytes < usize::MAX ==> storage::encoded_entries(got).len()
                <= max_bytes
            &&& got.len() < entries.len() ==> storage::encoded_entries(got).len()
                + entries[got.len() as int].encoded().len() > max_bytes
        }),
{
    let got = limited(Seq::empty(), entries, max_bytes);
    lemma_limited(Seq::empty(), entries, max_bytes);
    assert(Seq::<Entry>::empty() + entries.take(got.len() as int) =~= entries.take(
        got.len() as int,
    ));
}

/// The log of a new partition: one empty segment.
pub open spec fn fresh(log: Log) -> Log {
    Log {
        next_offset: 0,
        segments: seq![storage::new_segment(log.partition_dir, 0)],
        ..log
    }
}

/// A new partition holds nothing, and its recovery finds nothing.
pub proof fn fresh_log_is_empty(log: Log)
    ensures
        holds(fresh(log), seq![Seq::empty()], Seq::empty()),
        unopened(log, 0).recovered(
            storage::new_segment(log.partition_dir, 0),
            Seq::empty(),
            true,
        ) == Ok::<Log, StorageError>(fresh(log)),
{
    let new = fresh(log);
    let files: Seq<Seq<u8>> = seq![Seq::empty()];
    assert forall|i: int| 0 <= i < new.segments.len() implies #[trigger] segment_holds(
        new,
        files,
        Seq::empty(),
        i,
    ) by {
        assert(segment_entries(new, Seq::empty(), i) =~= Seq::empty());
        assert(storage::encoded_entries(Seq::empty()) =~= Seq::<u8>::empty());
        assert(sparse_index(Seq::empty(), log.index_interval_bytes) =~= Seq::empty());
    }
    reveal(storage::scanned);
    let recovered = unopened(log, 0).recovered(
        storage::new_segment(log.partition_dir, 0),
        Seq::empty(),
        true,
    );
    assert(recovered->Ok_0.segments =~= new.segments);
}

/// A log and its files after `entries` were appended one by one.
pub open spec fn after_appends(log: Log, files: Seq<Seq<u8>>, entries: Seq<Entry>) -> (
    Log,
    Seq<Seq<u8>>,
)
    decreases entries.len(),
{
    if entries.len() == 0 {
        (log, files)
    } else {
        let (before, before_files) = after_appends(log, files, entries.drop_last());
        let bytes = entries.last().encoded();
        (
            before.ready_for(bytes.len()).appended(bytes.len()),
            written(before_files, before.rotates_for(bytes.len()), bytes),
        )
    }
}

/// Whatever was appended to a new partition, the log holds exactly that, in the order of the
/// appends.
pub proof fn appends_make_history(log: Log, entries: Seq<Entry>)
    requires
        numbered(entries, 0),
        entries.len() <= u64::MAX,
        log.max_segment_bytes < u64::MAX || storage::encoded_entries(entries).len() <= u64::MAX,
    ensures
        ({
            let (after, files) = after_appends(fresh(log), seq![Seq::empty()], entries);
            holds(after, files, entries)
        }),
    decreases entries.len(),
{
    if entries.len() == 0 {
        fresh_log_is_empty(log);
        assert(entries =~= Seq::empty());
    } else {
        let front = entries.drop_last();
        let entry = entries.last();
        assert forall|i: int| 0 <= i < front.len() implies (#[trigger] front[i]).offset == i
            && front[i].fits() by {
            assert(front[i] == entries[i]);
        }
        assert(entry == entries[entries.len() - 1]);
        appends_make_history(log, front);
        let (before, files) = after_appends(fresh(log), seq![Seq::empty()], front);
        let last = before.segments.len() - 1;
        assert(segment_holds(before, files, front, last));
        let start = before.segments[last].base_offset as int;
        let part = segment_entries(before, front, last);
        assert(front =~= front.take(start) + part);
        lemma_encoded_concat(front.take(start), part);
        record::lemma_encoded_len(entry);
        lemma_after_appends_limits(log, front);
        append_extends_history(before, files, front, entry);
        assert(front.push(entry) =~= entries);
    }
}

/// Retention leaves what it keeps as it was: a log without its first segments holds what stands
/// from there on, of the same history.
pub proof fn retention_keeps_rest(
    log: Log,
    files: Seq<Seq<u8>>,
    entries: Seq<Entry>,
    removed: int,
)
    requires
        holds(log, files, entries),
        0 <= removed < log.segments.len(),
    ensures
        holds(
            Log { segments: log.segments.skip(removed), ..log },
            files.skip(removed),
            entries,
        ),
{
    let after = Log { segments: log.segments.skip(removed), ..log };
    let kept = files.skip(removed);
    assert forall|i: int| 0 <= i < after.segments.len() implies #[trigger] segment_holds(
        after,
        kept,
        entries,
        i,
    ) by {
        assert(segment_holds(log, files, entries, i + removed));
        assert(segment_end(after, i) == segment_end(log, i + removed));
        assert(segment_entries(after, entries, i) =~= segment_entries(log, entries, i + removed));
    }
}

/// Retention removes closed segments only, and no more than the limits ask for: the segment that
/// it keeps first is young enough and leaves the log small enough, unless it is the active one.
pub proof fn retention_keeps_to_limits(
    log: Log,
    ages_ms: Seq<u64>,
    retention_bytes: Option<u64>,
    retention_ms: Option<u64>,
    segment: int,
)
    requires
        0 <= segment < log.segments.len(),
    ensures
        ({
            let kept = storage::kept_from(log, ages_ms, retention_bytes, retention_ms, segment);
            &&& segment <= kept < log.segments.len()
            &&& !storage::expires(log, ages_ms, retention_bytes, retention_ms, kept)
            &&& forall|i: int|
                segment <= i < kept ==> #[trigger] storage::expires(
                    log,
                    ages_ms,
                    retention_bytes,
                    retention_ms,
                    i,
                )
        }),
    decreases log.segments.len() - segment,
{
    if storage::expires(log, ages_ms, retention_bytes, retention_ms, segment) {
        retention_keeps_to_limits(log, ages_ms, retention_bytes, retention_ms, segment + 1);
    }
}

/// A scan up to an offset takes a record below it that has the expected offset.
proof fn lemma_scan_to_step(entry: Entry, rest: Seq<u8>, so_far: Scan, interval: u64, to: u64)
    requires
        entry.fits(),
        entry.offset == so_far.next_offset,
        so_far.next_offset < to,
    ensures
        storage::scanned_to(entry.encoded() + rest, so_far, interval, to) == storage::scanned_to(
            rest,
            so_far.advanced(entry.encoded().len(), interval),
            interval,
            to,
        ),
{
    reveal(storage::scanned_to);
    record::record_round_trip(entry, rest);
    record::lemma_encoded_len(entry);
}

proof fn lemma_scan_to(
    entries: Seq<Entry>,
    first: u64,
    count: int,
    wanted: int,
    interval: u64,
)
    requires
        numbered(entries, first as int),
        first + entries.len() <= u64::MAX,
        0 <= count <= wanted <= entries.len(),
    ensures
        storage::scanned_to(
            storage::encoded_entries(entries.skip(count)),
            scan_after(entries, first, count, interval),
            interval,
            (first + wanted) as u64,
        ) == Ok::<Scan, StorageError>(scan_after(entries, first, wanted, interval)),
    decreases wanted - count,
{
    if count == wanted {
        reveal(storage::scanned_to);
    } else {
        let entry = entries[count];
        let left = entries.skip(count);
        let rest = storage::encoded_entries(entries.skip(count + 1));
        let scan = scan_after(entries, first, count, interval);
        assert(left.skip(1) =~= entries.skip(count + 1));
        lemma_encoded_head(left);
        lemma_scan_to_step(entry, rest, scan, interval, (first + wanted) as u64);
        assert(entries.take(count + 1).drop_last() =~= entries.take(count));
        assert(scan.advanced(entry.encoded().len(), interval) =~= scan_after(
            entries,
            first,
            count + 1,
            interval,
        ));
        lemma_scan_to(entries, first, count + 1, wanted, interval);
    }
}

proof fn lemma_segment_below(log: Log, to: u64, segment: int)
    requires
        0 <= segment < log.segments.len(),
        log.segments[0].base_offset <= to,
    ensures
        0 <= log.segment_below(to, segment) <= segment,
        log.segments[log.segment_below(to, segment)].base_offset <= to,
        forall|i: int|
            log.segment_below(to, segment) < i <= segment ==> (#[trigger] log.segments[i]).base_offset
                > to,
    decreases segment,
{
    if segment > 0 && log.segments[segment].base_offset > to {
        lemma_segment_below(log, to, segment - 1);
    }
}

/// A segment that is looked through up to an offset keeps the entries below the offset.
#[verifier::spinoff_prover]
proof fn lemma_cut_part(part: Seq<Entry>, base: u64, count: int, interval: u64)
    requires
        numbered(part, base as int),
        base + part.len() <= u64::MAX,
        0 <= count <= part.len(),
    ensures
        ({
            let front = part.take(count);
            let bytes = storage::encoded_entries(part);
            let kept = storage::encoded_entries(front);
            &&& storage::scanned_to(
                bytes,
                Scan::start(base),
                interval,
                (base + count) as u64,
            ) == Ok::<Scan, StorageError>(scan_after(part, base, count, interval))
            &&& scan_after(part, base, count, interval).next_offset == base + count
            &&& scan_after(part, base, count, interval).len == kept.len()
            &&& scan_after(part, base, count, interval).index == sparse_index(front, interval)
            &&& kept.len() <= bytes.len()
            &&& bytes.take(kept.len() as int) == kept
        }),
{
    lemma_scan_to(part, base, 0, count, interval);
    assert(part.skip(0) =~= part);
    assert(part.take(0) =~= Seq::empty());
    assert(scan_after(part, base, 0, interval) =~= Scan::start(base));
    let front = part.take(count);
    lemma_encoded_concat(front, part.skip(count));
    assert(front + part.skip(count) =~= part);
    let kept = storage::encoded_entries(front);
    assert(storage::encoded_entries(part).take(kept.len() as int) =~= kept);
}

/// The segment in which a log is cut off keeps the entries below the offset.
#[verifier::spinoff_prover]
proof fn lemma_cut_segment(log: Log, files: Seq<Seq<u8>>, entries: Seq<Entry>, to: u64)
    requires
        holds(log, files, entries),
        log.segments[0].base_offset <= to <= entries.len(),
    ensures
        ({
            let last = log.cut_segment(to);
            let base = log.segments[last].base_offset;
            let front = entries.subrange(base as int, to as int);
            &&& 0 <= last < log.segments.len()
            &&& base <= to <= segment_end(log, last)
            &&& log.truncated(to, files[last]) matches Ok(after)
            &&& after == (Log {
                next_offset: to,
                segments: log.segments.take(last).push(after.active()),
                ..log
            })
            &&& after.active().index == sparse_index(front, log.index_interval_bytes)
            &&& after.active().base_offset == base
            &&& after.active().path == log.segments[last].path
            &&& after.active().len == storage::encoded_entries(front).len()
            &&& files[last].take(after.active().len as int) == storage::encoded_entries(front)
            &&& after.active().len <= files[last].len()
        }),
{
    let last = log.cut_segment(to);
    lemma_segment_below(log, to, log.segments.len() - 1);
    assert(segment_holds(log, files, entries, last));
    if last + 1 < log.segments.len() {
        assert(log.segments[last + 1].base_offset > to);
    }
    let base = log.segments[last].base_offset;
    let part = segment_entries(log, entries, last);
    let count = to - base;
    assert forall|k: int| 0 <= k < part.len() implies (#[trigger] part[k]).offset == base + k
        && part[k].fits() by {
        assert(part[k] == entries[base + k]);
    }
    lemma_cut_part(part, base, count, log.index_interval_bytes);
    assert(part.take(count) =~= entries.subrange(base as int, to as int));
}

/// A log that is cut off holds what it held below the offset, and nothing else.
#[verifier::spinoff_prover]
pub proof fn truncation_keeps_front(
    log: Log,
    files: Seq<Seq<u8>>,
    entries: Seq<Entry>,
    to: u64,
)
    requires
        holds(log, files, entries),
        log.segments[0].base_offset <= to <= entries.len(),
    ensures
        ({
            let last = log.cut_segment(to);
            &&& log.truncated(to, files[last]) matches Ok(after)
            &&& holds(
                after,
                files.take(last).push(files[last].take(after.active().len as int)),
                entries.take(to as int),
            )
        }),
{
    let last = log.cut_segment(to);
    lemma_cut_segment(log, files, entries, to);
    let after = log.truncated(to, files[last])->Ok_0;
    let kept = entries.take(to as int);
    let base = log.segments[last].base_offset;
    let cut = files.take(last).push(files[last].take(after.active().len as int));
    assert forall|i: int| 0 <= i < after.segments.len() implies #[trigger] segment_holds(
        after,
        cut,
        kept,
        i,
    ) by {
        assert(segment_holds(log, files, entries, i));
        if i < last {
            assert(after.segments[i] == log.segments[i]);
            assert(segment_holds(log, files, entries, i + 1));
            assert(after.segments[i + 1].base_offset == log.segments[i + 1].base_offset);
            assert(segment_end(after, i) == segment_end(log, i));
            lemma_bases_rise(log, files, entries, i + 1, last);
            assert(segment_entries(after, kept, i) =~= segment_entries(log, entries, i));
        } else {
            assert(segment_entries(after, kept, i) =~= entries.subrange(base as int, to as int));
        }
    }
    assert forall|i: int| 0 <= i < kept.len() implies (#[trigger] kept[i]).offset == i
        && kept[i].fits() by {
        assert(kept[i] == entries[i]);
    }
}

/// A follower does what `replication::held_after` says: of the leader's records it takes the one that
/// comes next, and its log then holds it as well; any other leaves the log as it is. It answers with
/// the number of records that it holds.
pub proof fn receiving_follows_leader(
    before: StorageState,
    record: ReplicateRecord,
    after: StorageState,
    step: Result<ReplicaStep, StorageError>,
    files: Seq<Seq<u8>>,
    leader: Seq<Entry>,
    held: Seq<Entry>,
)
    requires
        broker::is_received(before, record, after, step),
        before.has_topic(record.topic@),
        record.partition < before.topics[record.topic@],
        before.has_log(record.topic@, record.partition),
        broker::epoch_checked(before, record).0 == Ok::<Option<u64>, StorageError>(None),
        holds(before.log(record.topic@, record.partition), files, held),
        record.offset < leader.len(),
        record@ == leader[record.offset as int],
        record@.fits(),
        record.offset < u64::MAX,
        ({
            let size = record@.encoded().len();
            before.log(record.topic@, record.partition).ready_for(size).active().len + size
                <= u64::MAX
        }),
    ensures
        ({
            let log = before.log(record.topic@, record.partition);
            let size = record@.encoded().len();
            let reached = replication::held_after(leader, held, record.offset);
            &&& after.log(record.topic@, record.partition) == log
            &&& if record.offset == held.len() {
                &&& step matches Ok(ReplicaStep::Write { plan, .. })
                &&& broker::is_plan(plan, log, record@)
                &&& holds(
                    log.ready_for(size).appended(size),
                    written(files, plan.rotate, record@.encoded()),
                    reached,
                )
                &&& log.ready_for(size).appended(size).next_offset == reached.len()
            } else {
                &&& step matches Ok(ReplicaStep::Held { next_offset })
                &&& holds(log, files, reached)
                &&& next_offset == reached.len()
            }
        }),
{
    let log = before.log(record.topic@, record.partition);
    if record.offset == held.len() {
        append_extends_history(log, files, held, record@);
    }
}

proof fn lemma_bases_rise(
    log: Log,
    files: Seq<Seq<u8>>,
    entries: Seq<Entry>,
    first: int,
    second: int,
)
    requires
        holds(log, files, entries),
        0 <= first <= second < log.segments.len(),
    ensures
        log.segments[first].base_offset <= log.segments[second].base_offset,
    decreases second - first,
{
    if first < second {
        lemma_bases_rise(log, files, entries, first, second - 1);
        assert(segment_holds(log, files, entries, second - 1));
    }
}

/// Each segment keeps to the size limit or holds a single record, and none but the last is empty.
pub open spec fn segments_bounded(log: Log, entries: Seq<Entry>) -> bool {
    forall|i: int|
        0 <= i < log.segments.len() ==> {
            &&& (#[trigger] log.segments[i]).len <= log.max_segment_bytes || segment_entries(
                log,
                entries,
                i,
            ).len() == 1
            &&& log.segments[i].len == 0 ==> i == log.segments.len() - 1
        }
}

proof fn lemma_no_bytes(entries: Seq<Entry>)
    ensures
        storage::encoded_entries(entries).len() == 0 ==> entries.len() == 0,
{
    if entries.len() > 0 {
        record::lemma_encoded_len(entries.last());
    }
}

proof fn lemma_append_bounded(log: Log, files: Seq<Seq<u8>>, entries: Seq<Entry>, entry: Entry)
    requires
        holds(log, files, entries),
        segments_bounded(log, entries),
        entry.offset == log.next_offset,
        entry.fits(),
        log.next_offset < u64::MAX,
        log.ready_for(entry.encoded().len()).active().len + entry.encoded().len() <= u64::MAX,
    ensures
        segments_bounded(
            log.ready_for(entry.encoded().len()).appended(entry.encoded().len()),
            entries.push(entry),
        ),
{
    let size = entry.encoded().len();
    let after = log.ready_for(size).appended(size);
    let new_entries = entries.push(entry);
    let last = after.segments.len() - 1;
    record::lemma_encoded_len(entry);
    assert forall|i: int| 0 <= i < after.segments.len() implies {
        &&& (#[trigger] after.segments[i]).len <= after.max_segment_bytes || segment_entries(
            after,
            new_entries,
            i,
        ).len() == 1
        &&& after.segments[i].len == 0 ==> i == last
    } by {
        if i < last {
            assert(segment_holds(log, files, entries, i));
            assert(after.segments[i] == log.segments[i]);
            assert(segment_end(after, i) == segment_end(log, i));
            assert(segment_entries(after, new_entries, i) =~= segment_entries(log, entries, i));
        } else if !log.rotates_for(size) {
            assert(segment_holds(log, files, entries, i));
            lemma_no_bytes(segment_entries(log, entries, i));
        }
    }
}

/// The bytes that entries take in a log.
pub open spec fn record_bytes(entries: Seq<Entry>) -> nat
    decreases entries.len(),
{
    if entries.len() == 0 {
        0
    } else {
        record_bytes(entries.drop_last()) + 33 + entries.last().key_bytes().len()
            + entries.last().value.len()
    }
}

proof fn lemma_record_bytes(entries: Seq<Entry>)
    ensures
        storage::encoded_entries(entries).len() == record_bytes(entries),
    decreases entries.len(),
{
    if entries.len() > 0 {
        lemma_record_bytes(entries.drop_last());
        record::lemma_encoded_len(entries.last());
    }
}

/// The length of a segment is that of its file, and the bytes of the records that it holds.
pub proof fn segment_length_counts_records(
    log: Log,
    files: Seq<Seq<u8>>,
    entries: Seq<Entry>,
    segment: int,
)
    requires
        holds(log, files, entries),
        0 <= segment < log.segments.len(),
    ensures
        log.segments[segment].len == files[segment].len(),
        log.segments[segment].len == record_bytes(segment_entries(log, entries, segment)),
{
    assert(segment_holds(log, files, entries, segment));
    lemma_record_bytes(segment_entries(log, entries, segment));
}

/// Whatever was appended to a new partition, each segment is at most as long as the limit allows
/// or holds exactly one record, and only the last can be empty. Without a limit, the records have
/// to fit into one segment.
pub proof fn segments_keep_to_limit(log: Log, entries: Seq<Entry>)
    requires
        numbered(entries, 0),
        entries.len() <= u64::MAX,
        log.max_segment_bytes < u64::MAX || storage::encoded_entries(entries).len() <= u64::MAX,
    ensures
        segments_bounded(
            after_appends(fresh(log), seq![Seq::empty()], entries).0,
            entries,
        ),
    decreases entries.len(),
{
    if entries.len() > 0 {
        let front = entries.drop_last();
        let entry = entries.last();
        assert forall|i: int| 0 <= i < front.len() implies (#[trigger] front[i]).offset == i
            && front[i].fits() by {
            assert(front[i] == entries[i]);
        }
        assert(entry == entries[entries.len() - 1]);
        segments_keep_to_limit(log, front);
        appends_make_history(log, front);
        let (before, files) = after_appends(fresh(log), seq![Seq::empty()], front);
        let last = before.segments.len() - 1;
        assert(segment_holds(before, files, front, last));
        let start = before.segments[last].base_offset as int;
        let part = segment_entries(before, front, last);
        assert(front =~= front.take(start) + part);
        lemma_encoded_concat(front.take(start), part);
        record::lemma_encoded_len(entry);
        lemma_after_appends_limits(log, front);
        lemma_append_bounded(before, files, front, entry);
        assert(front.push(entry) =~= entries);
    }
}

proof fn lemma_after_appends_limits(log: Log, entries: Seq<Entry>)
    ensures
        after_appends(fresh(log), seq![Seq::empty()], entries).0.max_segment_bytes
            == log.max_segment_bytes,
    decreases entries.len(),
{
    if entries.len() > 0 {
        lemma_after_appends_limits(log, entries.drop_last());
    }
}

} // verus!
