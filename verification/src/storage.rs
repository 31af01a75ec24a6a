//! The log of a partition: segments, sparse indexes, appending, recovery and reading.
//!
//! A [`PartitionLog`] decides what is written where; it holds no file. Whoever owns the files
//! creates the segments, writes the bytes of a plan and then tells the log that it is done.

use bytes::BytesMut;
use vstd::prelude::*;

use crate::buffer;
use crate::endian;
use crate::record;
use crate::record::{Entry, FrontRecord, Record, StorageError, StoredRecord};
use crate::sorted;
use crate::text;

verus! {

pub const INDEX_ENTRY_SIZE: usize = 16;

/// Where a record with a given offset starts in its segment.
#[derive(Debug, Clone, Copy, PartialEq, Eq, Structural)]
pub struct IndexEntry {
    pub offset: u64,
    pub position: u64,
}

impl IndexEntry {
    /// The entry as it stands in an index file.
    pub open spec fn encoded(self) -> Seq<u8> {
        endian::be_bytes(self.offset as nat, 8) + endian::be_bytes(self.position as nat, 8)
    }
}

/// A segment as a value.
#[verifier::ext_equal]
pub struct Segment {
    pub base_offset: u64,
    pub path: Seq<char>,
    pub len: u64,
    pub index: Seq<IndexEntry>,
}

/// The log of a partition as a value.
#[verifier::ext_equal]
pub struct Log {
    pub next_offset: u64,
    pub max_segment_bytes: u64,
    pub index_interval_bytes: u64,
    pub partition_dir: Seq<char>,
    pub segments: Seq<Segment>,
}

/// `name` below the directory `dir`.
pub open spec fn path_below(dir: Seq<char>, name: Seq<char>) -> Seq<char> {
    if dir.len() == 0 || dir.last() == '/' {
        dir + name
    } else {
        dir.push('/') + name
    }
}

/// The directory of a partition.
pub open spec fn partition_path(data_dir: Seq<char>, topic: Seq<char>, partition: nat) -> Seq<
    char,
> {
    path_below(path_below(data_dir, topic), text::decimal(partition))
}

/// The file name of the segment that starts at `base_offset`.
pub open spec fn segment_name(base_offset: nat) -> Seq<char> {
    text::fixed_width(base_offset, 10, 20) + ".log"@
}

pub open spec fn segment_path(partition_dir: Seq<char>, base_offset: nat) -> Seq<char> {
    path_below(partition_dir, segment_name(base_offset))
}

/// A segment without records.
pub open spec fn new_segment(partition_dir: Seq<char>, base_offset: u64) -> Segment {
    Segment {
        base_offset,
        path: segment_path(partition_dir, base_offset as nat),
        len: 0,
        index: Seq::empty(),
    }
}

/// Whether a record at `position` gets an index entry: the first of a segment does, and each
/// that starts at least the interval behind the last one indexed.
pub open spec fn is_indexed(index: Seq<IndexEntry>, position: int, interval: int) -> bool {
    index.len() == 0 || (position - index.last().position >= interval)
}

impl Log {
    pub open spec fn active(self) -> Segment {
        self.segments.last()
    }

    /// Whether a record of `size` bytes makes the log start a new segment: the active one is
    /// not empty and would grow past the limit. The largest limit stands for none.
    pub open spec fn rotates_for(self, size: nat) -> bool {
        self.active().len != 0 && self.active().len + size > self.max_segment_bytes
            && self.max_segment_bytes < u64::MAX
    }

    /// The log with a new active segment.
    pub open spec fn rotated(self) -> Log {
        Log {
            segments: self.segments.push(new_segment(self.partition_dir, self.next_offset)),
            ..self
        }
    }

    /// The log that is ready for a record of `size` bytes.
    pub open spec fn ready_for(self, size: nat) -> Log {
        if self.rotates_for(size) {
            self.rotated()
        } else {
            self
        }
    }

    /// Whether a record that starts where the active segment ends is indexed.
    pub open spec fn indexes_next(self) -> bool {
        is_indexed(
            self.active().index,
            self.active().len as int,
            self.index_interval_bytes as int,
        )
    }

    /// The active segment with one more record of `size` bytes.
    pub open spec fn grown_segment(self, size: nat) -> Segment {
        let active = self.active();
        Segment {
            len: (active.len + size) as u64,
            index: if self.indexes_next() {
                active.index.push(
                    IndexEntry { offset: self.next_offset, position: active.len },
                )
            } else {
                active.index
            },
            ..active
        }
    }

    /// The log after a record of `size` bytes was written to its active segment.
    pub open spec fn appended(self, size: nat) -> Log {
        Log {
            next_offset: if self.next_offset == u64::MAX {
                self.next_offset
            } else {
                (self.next_offset + 1) as u64
            },
            segments: self.segments.update(self.segments.len() - 1, self.grown_segment(size)),
            ..self
        }
    }
}

/// The bytes of some segments.
pub open spec fn segment_bytes(segments: Seq<Segment>) -> nat
    decreases segments.len(),
{
    if segments.len() == 0 {
        0
    } else {
        segment_bytes(segments.drop_last()) + segments.last().len as nat
    }
}

/// A file of a partition: where its records start, how long it is, and its sparse index.
#[derive(Debug, PartialEq, Eq)]
pub struct SegmentMetadata {
    base_offset: u64,
    path: String,
    len: u64,
    index: Vec<IndexEntry>,
}

impl View for SegmentMetadata {
    type V = Segment;

    closed spec fn view(&self) -> Segment {
        Segment {
            base_offset: self.base_offset,
            path: self.path@,
            len: self.len,
            index: self.index@,
        }
    }
}

impl SegmentMetadata {
    pub fn base_offset(&self) -> (base_offset: u64)
        ensures
            base_offset == self@.base_offset,
    {
        self.base_offset
    }

    pub fn path(&self) -> (path: &str)
        ensures
            path@ == self@.path,
    {
        self.path.as_str()
    }

    pub fn len(&self) -> (len: u64)
        ensures
            len == self@.len,
    {
        self.len
    }

    pub fn is_empty(&self) -> (empty: bool)
        ensures
            empty == (self@.len == 0),
    {
        self.len == 0
    }
}

/// What is to be written for one record.
pub struct AppendPlan {
    /// The offset that the record gets.
    pub offset: u64,
    /// Whether a new segment is created first.
    pub rotate: bool,
    /// Where in the segment the record starts.
    pub position: u64,
    /// Whether the record gets an index entry.
    pub indexed: bool,
    /// The bytes of the record.
    pub encoded: BytesMut,
}

impl AppendPlan {
    /// Whether the plan is what `log`, which has the segment that the record goes to, does with
    /// a record of this size.
    pub open spec fn suits(self, log: Log) -> bool {
        &&& self.offset == log.next_offset
        &&& self.position == log.active().len
        &&& self.indexed == log.indexes_next()
    }

    /// The index entry to write, where the record gets one.
    pub fn index_entry(&self) -> (entry: Option<Vec<u8>>)
        ensures
            match entry {
                Some(bytes) => self.indexed && bytes@ == (IndexEntry {
                    offset: self.offset,
                    position: self.position,
                }).encoded(),
                None => !self.indexed,
            },
    {
        if self.indexed {
            Some(encode_index_entry(self.offset, self.position))
        } else {
            None
        }
    }
}

/// Which records a partition has and where they are.
pub struct PartitionLog {
    next_offset: u64,
    max_segment_bytes: u64,
    index_interval_bytes: u64,
    partition_dir: String,
    segments: Vec<SegmentMetadata>,
}

impl View for PartitionLog {
    type V = Log;

    closed spec fn view(&self) -> Log {
        Log {
            next_offset: self.next_offset,
            max_segment_bytes: self.max_segment_bytes,
            index_interval_bytes: self.index_interval_bytes,
            partition_dir: self.partition_dir@,
            segments: segment_views(self.segments@),
        }
    }
}

impl PartitionLog {
    /// A log has an active segment, and its limits are not zero.
    pub open spec fn wf(self) -> bool {
        &&& self@.segments.len() > 0
        &&& self@.max_segment_bytes > 0
        &&& self@.index_interval_bytes > 0
    }

    /// What is to be written for `record`.
    pub fn plan_append(&self, record: &Record) -> (plan: Result<AppendPlan, StorageError>)
        requires
            self.wf(),
        ensures
            ({
                let entry = record.at(self@.next_offset);
                let size = entry.encoded().len();
                if entry.fits() {
                    &&& plan matches Ok(made)
                    &&& buffer::buffered(made.encoded) == entry.encoded()
                    &&& made.rotate == self@.rotates_for(size)
                    &&& made.suits(self@.ready_for(size))
                } else {
                    plan matches Err(error) && error == StorageError::RecordTooLarge
                }
            }),
    {
        let offset: u64 = self.next_offset;
        let encoded = match record::encode_record(record, offset) {
            Ok(encoded) => encoded,
            Err(error) => return Err(error),
        };
        let encoded_len: u64 = encoded.len() as u64;
        let last: usize = self.segments.len() - 1;
        let active = &self.segments[last];
        assert(self@.active() == active@);
        assert(encoded_len == record.at(offset).encoded().len());
        if !active.is_empty() && active.len.saturating_add(encoded_len) > self.max_segment_bytes {
            proof {
                assert(self@.rotated().active() == new_segment(
                    self@.partition_dir,
                    self@.next_offset,
                ));
            }
            return Ok(AppendPlan { offset, rotate: true, position: 0, indexed: true, encoded });
        }
        let position: u64 = active.len;
        let indexed: bool = wants_index(&active.index, position, self.index_interval_bytes);
        Ok(AppendPlan { offset, rotate: false, position, indexed, encoded })
    }

    /// Where the next segment is created.
    pub fn next_segment_path(&self) -> (path: String)
        ensures
            path@ == segment_path(self@.partition_dir, self@.next_offset as nat),
    {
        log_path(self.partition_dir.as_str(), self.next_offset)
    }

    /// Makes the newly created segment the active one.
    pub fn rotate(&mut self)
        requires
            old(self).wf(),
        ensures
            final(self).wf(),
            final(self)@ == old(self)@.rotated(),
    {
        let segment = create_segment(self.partition_dir.as_str(), self.next_offset);
        self.segments.push(segment);
        assert(self@ =~= old(self)@.rotated());
    }

    /// Takes note that the bytes of `plan` were written, and gives the record's offset.
    pub fn append(&mut self, plan: &AppendPlan) -> (offset: Result<u64, StorageError>)
        requires
            old(self).wf(),
            plan.suits(old(self)@),
        ensures
            final(self).wf(),
            ({
                let size = buffer::buffered(plan.encoded).len();
                if old(self)@.active().len + size > u64::MAX {
                    &&& offset == Err::<u64, StorageError>(StorageError::RecordTooLarge)
                    &&& final(self)@ == old(self)@
                } else {
                    &&& offset == if old(self)@.next_offset == u64::MAX {
                        Err::<u64, StorageError>(StorageError::OffsetOverflow)
                    } else {
                        Ok(plan.offset)
                    }
                    &&& final(self)@ == old(self)@.appended(size)
                }
            }),
    {
        let ghost before = self@;
        let encoded_len: u64 = plan.encoded.len() as u64;
        let mut active = match self.segments.pop() {
            Some(active) => active,
            None => return Err(StorageError::MissingActiveSegment),
        };
        assert(before.active() == active@);
        match active.len.checked_add(encoded_len) {
            None => {
                self.segments.push(active);
                assert(self@ =~= before);
                return Err(StorageError::RecordTooLarge);
            },
            Some(len) => {
                active.len = len;
            },
        }
        if plan.indexed {
            active.index.push(IndexEntry { offset: plan.offset, position: plan.position });
        }
        let ghost grown = active@;
        self.segments.push(active);
        proof {
            let size = buffer::buffered(plan.encoded).len();
            assert(grown =~= before.grown_segment(size));
            assert(self@.segments =~= before.appended(size).segments);
        }
        if self.next_offset == u64::MAX {
            return Err(StorageError::OffsetOverflow);
        }
        self.next_offset = self.next_offset + 1;
        Ok(plan.offset)
    }

    /// The file that records are appended to.
    pub fn active_path(&self) -> (path: &str)
        requires
            self.wf(),
        ensures
            path@ == self@.active().path,
    {
        self.segments[self.segments.len() - 1].path()
    }

    /// The offset that the next record gets.
    pub fn next_offset(&self) -> (next_offset: u64)
        ensures
            next_offset == self@.next_offset,
    {
        self.next_offset
    }

    /// The earliest offset that the log holds.
    pub fn low_watermark(&self) -> (low_watermark: u64)
        requires
            self.wf(),
        ensures
            low_watermark == self@.segments[0].base_offset,
    {
        self.segments[0].base_offset
    }

    /// The bytes of all segments; the largest number stands for larger ones.
    pub fn log_size_bytes(&self) -> (bytes: u64)
        ensures
            bytes == if segment_bytes(self@.segments) > u64::MAX {
                u64::MAX as nat
            } else {
                segment_bytes(self@.segments)
            },
    {
        let ghost all = self@.segments;
        let mut bytes: u64 = 0;
        let mut i: usize = 0;
        while i < self.segments.len()
            invariant
                i <= self.segments@.len(),
                all == segment_views(self.segments@),
                bytes == if segment_bytes(all.take(i as int)) > u64::MAX {
                    u64::MAX as nat
                } else {
                    segment_bytes(all.take(i as int))
                },
            decreases self.segments@.len() - i,
        {
            proof {
                assert(all.take(i + 1).drop_last() =~= all.take(i as int));
                assert(all.take(i + 1).last() == self.segments@[i as int]@);
            }
            bytes = bytes.saturating_add(self.segments[i].len);
            i = i + 1;
        }
        assert(all.take(i as int) =~= all);
        bytes
    }

    pub fn partition_dir(&self) -> (dir: &str)
        ensures
            dir@ == self@.partition_dir,
    {
        self.partition_dir.as_str()
    }

    pub fn segments(&self) -> (segments: &[SegmentMetadata])
        ensures
            segment_views(segments@) == self@.segments,
    {
        self.segments.as_slice()
    }
}

/// `name` below the directory `dir`.
pub fn join_path(dir: &str, name: &str) -> (path: String)
    ensures
        path@ == path_below(dir@, name@),
{
    let chars = text::chars_of(dir);
    let mut path = dir.to_owned();
    if chars.len() > 0 && chars[chars.len() - 1] != '/' {
        path.push('/');
    }
    path.append(name);
    path
}

fn log_path(partition_dir: &str, base_offset: u64) -> (path: String)
    ensures
        path@ == segment_path(partition_dir@, base_offset as nat),
{
    let mut name = String::new();
    text::push_fixed_width(&mut name, base_offset, 10, 20);
    name.append(".log");
    assert(name@ =~= segment_name(base_offset as nat));
    join_path(partition_dir, name.as_str())
}

/// A segment without records that starts at `base_offset`.
pub fn create_segment(partition_dir: &str, base_offset: u64) -> (segment: SegmentMetadata)
    ensures
        segment@ == new_segment(partition_dir@, base_offset),
{
    let segment = SegmentMetadata {
        base_offset,
        path: log_path(partition_dir, base_offset),
        len: 0,
        index: Vec::new(),
    };
    assert(segment@ =~= new_segment(partition_dir@, base_offset));
    segment
}

/// Whether `path` names a file with the extension `log`.
pub open spec fn is_log_path(path: Seq<char>) -> bool {
    &&& path.len() >= 5
    &&& path.skip(path.len() - 4) == ".log"@
    &&& path[path.len() - 5] != '/'
}

/// The index file of a log file: the extension `log` gives way to `idx`.
pub fn index_path(log_path: &str) -> (path: String)
    requires
        is_log_path(log_path@),
    ensures
        path@ == log_path@.take(log_path@.len() - 4) + ".idx"@,
{
    let chars = text::chars_of(log_path);
    let mut path = text::string_of(vstd::slice::slice_subrange(chars.as_slice(), 0, chars.len() - 4));
    path.append(".idx");
    path
}

/// Whether a record at `position` gets an entry in `index`.
fn wants_index(index: &Vec<IndexEntry>, position: u64, interval: u64) -> (wanted: bool)
    requires
        interval > 0,
    ensures
        wanted == is_indexed(index@, position as int, interval as int),
{
    if index.len() == 0 {
        true
    } else {
        let last: usize = index.len() - 1;
        position.saturating_sub(index[last].position) >= interval
    }
}

fn encode_index_entry(offset: u64, position: u64) -> (encoded: Vec<u8>)
    ensures
        encoded@ == (IndexEntry { offset, position }).encoded(),
{
    let mut encoded: Vec<u8> = Vec::new();
    endian::push_u64(&mut encoded, offset);
    endian::push_u64(&mut encoded, position);
    assert(encoded@ =~= (IndexEntry { offset, position }).encoded());
    encoded
}

/// What was learned of a segment from its bytes up to some point.
#[verifier::ext_equal]
pub struct Scan {
    /// The offset that the next record must have.
    pub next_offset: u64,
    /// How many bytes the records so far take.
    pub len: nat,
    pub index: Seq<IndexEntry>,
}

impl Scan {
    /// Before the first record.
    pub open spec fn start(next_offset: u64) -> Scan {
        Scan { next_offset, len: 0, index: Seq::empty() }
    }

    /// After one more record of `size` bytes.
    pub open spec fn advanced(self, size: nat, interval: u64) -> Scan {
        Scan {
            next_offset: (self.next_offset + 1) as u64,
            len: self.len + size,
            index: if is_indexed(self.index, self.len as int, interval as int) {
                self.index.push(
                    IndexEntry { offset: self.next_offset, position: self.len as u64 },
                )
            } else {
                self.index
            },
        }
    }
}

/// What the records at the front of `bytes` add to a scan. The scan ends at the first place
/// where no whole record stands; a record that cannot be there is an error.
#[verifier::opaque]
pub open spec fn scanned(bytes: Seq<u8>, so_far: Scan, interval: u64) -> Result<Scan, StorageError>
    decreases bytes.len(),
{
    match record::front_record(bytes) {
        FrontRecord::Partial => Ok(so_far),
        FrontRecord::Refused(error) => Err(error),
        FrontRecord::Whole { record, rest } => match record::parse_record(record) {
            Err(error) => Err(error),
            Ok(entry) => if entry.offset != so_far.next_offset {
                Err(
                    StorageError::UnexpectedOffset {
                        expected: so_far.next_offset,
                        actual: entry.offset,
                    },
                )
            } else if so_far.next_offset == u64::MAX {
                Err(StorageError::OffsetOverflow)
            } else {
                scanned(rest, so_far.advanced(4 + record.len(), interval), interval)
            },
        },
    }
}

impl Log {
    /// The log with a segment as recovery leaves it, or why the segment cannot be recovered.
    pub open spec fn recovered(self, segment: Segment, contents: Seq<u8>, active: bool) -> Result<
        Log,
        StorageError,
    > {
        if segment.base_offset != self.next_offset {
            Err(
                StorageError::UnexpectedSegmentBase {
                    expected: self.next_offset,
                    actual: segment.base_offset,
                },
            )
        } else {
            match scanned(contents, Scan::start(self.next_offset), self.index_interval_bytes) {
                Err(error) => Err(error),
                Ok(scan) => if scan.len < segment.len && !active {
                    Err(StorageError::IncompleteClosedSegment(segment.base_offset))
                } else {
                    Ok(
                        Log {
                            next_offset: scan.next_offset,
                            segments: self.segments.push(
                                Segment {
                                    len: if scan.len < segment.len {
                                        scan.len as u64
                                    } else {
                                        segment.len
                                    },
                                    index: scan.index,
                                    ..segment
                                },
                            ),
                            ..self
                        },
                    )
                },
            }
        }
    }
}

/// The bytes of an index file.
pub open spec fn encoded_index(index: Seq<IndexEntry>) -> Seq<u8>
    decreases index.len(),
{
    if index.len() == 0 {
        Seq::empty()
    } else {
        encoded_index(index.drop_last()) + index.last().encoded()
    }
}

/// What recovery has to put right in the files of a segment.
pub struct SegmentRepair {
    /// Where to cut off an incomplete tail.
    pub truncate_to: Option<u64>,
    /// What the index file has to hold.
    pub index: Vec<u8>,
}

/// A log while its segments are recovered, one after the other.
pub struct LogRecovery {
    log: PartitionLog,
}

impl View for LogRecovery {
    type V = Log;

    closed spec fn view(&self) -> Log {
        self.log@
    }
}

impl LogRecovery {
    pub open spec fn wf(self) -> bool {
        self@.max_segment_bytes > 0 && self@.index_interval_bytes > 0
    }

    /// The directory that holds the segments.
    pub fn partition_dir(&self) -> (dir: &str)
        ensures
            dir@ == self@.partition_dir,
    {
        self.log.partition_dir.as_str()
    }

    /// Starts at `base_offset` in place of zero: the records before it were removed.
    pub fn resume_at(self, base_offset: u64) -> (recovery: LogRecovery)
        requires
            self.wf(),
            self@.segments.len() == 0,
        ensures
            recovery.wf(),
            recovery@ == (Log { next_offset: base_offset, ..self@ }),
    {
        let mut recovery = self;
        recovery.log.next_offset = base_offset;
        recovery
    }

    /// Recovers the next segment from its bytes. `active` tells whether it is the last one.
    pub fn recover_segment(
        &mut self,
        segment: SegmentMetadata,
        contents: &[u8],
        active: bool,
    ) -> (repair: Result<SegmentRepair, StorageError>)
        requires
            old(self).wf(),
        ensures
            final(self).wf(),
            match old(self)@.recovered(segment@, contents@, active) {
                Ok(log) => {
                    &&& final(self)@ == log
                    &&& repair matches Ok(made)
                    &&& made.index@ == encoded_index(log.active().index)
                    &&& made.truncate_to == if log.active().len < segment@.len {
                        Some(log.active().len)
                    } else {
                        None
                    }
                },
                Err(error) => {
                    &&& final(self)@ == old(self)@
                    &&& repair matches Err(found) && found == error
                },
            },
    {
        let ghost before = self@;
        if segment.base_offset != self.log.next_offset {
            return Err(
                StorageError::UnexpectedSegmentBase {
                    expected: self.log.next_offset,
                    actual: segment.base_offset,
                },
            );
        }
        let (next_offset, valid_len, index) = match scan_segment(
            contents,
            self.log.next_offset,
            self.log.index_interval_bytes,
        ) {
            Ok(scan) => scan,
            Err(error) => return Err(error),
        };
        let mut recovered = segment;
        let mut truncate_to: Option<u64> = None;
        if valid_len < recovered.len {
            if !active {
                return Err(StorageError::IncompleteClosedSegment(recovered.base_offset));
            }
            recovered.len = valid_len;
            truncate_to = Some(valid_len);
        }
        let encoded = encode_index(&index);
        recovered.index = index;
        let ghost last = recovered@;
        self.log.segments.push(recovered);
        self.log.next_offset = next_offset;
        proof {
            let log = before.recovered(segment@, contents@, active)->Ok_0;
            assert(self@.segments =~= log.segments);
        }
        Ok(SegmentRepair { truncate_to, index: encoded })
    }

    /// The recovered log.
    pub fn finish(self) -> (log: PartitionLog)
        requires
            self.wf(),
            self@.segments.len() > 0,
        ensures
            log.wf(),
            log@ == self@,
    {
        self.log
    }
}

/// The next offset, the length of the whole records, and the sparse index of a segment.
fn scan_segment(contents: &[u8], base_offset: u64, interval: u64) -> (scan: Result<
    (u64, u64, Vec<IndexEntry>),
    StorageError,
>)
    requires
        interval > 0,
    ensures
        match scanned(contents@, Scan::start(base_offset), interval) {
            Ok(expected) => scan matches Ok((next_offset, len, index)) && next_offset
                == expected.next_offset && len == expected.len && index@ == expected.index,
            Err(error) => scan matches Err(found) && found == error,
        },
{
    let total_len: usize = contents.len();
    let mut input = buffer::buffer_from(contents);
    let mut next_offset: u64 = base_offset;
    let mut index: Vec<IndexEntry> = Vec::new();
    let ghost expected = scanned(contents@, Scan::start(base_offset), interval);
    proof {
        reveal(scanned);
        assert(index@ =~= Seq::empty());
    }
    loop
        invariant
            interval > 0,
            total_len == contents@.len(),
            buffer::buffered(input).len() <= total_len,
            expected == scanned(contents@, Scan::start(base_offset), interval),
            expected == scanned(
                buffer::buffered(input),
                Scan {
                    next_offset,
                    len: (total_len - buffer::buffered(input).len()) as nat,
                    index: index@,
                },
                interval,
            ),
        decreases buffer::buffered(input).len(),
    {
        proof {
            reveal(scanned);
        }
        let position: u64 = (total_len - input.len()) as u64;
        let decoded = match record::decode_record(&mut input) {
            Ok(decoded) => decoded,
            Err(error) => return Err(error),
        };
        match decoded {
            None => return Ok((next_offset, position, index)),
            Some(stored) => {
                if stored.offset() != next_offset {
                    return Err(
                        StorageError::UnexpectedOffset {
                            expected: next_offset,
                            actual: stored.offset(),
                        },
                    );
                }
                if wants_index(&index, position, interval) {
                    index.push(IndexEntry { offset: stored.offset(), position });
                }
                if next_offset == u64::MAX {
                    return Err(StorageError::OffsetOverflow);
                }
                next_offset = next_offset + 1;
            },
        }
    }
}

/// The bytes of the index file for `index`.
fn encode_index(index: &Vec<IndexEntry>) -> (encoded: Vec<u8>)
    ensures
        encoded@ == encoded_index(index@),
{
    let mut encoded: Vec<u8> = Vec::new();
    for i in 0..index.len()
        invariant
            encoded@ == encoded_index(index@.take(i as int)),
    {
        endian::push_u64(&mut encoded, index[i].offset);
        endian::push_u64(&mut encoded, index[i].position);
        proof {
            assert(index@.take(i + 1).drop_last() =~= index@.take(i as int));
            assert(encoded@ =~= encoded_index(index@.take(i + 1)));
        }
    }
    assert(index@.take(index@.len() as int) =~= index@);
    encoded
}

/// Refuses a topic that cannot be a directory name.
pub fn validate_topic(topic: &str) -> (checked: Result<(), StorageError>)
    ensures
        checked == if text::is_name(topic@) {
            Ok::<(), StorageError>(())
        } else {
            Err(StorageError::InvalidTopic)
        },
{
    if text::check_name(topic) {
        Ok(())
    } else {
        Err(StorageError::InvalidTopic)
    }
}

/// Why a log cannot be opened, whatever its files hold.
pub open spec fn open_refusal(
    topic: Seq<char>,
    max_segment_bytes: u64,
    index_interval_bytes: u64,
) -> Option<StorageError> {
    if !text::is_name(topic) {
        Some(StorageError::InvalidTopic)
    } else if max_segment_bytes == 0 {
        Some(StorageError::InvalidSegmentLimit)
    } else if index_interval_bytes == 0 {
        Some(StorageError::InvalidIndexInterval)
    } else {
        None
    }
}

impl PartitionLog {
    /// Starts to open the log of a partition: its segments are recovered next, from the first
    /// to the last. A partition without segments gets an empty one.
    pub fn open(
        data_dir: &str,
        topic: &str,
        partition: u32,
        max_segment_bytes: u64,
        index_interval_bytes: u64,
    ) -> (recovery: Result<LogRecovery, StorageError>)
        ensures
            match open_refusal(topic@, max_segment_bytes, index_interval_bytes) {
                None => {
                    &&& recovery matches Ok(started)
                    &&& started.wf()
                    &&& started@ == (Log {
                        next_offset: 0,
                        max_segment_bytes,
                        index_interval_bytes,
                        partition_dir: partition_path(data_dir@, topic@, partition as nat),
                        segments: Seq::empty(),
                    })
                },
                Some(error) => recovery matches Err(found) && found == error,
            },
    {
        match validate_topic(topic) {
            Ok(()) => {},
            Err(error) => return Err(error),
        }
        if max_segment_bytes == 0 {
            return Err(StorageError::InvalidSegmentLimit);
        }
        if index_interval_bytes == 0 {
            return Err(StorageError::InvalidIndexInterval);
        }
        let topic_dir = join_path(data_dir, topic);
        let number = text::decimal_text(partition as u64);
        let partition_dir = join_path(topic_dir.as_str(), number.as_str());
        let log = PartitionLog {
            next_offset: 0,
            max_segment_bytes,
            index_interval_bytes,
            partition_dir,
            segments: Vec::new(),
        };
        assert(log@.segments =~= Seq::empty());
        Ok(LogRecovery { log })
    }
}

/// How many entries at the front of an index lie at or below `offset`.
pub open spec fn leading_entries(index: Seq<IndexEntry>, offset: u64) -> nat
    decreases index.len(),
{
    if index.len() == 0 || index[0].offset > offset {
        0
    } else {
        1 + leading_entries(index.skip(1), offset)
    }
}

/// Where in a segment the search for `offset` starts: at the last indexed record that is not
/// behind it, or at the front.
pub open spec fn index_position(index: Seq<IndexEntry>, offset: u64) -> u64 {
    if leading_entries(index, offset) == 0 {
        0
    } else {
        index[leading_entries(index, offset) - 1].position
    }
}

impl Log {
    /// Where a read from `offset` starts in a segment, or `None` where the segment ends before
    /// the offset.
    pub open spec fn read_position(self, segment: int, offset: u64) -> Option<u64> {
        if segment + 1 < self.segments.len() && offset >= self.segments[segment + 1].base_offset {
            None
        } else {
            Some(index_position(self.segments[segment].index, offset))
        }
    }

    /// The first segment from `cursor` on that a read from `offset` looks into.
    pub open spec fn next_segment(self, cursor: int, offset: u64) -> int
        decreases self.segments.len() - cursor,
    {
        if cursor >= self.segments.len() || self.read_position(cursor, offset) is Some {
            cursor
        } else {
            self.next_segment(cursor + 1, offset)
        }
    }
}

/// The bytes of several records, one behind the other.
pub open spec fn encoded_entries(entries: Seq<Entry>) -> Seq<u8>
    decreases entries.len(),
{
    if entries.len() == 0 {
        Seq::empty()
    } else {
        encoded_entries(entries.drop_last()) + entries.last().encoded()
    }
}

/// Whether `taken` leaves no room for a record of `size` bytes. The first record always has
/// room, and the largest limit stands for none.
pub open spec fn is_full(taken: Seq<Entry>, size: nat, max_bytes: usize) -> bool {
    taken.len() > 0 && encoded_entries(taken).len() + size > max_bytes && max_bytes < usize::MAX
}

/// What the records in `bytes` add to those that a read has taken, and whether the read stopped
/// at its limit.
#[verifier::opaque]
pub open spec fn collected(
    bytes: Seq<u8>,
    offset: u64,
    max_bytes: usize,
    taken: Seq<Entry>,
) -> Result<(Seq<Entry>, bool), StorageError>
    decreases bytes.len(),
{
    if bytes.len() == 0 {
        Ok((taken, false))
    } else {
        match record::front_record(bytes) {
            FrontRecord::Partial => Err(StorageError::InvalidRecord),
            FrontRecord::Refused(error) => Err(error),
            FrontRecord::Whole { record, rest } => match record::parse_record(record) {
                Err(error) => Err(error),
                Ok(entry) => if entry.offset < offset {
                    collected(rest, offset, max_bytes, taken)
                } else if is_full(taken, entry.encoded().len(), max_bytes) {
                    Ok((taken, true))
                } else {
                    collected(rest, offset, max_bytes, taken.push(entry))
                },
            },
        }
    }
}

/// The entries before the first that is at or above `limit`.
pub open spec fn visible(entries: Seq<Entry>, limit: u64) -> Seq<Entry>
    decreases entries.len(),
{
    if entries.len() == 0 || entries[0].offset >= limit {
        Seq::empty()
    } else {
        seq![entries[0]] + visible(entries.skip(1), limit)
    }
}

/// Nothing at or above the limit is visible.
pub proof fn visible_stays_below(entries: Seq<Entry>, limit: u64)
    ensures
        visible(entries, limit).len() <= entries.len(),
        forall|i: int|
            0 <= i < visible(entries, limit).len() ==> (#[trigger] visible(
                entries,
                limit,
            )[i]).offset < limit && visible(entries, limit)[i] == entries[i],
    decreases entries.len(),
{
    if entries.len() > 0 && entries[0].offset < limit {
        visible_stays_below(entries.skip(1), limit);
        assert forall|i: int| 0 <= i < visible(entries, limit).len() implies (#[trigger] visible(
            entries,
            limit,
        )[i]).offset < limit && visible(entries, limit)[i] == entries[i] by {
            if i > 0 {
                assert(visible(entries, limit)[i] == visible(entries.skip(1), limit)[i - 1]);
                assert(entries.skip(1)[i - 1] == entries[i]);
            }
        }
    }
}

/// A read in progress as a value.
#[verifier::ext_equal]
pub struct Reading {
    pub offset: u64,
    pub max_bytes: usize,
    /// The offset that the read does not reach: records at or above it are not handed out.
    pub limit: u64,
    /// The segment to look into next.
    pub cursor: nat,
    pub taken: Seq<Entry>,
    pub full: bool,
}

/// Which bytes a read looks into next: a file, from a position to its end.
pub struct ReadStep {
    pub segment: usize,
    pub path: String,
    pub position: u64,
}

/// A read in progress: the records from an offset on, up to a limit in bytes.
pub struct LogReader {
    offset: u64,
    max_bytes: usize,
    limit: u64,
    cursor: usize,
    bytes_read: usize,
    records: Vec<StoredRecord>,
    full: bool,
}

impl View for LogReader {
    type V = Reading;

    closed spec fn view(&self) -> Reading {
        Reading {
            offset: self.offset,
            max_bytes: self.max_bytes,
            limit: self.limit,
            cursor: self.cursor as nat,
            taken: self.records@.map_values(|stored: StoredRecord| stored@),
            full: self.full,
        }
    }
}

impl LogReader {
    /// The bytes are counted, up to the largest count.
    pub closed spec fn wf(self) -> bool {
        let total = encoded_entries(self@.taken).len();
        self.bytes_read == if total > usize::MAX {
            usize::MAX as nat
        } else {
            total
        }
    }

    /// Starts a read of records below `limit`.
    pub fn new(offset: u64, max_bytes: usize, limit: u64) -> (reader: Result<
        LogReader,
        StorageError,
    >)
        ensures
            if max_bytes == 0 {
                reader matches Err(error) && error == StorageError::InvalidReadLimit
            } else {
                &&& reader matches Ok(started)
                &&& started.wf()
                &&& started@ == (Reading {
                    offset,
                    max_bytes,
                    limit,
                    cursor: 0,
                    taken: Seq::empty(),
                    full: false,
                })
            },
    {
        if max_bytes == 0 {
            return Err(StorageError::InvalidReadLimit);
        }
        let reader = LogReader {
            offset,
            max_bytes,
            limit,
            cursor: 0,
            bytes_read: 0,
            records: Vec::new(),
            full: false,
        };
        assert(reader@.taken =~= Seq::empty());
        Ok(reader)
    }

    /// Takes the bytes of `step` in.
    pub fn feed(self, step: &ReadStep, contents: &[u8]) -> (fed: Result<LogReader, StorageError>)
        requires
            self.wf(),
            step.segment < usize::MAX,
        ensures
            match collected(contents@, self@.offset, self@.max_bytes, self@.taken) {
                Ok((taken, full)) => {
                    &&& fed matches Ok(reader)
                    &&& reader.wf()
                    &&& reader@ == (Reading {
                        offset: self@.offset,
                        max_bytes: self@.max_bytes,
                        limit: self@.limit,
                        cursor: (step.segment + 1) as nat,
                        taken,
                        full,
                    })
                },
                Err(error) => fed matches Err(found) && found == error,
            },
    {
        let mut reader = self;
        let ghost expected = collected(contents@, self@.offset, self@.max_bytes, self@.taken);
        reader.cursor = step.segment + 1;
        reader.full = false;
        let mut input = buffer::buffer_from(contents);
        assert(reader@.taken == self@.taken);
        while !input.is_empty()
            invariant
                reader.wf(),
                reader.offset == self.offset,
                reader.max_bytes == self.max_bytes,
                reader.limit == self.limit,
                reader.cursor == step.segment + 1,
                !reader.full,
                expected == collected(
                    buffer::buffered(input),
                    self.offset,
                    self.max_bytes,
                    reader@.taken,
                ),
                expected == collected(contents@, self@.offset, self@.max_bytes, self@.taken),
            decreases buffer::buffered(input).len(),
        {
            proof {
                reveal(collected);
            }
            let before: usize = input.len();
            let ghost bytes = buffer::buffered(input);
            let stored = match record::decode_record(&mut input) {
                Err(error) => return Err(error),
                Ok(None) => return Err(StorageError::InvalidRecord),
                Ok(Some(stored)) => stored,
            };
            let encoded_size: usize = before - input.len();
            proof {
                record::lemma_parsed_len(record::front_record(bytes)->record);
                record::lemma_encoded_len(stored@);
                assert(encoded_size == stored@.encoded().len());
            }
            if stored.offset() < reader.offset {
                continue;
            }
            if reader.records.len() > 0 && reader.bytes_read.saturating_add(encoded_size)
                > reader.max_bytes {
                reader.full = true;
                return Ok(reader);
            }
            reader.bytes_read = reader.bytes_read.saturating_add(encoded_size);
            let ghost taken = reader@.taken;
            let ghost entry = stored@;
            reader.records.push(stored);
            proof {
                assert(reader@.taken =~= taken.push(entry));
                assert(reader@.taken.drop_last() =~= taken);
            }
        }
        proof {
            reveal(collected);
        }
        Ok(reader)
    }

    /// What the read hands out: what it took, as far as it stays below the limit.
    pub fn finish(self) -> (records: Vec<StoredRecord>)
        ensures
            records@.map_values(|stored: StoredRecord| stored@) == visible(
                self@.taken,
                self@.limit,
            ),
    {
        let ghost taken = self@.taken;
        let mut records = self.records;
        let mut count: usize = 0;
        assert(taken.skip(0) =~= taken);
        assert(visible(taken, self.limit) =~= taken.take(0) + visible(taken, self.limit));
        while count < records.len() && records[count].offset() < self.limit
            invariant
                count <= records@.len(),
                records@ == self.records@,
                taken == records@.map_values(|stored: StoredRecord| stored@),
                visible(taken, self.limit) == taken.take(count as int) + visible(
                    taken.skip(count as int),
                    self.limit,
                ),
            decreases records@.len() - count,
        {
            proof {
                let left = taken.skip(count as int);
                assert(left[0] == records@[count as int]@);
                assert(left.skip(1) =~= taken.skip(count + 1));
                assert(taken.take(count as int) + (seq![left[0]] + visible(
                    left.skip(1),
                    self.limit,
                )) =~= taken.take(count + 1) + visible(taken.skip(count + 1), self.limit));
            }
            count = count + 1;
        }
        proof {
            let left = taken.skip(count as int);
            if count < records@.len() {
                assert(left[0] == records@[count as int]@);
            }
            assert(visible(left, self.limit) =~= Seq::empty());
        }
        records.truncate(count);
        assert(records@.map_values(|stored: StoredRecord| stored@) =~= visible(
            taken,
            self.limit,
        ));
        records
    }
}

impl PartitionLog {
    /// What `reader` looks into next, if anything is left for it.
    pub fn next_read(&self, reader: &LogReader) -> (step: Option<ReadStep>)
        ensures
            ({
                let segment = self@.next_segment(reader@.cursor as int, reader@.offset);
                if reader@.full || segment >= self@.segments.len() {
                    step is None
                } else {
                    &&& step matches Some(made)
                    &&& made.segment == segment
                    &&& made.segment < usize::MAX
                    &&& made.path@ == self@.segments[segment].path
                    &&& Some(made.position) == self@.read_position(segment, reader@.offset)
                }
            }),
    {
        if reader.full {
            return None;
        }
        let offset: u64 = reader.offset;
        let mut i: usize = reader.cursor;
        while i < self.segments.len()
            invariant
                self@.segments == segment_views(self.segments@),
                self@.next_segment(reader@.cursor as int, offset) == self@.next_segment(
                    i as int,
                    offset,
                ),
                offset == reader@.offset,
                !reader@.full,
            decreases self.segments@.len() - i,
        {
            if i + 1 < self.segments.len() && offset >= self.segments[i + 1].base_offset {
                i = i + 1;
                continue;
            }
            let segment = &self.segments[i];
            return Some(
                ReadStep {
                    segment: i,
                    path: segment.path.clone(),
                    position: start_position(&segment.index, offset),
                },
            );
        }
        None
    }
}

/// Where the search for `offset` starts.
fn start_position(index: &Vec<IndexEntry>, offset: u64) -> (position: u64)
    ensures
        position == index_position(index@, offset),
{
    let mut count: usize = 0;
    assert(index@.skip(0) =~= index@);
    while count < index.len() && index[count].offset <= offset
        invariant
            count <= index@.len(),
            leading_entries(index@, offset) == count + leading_entries(
                index@.skip(count as int),
                offset,
            ),
        decreases index@.len() - count,
    {
        assert(index@.skip(count as int).skip(1) =~= index@.skip(count + 1));
        count = count + 1;
    }
    assert(leading_entries(index@.skip(count as int), offset) == 0);
    if count == 0 {
        0
    } else {
        index[count - 1].position
    }
}

/// The bytes of some segments; the largest number stands for larger ones.
pub open spec fn counted_bytes(segments: Seq<Segment>) -> nat {
    if segment_bytes(segments) > u64::MAX {
        u64::MAX as nat
    } else {
        segment_bytes(segments)
    }
}

/// Whether retention removes a segment, once those before it are gone: it is closed, and it is
/// too old or the log from it on is too large.
pub open spec fn expires(
    log: Log,
    ages_ms: Seq<u64>,
    retention_bytes: Option<u64>,
    retention_ms: Option<u64>,
    segment: int,
) -> bool {
    segment + 1 < log.segments.len() && ((retention_ms matches Some(limit) && ages_ms[segment]
        > limit) || (retention_bytes matches Some(limit) && counted_bytes(
        log.segments.skip(segment),
    ) > limit))
}

/// The first segment from `segment` on that retention keeps.
pub open spec fn kept_from(
    log: Log,
    ages_ms: Seq<u64>,
    retention_bytes: Option<u64>,
    retention_ms: Option<u64>,
    segment: int,
) -> int
    decreases log.segments.len() - segment,
{
    if expires(log, ages_ms, retention_bytes, retention_ms, segment) {
        kept_from(log, ages_ms, retention_bytes, retention_ms, segment + 1)
    } else {
        segment
    }
}

/// How many segments retention removes from the front of a log.
pub open spec fn retained_from(
    log: Log,
    ages_ms: Seq<u64>,
    retention_bytes: Option<u64>,
    retention_ms: Option<u64>,
) -> int {
    kept_from(log, ages_ms, retention_bytes, retention_ms, 0)
}

impl PartitionLog {
    /// The bytes of the segments from one on; the largest number stands for larger ones.
    fn bytes_from(&self, segment: usize) -> (bytes: u64)
        requires
            segment <= self@.segments.len(),
        ensures
            bytes == counted_bytes(self@.segments.skip(segment as int)),
    {
        let ghost all = self@.segments.skip(segment as int);
        let mut bytes: u64 = 0;
        let mut i: usize = segment;
        assert(all.take(0) =~= Seq::empty());
        while i < self.segments.len()
            invariant
                segment <= i <= self.segments@.len(),
                all == segment_views(self.segments@).skip(segment as int),
                bytes == counted_bytes(all.take(i - segment)),
            decreases self.segments@.len() - i,
        {
            proof {
                let count = i - segment;
                assert(all.take(count + 1).drop_last() =~= all.take(count));
                assert(all.take(count + 1).last() == self.segments@[i as int]@);
            }
            bytes = bytes.saturating_add(self.segments[i].len);
            i = i + 1;
        }
        assert(all.take(i - segment) =~= all);
        bytes
    }

    /// Removes the segments at the front that are older than the retention age, or that the log
    /// has no room for in its retained bytes, and tells how many. The active segment stays.
    /// `ages_ms` gives the age of each segment.
    pub fn apply_retention(
        &mut self,
        ages_ms: &Vec<u64>,
        retention_bytes: Option<u64>,
        retention_ms: Option<u64>,
    ) -> (removed: usize)
        requires
            old(self).wf(),
            ages_ms@.len() == old(self)@.segments.len(),
        ensures
            final(self).wf(),
            removed < old(self)@.segments.len(),
            final(self)@ == (Log {
                segments: old(self)@.segments.skip(removed as int),
                ..old(self)@
            }),
            removed == retained_from(old(self)@, ages_ms@, retention_bytes, retention_ms),
            retention_bytes is None && retention_ms is None ==> removed == 0,
    {
        let ghost before = self@;
        let mut removed: usize = 0;
        let total: usize = self.segments.len();
        while removed + 1 < total
            invariant
                self@ == before,
                total == self.segments@.len(),
                before.segments.len() == total,
                removed < total,
                ages_ms@.len() == total,
                retained_from(before, ages_ms@, retention_bytes, retention_ms) == kept_from(
                    before,
                    ages_ms@,
                    retention_bytes,
                    retention_ms,
                    removed as int,
                ),
                retention_bytes is None && retention_ms is None ==> removed == 0,
            ensures
                removed < total,
                retained_from(before, ages_ms@, retention_bytes, retention_ms) == removed,
                retention_bytes is None && retention_ms is None ==> removed == 0,
            decreases total - removed,
        {
            let too_old: bool = match retention_ms {
                Some(limit) => ages_ms[removed] > limit,
                None => false,
            };
            let too_large: bool = match retention_bytes {
                Some(limit) => self.bytes_from(removed) > limit,
                None => false,
            };
            if !too_old && !too_large {
                break;
            }
            removed = removed + 1;
        }
        let kept = self.segments.split_off(removed);
        self.segments = kept;
        assert(self@.segments =~= before.segments.skip(removed as int));
        removed
    }
}

/// What the records at the front of `bytes` below `to` add to a scan.
#[verifier::opaque]
pub open spec fn scanned_to(bytes: Seq<u8>, so_far: Scan, interval: u64, to: u64) -> Result<
    Scan,
    StorageError,
>
    decreases bytes.len(),
{
    if so_far.next_offset >= to {
        Ok(so_far)
    } else {
        match record::front_record(bytes) {
            FrontRecord::Partial => Ok(so_far),
            FrontRecord::Refused(error) => Err(error),
            FrontRecord::Whole { record, rest } => match record::parse_record(record) {
                Err(error) => Err(error),
                Ok(entry) => if entry.offset != so_far.next_offset {
                    Err(
                        StorageError::UnexpectedOffset {
                            expected: so_far.next_offset,
                            actual: entry.offset,
                        },
                    )
                } else {
                    scanned_to(rest, so_far.advanced(4 + record.len(), interval), interval, to)
                },
            },
        }
    }
}

impl Log {
    /// The last of the first segments up to `segment` that starts at or below an offset; the
    /// first where none does.
    pub open spec fn segment_below(self, to: u64, segment: int) -> int
        decreases segment,
    {
        if segment <= 0 {
            0
        } else if self.segments[segment].base_offset <= to {
            segment
        } else {
            self.segment_below(to, segment - 1)
        }
    }

    /// The segment in which a log is cut off at an offset.
    pub open spec fn cut_segment(self, to: u64) -> int {
        self.segment_below(to, self.segments.len() - 1)
    }

    /// The log without its records at or above an offset, from the contents of the segment in
    /// which it is cut off.
    pub open spec fn truncated(self, to: u64, contents: Seq<u8>) -> Result<Log, StorageError> {
        let last = self.cut_segment(to);
        let segment = self.segments[last];
        match scanned_to(
            contents,
            Scan::start(segment.base_offset),
            self.index_interval_bytes,
            to,
        ) {
            Err(error) => Err(error),
            Ok(scan) => Ok(
                Log {
                    next_offset: scan.next_offset,
                    segments: self.segments.take(last).push(
                        Segment { len: scan.len as u64, index: scan.index, ..segment },
                    ),
                    ..self
                },
            ),
        }
    }
}

/// What is done with the files of a log that is cut off.
pub struct Truncation {
    /// The file that is cut off, and how long it stays.
    pub path: String,
    pub len: u64,
    /// What its index file has to hold.
    pub index: Vec<u8>,
    /// The files of the segments behind it, which are removed.
    pub removed: Vec<String>,
    /// The log once that is done.
    pub log: PartitionLog,
}

/// The files of the segments from one on.
pub open spec fn paths_from(segments: Seq<Segment>, first: int) -> Seq<Seq<char>> {
    Seq::new((segments.len() - first) as nat, |i: int| segments[first + i].path)
}

impl Truncation {
    /// Whether this is how `before` becomes `after`.
    pub open spec fn makes(self, before: Log, after: Log) -> bool {
        &&& self.log.wf()
        &&& self.log@ == after
        &&& self.path@ == after.active().path
        &&& self.len == after.active().len
        &&& self.index@ == encoded_index(after.active().index)
        &&& text::views(self.removed@) == paths_from(
            before.segments,
            after.segments.len() as int,
        )
    }
}

impl SegmentMetadata {
    fn duplicate(&self) -> (copy: SegmentMetadata)
        ensures
            copy@ == self@,
    {
        let mut index: Vec<IndexEntry> = Vec::new();
        for i in 0..self.index.len()
            invariant
                index@ == self.index@.take(i as int),
        {
            index.push(self.index[i]);
            assert(self.index@.take(i + 1) =~= self.index@.take(i as int).push(
                self.index@[i as int],
            ));
        }
        assert(self.index@.take(self.index@.len() as int) =~= self.index@);
        SegmentMetadata {
            base_offset: self.base_offset,
            path: self.path.clone(),
            len: self.len,
            index,
        }
    }
}

impl PartitionLog {
    /// The file whose contents tell where the log is cut off at an offset, and its place.
    pub fn cut_path(&self, to: u64) -> (place: (usize, String))
        requires
            self.wf(),
        ensures
            place.0 == self@.cut_segment(to),
            place.0 < self@.segments.len(),
            place.1@ == self@.segments[self@.cut_segment(to)].path,
    {
        let mut last: usize = self.segments.len() - 1;
        while last > 0 && self.segments[last].base_offset > to
            invariant
                last < self.segments@.len(),
                self@.segments == segment_views(self.segments@),
                self@.cut_segment(to) == self@.segment_below(to, last as int),
            decreases last,
        {
            last = last - 1;
        }
        (last, self.segments[last].path.clone())
    }

    /// How the log is cut off, so that it has no record at or above an offset.
    pub fn truncate(&self, to: u64, contents: &[u8]) -> (cut: Result<Truncation, StorageError>)
        requires
            self.wf(),
        ensures
            match self@.truncated(to, contents@) {
                Ok(after) => cut matches Ok(made) && made.makes(self@, after),
                Err(error) => cut matches Err(found) && found == error,
            },
    {
        let (last, path) = self.cut_path(to);
        let base_offset: u64 = self.segments[last].base_offset;
        let (next_offset, len, index) = match scan_below(
            contents,
            base_offset,
            self.index_interval_bytes,
            to,
        ) {
            Ok(scan) => scan,
            Err(error) => return Err(error),
        };
        let encoded = encode_index(&index);
        let mut segments: Vec<SegmentMetadata> = Vec::new();
        for i in 0..last
            invariant
                last < self.segments@.len(),
                segment_views(segments@) == segment_views(self.segments@).take(i as int),
        {
            let ghost before = segments@;
            segments.push(self.segments[i].duplicate());
            assert(segment_views(segments@) =~= segment_views(self.segments@).take(i + 1)) by {
                assert(segment_views(segments@).drop_last() =~= segment_views(before));
            }
        }
        let ghost front = segments@;
        segments.push(
            SegmentMetadata { base_offset, path: path.clone(), len, index },
        );
        let mut removed: Vec<String> = Vec::new();
        let total: usize = self.segments.len();
        let mut i: usize = last + 1;
        while i < total
            invariant
                last < i <= total,
                total == self.segments@.len(),
                removed@.len() == i - last - 1,
                forall|j: int|
                    0 <= j < removed@.len() ==> (#[trigger] removed@[j])@ == self@.segments[last + 1
                        + j].path,
                self@.segments == segment_views(self.segments@),
            decreases total - i,
        {
            removed.push(self.segments[i].path.clone());
            i = i + 1;
        }
        let log = PartitionLog {
            next_offset,
            max_segment_bytes: self.max_segment_bytes,
            index_interval_bytes: self.index_interval_bytes,
            partition_dir: self.partition_dir.clone(),
            segments,
        };
        proof {
            let after = self@.truncated(to, contents@)->Ok_0;
            assert(log@.segments =~= after.segments);
            assert(text::views(removed@) =~= paths_from(
                self@.segments,
                after.segments.len() as int,
            ));
        }
        Ok(Truncation { path, len, index: encoded, removed, log })
    }
}

/// What is found of a segment below an offset: the next offset, the length of its records, and
/// its sparse index.
fn scan_below(contents: &[u8], base_offset: u64, interval: u64, to: u64) -> (scan: Result<
    (u64, u64, Vec<IndexEntry>),
    StorageError,
>)
    requires
        interval > 0,
    ensures
        match scanned_to(contents@, Scan::start(base_offset), interval, to) {
            Ok(expected) => scan matches Ok((next_offset, len, index)) && next_offset
                == expected.next_offset && len == expected.len && index@ == expected.index,
            Err(error) => scan matches Err(found) && found == error,
        },
{
    let total_len: usize = contents.len();
    let mut input = buffer::buffer_from(contents);
    let mut next_offset: u64 = base_offset;
    let mut index: Vec<IndexEntry> = Vec::new();
    let ghost expected = scanned_to(contents@, Scan::start(base_offset), interval, to);
    assert(index@ =~= Seq::empty());
    loop
        invariant
            interval > 0,
            total_len == contents@.len(),
            buffer::buffered(input).len() <= total_len,
            expected == scanned_to(contents@, Scan::start(base_offset), interval, to),
            expected == scanned_to(
                buffer::buffered(input),
                Scan {
                    next_offset,
                    len: (total_len - buffer::buffered(input).len()) as nat,
                    index: index@,
                },
                interval,
                to,
            ),
        decreases buffer::buffered(input).len(),
    {
        proof {
            reveal(scanned_to);
        }
        let position: u64 = (total_len - input.len()) as u64;
        if next_offset >= to {
            return Ok((next_offset, position, index));
        }
        let decoded = match record::decode_record(&mut input) {
            Ok(decoded) => decoded,
            Err(error) => return Err(error),
        };
        match decoded {
            None => return Ok((next_offset, position, index)),
            Some(stored) => {
                if stored.offset() != next_offset {
                    return Err(
                        StorageError::UnexpectedOffset {
                            expected: next_offset,
                            actual: stored.offset(),
                        },
                    );
                }
                if wants_index(&index, position, interval) {
                    index.push(IndexEntry { offset: stored.offset(), position });
                }
                next_offset = next_offset + 1;
            },
        }
    }
}

/// A file in the directory of a partition.
pub struct ListedFile {
    pub name: String,
    pub len: u64,
}

/// What the name of a file in the directory of a partition says.
pub enum FileKind {
    /// Not a log file.
    Other,
    /// A log file that no segment is named like.
    Invalid,
    /// The segment that starts at this offset.
    Segment(u64),
}

pub open spec fn file_kind(name: Seq<char>) -> FileKind {
    let stem = name.take(name.len() - 4);
    if name.len() <= 4 || name.skip(name.len() - 4) != ".log"@ {
        FileKind::Other
    } else if stem.len() != 20 || !text::all_digits(stem) || text::digits_value(stem) > u64::MAX {
        FileKind::Invalid
    } else {
        FileKind::Segment(text::digits_value(stem) as u64)
    }
}

/// The base offset, path and length of each segment among the listed files, or the fault of a
/// name.
pub open spec fn listed_segments(dir: Seq<char>, files: Seq<ListedFile>) -> Result<
    Seq<(u64, (Seq<char>, u64))>,
    StorageError,
>
    decreases files.len(),
{
    if files.len() == 0 {
        Ok(Seq::empty())
    } else {
        match listed_segments(dir, files.drop_last()) {
            Err(error) => Err(error),
            Ok(segments) => match file_kind(files.last().name@) {
                FileKind::Other => Ok(segments),
                FileKind::Invalid => Err(StorageError::InvalidSegmentName),
                FileKind::Segment(base_offset) => Ok(
                    segments.push(
                        (base_offset, (path_below(dir, files.last().name@), files.last().len)),
                    ),
                ),
            },
        }
    }
}

/// The segment that was found at a path, before recovery.
pub open spec fn found_segment(found: (u64, (Seq<char>, u64))) -> Segment {
    Segment { base_offset: found.0, path: found.1.0, len: found.1.1, index: Seq::empty() }
}

pub open spec fn found_segments(found: Seq<(u64, (Seq<char>, u64))>) -> Seq<Segment> {
    found.map_values(|item: (u64, (Seq<char>, u64))| found_segment(item))
}

/// Several segments as values.
pub open spec fn segment_views(segments: Seq<SegmentMetadata>) -> Seq<Segment> {
    segments.map_values(|segment: SegmentMetadata| segment@)
}

/// The segments among the files of a partition's directory, by base offset.
pub fn discover_segments(partition_dir: &str, files: &Vec<ListedFile>) -> (segments: Result<
    Vec<SegmentMetadata>,
    StorageError,
>)
    ensures
        match listed_segments(partition_dir@, files@) {
            Err(error) => segments matches Err(found) && found == error,
            Ok(listed) => {
                &&& segments matches Ok(found)
                &&& exists|order: Seq<(u64, (Seq<char>, u64))>|
                    {
                        &&& order.to_multiset() == listed.to_multiset()
                        &&& sorted::ascending::<(u64, (String, u64))>(order)
                        &&& segment_views(found@) == #[trigger] found_segments(order)
                    }
            },
        },
{
    let mut found: Vec<(u64, (String, u64))> = Vec::new();
    proof {
        assert(sorted::values_of(found@) =~= Seq::<(u64, (Seq<char>, u64))>::empty());
    }
    for i in 0..files.len()
        invariant
            sorted::ascending::<(u64, (String, u64))>(sorted::values_of(found@)),
            listed_segments(partition_dir@, files@.take(i as int)) matches Ok(listed)
                && sorted::values_of(found@).to_multiset() == listed.to_multiset(),
    {
        let file = &files[i];
        proof {
            assert(files@.take(i + 1).drop_last() =~= files@.take(i as int));
            assert(files@.take(i + 1).last() == *file);
            broadcast use vstd::seq_lib::group_to_multiset_ensures;
        }
        match classify(file.name.as_str()) {
            FileKind::Other => {},
            FileKind::Invalid => {
                proof {
                    lemma_listing_fault(partition_dir@, files@, i + 1);
                }
                return Err(StorageError::InvalidSegmentName);
            },
            FileKind::Segment(base_offset) => {
                let path = join_path(partition_dir, file.name.as_str());
                sorted::insert_sorted(&mut found, (base_offset, (path, file.len)));
            },
        }
    }
    let ghost order = sorted::values_of(found@);
    let mut segments: Vec<SegmentMetadata> = Vec::new();
    let mut i: usize = 0;
    while i < found.len()
        invariant
            i <= found@.len(),
            order == sorted::values_of(found@),
            segment_views(segments@) == found_segments(order.take(i as int)),
        decreases found@.len() - i,
    {
        let item = &found[i];
        let segment = SegmentMetadata {
            base_offset: item.0,
            path: item.1.0.clone(),
            len: item.1.1,
            index: Vec::new(),
        };
        proof {
            assert(order[i as int] == (item.0, (item.1.0@, item.1.1)));
            assert(segment@ =~= found_segment(order[i as int]));
        }
        let ghost before = segment_views(segments@);
        segments.push(segment);
        proof {
            let added = found_segment(order[i as int]);
            assert(segment_views(segments@) =~= before.push(added));
            assert(found_segments(order.take(i + 1)) =~= before.push(added));
        }
        i = i + 1;
    }
    proof {
        assert(files@.take(files@.len() as int) =~= files@);
        assert(order.take(i as int) =~= order);
    }
    Ok(segments)
}

/// A fault among the first files of a listing is the fault of the listing.
proof fn lemma_listing_fault(dir: Seq<char>, files: Seq<ListedFile>, count: int)
    requires
        0 <= count <= files.len(),
        listed_segments(dir, files.take(count)) is Err,
    ensures
        listed_segments(dir, files) == listed_segments(dir, files.take(count)),
    decreases files.len(),
{
    if count < files.len() {
        assert(files.drop_last().take(count) =~= files.take(count));
        lemma_listing_fault(dir, files.drop_last(), count);
    } else {
        assert(files.take(count) =~= files);
    }
}

/// What a file name says.
fn classify(name: &str) -> (kind: FileKind)
    ensures
        kind == file_kind(name@),
{
    let chars = text::chars_of(name);
    proof {
        reveal_strlit(".log");
    }
    if chars.len() <= 4 {
        return FileKind::Other;
    }
    let stem_len: usize = chars.len() - 4;
    assert(name@.skip(stem_len as int).len() == 4);
    if chars[stem_len] != '.' || chars[stem_len + 1] != 'l' || chars[stem_len + 2] != 'o'
        || chars[stem_len + 3] != 'g' {
        proof {
            let end = name@.skip(stem_len as int);
            assert(end[0] == chars@[stem_len as int]);
            assert(end[1] == chars@[stem_len + 1]);
            assert(end[2] == chars@[stem_len + 2]);
            assert(end[3] == chars@[stem_len + 3]);
        }
        return FileKind::Other;
    }
    assert(name@.skip(stem_len as int) =~= ".log"@);
    if stem_len != 20 {
        return FileKind::Invalid;
    }
    let stem = text::string_of(vstd::slice::slice_subrange(chars.as_slice(), 0, stem_len));
    assert(stem@ =~= name@.take(stem_len as int));
    let first: char = chars[0];
    assert(stem@[0] == first);
    if first == '+' {
        return FileKind::Invalid;
    }
    match text::parse_decimal(stem.as_str(), u64::MAX) {
        Some(base_offset) => FileKind::Segment(base_offset),
        None => FileKind::Invalid,
    }
}

/// A partition: a topic and a number.
#[derive(Debug, PartialEq, Eq)]
pub struct PartitionIdentity {
    topic: String,
    partition: u32,
}

impl View for PartitionIdentity {
    type V = (Seq<char>, u32);

    closed spec fn view(&self) -> (Seq<char>, u32) {
        (self.topic@, self.partition)
    }
}

impl PartitionIdentity {
    pub fn topic(&self) -> (topic: &str)
        ensures
            topic@ == self@.0,
    {
        self.topic.as_str()
    }

    pub fn partition(&self) -> (partition: u32)
        ensures
            partition == self@.1,
    {
        self.partition
    }
}

/// A topic's directory and the names of the directories in it.
pub struct TopicListing {
    pub topic: String,
    pub partitions: Vec<String>,
}

/// The partitions that the names of a topic's directories stand for, or the first fault.
pub open spec fn listed_numbers(topic: Seq<char>, names: Seq<String>) -> Result<
    Seq<(Seq<char>, u32)>,
    StorageError,
>
    decreases names.len(),
{
    if names.len() == 0 {
        Ok(Seq::empty())
    } else {
        match listed_numbers(topic, names.drop_last()) {
            Err(error) => Err(error),
            Ok(partitions) => match text::parsed(names.last()@, u32::MAX as nat) {
                Some(number) => Ok(partitions.push((topic, number as u32))),
                None => Err(StorageError::InvalidPartitionName),
            },
        }
    }
}

/// The partitions of all topics, or the first fault.
pub open spec fn listed_partitions(topics: Seq<TopicListing>) -> Result<
    Seq<(Seq<char>, u32)>,
    StorageError,
>
    decreases topics.len(),
{
    if topics.len() == 0 {
        Ok(Seq::empty())
    } else {
        match listed_partitions(topics.drop_last()) {
            Err(error) => Err(error),
            Ok(partitions) => if !text::is_name(topics.last().topic@) {
                Err(StorageError::InvalidTopic)
            } else {
                match listed_numbers(topics.last().topic@, topics.last().partitions@) {
                    Err(error) => Err(error),
                    Ok(more) => Ok(partitions + more),
                }
            },
        }
    }
}

proof fn lemma_number_fault(topic: Seq<char>, names: Seq<String>, count: int)
    requires
        0 <= count <= names.len(),
        listed_numbers(topic, names.take(count)) is Err,
    ensures
        listed_numbers(topic, names) == listed_numbers(topic, names.take(count)),
    decreases names.len(),
{
    if count < names.len() {
        assert(names.drop_last().take(count) =~= names.take(count));
        lemma_number_fault(topic, names.drop_last(), count);
    } else {
        assert(names.take(count) =~= names);
    }
}

proof fn lemma_topic_fault(topics: Seq<TopicListing>, count: int)
    requires
        0 <= count <= topics.len(),
        listed_partitions(topics.take(count)) is Err,
    ensures
        listed_partitions(topics) == listed_partitions(topics.take(count)),
    decreases topics.len(),
{
    if count < topics.len() {
        assert(topics.drop_last().take(count) =~= topics.take(count));
        lemma_topic_fault(topics.drop_last(), count);
    } else {
        assert(topics.take(count) =~= topics);
    }
}

/// Several identities as values.
pub open spec fn identity_views(identities: Seq<PartitionIdentity>) -> Seq<(Seq<char>, u32)> {
    identities.map_values(|identity: PartitionIdentity| identity@)
}

/// The partitions that the directories below the data directory stand for, by topic and number.
pub fn discover_partitions(topics: &Vec<TopicListing>) -> (partitions: Result<
    Vec<PartitionIdentity>,
    StorageError,
>)
    ensures
        match listed_partitions(topics@) {
            Err(error) => partitions matches Err(found) && found == error,
            Ok(listed) => {
                &&& partitions matches Ok(found)
                &&& identity_views(found@).to_multiset() == listed.to_multiset()
                &&& sorted::ascending::<(String, u32)>(identity_views(found@))
            },
        },
{
    let mut found: Vec<(String, u32)> = Vec::new();
    proof {
        assert(sorted::values_of(found@) =~= Seq::<(Seq<char>, u32)>::empty());
    }
    for i in 0..topics.len()
        invariant
            sorted::ascending::<(String, u32)>(sorted::values_of(found@)),
            listed_partitions(topics@.take(i as int)) matches Ok(listed) && sorted::values_of(
                found@,
            ).to_multiset() == listed.to_multiset(),
    {
        let listing = &topics[i];
        let ghost listed = listed_partitions(topics@.take(i as int))->Ok_0;
        let ghost names = listing.partitions@;
        proof {
            assert(topics@.take(i + 1).drop_last() =~= topics@.take(i as int));
            assert(topics@.take(i + 1).last() == *listing);
        }
        match validate_topic(listing.topic.as_str()) {
            Ok(()) => {},
            Err(error) => {
                proof {
                    lemma_topic_fault(topics@, i + 1);
                }
                return Err(error);
            },
        }
        assert(listed + Seq::empty() =~= listed);
        for j in 0..listing.partitions.len()
            invariant
                names == listing.partitions@,
                0 <= i < topics@.len(),
                *listing == topics@[i as int],
                text::is_name(listing.topic@),
                topics@.take(i + 1).drop_last() == topics@.take(i as int),
                topics@.take(i + 1).last() == *listing,
                listed_partitions(topics@.take(i as int)) == Ok::<_, StorageError>(listed),
                sorted::ascending::<(String, u32)>(sorted::values_of(found@)),
                listed_numbers(listing.topic@, names.take(j as int)) matches Ok(more)
                    && sorted::values_of(found@).to_multiset() == (listed + more).to_multiset(),
        {
            let name = &listing.partitions[j];
            let ghost more = listed_numbers(listing.topic@, names.take(j as int))->Ok_0;
            proof {
                assert(names.take(j + 1).drop_last() =~= names.take(j as int));
                assert(names.take(j + 1).last() == *name);
            }
            match text::parse_decimal(name.as_str(), u32::MAX as u64) {
                None => {
                    proof {
                        lemma_number_fault(listing.topic@, names, j + 1);
                        lemma_topic_fault(topics@, i + 1);
                    }
                    return Err(StorageError::InvalidPartitionName);
                },
                Some(number) => {
                    sorted::insert_sorted(&mut found, (listing.topic.clone(), number as u32));
                    proof {
                        let added = (listing.topic@, number as u32);
                        assert((listed + more).push(added) =~= listed + more.push(added));
                        vstd::seq_lib::to_multiset_build(listed + more, added);
                    }
                },
            }
        }
        assert(names.take(names.len() as int) =~= names);
    }
    let ghost order = sorted::values_of(found@);
    let mut partitions: Vec<PartitionIdentity> = Vec::new();
    for i in 0..found.len()
        invariant
            order == sorted::values_of(found@),
            identity_views(partitions@) == order.take(i as int),
    {
        let ghost before = identity_views(partitions@);
        partitions.push(PartitionIdentity { topic: found[i].0.clone(), partition: found[i].1 });
        proof {
            assert(order[i as int] == (found@[i as int].0@, found@[i as int].1));
            assert(identity_views(partitions@) =~= before.push(order[i as int]));
            assert(order.take(i + 1) =~= before.push(order[i as int]));
        }
    }
    proof {
        assert(topics@.take(topics@.len() as int) =~= topics@);
        assert(order.take(order.len() as int) =~= order);
    }
    Ok(partitions)
}

/// The file of a segment is found again under the name that it was created with.
pub proof fn segment_name_is_recognised(base_offset: u64)
    ensures
        file_kind(segment_name(base_offset as nat)) == FileKind::Segment(base_offset),
{
    let digits = text::fixed_width(base_offset as nat, 10, 20);
    let name = segment_name(base_offset as nat);
    reveal_with_fuel(text::ten_to, 21);
    text::lemma_fixed_width(base_offset as nat, 20);
    reveal_strlit(".log");
    assert(name.take(name.len() - 4) =~= digits);
    assert(name.skip(name.len() - 4) =~= ".log"@);
}

/// A new segment is begun only where the active one has records and the next would take it past
/// the limit, and it is begun wherever that is so. The largest limit stands for none.
pub proof fn segments_are_filled(log: Log, size: nat)
    ensures
        log.rotates_for(size) <==> log.active().len > 0 && log.active().len + size
            > log.max_segment_bytes && log.max_segment_bytes != u64::MAX,
        log.rotates_for(size) ==> log.ready_for(size).active().base_offset == log.next_offset
            && log.ready_for(size).active().len == 0 && log.ready_for(size).segments.len()
            == log.segments.len() + 1,
        !log.rotates_for(size) ==> log.ready_for(size) == log,
{
}

/// A record that is appended makes its segment longer by its size, and the log by one offset. The
/// other segments stay as they were.
pub proof fn appended_record_is_counted(log: Log, size: nat, segment: int)
    requires
        log.segments.len() > 0,
        log.next_offset < u64::MAX,
        log.active().len + size <= u64::MAX,
        0 <= segment < log.segments.len() - 1,
    ensures
        ({
            let after = log.appended(size);
            &&& after.next_offset == log.next_offset + 1
            &&& after.active().len == log.active().len + size
            &&& after.active().base_offset == log.active().base_offset
            &&& after.active().path == log.active().path
            &&& after.segments.len() == log.segments.len()
            &&& after.segments[segment] == log.segments[segment]
            &&& after.partition_dir == log.partition_dir
            &&& after.max_segment_bytes == log.max_segment_bytes
            &&& after.index_interval_bytes == log.index_interval_bytes
        }),
{
}

/// The first record of a segment is indexed, and after it each that starts at least the interval
/// behind the last one indexed, and no other.
pub proof fn index_is_sparse(log: Log, size: nat)
    requires
        log.segments.len() > 0,
        log.active().len + size <= u64::MAX,
    ensures
        ({
            let before = log.active().index;
            let after = log.appended(size).active().index;
            let due = before.len() == 0 || log.active().len - before.last().position
                >= log.index_interval_bytes;
            &&& due ==> after == before.push(
                IndexEntry { offset: log.next_offset, position: log.active().len },
            )
            &&& !due ==> after == before
        }),
{
}

/// The search for an offset starts at the last indexed record that is not behind it.
pub proof fn search_starts_before_offset(index: Seq<IndexEntry>, offset: u64, place: int)
    requires
        0 <= place < index.len(),
        forall|i: int, j: int|
            #![trigger index[i], index[j]]
            0 <= i < j < index.len() ==> index[i].offset < index[j].offset,
        index[place].offset <= offset,
        place + 1 < index.len() ==> index[place + 1].offset > offset,
    ensures
        index_position(index, offset) == index[place].position,
{
    lemma_leading_place(index, offset, place);
}

proof fn lemma_leading_place(index: Seq<IndexEntry>, offset: u64, place: int)
    requires
        0 <= place < index.len(),
        forall|i: int, j: int|
            #![trigger index[i], index[j]]
            0 <= i < j < index.len() ==> index[i].offset < index[j].offset,
        index[place].offset <= offset,
        place + 1 < index.len() ==> index[place + 1].offset > offset,
    ensures
        leading_entries(index, offset) == place + 1,
    decreases place,
{
    reveal_with_fuel(leading_entries, 2);
    let rest = index.skip(1);
    if place > 0 {
        assert(index[0].offset < index[place].offset);
        assert(rest[place - 1] == index[place]);
        if place + 1 < index.len() {
            assert(rest[place] == index[place + 1]);
        }
        assert forall|i: int, j: int|
            #![trigger rest[i], rest[j]]
            0 <= i < j < rest.len() implies rest[i].offset < rest[j].offset by {
            assert(rest[i] == index[i + 1]);
            assert(rest[j] == index[j + 1]);
        }
        lemma_leading_place(rest, offset, place - 1);
    } else if index.len() > 1 {
        assert(rest[0] == index[1]);
    }
}

/// Retention removes segments from the start of a log, as long as they are closed and too old, or
/// the log from them on is too large, and none beyond. Without limits it removes none.
pub proof fn retention_removes_what_exceeds_limits(
    log: Log,
    ages_ms: Seq<u64>,
    retention_bytes: Option<u64>,
    retention_ms: Option<u64>,
    place: int,
)
    requires
        log.segments.len() > 0,
        0 <= place < log.segments.len(),
    ensures
        ({
            let removed = retained_from(log, ages_ms, retention_bytes, retention_ms);
            let old = retention_ms is Some && ages_ms[place] > retention_ms->0;
            let large = retention_bytes is Some && retention_bytes->0 < u64::MAX && segment_bytes(
                log.segments.skip(place),
            ) > retention_bytes->0;
            &&& 0 <= removed < log.segments.len()
            &&& place < removed ==> old || large
            &&& place == removed ==> place == log.segments.len() - 1 || !(old || large)
            &&& retention_bytes is None && retention_ms is None ==> removed == 0
        }),
{
    lemma_kept_from(log, ages_ms, retention_bytes, retention_ms, 0, place);
}

proof fn lemma_kept_from(
    log: Log,
    ages_ms: Seq<u64>,
    retention_bytes: Option<u64>,
    retention_ms: Option<u64>,
    segment: int,
    place: int,
)
    requires
        0 <= segment < log.segments.len(),
        0 <= place < log.segments.len(),
    ensures
        ({
            let kept = kept_from(log, ages_ms, retention_bytes, retention_ms, segment);
            let old = retention_ms is Some && ages_ms[place] > retention_ms->0;
            let large = retention_bytes is Some && retention_bytes->0 < u64::MAX && segment_bytes(
                log.segments.skip(place),
            ) > retention_bytes->0;
            &&& segment <= kept < log.segments.len()
            &&& segment <= place < kept ==> old || large
            &&& place == kept ==> place == log.segments.len() - 1 || !(old || large)
            &&& retention_bytes is None && retention_ms is None ==> kept == segment
        }),
    decreases log.segments.len() - segment,
{
    if expires(log, ages_ms, retention_bytes, retention_ms, segment) {
        lemma_kept_from(log, ages_ms, retention_bytes, retention_ms, segment + 1, place);
    }
}

/// The bytes of segments add up.
pub proof fn segment_bytes_add_up(segments: Seq<Segment>, segment: Segment)
    ensures
        segment_bytes(Seq::empty()) == 0,
        segment_bytes(segments.push(segment)) == segment_bytes(segments) + segment.len,
{
    assert(segments.push(segment).drop_last() =~= segments);
}

/// A log is opened where its topic can be named and its limits are not zero; the first fault is
/// what is told.
pub proof fn logs_open_with_names_and_limits(
    topic: Seq<char>,
    max_segment_bytes: u64,
    index_interval_bytes: u64,
)
    ensures
        ({
            let named = topic.len() > 0 && forall|i: int|
                0 <= i < topic.len() ==> {
                    let c = #[trigger] topic[i];
                    ('a' <= c && c <= 'z') || ('A' <= c && c <= 'Z') || ('0' <= c && c <= '9') || c
                        == '.' || c == '_' || c == '-'
                };
            let refusal = open_refusal(topic, max_segment_bytes, index_interval_bytes);
            &&& refusal is None <==> named && max_segment_bytes > 0 && index_interval_bytes > 0
            &&& !named ==> refusal == Some(StorageError::InvalidTopic)
            &&& named && max_segment_bytes == 0 ==> refusal == Some(
                StorageError::InvalidSegmentLimit,
            )
            &&& named && max_segment_bytes > 0 && index_interval_bytes == 0 ==> refusal == Some(
                StorageError::InvalidIndexInterval,
            )
        }),
{
    if text::is_name(topic) {
        assert forall|i: int| 0 <= i < topic.len() implies {
            let c = #[trigger] topic[i];
            ('a' <= c && c <= 'z') || ('A' <= c && c <= 'Z') || ('0' <= c && c <= '9') || c == '.'
                || c == '_' || c == '-'
        } by {
            assert(text::is_name_char(topic[i]));
        }
    }
}

/// Recovery takes the segments of a log one behind the other: one that does not start where the
/// last ended is refused, and one that is closed has to be whole. What it takes of a segment it
/// adds behind the others.
pub proof fn recovery_takes_adjacent_segments(
    log: Log,
    segment: Segment,
    contents: Seq<u8>,
    active: bool,
)
    ensures
        segment.base_offset != log.next_offset ==> log.recovered(segment, contents, active) == Err::<
            Log,
            StorageError,
        >(
            StorageError::UnexpectedSegmentBase {
                expected: log.next_offset,
                actual: segment.base_offset,
            },
        ),
        log.recovered(segment, contents, active) matches Ok(after) ==> {
            &&& after.segments.len() == log.segments.len() + 1
            &&& after.segments.drop_last() =~= log.segments
            &&& after.active().base_offset == log.next_offset
            &&& after.active().path == segment.path
            &&& after.active().len <= segment.len
            &&& !active ==> after.active().len == segment.len
        },
{
}

proof fn lemma_digits_are_fixed_width(digits: Seq<char>)
    requires
        text::all_digits(digits),
    ensures
        text::fixed_width(text::digits_value(digits), 10, digits.len()) == digits,
    decreases digits.len(),
{
    if digits.len() > 0 {
        let front = digits.drop_last();
        assert forall|i: int| 0 <= i < front.len() implies text::is_digit(#[trigger] front[i]) by {
            assert(front[i] == digits[i]);
        }
        lemma_digits_are_fixed_width(front);
        let last = digits.last();
        assert(text::is_digit(digits[digits.len() - 1]));
        let value = text::digits_value(digits);
        assert(value / 10 == text::digits_value(front) && value % 10 == last as nat - 48);
        assert(text::digit((last as nat - 48) as nat) == last);
        assert(text::fixed_width(value, 10, digits.len()) =~= front.push(last));
        assert(front.push(last) =~= digits);
    } else {
        assert(text::fixed_width(0, 10, 0) =~= digits);
    }
}

/// Only files that are named like a segment are taken for one: a file that is taken for the
/// segment at an offset has the name of that segment.
pub proof fn only_segments_are_recognised(name: Seq<char>, base_offset: u64)
    requires
        file_kind(name) == FileKind::Segment(base_offset),
    ensures
        name == segment_name(base_offset as nat),
{
    reveal_strlit(".log");
    let stem = name.take(name.len() - 4);
    lemma_digits_are_fixed_width(stem);
    assert(name =~= stem + ".log"@);
}

/// Every segment among the listed files is found, with its path and its length, and nothing else
/// is. A log file with a name that no segment has is a fault.
pub proof fn listed_segments_are_found(dir: Seq<char>, files: Seq<ListedFile>, place: int)
    requires
        0 <= place < files.len(),
    ensures
        file_kind(files[place].name@) is Invalid ==> listed_segments(dir, files) == Err::<
            Seq<(u64, (Seq<char>, u64))>,
            StorageError,
        >(StorageError::InvalidSegmentName),
        listed_segments(dir, files) matches Ok(found) ==> {
            &&& found.len() <= files.len()
            &&& file_kind(files[place].name@) matches FileKind::Segment(base_offset)
                ==> found.contains(
                (base_offset, (path_below(dir, files[place].name@), files[place].len)),
            )
            &&& file_kind(files[place].name@) is Other && files.len() == 1 ==> found.len() == 0
        },
        listed_segments(dir, files) matches Err(error) ==> error
            == StorageError::InvalidSegmentName,
    decreases files.len(),
{
    let fewer = files.drop_last();
    if files.len() > 1 {
        let at = if place < fewer.len() {
            place
        } else {
            0
        };
        listed_segments_are_found(dir, fewer, at);
        if place < fewer.len() {
            assert(fewer[place] == files[place]);
        }
    }
    if let Ok(found) = listed_segments(dir, files) {
        let before = listed_segments(dir, fewer)->Ok_0;
        if place < fewer.len() {
            if let FileKind::Segment(base_offset) = file_kind(files[place].name@) {
                let item = (base_offset, (path_below(dir, files[place].name@), files[place].len));
                let i = choose|i: int| 0 <= i < before.len() && before[i] == item;
                assert(found[i] == item);
            }
        } else {
            if let FileKind::Segment(base_offset) = file_kind(files[place].name@) {
                assert(found[before.len() as int] == (
                    base_offset,
                    (path_below(dir, files[place].name@), files[place].len),
                ));
            }
        }
    }
}

/// The partitions of a topic are those that its directories are named after, one for each, in
/// order. A directory that is not named after a partition is a fault.
pub proof fn directories_name_partitions(topic: Seq<char>, names: Seq<String>, place: int)
    requires
        0 <= place < names.len(),
    ensures
        text::parsed(names[place]@, u32::MAX as nat) is None ==> listed_numbers(topic, names)
            is Err,
        listed_numbers(topic, names) matches Ok(found) ==> found.len() == names.len()
            && found[place].0 == topic && Some(found[place].1 as nat) == text::parsed(
            names[place]@,
            u32::MAX as nat,
        ),
        listed_numbers(topic, names) matches Err(error) ==> error
            == StorageError::InvalidPartitionName,
    decreases names.len(),
{
    reveal_with_fuel(listed_numbers, 2);
    let fewer = names.drop_last();
    if names.len() > 1 {
        let at = if place < fewer.len() {
            place
        } else {
            0
        };
        directories_name_partitions(topic, fewer, at);
        if place < fewer.len() {
            assert(fewer[place] == names[place]);
        }
    }
}

/// All partitions are found: of each topic those that its directories are named after, and of no
/// other topic. A directory that is not named after a topic is a fault.
pub proof fn all_partitions_are_listed(topics: Seq<TopicListing>, place: int, number: int)
    requires
        0 <= place < topics.len(),
    ensures
        !text::is_name(topics[place].topic@) ==> listed_partitions(topics) is Err,
        listed_partitions(topics) matches Ok(found) ==> (0 <= number
            < topics[place].partitions@.len() ==> found.contains(
            (
                topics[place].topic@,
                text::parsed(topics[place].partitions@[number]@, u32::MAX as nat)->0 as u32,
            ),
        )),
        listed_partitions(topics) matches Ok(found) ==> forall|i: int|
            0 <= i < found.len() ==> exists|j: int|
                0 <= j < topics.len() && (#[trigger] topics[j]).topic@ == (#[trigger] found[i]).0,
    decreases topics.len(),
{
    reveal_with_fuel(listed_partitions, 2);
    let fewer = topics.drop_last();
    let last = topics.last();
    if fewer.len() > 0 {
        let at = if place < fewer.len() {
            place
        } else {
            0
        };
        all_partitions_are_listed(fewer, at, number);
        if place < fewer.len() {
            assert(fewer[place] == topics[place]);
        }
    }
    if listed_partitions(topics) is Ok {
        let found = listed_partitions(topics)->Ok_0;
        let before = listed_partitions(fewer)->Ok_0;
        let more = listed_numbers(last.topic@, last.partitions@)->Ok_0;
        assert(found == before + more);
        if place < fewer.len() && 0 <= number < topics[place].partitions@.len() {
            let wanted = (
                topics[place].topic@,
                text::parsed(topics[place].partitions@[number]@, u32::MAX as nat)->0 as u32,
            );
            let i = choose|i: int| 0 <= i < before.len() && before[i] == wanted;
            assert(found[i] == wanted);
        }
        if place == fewer.len() && 0 <= number < last.partitions@.len() {
            directories_name_partitions(last.topic@, last.partitions@, number);
            assert(found[before.len() + number] == more[number]);
        }
        assert forall|i: int| 0 <= i < found.len() implies exists|j: int|
            0 <= j < topics.len() && (#[trigger] topics[j]).topic@ == (#[trigger] found[i]).0 by {
            if i < before.len() {
                assert(before[i] == found[i]);
                if fewer.len() > 0 {
                    let j = choose|j: int|
                        0 <= j < fewer.len() && (#[trigger] fewer[j]).topic@ == before[i].0;
                    assert(topics[j] == fewer[j]);
                }
            } else {
                if last.partitions@.len() > 0 {
                    directories_name_partitions(last.topic@, last.partitions@, 0);
                    directories_name_partitions(last.topic@, last.partitions@, i - before.len());
                }
                assert(topics[topics.len() - 1].topic@ == found[i].0);
            }
        }
    }
}

/// Partitions have directories of their own, below that of the data.
pub proof fn partitions_have_their_own_directories(
    data_dir: Seq<char>,
    topic: Seq<char>,
    a: nat,
    b: nat,
)
    ensures
        partition_path(data_dir, topic, a) == partition_path(data_dir, topic, b) <==> a == b,
        data_dir.is_prefix_of(partition_path(data_dir, topic, a)),
{
    let dir = path_below(data_dir, topic);
    let front = if dir.len() == 0 || dir.last() == '/' {
        dir
    } else {
        dir.push('/')
    };
    assert(partition_path(data_dir, topic, a) =~= front + text::decimal(a));
    assert(partition_path(data_dir, topic, b) =~= front + text::decimal(b));
    if partition_path(data_dir, topic, a) == partition_path(data_dir, topic, b) {
        assert(text::decimal(a) =~= (front + text::decimal(a)).skip(front.len() as int));
        assert(text::decimal(b) =~= (front + text::decimal(b)).skip(front.len() as int));
        text::lemma_decimal_injective(a, b);
    }
    assert(data_dir =~= partition_path(data_dir, topic, a).take(data_dir.len() as int));
}

/// The entries of an index are stored one behind the other, in order.
pub proof fn index_entries_are_stored_in_order(index: Seq<IndexEntry>, entry: IndexEntry)
    ensures
        encoded_index(Seq::empty()) == Seq::<u8>::empty(),
        encoded_index(index.push(entry)) == encoded_index(index) + (endian::be_bytes(
            entry.offset as nat,
            8,
        ) + endian::be_bytes(entry.position as nat, 8)),
{
    assert(index.push(entry).drop_last() =~= index);
}

/// A log is cut in the file of the segment that becomes its last, and the files of all segments
/// behind it are removed.
pub proof fn cut_is_made_in_last_file(cut: Truncation, before: Log, after: Log, place: int)
    requires
        cut.makes(before, after),
        0 < after.segments.len() <= before.segments.len(),
    ensures
        cut.path@ == after.segments.last().path,
        cut.len == after.segments.last().len,
        cut.removed@.len() == before.segments.len() - after.segments.len(),
        0 <= place < cut.removed@.len() ==> cut.removed@[place]@
            == before.segments[after.segments.len() + place].path,
{
    let removed = text::views(cut.removed@);
    assert(removed.len() == cut.removed@.len());
    if 0 <= place < cut.removed@.len() {
        assert(removed[place] == cut.removed@[place]@);
    }
}

} // verus!
