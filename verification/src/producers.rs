//! The messages of producers that a partition holds, and the file that keeps them over a restart.

use vstd::prelude::*;
use vstd::utf8;

use crate::broker;
use crate::broker::StorageState;
use crate::buffer;
use crate::endian;
use crate::messages::ProducerIdentity;
use crate::storage;
use crate::storage::Log;
use crate::text;

verus! {

/// A message of a producer and where it was stored, as a value.
#[verifier::ext_equal]
pub struct Note {
    pub id: Seq<char>,
    pub sequence: u64,
    pub offset: u64,
}

/// A message of a producer and where it was stored.
#[derive(Debug)]
pub struct StoredMessage {
    pub producer: ProducerIdentity,
    pub offset: u64,
}

impl View for StoredMessage {
    type V = Note;

    open spec fn view(&self) -> Note {
        Note { id: self.producer.id@, sequence: self.producer.sequence, offset: self.offset }
    }
}

/// Several messages as values.
pub open spec fn notes_of(stored: Seq<StoredMessage>) -> Seq<Note> {
    stored.map_values(|message: StoredMessage| message@)
}

/// The bytes of the numbers in front of a producer's id.
pub const NOTE_HEADER: usize = 24;

/// A note as it stands in a file: the sequence, the offset, and the producer behind its length.
pub open spec fn encoded(note: Note) -> Seq<u8> {
    let id = utf8::encode_utf8(note.id);
    endian::be_bytes(note.sequence as nat, 8) + (endian::be_bytes(note.offset as nat, 8) + (
    endian::be_bytes(id.len(), 8) + id))
}

pub open spec fn encoded_all(notes: Seq<Note>) -> Seq<u8>
    decreases notes.len(),
{
    if notes.len() == 0 {
        Seq::empty()
    } else {
        encoded(notes[0]) + encoded_all(notes.skip(1))
    }
}

/// The note at the front of some bytes, where there is a whole one, and what follows it.
pub open spec fn front_note(bytes: Seq<u8>) -> Option<(Note, Seq<u8>)> {
    if bytes.len() < NOTE_HEADER {
        None
    } else {
        let len = endian::be_value(bytes.skip(8).skip(8).take(8));
        let tail = bytes.skip(8).skip(8).skip(8);
        if tail.len() < len || !utf8::valid_utf8(tail.take(len as int)) {
            None
        } else {
            Some(
                (
                    Note {
                        id: utf8::decode_utf8(tail.take(len as int)),
                        sequence: endian::be_value(bytes.take(8)) as u64,
                        offset: endian::be_value(bytes.skip(8).take(8)) as u64,
                    },
                    tail.skip(len as int),
                ),
            )
        }
    }
}

/// The notes that a file holds, up to the first that is not whole.
pub open spec fn parsed(bytes: Seq<u8>) -> Seq<Note>
    decreases bytes.len(),
{
    match front_note(bytes) {
        None => Seq::empty(),
        Some((note, rest)) => if rest.len() < bytes.len() {
            seq![note] + parsed(rest)
        } else {
            Seq::empty()
        },
    }
}

/// The notes of messages below an offset, in order.
pub open spec fn below(notes: Seq<Note>, end: u64) -> Seq<Note>
    decreases notes.len(),
{
    if notes.len() == 0 {
        Seq::empty()
    } else {
        let before = below(notes.drop_last(), end);
        if notes.last().offset < end {
            before.push(notes.last())
        } else {
            before
        }
    }
}

/// The bytes that are added to the file of a partition before a message is written.
pub fn encode_note(producer: &ProducerIdentity, offset: u64) -> (bytes: Vec<u8>)
    ensures
        bytes@ == encoded(Note { id: producer.id@, sequence: producer.sequence, offset }),
{
    let mut bytes: Vec<u8> = Vec::new();
    push_note(&mut bytes, producer, offset);
    assert(bytes@ =~= encoded(Note { id: producer.id@, sequence: producer.sequence, offset }));
    bytes
}

fn push_note(out: &mut Vec<u8>, producer: &ProducerIdentity, offset: u64)
    ensures
        final(out)@ == old(out)@ + encoded(
            Note { id: producer.id@, sequence: producer.sequence, offset },
        ),
{
    let ghost before = out@;
    let id = producer.id.as_str().as_bytes();
    endian::push_u64(out, producer.sequence);
    endian::push_u64(out, offset);
    endian::push_u64(out, id.len() as u64);
    let ghost header = out@;
    for i in 0..id.len()
        invariant
            out@ == header + id@.take(i as int),
    {
        out.push(id[i]);
        assert(out@ =~= header + id@.take(i + 1));
    }
    assert(id@.take(id@.len() as int) =~= id@);
    assert(out@ =~= before + encoded(
        Note { id: producer.id@, sequence: producer.sequence, offset },
    ));
}

/// The messages that the file of a partition tells of.
pub fn parse_notes(contents: &[u8]) -> (stored: Vec<StoredMessage>)
    ensures
        notes_of(stored@) == parsed(contents@),
{
    let mut stored: Vec<StoredMessage> = Vec::new();
    let mut left = buffer::buffer_from(contents);
    assert(notes_of(stored@) + parsed(contents@) =~= parsed(contents@));
    while left.len() >= NOTE_HEADER
        invariant_except_break
            parsed(contents@) == notes_of(stored@) + parsed(buffer::buffered(left)),
        ensures
            parsed(contents@) == notes_of(stored@),
        decreases buffer::buffered(left).len(),
    {
        let ghost bytes = buffer::buffered(left);
        let ghost before = stored@;
        let sequence: u64 = buffer::get_u64(&mut left);
        let offset: u64 = buffer::get_u64(&mut left);
        let len: u64 = buffer::get_u64(&mut left);
        if len > left.len() as u64 {
            assert(front_note(bytes) is None);
            assert(notes_of(stored@) + parsed(bytes) =~= notes_of(stored@));
            break;
        }
        let taken = left.split_to(len as usize).freeze();
        let id = match text::from_utf8(vstd::slice::slice_to_vec(buffer::as_slice(&taken))) {
            Some(id) => id,
            None => {
                assert(front_note(bytes) is None);
                assert(notes_of(stored@) + parsed(bytes) =~= notes_of(stored@));
                break;
            },
        };
        let message = StoredMessage { producer: ProducerIdentity { id, sequence }, offset };
        let ghost note = message@;
        stored.push(message);
        proof {
            assert(front_note(bytes) == Some((note, buffer::buffered(left))));
            assert(notes_of(stored@) =~= notes_of(before).push(note));
            assert(notes_of(before) + (seq![note] + parsed(buffer::buffered(left)))
                =~= notes_of(stored@) + parsed(buffer::buffered(left)));
        }
    }
    stored
}

/// The messages below an offset that the file of a partition tells of, and what the file has to
/// hold to tell of these alone.
pub fn keep_below(contents: &[u8], end: u64) -> (kept: (Vec<StoredMessage>, Vec<u8>))
    ensures
        notes_of(kept.0@) == below(parsed(contents@), end),
        kept.1@ == encoded_all(notes_of(kept.0@)),
{
    let found = parse_notes(contents);
    let mut kept: Vec<StoredMessage> = Vec::new();
    let mut bytes: Vec<u8> = Vec::new();
    let ghost notes = notes_of(found@);
    assert(notes_of(kept@) =~= below(notes.take(0), end));
    for i in 0..found.len()
        invariant
            notes == notes_of(found@),
            notes_of(kept@) == below(notes.take(i as int), end),
            bytes@ == encoded_all(notes_of(kept@)),
    {
        let message = &found[i];
        proof {
            assert(notes.take(i + 1).drop_last() =~= notes.take(i as int));
            assert(notes.take(i + 1).last() == message@);
        }
        if message.offset < end {
            let ghost before = notes_of(kept@);
            push_note(&mut bytes, &message.producer, message.offset);
            kept.push(
                StoredMessage {
                    producer: ProducerIdentity {
                        id: message.producer.id.clone(),
                        sequence: message.producer.sequence,
                    },
                    offset: message.offset,
                },
            );
            proof {
                assert(notes_of(kept@) =~= before.push(message@));
                lemma_encoded_push(before, message@);
            }
        }
    }
    assert(notes.take(notes.len() as int) =~= notes);
    (kept, bytes)
}

/// Where the file of a partition is.
pub fn notes_path(partition_dir: &str) -> (path: String)
    ensures
        path@ == storage::path_below(partition_dir@, "producers.meta"@),
{
    storage::join_path(partition_dir, "producers.meta")
}

proof fn lemma_encoded_push(notes: Seq<Note>, note: Note)
    ensures
        encoded_all(notes.push(note)) == encoded_all(notes) + encoded(note),
    decreases notes.len(),
{
    let all = notes.push(note);
    if notes.len() == 0 {
        assert(all.skip(1) =~= Seq::empty());
        assert(encoded_all(all.skip(1)) =~= Seq::empty());
        assert(encoded_all(all) =~= encoded(note));
        assert(encoded_all(notes) + encoded(note) =~= encoded(note));
    } else {
        assert(all.skip(1) =~= notes.skip(1).push(note));
        lemma_encoded_push(notes.skip(1), note);
        assert(encoded_all(all) =~= encoded_all(notes) + encoded(note));
    }
}

/// A note is read back from the front of what it was written to.
pub proof fn note_round_trip(note: Note, rest: Seq<u8>)
    requires
        utf8::encode_utf8(note.id).len() <= u64::MAX,
    ensures
        front_note(encoded(note) + rest) == Some((note, rest)),
{
    let id = utf8::encode_utf8(note.id);
    let sequence = endian::be_bytes(note.sequence as nat, 8);
    let offset = endian::be_bytes(note.offset as nat, 8);
    let len = endian::be_bytes(id.len(), 8);
    let whole = encoded(note) + rest;
    endian::lemma_be_limits();
    endian::lemma_be_round_trip(note.sequence as nat, 8);
    endian::lemma_be_round_trip(note.offset as nat, 8);
    endian::lemma_be_round_trip(id.len(), 8);
    assert(whole =~= sequence + (offset + (len + (id + rest))));
    endian::lemma_split(sequence, offset + (len + (id + rest)));
    endian::lemma_split(offset, len + (id + rest));
    endian::lemma_split(len, id + rest);
    endian::lemma_split(id, rest);
    utf8::encode_utf8_valid_utf8(note.id);
    utf8::encode_utf8_decode_utf8(note.id);
}

/// A note that was cut short is not read.
pub proof fn cut_note_is_not_read(note: Note, len: int)
    requires
        utf8::encode_utf8(note.id).len() <= u64::MAX,
        0 <= len < encoded(note).len(),
    ensures
        front_note(encoded(note).take(len)) is None,
{
    let id = utf8::encode_utf8(note.id);
    let whole = encoded(note);
    let cut = whole.take(len);
    note_round_trip(note, Seq::empty());
    endian::lemma_be_limits();
    endian::lemma_be_round_trip(note.sequence as nat, 8);
    endian::lemma_be_round_trip(note.offset as nat, 8);
    endian::lemma_be_round_trip(id.len(), 8);
    if len >= NOTE_HEADER {
        assert(cut.skip(8).skip(8).take(8) =~= whole.skip(8).skip(8).take(8));
        assert(whole.skip(8).skip(8).take(8) =~= endian::be_bytes(id.len(), 8));
    }
}

/// What was noted is read back, whatever incomplete note follows.
pub proof fn notes_round_trip(notes: Seq<Note>, tail: Seq<u8>)
    requires
        forall|i: int|
            0 <= i < notes.len() ==> utf8::encode_utf8((#[trigger] notes[i]).id).len() <= u64::MAX,
        front_note(tail) is None,
    ensures
        parsed(encoded_all(notes) + tail) == notes,
    decreases notes.len(),
{
    if notes.len() == 0 {
        assert(encoded_all(notes) + tail =~= tail);
        assert(parsed(tail) =~= notes);
    } else {
        let rest = notes.skip(1);
        assert forall|i: int| 0 <= i < rest.len() implies utf8::encode_utf8(
            (#[trigger] rest[i]).id,
        ).len() <= u64::MAX by {
            assert(rest[i] == notes[i + 1]);
        }
        notes_round_trip(rest, tail);
        let bytes = encoded_all(rest) + tail;
        assert(encoded_all(notes) + tail =~= encoded(notes[0]) + bytes);
        note_round_trip(notes[0], bytes);
        endian::lemma_be_bytes_len(notes[0].sequence as nat, 8);
        assert(parsed(encoded_all(notes) + tail) == seq![notes[0]] + parsed(bytes));
        assert(seq![notes[0]] + rest =~= notes);
    }
}

/// Where the notes tell that a message was stored.
pub open spec fn noted_at(notes: Seq<Note>, id: Seq<char>, sequence: u64) -> Option<u64>
    decreases notes.len(),
{
    if notes.len() == 0 {
        None
    } else if notes.last().id == id && notes.last().sequence == sequence {
        Some(notes.last().offset)
    } else {
        noted_at(notes.drop_last(), id, sequence)
    }
}

/// Whether no message is noted twice.
pub open spec fn noted_once(notes: Seq<Note>) -> bool
    decreases notes.len(),
{
    notes.len() > 0 ==> {
        &&& noted_at(notes.drop_last(), notes.last().id, notes.last().sequence) is None
        &&& noted_once(notes.drop_last())
    }
}

/// Whether the messages that a partition holds are those that are noted.
pub open spec fn recalls(
    state: StorageState,
    topic: Seq<char>,
    partition: u32,
    notes: Seq<Note>,
) -> bool {
    &&& noted_once(notes)
    &&& forall|id: Seq<char>, sequence: u64| #[trigger]
        broker::stored_under(state, topic, partition, id, sequence) == noted_at(
            notes,
            id,
            sequence,
        )
}

/// What is noted before a message is written keeps the notes in step with what the partition holds,
/// for a message that the broker takes itself and for one that its leader sends.
pub proof fn writes_are_noted(
    state: StorageState,
    topic: Seq<char>,
    partition: u32,
    notes: Seq<Note>,
    size: nat,
    producer: Option<ProducerIdentity>,
    quorum: usize,
)
    requires
        recalls(state, topic, partition, notes),
        producer matches Some(sent) ==> broker::stored_under(
            state,
            topic,
            partition,
            sent.id@,
            sent.sequence,
        ) is None,
    ensures
        ({
            let after = state.written(topic, partition, size, producer, quorum);
            recalls(
                after,
                topic,
                partition,
                match producer {
                    Some(sent) => notes.push(
                        Note {
                            id: sent.id@,
                            sequence: sent.sequence,
                            offset: state.log(topic, partition).next_offset,
                        },
                    ),
                    None => notes,
                },
            )
        }),
{
    let after = state.written(topic, partition, size, producer, quorum);
    match producer {
        Some(sent) => {
            let note = Note {
                id: sent.id@,
                sequence: sent.sequence,
                offset: state.log(topic, partition).next_offset,
            };
            let more = notes.push(note);
            assert(more.drop_last() =~= notes);
            assert forall|id: Seq<char>, sequence: u64| #[trigger]
                broker::stored_under(after, topic, partition, id, sequence) == noted_at(
                    more,
                    id,
                    sequence,
                ) by {
                assert(broker::stored_under(state, topic, partition, id, sequence) == noted_at(
                    notes,
                    id,
                    sequence,
                ));
            }
        },
        None => {
            assert forall|id: Seq<char>, sequence: u64| #[trigger]
                broker::stored_under(after, topic, partition, id, sequence) == noted_at(
                    notes,
                    id,
                    sequence,
                ) by {
                assert(broker::stored_under(state, topic, partition, id, sequence) == noted_at(
                    notes,
                    id,
                    sequence,
                ));
            }
        },
    }
}

proof fn lemma_below(notes: Seq<Note>, end: u64, id: Seq<char>, sequence: u64)
    requires
        noted_once(notes),
    ensures
        noted_at(below(notes, end), id, sequence) == match noted_at(notes, id, sequence) {
            Some(offset) => if offset < end {
                Some(offset)
            } else {
                None
            },
            None => None,
        },
    decreases notes.len(),
{
    if notes.len() > 0 {
        lemma_below(notes.drop_last(), end, id, sequence);
        let before = below(notes.drop_last(), end);
        assert(before.push(notes.last()).drop_last() =~= before);
    }
}

proof fn lemma_below_once(notes: Seq<Note>, end: u64)
    requires
        noted_once(notes),
    ensures
        noted_once(below(notes, end)),
    decreases notes.len(),
{
    if notes.len() > 0 {
        lemma_below_once(notes.drop_last(), end);
        let before = below(notes.drop_last(), end);
        lemma_below(notes.drop_last(), end, notes.last().id, notes.last().sequence);
        assert(before.push(notes.last()).drop_last() =~= before);
    }
}

/// A log that is cut off and a file that keeps what is below the new end stay in step.
pub proof fn truncation_is_noted(
    state: StorageState,
    topic: Seq<char>,
    partition: u32,
    notes: Seq<Note>,
    log: Log,
)
    requires
        recalls(state, topic, partition, notes),
    ensures
        recalls(
            state.cut(topic, partition, log),
            topic,
            partition,
            below(notes, log.next_offset),
        ),
{
    let after = state.cut(topic, partition, log);
    lemma_below_once(notes, log.next_offset);
    assert forall|id: Seq<char>, sequence: u64| #[trigger]
        broker::stored_under(after, topic, partition, id, sequence) == noted_at(
            below(notes, log.next_offset),
            id,
            sequence,
        ) by {
        assert(broker::stored_under(state, topic, partition, id, sequence) == noted_at(
            notes,
            id,
            sequence,
        ));
        lemma_below(notes, log.next_offset, id, sequence);
    }
}

proof fn lemma_restored(
    state: StorageState,
    topic: Seq<char>,
    partition: u32,
    notes: Seq<Note>,
    id: Seq<char>,
    sequence: u64,
)
    requires
        broker::stored_under(state, topic, partition, id, sequence) is None,
    ensures
        broker::stored_under(
            state.with_notes(topic, partition, notes),
            topic,
            partition,
            id,
            sequence,
        ) == noted_at(notes, id, sequence),
    decreases notes.len(),
{
    if notes.len() > 0 {
        lemma_restored(state, topic, partition, notes.drop_last(), id, sequence);
    }
}

/// A restart forgets no message: the file that was kept in step, read when the partition is opened
/// again, tells of every message of a producer that the log holds where it was stored, whatever
/// incomplete note follows.
pub proof fn restart_recalls_messages(
    before: StorageState,
    opened: StorageState,
    topic: Seq<char>,
    partition: u32,
    notes: Seq<Note>,
    tail: Seq<u8>,
    end: u64,
    id: Seq<char>,
    sequence: u64,
)
    requires
        recalls(before, topic, partition, notes),
        forall|i: int|
            0 <= i < notes.len() ==> utf8::encode_utf8((#[trigger] notes[i]).id).len() <= u64::MAX,
        front_note(tail) is None,
        broker::stored_under(opened, topic, partition, id, sequence) is None,
        broker::stored_under(before, topic, partition, id, sequence) matches Some(offset)
            ==> offset < end,
    ensures
        broker::stored_under(
            opened.with_notes(
                topic,
                partition,
                below(parsed(encoded_all(notes) + tail), end),
            ),
            topic,
            partition,
            id,
            sequence,
        ) == broker::stored_under(before, topic, partition, id, sequence),
{
    notes_round_trip(notes, tail);
    lemma_below(notes, end, id, sequence);
    lemma_restored(opened, topic, partition, below(notes, end), id, sequence);
    assert(broker::stored_under(before, topic, partition, id, sequence) == noted_at(
        notes,
        id,
        sequence,
    ));
}

} // verus!
