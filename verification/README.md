# SevlaMQ

A compact message broker: append-only partition logs with retention, a length-prefixed binary
protocol, idempotent producers, consumer groups, replication to followers, partition leadership with
epochs and safe promotion, and retry topics for consumers.

The rules of the broker are a library, in `src/`, whose behaviour is stated in contracts and proved
with Verus. The programs around it, in `app/`, are ordinary Rust: they read and write files and
sockets, keep the clock, and do what the library says comes next.

## Layout

| Module | What it holds |
| --- | --- |
| `endian`, `buffer`, `checksum`, `text`, `sorted` | numbers, bytes, checksums, text and ordered maps |
| `protocol` | the wire format of produce requests and their acknowledgements |
| `record`, `storage`, `history` | records, segments, sparse indexes, recovery, and what a log holds as a whole |
| `broker`, `jobs` | topics, routing, producer sequences, epochs and high watermarks; what a storage command needs done with files |
| `producers` | the file that tells which messages of producers a partition holds |
| `messages`, `serving` | requests and answers; what is done for a request until it is answered |
| `groups`, `group_requests` | consumer groups, their generations and committed offsets |
| `cluster`, `leadership`, `replication`, `promotion` | who has a replica of a partition and who leads it, epochs, how followers catch up, and who may take over |
| `config`, `admin`, `observability`, `metrics` | configuration, the admin endpoint and its metrics page |
| `client`, `cli`, `consumer`, `retry` | routing of requests, commands, consumption, retries and dead letters |

Work that waits for a disk or a peer is a state machine: `jobs::Job`, `serving::Task`,
`replication::Replication` and `consumer::Consumer` each name the next thing to do and take what
came of it.

## What is taken on trust

The contracts of the calls into `bytes` (`buffer`), `crc32fast` (`checksum`) and three functions of
the standard library (`text`). Everything else in `src/` is proved. The checksum of given bytes is
a named value: nothing is claimed of it but that it depends on the bytes alone.

## What is proved beyond each function

Frames, records, envelopes and files are read back as they were written; an append leaves no gap
and changes no earlier record; recovery restores the log that was written, without an incomplete
tail; retention and truncation keep the rest of a log as it was, and segments keep to their size;
messages with one key go to one partition and unkeyed ones are spread; a message that its producer
sends again is not stored again; each partition of a group has one member, and a generation that is
over stays over; a leadership only advances; at-most-once consumers commit before they process and
at-least-once consumers after.

Durable messages are forced to disk (`jobs::durable_message_is_synced`). A record is committed once
`min_in_sync_replicas` brokers of its replica set hold it, whatever the others do
(`replication::quorum_commits`). Durable messages are acknowledged when and only when all their
records are held by so many (`serving::quorum_acknowledges`,
`serving::durable_acknowledgement_reaches_quorum`). A follower that takes what it is sent holds the
records of the leader (`history::receiving_follows_leader`, `replication::follower_catches_up`).

The messages of producers are noted beside the log, and the notes go to the followers with the
records. So a message that is sent again is recognised after a restart
(`producers::restart_recalls_messages`) and by a new leader.

Fetches stay below the high watermark (`broker::fetches_stay_committed`). A promoted leader holds all
records that are known to be committed (`promotion::promotion_is_safe`), and those that a lost
leader had confirmed by a quorum (`promotion::confirmed_records_survive_promotion`). The leader that
it replaced is refused (`promotion::replaced_leader_is_refused`), and what a follower held above the
high watermark gives way to the records of the new leader
(`replication::new_leader_removes_divergence`).

A broker tells how far its replica gets as one offset, without the epoch of its last record. The law
on confirmed records therefore speaks of brokers whose logs hold no other records than the leader's.

## On the wire

Plain messages and their acknowledgements have binary frames, which `protocol` defines. The programs
carry all other requests, and the records between brokers, as TOML in frames of one further opcode.
