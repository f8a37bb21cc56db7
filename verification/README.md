# tansu-nvme

A local append-log storage engine for a Kafka-compatible broker, verified with
Verus. Partitions are segment logs with group-commit syncs; topics, producers,
transactions, consumer groups and SCRAM credentials are kept in memory, made
durable by a write-ahead log of metadata and by snapshots; sealed segments are
tiered to an object store and read back from there.

## Layout

- `src/` is the engine's logic, all of it verified. It holds no files, threads
  or clocks: an operation takes the state and plain values, and gives back the
  answer, the record to be logged and the bytes to be written.
- `app/` is the engine around it: files, locks, flusher threads, the object
  store, and the JSON documents of WAL and snapshots. The encoding of record
  batches and the schema registry are traits there.
- `tests/` runs the library, among others on an engine whose files are in
  memory.

## What is stated

Each function's contract says what it returns and how the state changes, over
mathematical models of the types. What holds across operations is proved in
functions named `law_...`, among them:

- what is produced is read back, and only once it is synced;
- a committed reader is given nothing at or after the start of an open
  transaction, and is told of every aborted range it may meet;
- a prepared transaction ends only once no open transaction overlaps it, and
  waits for nothing else: the last open one to end resolves it, through however
  many overlaps it is reached, and one that has ended never holds another up;
- no producer id is handed out twice, and a transaction that is asked for again
  keeps its id and gets the next epoch, its open incarnation rolled back;
- a logged record replays to the state that its operation left (of a prepared
  transaction, to the ranges that it produced, not to the partitions that were
  only added to it), and replaying it twice is replaying it once (changes of
  settings excepted: some append again);
- a snapshot gives back the state it captured and stands for the WAL before it,
  but for what a segment scan rebuilds, which is not in it;
- the newest snapshot that is not corrupt is the one to boot from;
- a segment scan gives back the index, the sequence numbers and the ranges of
  open transactions, whatever was torn off its tail.

What outside crates and the standard library contribute to the logic (CRC-32C,
URL parsing, human-readable units, debug formatting) is called through a
handful of trusted functions, each with its claim in its doc comment.
