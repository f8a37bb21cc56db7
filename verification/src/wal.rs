//! The metadata write-ahead log: coordination mutations (producer ids,
//! transaction state, group offsets and state, topics, SCRAM, log starts) as
//! WAL frames. Record data is not here: producer sequences, produced ranges of
//! open transactions and watermarks are rebuilt from the segment scan at boot.
//!
//! One WAL file per boot epoch (`{seq:020}.wal`); a snapshot retires every
//! file at or below its sequence.

use crate::frame::{
    decode, encode, frame_at_start, framed, law_round_trip, Decoded, FrameType, HEADER_LEN,
};
use crate::model::Model;
use crate::sorting::{all_models, in_order, sort};
use crate::state::{CommitOffsetModel, TxnCommitOffset, TxnProduceOffset};
use crate::text::{
    concat, count_value, join, lemma_padded_reads_back, lemma_stem, padded, padded_count,
    parse_count, path_in, stem, strip_suffix,
};
use crate::time::SystemTime;
use crate::types::{
    AlterableConfig, Change, CreatableTopic, GroupDetail, OffsetCommit, OffsetCommitRequest,
    TopicSpec, Version,
};
use vstd::prelude::*;

verus! {

/// One mutation of the coordination state.
#[derive(Debug)]
pub enum WalRecord {
    TopicCreate { id: u128, topic: CreatableTopic },
    TopicDelete { name: String },
    ConfigAlter { name: String, changes: Vec<AlterableConfig> },
    PidAlloc { producer_id: i64, transaction_id: Option<String>, transaction_timeout_ms: i32 },
    EpochBump {
        transaction_id: String,
        producer_id: i64,
        producer_epoch: i16,
        transaction_timeout_ms: i32,
    },
    TxnBegin {
        transaction_id: String,
        producer_id: i64,
        producer_epoch: i16,
        started_at: SystemTime,
        partitions: Vec<(String, i32)>,
    },
    TxnPrepare {
        transaction_id: String,
        producer_id: i64,
        producer_epoch: i16,
        committed: bool,
        produced: Vec<(String, i32, TxnProduceOffset)>,
    },
    TxnTerminal {
        transaction_id: String,
        producer_id: i64,
        producer_epoch: i16,
        committed: bool,
        aborted: Vec<(String, i32, TxnProduceOffset)>,
    },
    TxnOffsets {
        transaction_id: String,
        producer_id: i64,
        producer_epoch: i16,
        group: String,
        offsets: Vec<(String, i32, TxnCommitOffset)>,
    },
    GroupOffsetCommit { group: String, offsets: Vec<(String, i32, OffsetCommitRequest)> },
    GroupUpdate { group: String, detail: GroupDetail, version: Version },
    GroupDelete { group: String },
    ScramUpsert {
        user: String,
        mechanism: String,
        salt: Vec<u8>,
        iterations: i32,
        stored_key: Vec<u8>,
        server_key: Vec<u8>,
    },
    ScramDelete { user: String, mechanism: String },
    LogStartAdvance { topic: String, partition: i32, offset: i64 },
}

/// What a [`WalRecord`] says.
pub enum Record {
    TopicCreate { id: u128, topic: TopicSpec },
    TopicDelete { name: Seq<char> },
    ConfigAlter { name: Seq<char>, changes: Seq<Change> },
    PidAlloc { producer_id: i64, transaction_id: Option<Seq<char>>, transaction_timeout_ms: i32 },
    EpochBump {
        transaction_id: Seq<char>,
        producer_id: i64,
        producer_epoch: i16,
        transaction_timeout_ms: i32,
    },
    TxnBegin {
        transaction_id: Seq<char>,
        producer_id: i64,
        producer_epoch: i16,
        started_at: SystemTime,
        partitions: Seq<(Seq<char>, i32)>,
    },
    TxnPrepare {
        transaction_id: Seq<char>,
        producer_id: i64,
        producer_epoch: i16,
        committed: bool,
        produced: Seq<(Seq<char>, i32, TxnProduceOffset)>,
    },
    TxnTerminal {
        transaction_id: Seq<char>,
        producer_id: i64,
        producer_epoch: i16,
        committed: bool,
        aborted: Seq<(Seq<char>, i32, TxnProduceOffset)>,
    },
    TxnOffsets {
        transaction_id: Seq<char>,
        producer_id: i64,
        producer_epoch: i16,
        group: Seq<char>,
        offsets: Seq<(Seq<char>, i32, CommitOffsetModel)>,
    },
    GroupOffsetCommit { group: Seq<char>, offsets: Seq<(Seq<char>, i32, OffsetCommit)> },
    GroupUpdate { group: Seq<char>, detail: Seq<u8>, version: Version },
    GroupDelete { group: Seq<char> },
    ScramUpsert {
        user: Seq<char>,
        mechanism: Seq<char>,
        salt: Seq<u8>,
        iterations: i32,
        stored_key: Seq<u8>,
        server_key: Seq<u8>,
    },
    ScramDelete { user: Seq<char>, mechanism: Seq<char> },
    LogStartAdvance { topic: Seq<char>, partition: i32, offset: i64 },
}

impl View for WalRecord {
    type V = Record;

    open spec fn view(&self) -> Record {
        match self {
            WalRecord::TopicCreate { id, topic } => Record::TopicCreate {
                id: *id,
                topic: topic.model(),
            },
            WalRecord::TopicDelete { name } => Record::TopicDelete { name: name@ },
            WalRecord::ConfigAlter { name, changes } => Record::ConfigAlter {
                name: name@,
                changes: changes.model(),
            },
            WalRecord::PidAlloc { producer_id, transaction_id, transaction_timeout_ms } =>
            Record::PidAlloc {
                producer_id: *producer_id,
                transaction_id: transaction_id.model(),
                transaction_timeout_ms: *transaction_timeout_ms,
            },
            WalRecord::EpochBump {
                transaction_id,
                producer_id,
                producer_epoch,
                transaction_timeout_ms,
            } => Record::EpochBump {
                transaction_id: transaction_id@,
                producer_id: *producer_id,
                producer_epoch: *producer_epoch,
                transaction_timeout_ms: *transaction_timeout_ms,
            },
            WalRecord::TxnBegin {
                transaction_id,
                producer_id,
                producer_epoch,
                started_at,
                partitions,
            } => Record::TxnBegin {
                transaction_id: transaction_id@,
                producer_id: *producer_id,
                producer_epoch: *producer_epoch,
                started_at: *started_at,
                partitions: partitions.model(),
            },
            WalRecord::TxnPrepare {
                transaction_id,
                producer_id,
                producer_epoch,
                committed,
                produced,
            } => Record::TxnPrepare {
                transaction_id: transaction_id@,
                producer_id: *producer_id,
                producer_epoch: *producer_epoch,
                committed: *committed,
                produced: produced.model(),
            },
            WalRecord::TxnTerminal {
                transaction_id,
                producer_id,
                producer_epoch,
                committed,
                aborted,
            } => Record::TxnTerminal {
                transaction_id: transaction_id@,
                producer_id: *producer_id,
                producer_epoch: *producer_epoch,
                committed: *committed,
                aborted: aborted.model(),
            },
            WalRecord::TxnOffsets {
                transaction_id,
                producer_id,
                producer_epoch,
                group,
                offsets,
            } => Record::TxnOffsets {
                transaction_id: transaction_id@,
                producer_id: *producer_id,
                producer_epoch: *producer_epoch,
                group: group@,
                offsets: offsets.model(),
            },
            WalRecord::GroupOffsetCommit { group, offsets } => Record::GroupOffsetCommit {
                group: group@,
                offsets: offsets.model(),
            },
            WalRecord::GroupUpdate { group, detail, version } => Record::GroupUpdate {
                group: group@,
                detail: detail.model(),
                version: *version,
            },
            WalRecord::GroupDelete { group } => Record::GroupDelete { group: group@ },
            WalRecord::ScramUpsert {
                user,
                mechanism,
                salt,
                iterations,
                stored_key,
                server_key,
            } => Record::ScramUpsert {
                user: user@,
                mechanism: mechanism@,
                salt: salt@,
                iterations: *iterations,
                stored_key: stored_key@,
                server_key: server_key@,
            },
            WalRecord::ScramDelete { user, mechanism } => Record::ScramDelete {
                user: user@,
                mechanism: mechanism@,
            },
            WalRecord::LogStartAdvance { topic, partition, offset } => Record::LogStartAdvance {
                topic: topic@,
                partition: *partition,
                offset: *offset,
            },
        }
    }
}

/// What a log record to be written says, if there is one.
pub open spec fn record_view(record: Option<WalRecord>) -> Option<Record> {
    match record {
        Some(record) => Some(record@),
        None => None,
    }
}

/// The name of the WAL file of a sequence.
pub open spec fn wal_name(seq: u64) -> Seq<char> {
    padded(seq as int, 20) + ".wal"@
}

pub fn wal_path(dir: &str, seq: u64) -> (path: String)
    ensures
        path@ == path_in(dir@, wal_name(seq)),
{
    let name = concat(padded_count(seq, 20).as_str(), ".wal");
    join(dir, name.as_str())
}

/// The sequence that a file name says, if it has a suffix.
pub open spec fn seq_of_name(name: Seq<char>, suffix: Seq<char>) -> Option<u64> {
    match stem(name, suffix) {
        Some(digits) => count_value(digits),
        None => None,
    }
}

/// The sequences that the names with a suffix say.
pub open spec fn seqs_of(names: Seq<String>, suffix: Seq<char>) -> Seq<u64>
    decreases names.len(),
{
    if names.len() == 0 {
        Seq::empty()
    } else {
        match seq_of_name(names.last()@, suffix) {
            Some(seq) => seqs_of(names.drop_last(), suffix).push(seq),
            None => seqs_of(names.drop_last(), suffix),
        }
    }
}

/// The sequence that a file name says.
pub fn parse_name(name: &str, suffix: &str) -> (seq: Option<u64>)
    ensures
        seq == seq_of_name(name@, suffix@),
{
    match strip_suffix(name, suffix) {
        Some(digits) => parse_count(digits.as_str()),
        None => None,
    }
}

/// The sequences that the names with a suffix say, ascending.
pub fn sorted_seqs(names: &Vec<String>, suffix: &str) -> (seqs: Vec<u64>)
    ensures
        in_order::<u64>(seqs@),
        seqs@.to_multiset() == seqs_of(names@, suffix@).to_multiset(),
{
    let mut found: Vec<u64> = Vec::new();
    let mut i: usize = 0;
    while i < names.len()
        invariant
            i <= names@.len(),
            found@ == seqs_of(names@.take(i as int), suffix@),
        decreases names@.len() - i,
    {
        proof {
            assert(names@.take(i + 1).drop_last() =~= names@.take(i as int));
        }
        if let Some(seq) = parse_name(names[i].as_str(), suffix) {
            found.push(seq);
        }
        i += 1;
    }
    proof {
        assert(names@.take(i as int) =~= names@);
        assert(all_models(found@) =~= found@);
    }
    let seqs = sort(found);
    assert(all_models(seqs@) =~= seqs@);
    seqs
}

/// WAL sequences among a directory's file names, ascending.
pub fn wal_seqs(names: &Vec<String>) -> (seqs: Vec<u64>)
    ensures
        in_order::<u64>(seqs@),
        seqs@.to_multiset() == seqs_of(names@, ".wal"@).to_multiset(),
{
    sorted_seqs(names, ".wal")
}

/// The name given to a WAL file says its sequence.
pub proof fn law_wal_name_reads_back(seq: u64)
    ensures
        seq_of_name(wal_name(seq), ".wal"@) == Some(seq),
{
    lemma_stem(padded(seq as int, 20), ".wal"@);
    lemma_padded_reads_back(seq as int, 20);
}

/// The WAL file of this boot epoch.
#[derive(Clone, Copy, Debug, PartialEq, Eq, Structural)]
pub struct Wal {
    pub seq: u64,
    /// Bytes appended to this file (the snapshot-cadence signal).
    pub bytes_since_open: u64,
}

impl Wal {
    /// A fresh WAL file (one per boot epoch).
    pub fn create(seq: u64) -> (wal: Self)
        ensures
            wal == (Wal { seq, bytes_since_open: 0 }),
    {
        Wal { seq, bytes_since_open: 0 }
    }

    /// The bytes that append one record's payload.
    pub fn frame(payload: &[u8]) -> (out: Vec<u8>)
        ensures
            out@ == framed(FrameType::Wal, payload@),
    {
        encode(FrameType::Wal, payload)
    }

    /// Accounts for framed bytes that were appended.
    pub fn append(&mut self, len: u64)
        requires
            old(self).bytes_since_open + len <= u64::MAX,
        ensures
            *final(self) == (Wal {
                bytes_since_open: (old(self).bytes_since_open + len) as u64,
                ..*old(self)
            }),
    {
        self.bytes_since_open = self.bytes_since_open + len;
    }

    /// Whether there is anything for a snapshot to retire.
    pub fn grown(&self) -> (b: bool)
        ensures
            b == (self.bytes_since_open > 0),
    {
        self.bytes_since_open > 0
    }

    /// The WAL file that follows this one, which a snapshot then captures.
    pub fn next(&self) -> (wal: Self)
        requires
            self.seq < u64::MAX,
        ensures
            wal == (Wal { seq: (self.seq + 1) as u64, bytes_since_open: 0 }),
    {
        Wal::create(self.seq + 1)
    }
}

/// The record payloads of a WAL file from a position on, up to its torn tail.
pub open spec fn replay_from(bytes: Seq<u8>, at: int) -> Seq<Seq<u8>>
    decreases bytes.len() - at,
{
    if at < 0 || at >= bytes.len() {
        Seq::empty()
    } else {
        match frame_at_start(bytes.skip(at)) {
            Some((FrameType::Wal, payload)) => seq![payload] + replay_from(
                bytes,
                at + HEADER_LEN + payload.len(),
            ),
            _ => Seq::empty(),
        }
    }
}

/// The bytes of each of a list of payloads.
pub open spec fn payloads(list: Seq<Vec<u8>>) -> Seq<Seq<u8>> {
    Seq::new(list.len(), |i: int| list[i]@)
}

/// The record payloads of one WAL file, in order. A torn tail (crash
/// mid-append) or a foreign frame simply ends the file.
pub fn replay(bytes: &[u8]) -> (records: Vec<Vec<u8>>)
    ensures
        payloads(records@) == replay_from(bytes@, 0),
{
    let mut records: Vec<Vec<u8>> = Vec::new();
    let mut position: usize = 0;
    let len: usize = bytes.len();
    let ghost whole = replay_from(bytes@, 0);
    assert(payloads(records@) + whole =~= whole);
    while position < len
        invariant
            len == bytes@.len(),
            position <= len,
            whole == replay_from(bytes@, 0),
            whole == payloads(records@) + replay_from(bytes@, position as int),
        decreases len - position,
    {
        let here = vstd::slice::slice_subrange(bytes, position, len);
        assert(here@ =~= bytes@.skip(position as int));
        match decode(here) {
            Decoded::Frame(frame) => {
                if !matches!(frame.frame_type, FrameType::Wal) {
                    assert(whole =~= payloads(records@));
                    return records;
                }
                let size: usize = frame.size_on_disk();
                let ghost before = payloads(records@);
                let ghost payload = frame.payload@;
                records.push(frame.payload);
                proof {
                    assert(payloads(records@) =~= before.push(payload));
                    assert(before.push(payload) + replay_from(bytes@, position + size) =~= before
                        + replay_from(bytes@, position as int));
                }
                position += size;
            },
            Decoded::Torn => {
                assert(whole =~= payloads(records@));
                return records;
            },
        }
    }
    assert(whole =~= payloads(records@));
    records
}

/// The bytes of a WAL file to which records were appended one after another.
pub open spec fn wal_bytes(records: Seq<Seq<u8>>) -> Seq<u8>
    decreases records.len(),
{
    if records.len() == 0 {
        Seq::empty()
    } else {
        wal_bytes(records.drop_last()) + framed(FrameType::Wal, records.last())
    }
}

proof fn lemma_replay_step(bytes: Seq<u8>, at: int, payload: Seq<u8>)
    requires
        0 <= at < bytes.len(),
        frame_at_start(bytes.skip(at)) == Some((FrameType::Wal, payload)),
    ensures
        replay_from(bytes, at) == seq![payload] + replay_from(
            bytes,
            at + HEADER_LEN + payload.len(),
        ),
{
}

proof fn lemma_replay_prefix(records: Seq<Seq<u8>>, tail: Seq<u8>)
    requires
        forall|i: int| 0 <= i < records.len() ==> (#[trigger] records[i]).len() < 0x1_0000_0000,
    ensures
        replay_from(wal_bytes(records) + tail, 0) == records + replay_from(
            wal_bytes(records) + tail,
            wal_bytes(records).len() as int,
        ),
    decreases records.len(),
{
    let all = wal_bytes(records) + tail;
    if records.len() == 0 {
        assert(records + replay_from(all, 0) =~= replay_from(all, 0));
    } else {
        let init = records.drop_last();
        let last = framed(FrameType::Wal, records.last());
        let at = wal_bytes(init).len() as int;
        assert forall|i: int| 0 <= i < init.len() implies (#[trigger] init[i]).len()
            < 0x1_0000_0000 by {
            assert(init[i] == records[i]);
        }
        assert(records[records.len() - 1].len() < 0x1_0000_0000);
        lemma_replay_prefix(init, last + tail);
        assert(wal_bytes(init) + (last + tail) =~= all);
        assert(all.skip(at) =~= last + tail);
        law_round_trip(FrameType::Wal, records.last(), tail);
        lemma_replay_step(all, at, records.last());
        let end = wal_bytes(records).len() as int;
        assert(end == at + HEADER_LEN + records.last().len());
        assert(init + (seq![records.last()] + replay_from(all, end)) =~= records + replay_from(
            all,
            end,
        ));
    }
}

/// A replay gives back exactly the records that were appended, whatever torn
/// tail a crash left behind them.
pub proof fn law_replay_recovers_appended(records: Seq<Seq<u8>>, torn: Seq<u8>)
    requires
        forall|i: int| 0 <= i < records.len() ==> (#[trigger] records[i]).len() < 0x1_0000_0000,
        !(frame_at_start(torn) matches Some((FrameType::Wal, _))),
    ensures
        replay_from(wal_bytes(records) + torn, 0) == records,
{
    lemma_replay_prefix(records, torn);
    let all = wal_bytes(records) + torn;
    let at = wal_bytes(records).len() as int;
    assert(all.skip(at) =~= torn);
    assert(replay_from(all, at) =~= Seq::<Seq<u8>>::empty());
    assert(records + Seq::<Seq<u8>>::empty() =~= records);
}

} // verus!
