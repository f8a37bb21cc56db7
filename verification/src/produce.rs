//! Producing one batch, step by step around the writes and syncs of its
//! segment file: the batch is admitted, an offset is assigned and a segment
//! chosen, the written frame is indexed, and once the sync is acknowledged the
//! high watermark exposes it.

use crate::error::{refused, Error, ErrorCode, Fault, Result};
use crate::fetch::{law_fetch_makes_progress, source_of, wanted, Source};
use crate::log::SegmentWriter;
use crate::model::Model;
use crate::partition::{
    indexed, law_index_keeps_entries, law_index_keeps_sound, sound, stable, uncached, BatchEntry,
    EntryModel, OpenTxnKey, PartModel, PartitionInner,
};
use crate::state::{
    cell, extended, next_sequence, producer_refusal, sequence_fits, txn_at, with_cell,
    with_sequence, with_txn, CoordModel, CoordState, TxnDetailModel,
};
use crate::types::{IsolationLevel, Topition, TxnState};
use vstd::prelude::*;

verus! {

/// What the engine reads of a batch.
#[derive(Clone, Copy, Debug, PartialEq, Eq, Structural)]
pub struct BatchHeader {
    pub last_offset_delta: i32,
    pub max_timestamp: i64,
    /// Whether the batch's attributes mark it as a control batch.
    pub control: bool,
    /// Whether the batch's attributes mark it as transactional.
    pub transaction: bool,
    /// Whether an idempotent producer sent the batch.
    pub idempotent: bool,
    pub producer_id: i64,
    pub producer_epoch: i16,
    pub base_sequence: i32,
}

/// Whether the disk budget (none where it is zero) is exceeded.
pub open spec fn over_budget(disk_usage: u64, disk_budget_bytes: u64) -> bool {
    disk_budget_bytes > 0 && disk_usage > disk_budget_bytes
}

/// The state after a sequence number was looked at, and why it is refused if
/// it is.
pub open spec fn validated(
    coord: CoordModel,
    header: BatchHeader,
    topic: Seq<char>,
    partition: i32,
) -> (CoordModel, Option<ErrorCode>) {
    match producer_refusal(coord, header.producer_id, header.producer_epoch) {
        Some(code) => (coord, Some(code)),
        None => {
            let expected = next_sequence(
                coord,
                header.producer_id,
                header.producer_epoch,
                topic,
                partition,
            );
            let set = |sequence: i32|
                with_sequence(
                    coord,
                    header.producer_id,
                    header.producer_epoch,
                    topic,
                    partition,
                    sequence,
                );
            if expected < header.base_sequence {
                (set(expected), Some(ErrorCode::OutOfOrderSequenceNumber))
            } else if expected > header.base_sequence {
                (set(expected), Some(ErrorCode::DuplicateSequenceNumber))
            } else {
                (set((header.base_sequence + header.last_offset_delta + 1) as i32), None)
            }
        },
    }
}

/// Whether a data batch names a transaction that is not open.
pub open spec fn txn_closed(
    coord: CoordModel,
    transaction_id: Option<Seq<char>>,
    header: BatchHeader,
) -> bool {
    &&& transaction_id is Some
    &&& header.transaction
    &&& !header.control
    &&& txn_at(coord, transaction_id.unwrap(), header.producer_epoch) matches Some(detail)
        && detail.state != Some(TxnState::Begin)
}

/// The state after a batch was looked at, and why it is refused if it is.
/// The disk budget is looked at first, so that a batch it refuses can be sent
/// again as it is; then the sequence number; then the transaction.
pub open spec fn admission(
    coord: CoordModel,
    disk_usage: u64,
    disk_budget_bytes: u64,
    transaction_id: Option<Seq<char>>,
    topition: (Seq<char>, i32),
    header: BatchHeader,
) -> (CoordModel, Option<ErrorCode>) {
    if over_budget(disk_usage, disk_budget_bytes) {
        (coord, Some(ErrorCode::KafkaStorageError))
    } else {
        let (after, refusal) = if header.idempotent {
            validated(coord, header, topition.0, topition.1)
        } else {
            (coord, None)
        };
        if refusal is None && txn_closed(after, transaction_id, header) {
            (after, Some(ErrorCode::InvalidTxnState))
        } else {
            (after, refusal)
        }
    }
}

/// What an optional text says.
pub open spec fn text_view(text: Option<&str>) -> Option<Seq<char>> {
    match text {
        Some(text) => Some(text@),
        None => None,
    }
}

/// Decides whether a batch may be appended, bumping the sequence number of an
/// idempotent producer.
pub fn admit_batch(
    coord: &mut CoordState,
    disk_usage: u64,
    disk_budget_bytes: u64,
    transaction_id: Option<&str>,
    topition: &Topition,
    header: &BatchHeader,
) -> (result: Result<()>)
    requires
        old(coord).wf(),
        !over_budget(disk_usage, disk_budget_bytes) && header.idempotent && sequence_fits(
            old(coord).model(),
            header.producer_id,
            header.producer_epoch,
            header.base_sequence,
            topition.topic@,
            topition.partition,
        ) ==> {
            &&& header.last_offset_delta < i32::MAX
            &&& i32::MIN <= header.base_sequence + header.last_offset_delta + 1 <= i32::MAX
        },
    ensures
        final(coord).wf(),
        ({
            let (after, refusal) = admission(
                old(coord).model(),
                disk_usage,
                disk_budget_bytes,
                text_view(transaction_id),
                topition.model(),
                *header,
            );
            &&& final(coord).model() == after
            &&& match refusal {
                Some(code) => refused(result, Fault::Api(code)),
                None => result is Ok,
            }
        }),
{
    if disk_budget_bytes > 0 && disk_usage > disk_budget_bytes {
        return Err(Error::Api(ErrorCode::KafkaStorageError));
    }
    if header.idempotent {
        match coord.validate_sequence(
            header.producer_id,
            header.producer_epoch,
            header.base_sequence,
            header.last_offset_delta,
            topition.topic.as_str(),
            topition.partition,
        ) {
            Ok(()) => {},
            Err(error) => {
                return Err(error);
            },
        }
    }
    if let Some(transaction_id) = transaction_id {
        if header.transaction && !header.control {
            if let Some(transaction) = coord.transactions.get(&transaction_id.to_owned()) {
                if let Some(detail) = transaction.epochs.get(&header.producer_epoch) {
                    if detail.state != Some(TxnState::Begin) {
                        return Err(Error::Api(ErrorCode::InvalidTxnState));
                    }
                }
            }
        }
    }
    Ok(())
}

/// An offset range assigned to a batch, and what has to happen to the
/// partition's segments before it is written.
#[derive(Clone, Copy, Debug, PartialEq, Eq, Structural)]
pub struct Append {
    pub offset: i64,
    pub offset_end: i64,
    /// The segment that is full and to be sealed.
    pub sealed: Option<i64>,
    /// Whether a segment is to be created, based at `offset`.
    pub create: bool,
}

/// Whether the next batch needs a segment of its own: the partition has none,
/// or the active one is full.
pub open spec fn rotates(p: PartModel, segment_bytes: u64) -> bool {
    match p.writer {
        Some(writer) => writer.position >= segment_bytes,
        None => true,
    }
}

/// The partition after offsets were assigned to a batch.
pub open spec fn assigned(p: PartModel, last_offset_delta: i32, segment_bytes: u64) -> PartModel {
    PartModel {
        next_offset: (p.next_offset + last_offset_delta + 1) as i64,
        writer: if rotates(p, segment_bytes) {
            None
        } else {
            p.writer
        },
        ..p
    }
}

/// How a written batch is indexed.
pub open spec fn entry_of(
    header: BatchHeader,
    segment_base: i64,
    position: u64,
    framed_len: u64,
    batch: Seq<u8>,
) -> EntryModel {
    EntryModel {
        segment_base,
        position,
        len: framed_len as u32,
        tiered: false,
        cached: Some(batch),
        last_offset_delta: header.last_offset_delta,
        max_timestamp: header.max_timestamp,
        is_control: header.control,
        is_transactional: header.transaction,
        producer_id: header.producer_id,
        producer_epoch: header.producer_epoch,
        base_sequence: header.base_sequence,
    }
}

/// The transaction that a data batch belongs to.
pub open spec fn open_key(transaction_id: Option<Seq<char>>, header: BatchHeader) -> Option<
    (Seq<char>, (i64, i16)),
> {
    match transaction_id {
        Some(id) => if header.transaction && !header.control {
            Some((id, (header.producer_id, header.producer_epoch)))
        } else {
            None
        },
        None => None,
    }
}

/// The partition with a transaction open from an offset on, unless it was open
/// before.
pub open spec fn opened(
    p: PartModel,
    key: Option<(Seq<char>, (i64, i16))>,
    offset: i64,
) -> PartModel {
    match key {
        Some(key) => if p.open_txns.dom().contains(key) {
            p
        } else {
            PartModel { open_txns: p.open_txns.insert(key, offset), ..p }
        },
        None => p,
    }
}

/// The partition after a written batch was indexed.
pub open spec fn recorded(
    p: PartModel,
    offset: i64,
    entry: EntryModel,
    key: Option<(Seq<char>, (i64, i16))>,
    cache_budget: u64,
) -> PartModel {
    opened(indexed(p, offset, entry, cache_budget), key, offset)
}

/// The partition after a sync was acknowledged.
pub open spec fn acknowledged(p: PartModel, offset_end: i64) -> PartModel {
    PartModel {
        durable_offset: if offset_end + 1 > p.durable_offset {
            (offset_end + 1) as i64
        } else {
            p.durable_offset
        },
        ..p
    }
}

impl PartitionInner {
    /// Assigns offsets to a batch, and decides whether it goes to the active
    /// segment or to a fresh one.
    pub fn begin_append(&mut self, last_offset_delta: i32, segment_bytes: u64) -> (append: Append)
        requires
            old(self).wf(),
            i64::MIN <= old(self).next_offset + last_offset_delta < i64::MAX,
        ensures
            final(self).wf(),
            final(self).model() == assigned(old(self).model(), last_offset_delta, segment_bytes),
            append == (Append {
                offset: old(self).next_offset,
                offset_end: (old(self).next_offset + last_offset_delta) as i64,
                sealed: if rotates(old(self).model(), segment_bytes) {
                    match old(self).writer {
                        Some(writer) => Some(writer.base_offset),
                        None => None,
                    }
                } else {
                    None
                },
                create: rotates(old(self).model(), segment_bytes),
            }),
    {
        let offset = self.next_offset;
        let offset_end: i64 = offset + last_offset_delta as i64;
        self.next_offset = offset_end + 1;
        let create = match self.writer {
            Some(writer) => writer.position >= segment_bytes,
            None => true,
        };
        let mut sealed: Option<i64> = None;
        if create {
            if let Some(writer) = self.writer {
                sealed = Some(writer.base_offset);
            }
            self.writer = None;
        }
        Append { offset, offset_end, sealed, create }
    }

    /// Takes a freshly created segment as the active one.
    pub fn open_segment(&mut self, base_offset: i64)
        requires
            old(self).wf(),
        ensures
            final(self).wf(),
            final(self).model() == (PartModel {
                writer: Some(SegmentWriter { base_offset, position: 0 }),
                ..old(self).model()
            }),
    {
        self.writer = Some(SegmentWriter::create(base_offset));
    }

    /// Accounts for a frame written to the active segment; returns the segment
    /// and where in it the frame starts.
    pub fn written(&mut self, framed_len: u64) -> (place: (i64, u64))
        requires
            old(self).wf(),
            old(self).writer matches Some(writer) && writer.position + framed_len <= u64::MAX,
        ensures
            final(self).wf(),
            final(self).model() == (PartModel {
                writer: Some(
                    SegmentWriter {
                        base_offset: place.0,
                        position: (place.1 + framed_len) as u64,
                    },
                ),
                ..old(self).model()
            }),
            old(self).writer == Some(SegmentWriter { base_offset: place.0, position: place.1 }),
    {
        let mut writer = self.writer.unwrap();
        let position = writer.append(framed_len);
        self.writer = Some(writer);
        (writer.base_offset, position)
    }

    /// Indexes a written batch; a data batch of a transaction pins the last
    /// stable offset from here on.
    pub fn record_batch(
        &mut self,
        transaction_id: Option<&str>,
        header: &BatchHeader,
        offset: i64,
        segment_base: i64,
        position: u64,
        framed_len: u64,
        batch: Vec<u8>,
        cache_budget: u64,
    )
        requires
            old(self).wf(),
            i64::MIN <= offset + header.last_offset_delta <= i64::MAX,
            old(self).cached_bytes + batch@.len() <= u64::MAX,
        ensures
            final(self).wf(),
            final(self).model() == recorded(
                old(self).model(),
                offset,
                entry_of(*header, segment_base, position, framed_len, batch@),
                open_key(text_view(transaction_id), *header),
                cache_budget,
            ),
    {
        let entry = BatchEntry {
            segment_base,
            position,
            len: #[verifier::truncate] (framed_len as u32),
            tiered: false,
            cached: Some(batch),
            last_offset_delta: header.last_offset_delta,
            max_timestamp: header.max_timestamp,
            is_control: header.control,
            is_transactional: header.transaction,
            producer_id: header.producer_id,
            producer_epoch: header.producer_epoch,
            base_sequence: header.base_sequence,
        };
        self.index(offset, entry, cache_budget);
        let ghost indexed = self.model();
        if let Some(transaction_id) = transaction_id {
            if header.transaction && !header.control {
                let key = (
                    transaction_id.to_owned(),
                    (header.producer_id, header.producer_epoch),
                );
                let ghost k = key.model();
                let start = self.open_txns.entry(key, offset);
                proof {
                    if indexed.open_txns.dom().contains(k) {
                        assert(indexed.open_txns.insert(k, indexed.open_txns[k])
                            =~= indexed.open_txns);
                    }
                }
            }
        }
    }

    /// Lets readers see a batch whose sync was acknowledged.
    pub fn acknowledge(&mut self, offset_end: i64)
        requires
            old(self).wf(),
            offset_end < i64::MAX,
        ensures
            final(self).wf(),
            final(self).model() == acknowledged(old(self).model(), offset_end),
    {
        if offset_end + 1 > self.durable_offset {
            self.durable_offset = offset_end + 1;
        }
    }
}

/// Records a produced batch with its transaction, if it has one.
pub fn settle(
    coord: &mut CoordState,
    transaction_id: Option<&str>,
    topition: &Topition,
    header: &BatchHeader,
    offset: i64,
    offset_end: i64,
) -> (result: Result<()>)
    requires
        old(coord).wf(),
    ensures
        final(coord).wf(),
        match settled_txn(old(coord).model(), text_view(transaction_id), *header) {
            None => result is Ok && final(coord).model() == old(coord).model(),
            Some((id, detail)) => if !header.control && detail.state != Some(TxnState::Begin) {
                &&& refused(result, Fault::Api(ErrorCode::InvalidTxnState))
                &&& final(coord).model() == old(coord).model()
            } else {
                &&& result is Ok
                &&& final(coord).model() == with_txn(
                    old(coord).model(),
                    id,
                    header.producer_epoch,
                    TxnDetailModel {
                        produces: with_cell(
                            detail.produces,
                            topition.topic@,
                            topition.partition,
                            Some(
                                extended(
                                    cell(detail.produces, topition.topic@, topition.partition),
                                    offset,
                                    offset_end,
                                ),
                            ),
                        ),
                        ..detail
                    },
                )
            },
        },
{
    if let Some(transaction_id) = transaction_id {
        if header.transaction {
            return coord.record_txn_produce(
                transaction_id,
                header.producer_epoch,
                topition.topic.as_str(),
                topition.partition,
                offset,
                offset_end,
                header.control,
            );
        }
    }
    Ok(())
}

/// The transaction that a produced batch is recorded with.
pub open spec fn settled_txn(
    coord: CoordModel,
    transaction_id: Option<Seq<char>>,
    header: BatchHeader,
) -> Option<(Seq<char>, TxnDetailModel)> {
    match transaction_id {
        Some(id) => if header.transaction {
            match txn_at(coord, id, header.producer_epoch) {
                Some(detail) => Some((id, detail)),
                None => None,
            }
        } else {
            None
        },
        None => None,
    }
}

/// A batch that the disk budget refuses leaves the coordination state as it
/// was: it can be sent again verbatim.
pub proof fn law_budget_refusal_changes_nothing(
    coord: CoordModel,
    disk_usage: u64,
    disk_budget_bytes: u64,
    transaction_id: Option<Seq<char>>,
    topition: (Seq<char>, i32),
    header: BatchHeader,
)
    requires
        over_budget(disk_usage, disk_budget_bytes),
    ensures
        admission(
            coord,
            disk_usage,
            disk_budget_bytes,
            transaction_id,
            topition,
            header,
        ) == (coord, Some(ErrorCode::KafkaStorageError)),
{
}

/// An idempotent batch that was admitted is refused as a duplicate when it is
/// sent again, and the refusal changes nothing.
pub proof fn law_duplicate_refused(
    coord: CoordModel,
    transaction_id: Option<Seq<char>>,
    topition: (Seq<char>, i32),
    header: BatchHeader,
)
    requires
        header.idempotent,
        header.last_offset_delta >= 0,
        header.base_sequence + header.last_offset_delta + 1 <= i32::MAX,
        validated(coord, header, topition.0, topition.1).1 is None,
    ensures
        ({
            let after = validated(coord, header, topition.0, topition.1).0;
            validated(after, header, topition.0, topition.1) == (
                after,
                Some(ErrorCode::DuplicateSequenceNumber),
            )
        }),
{
    let (id, epoch) = (header.producer_id, header.producer_epoch);
    let after = validated(coord, header, topition.0, topition.1).0;
    let next = (header.base_sequence + header.last_offset_delta + 1) as i32;
    let epochs = coord.producers[id];
    assert(after.producers[id].dom() =~= epochs.dom());
    assert(after.producers[id] != Map::<i16, crate::state::SequenceModel>::empty()) by {
        assert(after.producers[id].dom().contains(epoch));
    }
    assert(producer_refusal(after, id, epoch) is None);
    assert(next_sequence(after, id, epoch, topition.0, topition.1) == next);
    let again = with_sequence(after, id, epoch, topition.0, topition.1, next);
    let by_topic = after.producers[id][epoch];
    assert(by_topic[topition.0].insert(topition.1, next) =~= by_topic[topition.0]);
    assert(by_topic.insert(topition.0, by_topic[topition.0]) =~= by_topic);
    assert(after.producers[id].insert(epoch, by_topic) =~= after.producers[id]);
    assert(after.producers.insert(id, after.producers[id]) =~= after.producers);
    assert(again == after);
}

/// Offsets are dense: the batch after one of `first + 1` records starts right
/// behind its last offset.
pub proof fn law_offsets_dense(p: PartModel, first: i32, second: i32, segment_bytes: u64)
    requires
        i64::MIN <= p.next_offset + first < i64::MAX,
        i64::MIN <= p.next_offset + first + 1 + second < i64::MAX,
    ensures
        assigned(p, first, segment_bytes).next_offset == p.next_offset + first + 1,
        assigned(assigned(p, first, segment_bytes), second, segment_bytes).next_offset
            == p.next_offset + first + 1 + second + 1,
{
}

/// Appending and indexing a batch moves no watermark: readers see it only
/// after its sync is acknowledged, and then up to its last offset.
pub proof fn law_visible_only_when_synced(
    p: PartModel,
    header: BatchHeader,
    segment_bytes: u64,
    entry: EntryModel,
    key: Option<(Seq<char>, (i64, i16))>,
    cache_budget: u64,
)
    requires
        i64::MIN <= p.next_offset + header.last_offset_delta < i64::MAX,
    ensures
        ({
            let offset = p.next_offset;
            let offset_end = (offset + header.last_offset_delta) as i64;
            let begun = assigned(p, header.last_offset_delta, segment_bytes);
            let unsynced = recorded(begun, offset, entry, key, cache_budget);
            let synced = acknowledged(unsynced, offset_end);
            &&& unsynced.durable_offset == p.durable_offset
            &&& unsynced.batches.dom().contains(offset)
            &&& uncached(unsynced.batches[offset]) == uncached(entry)
            &&& synced.batches == unsynced.batches
            &&& synced.durable_offset >= p.durable_offset
            &&& synced.durable_offset > offset_end
        }),
{
    let begun = assigned(p, header.last_offset_delta, segment_bytes);
    law_index_keeps_entries(begun, p.next_offset, entry, cache_budget);
    assert(indexed(begun, p.next_offset, entry, cache_budget).batches.dom().contains(
        p.next_offset,
    ));
}

/// A data batch of a transaction holds the last stable offset at or below the
/// transaction's first offset, whatever is acknowledged after it.
pub proof fn law_open_txn_pins_stable(
    p: PartModel,
    offset: i64,
    entry: EntryModel,
    key: (Seq<char>, (i64, i16)),
    cache_budget: u64,
    offset_end: i64,
)
    requires
        crate::totals::listable::<OpenTxnKey, i64>(p.open_txns),
        !p.open_txns.dom().contains(key),
    ensures
        stable(
            acknowledged(recorded(p, offset, entry, Some(key), cache_budget), offset_end),
        ) <= offset,
{
    law_index_keeps_entries(p, offset, entry, cache_budget);
    let after = acknowledged(recorded(p, offset, entry, Some(key), cache_budget), offset_end);
    crate::totals::lemma_total_put::<OpenTxnKey, i64>(p.open_txns, key, offset, |v: i64| 0nat);
    crate::partition::law_stable_offset(after);
    assert(after.open_txns.dom().contains(key));
}

/// What is produced is read back: once its sync is acknowledged, a fetch at a
/// batch's offset returns it first, whatever the size budget is, from the tail
/// cache or from the place in the segment where it was written.
pub proof fn law_produced_is_fetched(
    p: PartModel,
    header: BatchHeader,
    segment_bytes: u64,
    place: (i64, u64),
    framed_len: u64,
    batch: Seq<u8>,
    key: Option<(Seq<char>, (i64, i16))>,
    cache_budget: u64,
    max_bytes: u32,
)
    requires
        sound(p),
        header.last_offset_delta >= 0,
        p.next_offset + header.last_offset_delta < i64::MAX,
    ensures
        ({
            let offset = p.next_offset;
            let offset_end = (offset + header.last_offset_delta) as i64;
            let entry = entry_of(header, place.0, place.1, framed_len, batch);
            let synced = acknowledged(
                recorded(
                    assigned(p, header.last_offset_delta, segment_bytes),
                    offset,
                    entry,
                    key,
                    cache_budget,
                ),
                offset_end,
            );
            let batches = wanted(synced, offset, max_bytes, IsolationLevel::ReadUncommitted);
            &&& batches.len() > 0
            &&& source_of(batches[0]) == (Source::Cached { base: offset, batch }) || source_of(
                batches[0],
            ) == (Source::Disk {
                base: offset,
                segment_base: place.0,
                position: place.1,
                len: framed_len as u32,
            })
        }),
{
    let offset = p.next_offset;
    let offset_end = (offset + header.last_offset_delta) as i64;
    let entry = entry_of(header, place.0, place.1, framed_len, batch);
    let begun = assigned(p, header.last_offset_delta, segment_bytes);
    let unsynced = recorded(begun, offset, entry, key, cache_budget);
    let synced = acknowledged(unsynced, offset_end);
    law_index_keeps_entries(begun, offset, entry, cache_budget);
    law_index_keeps_sound(begun, offset, entry, cache_budget);
    assert(synced.batches.dom().contains(offset));
    assert(sound(synced));
    law_fetch_makes_progress(synced, offset, max_bytes, IsolationLevel::ReadUncommitted);
}

} // verus!
