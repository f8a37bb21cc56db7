//! What producing a batch does to the sequence numbers, the offsets, the index
//! and the transaction that it belongs to, and to nothing else.

use crate::error::ErrorCode;
use crate::ordmap::greatest;
use crate::partition::{indexed, law_index_keeps_entries, EntryModel, PartModel};
use crate::produce::{
    acknowledged, admission, assigned, entry_of, open_key, recorded, rotates, settled_txn,
    BatchHeader,
};
use crate::state::{extended, with_cell, CoordModel, ProducesModel, SequenceModel, TxnProduceOffset};
use crate::types::TxnState;
use vstd::prelude::*;

verus! {

/// The sequence number that is kept for a producer's epoch on a partition.
pub open spec fn sequence_at(
    coord: CoordModel,
    producer_id: i64,
    epoch: i16,
    topic: Seq<char>,
    partition: i32,
) -> Option<i32> {
    if coord.producers.dom().contains(producer_id)
        && coord.producers[producer_id].dom().contains(epoch)
        && coord.producers[producer_id][epoch].dom().contains(topic)
        && coord.producers[producer_id][epoch][topic].dom().contains(partition) {
        Some(coord.producers[producer_id][epoch][topic][partition])
    } else {
        None
    }
}

/// The sequence number that a producer's next batch on a partition must have:
/// the one that is kept, and 0 to begin with.
pub open spec fn due(
    coord: CoordModel,
    producer_id: i64,
    epoch: i16,
    topic: Seq<char>,
    partition: i32,
) -> int {
    match sequence_at(coord, producer_id, epoch, topic, partition) {
        Some(sequence) => sequence as int,
        None => 0,
    }
}

/// Whether an epoch is a producer's current one: it is known, and none above
/// it is.
pub open spec fn current_epoch(coord: CoordModel, producer_id: i64, epoch: i16) -> bool {
    &&& coord.producers[producer_id].dom().contains(epoch)
    &&& forall|other: i16| #[trigger]
        coord.producers[producer_id].dom().contains(other) ==> other <= epoch
}

/// Whether a data batch goes to a transaction that is known and not open.
pub open spec fn not_open(
    coord: CoordModel,
    transaction_id: Option<Seq<char>>,
    header: BatchHeader,
) -> bool {
    &&& header.transaction
    &&& !header.control
    &&& transaction_id matches Some(id)
    &&& coord.transactions.dom().contains(id)
    &&& coord.transactions[id].epochs.dom().contains(header.producer_epoch)
    &&& coord.transactions[id].epochs[header.producer_epoch].state != Some(TxnState::Begin)
}

/// Why a batch is refused, if it is: first for the disk budget, then for its
/// producer, its epoch and its sequence number, and last for its transaction.
/// A batch of no idempotent producer has no sequence number to look at.
pub proof fn law_batch_is_admitted(
    coord: CoordModel,
    disk_usage: u64,
    disk_budget: u64,
    transaction_id: Option<Seq<char>>,
    topition: (Seq<char>, i32),
    header: BatchHeader,
)
    ensures
        ({
            let (after, refusal) = admission(
                coord,
                disk_usage,
                disk_budget,
                transaction_id,
                topition,
                header,
            );
            let (id, epoch) = (header.producer_id, header.producer_epoch);
            let expected = due(coord, id, epoch, topition.0, topition.1);
            let full = disk_budget != 0 && disk_usage > disk_budget;
            let checked = !full && header.idempotent;
            let known = coord.producers.dom().contains(id);
            let has_epoch = coord.producers[id].dom() != Set::<i16>::empty();
            let current = current_epoch(coord, id, epoch);
            let in_line = !full && (header.idempotent ==> known && current && expected
                == header.base_sequence);
            &&& refusal == Some(ErrorCode::KafkaStorageError) <==> full
            &&& refusal == Some(ErrorCode::UnknownProducerId) <==> checked && !known
            &&& refusal == Some(ErrorCode::UnknownServerError) <==> checked && known && !has_epoch
            &&& refusal == Some(ErrorCode::ProducerFenced) <==> checked && known && has_epoch
                && !current
            &&& refusal == Some(ErrorCode::OutOfOrderSequenceNumber) <==> checked && known
                && current && expected < header.base_sequence
            &&& refusal == Some(ErrorCode::DuplicateSequenceNumber) <==> checked && known && current
                && expected > header.base_sequence
            &&& refusal == Some(ErrorCode::InvalidTxnState) <==> in_line && not_open(
                coord,
                transaction_id,
                header,
            )
            &&& refusal is None <==> in_line && !not_open(coord, transaction_id, header)
        }),
{
    let (id, epoch) = (header.producer_id, header.producer_epoch);
    let epochs = coord.producers[id];
    if coord.producers.dom().contains(id) {
        lemma_current(epochs, epoch);
        if epochs.dom() =~= Set::<i16>::empty() {
            assert(epochs =~= Map::<i16, SequenceModel>::empty());
        }
        if current_epoch(coord, id, epoch) {
            assert(epochs.dom().contains(epoch));
        }
    }
}

proof fn lemma_current(epochs: Map<i16, SequenceModel>, epoch: i16)
    ensures
        greatest::<i16, SequenceModel>(epochs, epoch) <==> epochs.dom().contains(epoch) && forall|
            other: i16,
        | #[trigger]
            epochs.dom().contains(other) ==> other <= epoch,
{
}

/// What looking at a batch changes: one that is in line moves the sequence
/// number of its producer, epoch and partition on by its number of records, and
/// the next batch that is in line begins there. Every other sequence number
/// stays, and all else does; a batch that is not in line moves none.
pub proof fn law_sequence_moves_on(
    coord: CoordModel,
    disk_usage: u64,
    disk_budget: u64,
    transaction_id: Option<Seq<char>>,
    topition: (Seq<char>, i32),
    header: BatchHeader,
    producer_id: i64,
    epoch: i16,
    topic: Seq<char>,
    partition: i32,
)
    requires
        i32::MIN <= header.base_sequence + header.last_offset_delta + 1 <= i32::MAX,
    ensures
        ({
            let (after, refusal) = admission(
                coord,
                disk_usage,
                disk_budget,
                transaction_id,
                topition,
                header,
            );
            let own = (producer_id, epoch, (topic, partition)) == (
                header.producer_id,
                header.producer_epoch,
                topition,
            );
            let moves = header.idempotent && (refusal is None || refusal == Some(
                ErrorCode::InvalidTxnState,
            ));
            &&& due(after, producer_id, epoch, topic, partition) == if own && moves {
                header.base_sequence + header.last_offset_delta + 1
            } else {
                due(coord, producer_id, epoch, topic, partition)
            }
            &&& !own ==> sequence_at(after, producer_id, epoch, topic, partition) == sequence_at(
                coord,
                producer_id,
                epoch,
                topic,
                partition,
            )
            &&& after.producers.dom() == coord.producers.dom()
            &&& after == (CoordModel { producers: after.producers, ..coord })
            &&& !header.idempotent ==> after == coord
        }),
{
    let (after, refusal) = admission(
        coord,
        disk_usage,
        disk_budget,
        transaction_id,
        topition,
        header,
    );
    law_batch_is_admitted(coord, disk_usage, disk_budget, transaction_id, topition, header);
    assert(after.producers.dom() =~= coord.producers.dom());
    let id = header.producer_id;
    if coord.producers.dom().contains(id) {
        lemma_current(coord.producers[id], header.producer_epoch);
    }
}

/// The offsets that a batch gets begin at the next one and are as many as it
/// has records. It goes to the active segment while that is not full; else, or
/// where there is none, no segment is active until one is created for it.
pub proof fn law_offsets_are_assigned(p: PartModel, last_offset_delta: i32, segment_bytes: u64)
    requires
        i64::MIN <= p.next_offset + last_offset_delta < i64::MAX,
    ensures
        ({
            let after = assigned(p, last_offset_delta, segment_bytes);
            let room = p.writer matches Some(writer) && writer.position < segment_bytes;
            &&& after.next_offset - p.next_offset == last_offset_delta + 1
            &&& rotates(p, segment_bytes) <==> !room
            &&& room ==> after.writer == p.writer
            &&& !room ==> after.writer is None
            &&& after == (PartModel {
                next_offset: after.next_offset,
                writer: after.writer,
                ..p
            })
        }),
{
}

/// Whether two entries say the same of a batch, but for its cached bytes.
pub open spec fn same_batch(a: EntryModel, b: EntryModel) -> bool {
    &&& a.segment_base == b.segment_base
    &&& a.position == b.position
    &&& a.len == b.len
    &&& a.tiered == b.tiered
    &&& a.last_offset_delta == b.last_offset_delta
    &&& a.max_timestamp == b.max_timestamp
    &&& a.is_control == b.is_control
    &&& a.is_transactional == b.is_transactional
    &&& a.producer_id == b.producer_id
    &&& a.producer_epoch == b.producer_epoch
    &&& a.base_sequence == b.base_sequence
}

/// A written batch is indexed under its offset, with what its header says and
/// where it was written, on the local disk; what was indexed before still is.
/// A data batch opens its transaction on the partition at its offset, unless it
/// is open there already; no other batch opens one. Nothing else changes.
pub proof fn law_batch_is_recorded(
    p: PartModel,
    transaction_id: Option<Seq<char>>,
    header: BatchHeader,
    offset: i64,
    segment_base: i64,
    position: u64,
    framed_len: u64,
    batch: Seq<u8>,
    cache_budget: u64,
    other: i64,
    key: (Seq<char>, (i64, i16)),
)
    requires
        framed_len <= u32::MAX,
    ensures
        ({
            let after = recorded(
                p,
                offset,
                entry_of(header, segment_base, position, framed_len, batch),
                open_key(transaction_id, header),
                cache_budget,
            );
            let own = key == (
                transaction_id.unwrap(),
                (header.producer_id, header.producer_epoch),
            ) && transaction_id is Some && header.transaction && !header.control;
            &&& after.batches.dom().contains(offset)
            &&& ({
                let entry = after.batches[offset];
                &&& entry.segment_base == segment_base
                &&& entry.position == position
                &&& entry.len == framed_len
                &&& !entry.tiered
                &&& entry.cached is None || entry.cached == Some(batch)
                &&& entry.last_offset_delta == header.last_offset_delta
                &&& entry.max_timestamp == header.max_timestamp
                &&& entry.is_control == header.control
                &&& entry.is_transactional == header.transaction
                &&& entry.producer_id == header.producer_id
                &&& entry.producer_epoch == header.producer_epoch
                &&& entry.base_sequence == header.base_sequence
            })
            &&& other != offset ==> {
                &&& after.batches.dom().contains(other) <==> p.batches.dom().contains(other)
                &&& after.batches.dom().contains(other) ==> {
                    &&& same_batch(after.batches[other], p.batches[other])
                    &&& after.batches[other].cached is None || after.batches[other].cached
                        == p.batches[other].cached
                }
            }
            &&& after.open_txns.dom().contains(key) <==> p.open_txns.dom().contains(key) || own
            &&& p.open_txns.dom().contains(key) ==> after.open_txns[key] == p.open_txns[key]
            &&& own && !p.open_txns.dom().contains(key) ==> after.open_txns[key] == offset
            &&& after.log_start == p.log_start
            &&& after.next_offset == p.next_offset
            &&& after.durable_offset == p.durable_offset
            &&& after.aborted == p.aborted
            &&& after.writer == p.writer
            &&& after.uploaded == p.uploaded
        }),
{
    let entry = entry_of(header, segment_base, position, framed_len, batch);
    law_index_keeps_entries(p, offset, entry, cache_budget);
    let index = indexed(p, offset, entry, cache_budget);
    assert(index.batches.dom().contains(offset));
    assert(index.batches.dom().contains(other) <==> p.batches.dom().contains(other) || other
        == offset);
}

/// A sync that is acknowledged makes everything up to its last offset durable,
/// never less than was, and changes nothing else.
pub proof fn law_sync_moves_the_watermark(p: PartModel, offset_end: i64)
    requires
        offset_end < i64::MAX,
    ensures
        ({
            let after = acknowledged(p, offset_end);
            &&& after.durable_offset > offset_end
            &&& after.durable_offset >= p.durable_offset
            &&& after.durable_offset == offset_end + 1 || after.durable_offset == p.durable_offset
            &&& after == (PartModel { durable_offset: after.durable_offset, ..p })
        }),
{
}

/// The range that a transaction has produced on a partition once a batch is
/// settled holds what it held and the batch: it begins where it began, or with
/// the batch where it is the first, and ends no earlier than either.
pub proof fn law_range_grows(
    produces: ProducesModel,
    topic: Seq<char>,
    partition: i32,
    offset_start: i64,
    offset_end: i64,
    other: Seq<char>,
    other_partition: i32,
)
    requires
        offset_start <= offset_end,
    ensures
        ({
            let before = range_at(produces, topic, partition);
            let range = extended(
                crate::state::cell(produces, topic, partition),
                offset_start,
                offset_end,
            );
            let after = with_cell(produces, topic, partition, Some(range));
            &&& range_at(after, topic, partition) == Some(range)
            &&& range.offset_end >= offset_end
            &&& before is None ==> range == (TxnProduceOffset { offset_start, offset_end })
            &&& before matches Some(had) ==> {
                &&& range.offset_start == had.offset_start
                &&& range.offset_end >= had.offset_end
                &&& range.offset_end == had.offset_end || range.offset_end == offset_end
            }
            &&& (other, other_partition) != (topic, partition) ==> range_at(
                after,
                other,
                other_partition,
            ) == range_at(produces, other, other_partition)
        }),
{
}

/// The range of a transaction on a partition.
pub open spec fn range_at(produces: ProducesModel, topic: Seq<char>, partition: i32) -> Option<
    TxnProduceOffset,
> {
    if produces.dom().contains(topic) && produces[topic].dom().contains(partition) {
        produces[topic][partition]
    } else {
        None
    }
}

/// A batch is settled with a transaction if and only if it is marked
/// transactional and names one whose epoch is known.
pub proof fn law_batch_is_settled_with_its_transaction(
    coord: CoordModel,
    transaction_id: Option<Seq<char>>,
    header: BatchHeader,
)
    ensures
        match settled_txn(coord, transaction_id, header) {
            Some((id, detail)) => {
                &&& transaction_id == Some(id)
                &&& header.transaction
                &&& coord.transactions.dom().contains(id)
                &&& coord.transactions[id].epochs.dom().contains(header.producer_epoch)
                &&& coord.transactions[id].epochs[header.producer_epoch] == detail
            },
            None => !(header.transaction && (transaction_id matches Some(id)
                && coord.transactions.dom().contains(id)
                && coord.transactions[id].epochs.dom().contains(header.producer_epoch))),
        },
{
}

} // verus!
