//! What a boot gives back of partitions, sequence numbers, produced ranges and
//! open transactions, and which files it looks at.

use crate::model::{Key, Model};
use crate::ordmap::{
    ascending, lemma_ascending_at, lemma_ascending_distinct, lemma_ascending_position,
};
use crate::partition::{end_offset, indexed, law_index_keeps_entries, EntryModel, PartModel};
use crate::produce_laws::{due, range_at, same_batch};
use crate::rebuild::{
    base_set, coord_seen, fetched, in_range, joined, lacking, local_entry, owners, owners_of,
    part_seen, rebuilt, remote_entry, scanned, sequenced, with_range_seen, with_sequence_seen, FoundBatch,
    SidecarEntry,
};
use crate::recovery::{
    above, in_doubt, in_doubt_epochs, in_doubt_txns, last_taken, pinned_all, pinned_epochs,
    pinned_ranges, pinned_txns, up_to, with_rest, with_scan,
    with_tier, BootModel, PartsModel,
};
use crate::replay::SkeletonModel;
use crate::resolution::lemma_listed_ranges;
use crate::state::{
    cell, produced_ranges, txn_at, CoordModel, CoordState, TopicModel, TxnDetailModel, TxnModel,
    TxnProduceOffset,
};
use crate::types::TxnState;
use vstd::prelude::*;

verus! {

/// The WAL files that are replayed are those past the snapshot, and those that
/// can go the others: each file is one or the other, in its order.
pub proof fn law_snapshot_parts_the_wal(seqs: Seq<u64>, snapshot_seq: u64)
    ensures
        above(seqs, snapshot_seq) == seqs.filter(|seq: u64| seq > snapshot_seq),
        up_to(seqs, snapshot_seq) == seqs.filter(|seq: u64| seq <= snapshot_seq),
        above(seqs, snapshot_seq).len() + up_to(seqs, snapshot_seq).len() == seqs.len(),
    decreases seqs.len(),
{
    reveal(Seq::filter);
    if seqs.len() > 0 {
        law_snapshot_parts_the_wal(seqs.drop_last(), snapshot_seq);
    }
}

/// The WAL file that a boot writes follows every file that is there and what
/// the snapshot captures, and leaves no sequence out.
pub proof fn law_new_wal_follows_all(existing: Seq<u64>, snapshot_seq: u64)
    requires
        forall|i: int, j: int|
            0 <= i < j < existing.len() ==> #[trigger] existing[i] <= #[trigger] existing[j],
    ensures
        ({
            let last = last_taken(existing, snapshot_seq);
            &&& last >= snapshot_seq
            &&& forall|i: int| 0 <= i < existing.len() ==> last >= #[trigger] existing[i]
            &&& last == snapshot_seq || existing.contains(last)
        }),
{
    let last = last_taken(existing, snapshot_seq);
    assert forall|i: int| 0 <= i < existing.len() implies last >= #[trigger] existing[i] by {
        if i < existing.len() - 1 {
            assert(existing[i] <= existing[existing.len() - 1]);
        }
    }
}

/// The segments whose sidecars are read are those of the object store that are
/// not on the local disk, in their order.
pub proof fn law_absent_segments_are_read(remote: Seq<i64>, local: Seq<i64>)
    ensures
        lacking(remote, local) == remote.filter(|base: i64| !local.contains(base)),
    decreases remote.len(),
{
    reveal(Seq::filter);
    if remote.len() > 0 {
        law_absent_segments_are_read(remote.drop_last(), local);
    }
}

/// A batch that a boot has looked at: its offset, how it is indexed and whether
/// an idempotent producer sent it.
pub type Seen = (i64, (EntryModel, bool));

/// The coordination state after a list of batches was looked at, in order.
pub open spec fn all_seen(
    coord: CoordModel,
    owners: Map<i64, Seq<char>>,
    topition: (Seq<char>, i32),
    batches: Seq<Seen>,
) -> CoordModel {
    batches.fold_left(
        coord,
        |before: CoordModel, batch: Seen|
            coord_seen(before, owners, topition, batch.0, batch.1.0, batch.1.1),
    )
}

/// A scan looks at every batch that was found in the local segments, in order.
pub proof fn law_scan_looks_at_every_batch(
    p: PartModel,
    coord: CoordModel,
    owners: Map<i64, Seq<char>>,
    topition: (Seq<char>, i32),
    found: Seq<FoundBatch>,
)
    ensures
        scanned(p, coord, owners, topition, found).1 == all_seen(
            coord,
            owners,
            topition,
            found.map_values(
                |batch: FoundBatch|
                    (batch.offset, (local_entry(batch), batch.header.idempotent)),
            ),
        ),
    decreases found.len(),
{
    let of = |batch: FoundBatch| (batch.offset, (local_entry(batch), batch.header.idempotent));
    let list = found.map_values(of);
    if found.len() > 0 {
        law_scan_looks_at_every_batch(p, coord, owners, topition, found.drop_last());
        assert(list.drop_last() =~= found.drop_last().map_values(of));
    }
}

/// Every batch that sidecars tell of is looked at, in order.
pub proof fn law_sidecars_are_looked_at(
    p: PartModel,
    coord: CoordModel,
    owners: Map<i64, Seq<char>>,
    topition: (Seq<char>, i32),
    entries: Seq<(i64, SidecarEntry)>,
)
    ensures
        fetched(p, coord, owners, topition, entries).1 == all_seen(
            coord,
            owners,
            topition,
            entries.map_values(
                |told: (i64, SidecarEntry)|
                    (told.1.offset, (remote_entry(told.0, told.1), sequenced(told.1))),
            ),
        ),
    decreases entries.len(),
{
    let of = |told: (i64, SidecarEntry)|
        (told.1.offset, (remote_entry(told.0, told.1), sequenced(told.1)));
    let list = entries.map_values(of);
    if entries.len() > 0 {
        law_sidecars_are_looked_at(p, coord, owners, topition, entries.drop_last());
        assert(list.drop_last() =~= entries.drop_last().map_values(of));
    }
}

/// A batch is indexed as it was found, on the local disk, and as its sidecar
/// tells, in the object store; a sidecar's batch is taken to be of an
/// idempotent producer if and only if it names one and a sequence number.
pub proof fn law_found_batch_is_indexed(found: FoundBatch, base: i64, told: SidecarEntry)
    ensures
        ({
            let entry = local_entry(found);
            &&& entry.segment_base == found.segment_base
            &&& entry.position == found.position
            &&& entry.len == found.len
            &&& !entry.tiered
            &&& entry.cached is None
            &&& entry.last_offset_delta == found.header.last_offset_delta
            &&& entry.max_timestamp == found.header.max_timestamp
            &&& entry.is_control == found.header.control
            &&& entry.is_transactional == found.header.transaction
            &&& entry.producer_id == found.header.producer_id
            &&& entry.producer_epoch == found.header.producer_epoch
            &&& entry.base_sequence == found.header.base_sequence
        }),
        ({
            let entry = remote_entry(base, told);
            &&& entry.segment_base == base
            &&& entry.tiered
            &&& entry.cached is None
            &&& crate::partition_laws::tells_batch(told, told.offset, entry)
        }),
        sequenced(told) <==> told.producer_id >= 0 && told.base_sequence >= 0,
{
}

/// Whether a batch moves a producer's sequence number on a partition.
pub open spec fn numbers(
    batch: Seen,
    topition: (Seq<char>, i32),
    producer_id: i64,
    epoch: i16,
    other: (Seq<char>, i32),
) -> bool {
    let (entry, idempotent) = batch.1;
    &&& idempotent
    &&& entry.producer_id == producer_id
    &&& entry.producer_epoch == epoch
    &&& topition == other
}

/// The sequence number that follows a batch.
pub open spec fn follows(batch: Seen) -> int {
    batch.1.0.base_sequence + batch.1.0.last_offset_delta + 1
}

/// After a boot has looked at a list of batches, the sequence number that a
/// producer's next batch must have is the greatest of the one that was kept and
/// those that follow its batches there; no other sequence number has moved.
pub proof fn law_sequences_are_the_greatest_seen(
    coord: CoordModel,
    owners: Map<i64, Seq<char>>,
    topition: (Seq<char>, i32),
    batches: Seq<Seen>,
    producer_id: i64,
    epoch: i16,
    other: (Seq<char>, i32),
)
    requires
        forall|i: int|
            0 <= i < batches.len() ==> in_range(
                (#[trigger] batches[i]).0,
                batches[i].1.0,
                batches[i].1.1,
            ),
    ensures
        ({
            let after = all_seen(coord, owners, topition, batches);
            let before = due(coord, producer_id, epoch, other.0, other.1);
            let now = due(after, producer_id, epoch, other.0, other.1);
            &&& now >= before
            &&& forall|i: int|
                0 <= i < batches.len() && numbers(
                    #[trigger] batches[i],
                    topition,
                    producer_id,
                    epoch,
                    other,
                ) ==> now >= follows(batches[i])
            &&& now == before || exists|i: int|
                0 <= i < batches.len() && numbers(
                    #[trigger] batches[i],
                    topition,
                    producer_id,
                    epoch,
                    other,
                ) && now == follows(batches[i])
        }),
    decreases batches.len(),
{
    if batches.len() > 0 {
        let init = batches.drop_last();
        let n = batches.len() - 1;
        assert forall|i: int| 0 <= i < n implies #[trigger] batches[i] == init[i] by {}
        assert forall|i: int| 0 <= i < init.len() implies in_range(
            (#[trigger] init[i]).0,
            init[i].1.0,
            init[i].1.1,
        ) by {
            assert(in_range(batches[i].0, batches[i].1.0, batches[i].1.1));
        }
        law_sequences_are_the_greatest_seen(
            coord,
            owners,
            topition,
            init,
            producer_id,
            epoch,
            other,
        );
        let middle = all_seen(coord, owners, topition, init);
        let after = all_seen(coord, owners, topition, batches);
        let last = batches[n];
        assert(in_range(last.0, last.1.0, last.1.1));
        assert(after == coord_seen(middle, owners, topition, last.0, last.1.0, last.1.1));
        lemma_sequence_step(middle, owners, topition, last, producer_id, epoch, other);
        let before = due(coord, producer_id, epoch, other.0, other.1);
        let earlier = due(middle, producer_id, epoch, other.0, other.1);
        let now = due(after, producer_id, epoch, other.0, other.1);
        assert forall|i: int|
            0 <= i < batches.len() && numbers(
                #[trigger] batches[i],
                topition,
                producer_id,
                epoch,
                other,
            ) implies now >= follows(batches[i]) by {
            if i < n {
                assert(numbers(init[i], topition, producer_id, epoch, other));
            }
        }
        if now == earlier && now != before {
            let i = choose|i: int|
                0 <= i < init.len() && numbers(
                    #[trigger] init[i],
                    topition,
                    producer_id,
                    epoch,
                    other,
                ) && earlier == follows(init[i]);
            assert(numbers(batches[i], topition, producer_id, epoch, other));
        } else if now != earlier {
            assert(numbers(batches[n], topition, producer_id, epoch, other));
        }
    }
}

proof fn lemma_sequence_step(
    coord: CoordModel,
    owners: Map<i64, Seq<char>>,
    topition: (Seq<char>, i32),
    batch: Seen,
    producer_id: i64,
    epoch: i16,
    other: (Seq<char>, i32),
)
    requires
        in_range(batch.0, batch.1.0, batch.1.1),
    ensures
        ({
            let after = coord_seen(coord, owners, topition, batch.0, batch.1.0, batch.1.1);
            let before = due(coord, producer_id, epoch, other.0, other.1);
            let now = due(after, producer_id, epoch, other.0, other.1);
            now == if numbers(batch, topition, producer_id, epoch, other) && follows(batch)
                > before {
                follows(batch)
            } else {
                before
            }
        }),
{
    let (entry, idempotent) = batch.1;
    let middle = if idempotent {
        with_sequence_seen(coord, topition, entry)
    } else {
        coord
    };
    let after = coord_seen(coord, owners, topition, batch.0, entry, idempotent);
    assert(after == with_range_seen(middle, owners, topition, batch.0, entry));
    assert(after.producers == middle.producers);
    assert(due(after, producer_id, epoch, other.0, other.1) == due(
        middle,
        producer_id,
        epoch,
        other.0,
        other.1,
    ));
}

/// Whether a batch belongs to the open incarnation of a transaction on a
/// partition.
pub open spec fn belongs(
    coord: CoordModel,
    owners: Map<i64, Seq<char>>,
    batch: Seen,
    topition: (Seq<char>, i32),
    id: Seq<char>,
    epoch: i16,
    other: (Seq<char>, i32),
) -> bool {
    let entry = batch.1.0;
    &&& entry.is_transactional
    &&& !entry.is_control
    &&& owners.dom().contains(entry.producer_id)
    &&& owners[entry.producer_id] == id
    &&& entry.producer_epoch == epoch
    &&& txn_at(coord, id, epoch) matches Some(detail)
    &&& detail.state == Some(TxnState::Begin)
    &&& coord.transactions[id].producer == entry.producer_id
    &&& topition == other
}

/// Looking at batches changes nothing of a transaction but the ranges of open
/// incarnations. On a partition that none of its batches was seen on, the range
/// stays. Else it holds what it held and all those batches, and it begins and
/// ends where it did or where one of them does.
pub proof fn law_ranges_hold_what_was_seen(
    coord: CoordModel,
    owners: Map<i64, Seq<char>>,
    topition: (Seq<char>, i32),
    batches: Seq<Seen>,
    id: Seq<char>,
    epoch: i16,
    other: (Seq<char>, i32),
)
    requires
        txn_at(coord, id, epoch) is Some,
        forall|i: int|
            0 <= i < batches.len() ==> in_range(
                (#[trigger] batches[i]).0,
                batches[i].1.0,
                batches[i].1.1,
            ),
    ensures
        ({
            let after = all_seen(coord, owners, topition, batches);
            let was = txn_at(coord, id, epoch).unwrap();
            let had = range_at(was.produces, other.0, other.1);
            &&& after.transactions[id].producer == coord.transactions[id].producer
            &&& txn_at(after, id, epoch) matches Some(is)
            &&& is == (TxnDetailModel { produces: is.produces, ..was })
            &&& match range_at(is.produces, other.0, other.1) {
                Some(range) => {
                    &&& had matches Some(had) ==> range.offset_start <= had.offset_start
                        && range.offset_end >= had.offset_end
                    &&& forall|i: int|
                        0 <= i < batches.len() && belongs(
                            coord,
                            owners,
                            #[trigger] batches[i],
                            topition,
                            id,
                            epoch,
                            other,
                        ) ==> range.offset_start <= batches[i].0 && range.offset_end >= end_offset(
                            batches[i].0,
                            batches[i].1.0,
                        )
                    &&& (had matches Some(had) && range.offset_start == had.offset_start)
                        || exists|i: int|
                        0 <= i < batches.len() && belongs(
                            coord,
                            owners,
                            #[trigger] batches[i],
                            topition,
                            id,
                            epoch,
                            other,
                        ) && range.offset_start == batches[i].0
                    &&& (had matches Some(had) && range.offset_end == had.offset_end) || exists|
                        i: int,
                    |
                        0 <= i < batches.len() && belongs(
                            coord,
                            owners,
                            #[trigger] batches[i],
                            topition,
                            id,
                            epoch,
                            other,
                        ) && range.offset_end == end_offset(batches[i].0, batches[i].1.0)
                },
                None => had is None && forall|i: int|
                    0 <= i < batches.len() ==> !belongs(
                        coord,
                        owners,
                        #[trigger] batches[i],
                        topition,
                        id,
                        epoch,
                        other,
                    ),
            }
        }),
    decreases batches.len(),
{
    if batches.len() > 0 {
        let init = batches.drop_last();
        let n = batches.len() - 1;
        assert forall|i: int| 0 <= i < n implies #[trigger] batches[i] == init[i] by {}
        assert forall|i: int| 0 <= i < init.len() implies in_range(
            (#[trigger] init[i]).0,
            init[i].1.0,
            init[i].1.1,
        ) by {
            assert(in_range(batches[i].0, batches[i].1.0, batches[i].1.1));
        }
        law_ranges_hold_what_was_seen(coord, owners, topition, init, id, epoch, other);
        let middle = all_seen(coord, owners, topition, init);
        let after = all_seen(coord, owners, topition, batches);
        let last = batches[n];
        assert(in_range(last.0, last.1.0, last.1.1));
        assert(after == coord_seen(middle, owners, topition, last.0, last.1.0, last.1.1));
        assert(belongs(middle, owners, last, topition, id, epoch, other) == belongs(
            coord,
            owners,
            last,
            topition,
            id,
            epoch,
            other,
        ));
        lemma_range_step(middle, owners, topition, last, id, epoch, other);
        let had = range_at(txn_at(coord, id, epoch).unwrap().produces, other.0, other.1);
        let mid = range_at(txn_at(middle, id, epoch).unwrap().produces, other.0, other.1);
        let own = belongs(coord, owners, last, topition, id, epoch, other);
        if own {
            assert(belongs(coord, owners, batches[n], topition, id, epoch, other));
        }
        match mid {
            Some(range) => {
                if !(had matches Some(had) && range.offset_start == had.offset_start) {
                    let i = choose|i: int|
                        0 <= i < init.len() && belongs(
                            coord,
                            owners,
                            #[trigger] init[i],
                            topition,
                            id,
                            epoch,
                            other,
                        ) && range.offset_start == init[i].0;
                    assert(belongs(coord, owners, batches[i], topition, id, epoch, other));
                }
                if !(had matches Some(had) && range.offset_end == had.offset_end) {
                    let i = choose|i: int|
                        0 <= i < init.len() && belongs(
                            coord,
                            owners,
                            #[trigger] init[i],
                            topition,
                            id,
                            epoch,
                            other,
                        ) && range.offset_end == end_offset(init[i].0, init[i].1.0);
                    assert(belongs(coord, owners, batches[i], topition, id, epoch, other));
                }
                assert forall|i: int|
                    0 <= i < batches.len() && belongs(
                        coord,
                        owners,
                        #[trigger] batches[i],
                        topition,
                        id,
                        epoch,
                        other,
                    ) implies i == n || (range.offset_start <= batches[i].0 && range.offset_end
                    >= end_offset(batches[i].0, batches[i].1.0)) by {
                    if i < n {
                        assert(belongs(coord, owners, init[i], topition, id, epoch, other));
                    }
                }
            },
            None => {
                assert forall|i: int| 0 <= i < n implies !belongs(
                    coord,
                    owners,
                    #[trigger] batches[i],
                    topition,
                    id,
                    epoch,
                    other,
                ) by {
                    assert(!belongs(coord, owners, init[i], topition, id, epoch, other));
                }
            },
        }
    }
}

proof fn lemma_range_step(
    coord: CoordModel,
    owners: Map<i64, Seq<char>>,
    topition: (Seq<char>, i32),
    batch: Seen,
    id: Seq<char>,
    epoch: i16,
    other: (Seq<char>, i32),
)
    requires
        txn_at(coord, id, epoch) is Some,
        in_range(batch.0, batch.1.0, batch.1.1),
    ensures
        ({
            let after = coord_seen(coord, owners, topition, batch.0, batch.1.0, batch.1.1);
            let was = txn_at(coord, id, epoch).unwrap();
            let had = range_at(was.produces, other.0, other.1);
            let end = end_offset(batch.0, batch.1.0);
            &&& after.transactions[id].producer == coord.transactions[id].producer
            &&& txn_at(after, id, epoch) matches Some(is)
            &&& is == (TxnDetailModel { produces: is.produces, ..was })
            &&& range_at(is.produces, other.0, other.1) == if belongs(
                coord,
                owners,
                batch,
                topition,
                id,
                epoch,
                other,
            ) {
                Some(
                    match had {
                        Some(had) => TxnProduceOffset {
                            offset_start: if batch.0 < had.offset_start {
                                batch.0
                            } else {
                                had.offset_start
                            },
                            offset_end: if end > had.offset_end {
                                end as i64
                            } else {
                                had.offset_end
                            },
                        },
                        None => TxnProduceOffset { offset_start: batch.0, offset_end: end as i64 },
                    },
                )
            } else {
                had
            }
        }),
{
}

/// Every producer's transaction is one of its own.
pub proof fn law_owner_has_the_producer(coord: &CoordState, producer: i64)
    requires
        coord.wf(),
    ensures
        ({
            let model = coord.model();
            let by_producer = owners(model);
            &&& by_producer.dom().contains(producer) <==> exists|id: Seq<char>| #[trigger]
                model.transactions.dom().contains(id) && model.transactions[id].producer == producer
            &&& by_producer.dom().contains(producer) ==> model.transactions.dom().contains(
                by_producer[producer],
            ) && model.transactions[by_producer[producer]].producer == producer
        }),
{
    let rows = coord.transactions.seq();
    coord.transactions.lemma_seq();
    lemma_owners(rows, producer);
    let model = coord.model();
    let by_producer = owners(model);
    if by_producer.dom().contains(producer) {
        let i = choose|i: int|
            0 <= i < rows.len() && (#[trigger] rows[i]).1.producer == producer && rows[i].0
                == by_producer[producer];
        lemma_ascending_at::<String, TxnModel>(rows, i);
        assert(model.transactions.dom().contains(rows[i].0));
    }
    if exists|id: Seq<char>| #[trigger]
        model.transactions.dom().contains(id) && model.transactions[id].producer == producer {
        let id = choose|id: Seq<char>| #[trigger]
            model.transactions.dom().contains(id) && model.transactions[id].producer == producer;
        let i = lemma_ascending_position::<String, TxnModel>(rows, id);
        assert(rows[i].1.producer == producer);
    }
}

proof fn lemma_owners(txns: Seq<(Seq<char>, TxnModel)>, producer: i64)
    ensures
        owners_of(txns).dom().contains(producer) <==> exists|i: int|
            0 <= i < txns.len() && (#[trigger] txns[i]).1.producer == producer,
        owners_of(txns).dom().contains(producer) ==> exists|i: int|
            0 <= i < txns.len() && (#[trigger] txns[i]).1.producer == producer && txns[i].0
                == owners_of(txns)[producer],
    decreases txns.len(),
{
    if txns.len() > 0 {
        let init = txns.drop_last();
        let n = txns.len() - 1;
        assert forall|i: int| 0 <= i < n implies #[trigger] txns[i] == init[i] by {}
        lemma_owners(init, producer);
        if txns[n].1.producer == producer {
            assert(txns[n].0 == owners_of(txns)[producer]);
        } else {
            if owners_of(init).dom().contains(producer) {
                let i = choose|i: int|
                    0 <= i < init.len() && (#[trigger] init[i]).1.producer == producer && init[i].0
                        == owners_of(init)[producer];
                assert(txns[i].1.producer == producer);
            }
            if exists|i: int| 0 <= i < txns.len() && (#[trigger] txns[i]).1.producer == producer {
                let i = choose|i: int|
                    0 <= i < txns.len() && (#[trigger] txns[i]).1.producer == producer;
                assert(init[i].1.producer == producer);
            }
        }
    }
}

proof fn lemma_fetched_ends(
    p: PartModel,
    coord: CoordModel,
    owners: Map<i64, Seq<char>>,
    topition: (Seq<char>, i32),
    entries: Seq<(i64, SidecarEntry)>,
)
    requires
        forall|i: int|
            0 <= i < entries.len() ==> i64::MIN <= end_offset(
                (#[trigger] entries[i]).1.offset,
                remote_entry(entries[i].0, entries[i].1),
            ) < i64::MAX,
    ensures
        ({
            let after = fetched(p, coord, owners, topition, entries).0;
            &&& after.log_start == p.log_start
            &&& after.durable_offset == p.durable_offset
            &&& after.open_txns == p.open_txns
            &&& after.aborted == p.aborted
            &&& after.writer == p.writer
            &&& after.uploaded == p.uploaded
            &&& after.next_offset >= p.next_offset
            &&& forall|i: int|
                0 <= i < entries.len() ==> after.next_offset > end_offset(
                    (#[trigger] entries[i]).1.offset,
                    remote_entry(entries[i].0, entries[i].1),
                )
            &&& after.next_offset == p.next_offset || exists|i: int|
                0 <= i < entries.len() && after.next_offset == end_offset(
                    (#[trigger] entries[i]).1.offset,
                    remote_entry(entries[i].0, entries[i].1),
                ) + 1
        }),
    decreases entries.len(),
{
    if entries.len() > 0 {
        let init = entries.drop_last();
        let n = entries.len() - 1;
        assert forall|i: int| 0 <= i < n implies #[trigger] entries[i] == init[i] by {}
        assert forall|i: int| 0 <= i < init.len() implies i64::MIN <= end_offset(
            (#[trigger] init[i]).1.offset,
            remote_entry(init[i].0, init[i].1),
        ) < i64::MAX by {
            assert(entries[i] == init[i]);
        }
        lemma_fetched_ends(p, coord, owners, topition, init);
        let middle = fetched(p, coord, owners, topition, init).0;
        let after = fetched(p, coord, owners, topition, entries).0;
        let (base, told) = entries[n];
        let entry = remote_entry(base, told);
        assert(after == part_seen(middle, told.offset, entry));
        law_index_keeps_entries(middle, told.offset, entry, 0);
        if after.next_offset == middle.next_offset && middle.next_offset != p.next_offset {
            let i = choose|i: int|
                0 <= i < init.len() && middle.next_offset == end_offset(
                    (#[trigger] init[i]).1.offset,
                    remote_entry(init[i].0, init[i].1),
                ) + 1;
            assert(after.next_offset == end_offset(
                entries[i].1.offset,
                remote_entry(entries[i].0, entries[i].1),
            ) + 1);
        } else if after.next_offset != middle.next_offset {
            assert(after.next_offset == end_offset(
                entries[n].1.offset,
                remote_entry(entries[n].0, entries[n].1),
            ) + 1);
        }
        assert forall|i: int| 0 <= i < entries.len() implies after.next_offset > end_offset(
            (#[trigger] entries[i]).1.offset,
            remote_entry(entries[i].0, entries[i].1),
        ) by {
            if i < n {
                assert(middle.next_offset > end_offset(
                    init[i].1.offset,
                    remote_entry(init[i].0, init[i].1),
                ));
            }
        }
    }
}

/// Whether a sidecar tells of an offset at a place, and none after it does.
pub open spec fn last_told(entries: Seq<(i64, SidecarEntry)>, i: int, offset: i64) -> bool {
    &&& 0 <= i < entries.len()
    &&& entries[i].1.offset == offset
    &&& forall|j: int| i < j < entries.len() ==> (#[trigger] entries[j]).1.offset != offset
}

/// Whether a sidecar tells of an offset.
pub open spec fn is_told(entries: Seq<(i64, SidecarEntry)>, offset: i64) -> bool {
    exists|i: int| 0 <= i < entries.len() && (#[trigger] entries[i]).1.offset == offset
}

proof fn lemma_fetched_index(
    p: PartModel,
    coord: CoordModel,
    owners: Map<i64, Seq<char>>,
    topition: (Seq<char>, i32),
    entries: Seq<(i64, SidecarEntry)>,
    offset: i64,
)
    ensures
        ({
            let after = fetched(p, coord, owners, topition, entries).0;
            &&& !is_told(entries, offset) ==> {
                &&& after.batches.dom().contains(offset) <==> p.batches.dom().contains(offset)
                &&& p.batches.dom().contains(offset) ==> same_batch(
                    after.batches[offset],
                    p.batches[offset],
                )
            }
            &&& forall|i: int| #[trigger]
                last_told(entries, i, offset) ==> {
                    &&& after.batches.dom().contains(offset)
                    &&& same_batch(
                        after.batches[offset],
                        remote_entry(entries[i].0, entries[i].1),
                    )
                }
        }),
    decreases entries.len(),
{
    if entries.len() > 0 {
        let init = entries.drop_last();
        let n = entries.len() - 1;
        lemma_fetched_index(p, coord, owners, topition, init, offset);
        let middle = fetched(p, coord, owners, topition, init).0;
        let after = fetched(p, coord, owners, topition, entries).0;
        let (base, told) = entries[n];
        let entry = remote_entry(base, told);
        assert(after == part_seen(middle, told.offset, entry));
        law_index_keeps_entries(middle, told.offset, entry, 0);
        let index = indexed(middle, told.offset, entry, 0);
        assert(after.batches == index.batches);
        assert(index.batches.dom().contains(told.offset));
        if told.offset == offset {
            assert(is_told(entries, offset));
            assert forall|i: int| #[trigger] last_told(entries, i, offset) implies i == n by {
                if i < n {
                    assert(entries[n].1.offset != offset);
                }
            }
        } else {
            assert(index.batches.dom().contains(offset) <==> middle.batches.dom().contains(
                offset,
            ));
            if is_told(init, offset) {
                let i = choose|i: int| 0 <= i < init.len() && (#[trigger] init[i]).1.offset == offset;
                assert(entries[i].1.offset == offset);
            }
            assert forall|i: int| #[trigger] last_told(entries, i, offset) implies last_told(
                init,
                i,
                offset,
            ) && init[i] == entries[i] by {
                assert(i != n);
                assert forall|j: int| i < j < init.len() implies (#[trigger] init[j]).1.offset
                    != offset by {
                    assert(entries[j].1.offset != offset);
                }
            }
        }
    }
}

/// Joining what the object store holds to a partition: the store's segments are
/// noted as uploaded, and no other. A batch that a sidecar tells of is indexed
/// as it tells, and any other as it was, so far as it reaches the log start;
/// the next offset follows all of them, and all that is there is durable.
/// Nothing is joined where the store holds nothing.
pub proof fn law_store_is_joined(
    p: PartModel,
    coord: CoordModel,
    topition: (Seq<char>, i32),
    remote: Seq<i64>,
    entries: Seq<(i64, SidecarEntry)>,
    offset: i64,
    base: i64,
)
    requires
        0 <= p.log_start <= p.next_offset,
        forall|i: int|
            0 <= i < entries.len() ==> i64::MIN <= end_offset(
                (#[trigger] entries[i]).1.offset,
                remote_entry(entries[i].0, entries[i].1),
            ) < i64::MAX,
    ensures
        ({
            let after = joined(p, coord, topition, remote, entries).0;
            let told = is_told(entries, offset);
            &&& remote.len() == 0 ==> after == p && joined(
                p,
                coord,
                topition,
                remote,
                entries,
            ).1 == coord
            &&& remote.len() > 0 ==> {
                &&& after.uploaded.dom().contains(base) <==> remote.contains(base)
                &&& after.log_start == p.log_start
                &&& after.next_offset >= p.next_offset
                &&& after.durable_offset == after.next_offset
                &&& after.open_txns == p.open_txns
                &&& after.writer == p.writer
                &&& forall|i: int|
                    0 <= i < entries.len() ==> after.next_offset > end_offset(
                        (#[trigger] entries[i]).1.offset,
                        remote_entry(entries[i].0, entries[i].1),
                    )
                &&& after.batches.dom().contains(offset) ==> told || p.batches.dom().contains(offset)
                &&& !told && p.batches.dom().contains(offset) ==> {
                    let reaches = offset >= p.log_start || end_offset(offset, p.batches[offset])
                        >= p.log_start;
                    &&& after.batches.dom().contains(offset) <==> reaches
                    &&& reaches ==> same_batch(after.batches[offset], p.batches[offset])
                }
                &&& forall|i: int| #[trigger]
                    last_told(entries, i, offset) && (offset >= p.log_start || end_offset(
                        offset,
                        remote_entry(entries[i].0, entries[i].1),
                    ) >= p.log_start) ==> {
                        &&& after.batches.dom().contains(offset)
                        &&& same_batch(
                            after.batches[offset],
                            remote_entry(entries[i].0, entries[i].1),
                        )
                    }
            }
        }),
{
    if remote.len() > 0 {
        let start = PartModel { uploaded: base_set(remote), ..p };
        lemma_base_set(remote, base);
        lemma_fetched_ends(start, coord, owners(coord), topition, entries);
        lemma_fetched_index(start, coord, owners(coord), topition, entries, offset);
    }
}

proof fn lemma_base_set(bases: Seq<i64>, base: i64)
    ensures
        base_set(bases).dom().contains(base) <==> bases.contains(base),
    decreases bases.len(),
{
    if bases.len() > 0 {
        let init = bases.drop_last();
        lemma_base_set(init, base);
        if init.contains(base) {
            let i = choose|i: int| 0 <= i < init.len() && init[i] == base;
            assert(bases[i] == base);
        }
        if bases.contains(base) && bases.last() != base {
            let i = choose|i: int| 0 <= i < bases.len() && bases[i] == base;
            assert(init[i] == base);
        }
        if bases.last() == base {
            assert(bases[bases.len() - 1] == base);
        }
    }
}

/// Once every directory is scanned, there is a partition for each that was
/// scanned, for each that the snapshot and the WAL know, and for each that a
/// topic has, and for no other. One that was scanned is as it was found; one
/// that is only known starts, and goes on, at its log start and keeps its
/// aborted ranges; one that only a topic has starts at 0.
pub proof fn law_every_partition_is_there(coord: &CoordState, boot: BootModel, k: (Seq<char>, i32))
    requires
        coord.wf(),
        boot.image.coord == coord.model(),
        !(boot.partitions.dom().contains(k) && boot.image.skeletons.dom().contains(k)),
    ensures
        ({
            let after = with_rest(boot);
            let topics = boot.image.coord.topics;
            let scanned = boot.partitions.dom().contains(k);
            let known = boot.image.skeletons.dom().contains(k);
            let has = exists|name: Seq<char>| #[trigger]
                topics.dom().contains(name) && topics[name].topic.name == k.0 && 0 <= k.1
                    < topics[name].topic.num_partitions;
            let skeleton = boot.image.skeletons[k];
            let part = after.partitions[k];
            &&& after.partitions.dom().contains(k) <==> scanned || known || has
            &&& scanned ==> part == boot.partitions[k]
            &&& known ==> {
                &&& part.log_start == skeleton.log_start
                &&& part.next_offset == skeleton.log_start
                &&& part.durable_offset == skeleton.log_start
                &&& part.aborted == skeleton.aborted
                &&& part.batches.dom() == Set::<i64>::empty()
            }
            &&& has && !scanned && !known ==> {
                &&& part.log_start == 0
                &&& part.next_offset == 0
                &&& part.durable_offset == 0
                &&& part.aborted.len() == 0
                &&& part.batches.dom() == Set::<i64>::empty()
            }
            &&& after.image.coord == boot.image.coord
            &&& after.image.groups == boot.image.groups
            &&& after.image.group_offsets == boot.image.group_offsets
        }),
{
    let rows = coord.topics.seq();
    coord.topics.lemma_seq();
    let topics = boot.image.coord.topics;
    let after = with_rest(boot);
    if crate::recovery::has_partition(rows, k) {
        let i = choose|i: int|
            0 <= i < rows.len() && (#[trigger] rows[i]).1.topic.name == k.0 && 0 <= k.1
                < rows[i].1.topic.num_partitions;
        lemma_ascending_at::<String, TopicModel>(rows, i);
        assert(topics.dom().contains(rows[i].0));
    }
    if exists|name: Seq<char>| #[trigger]
        topics.dom().contains(name) && topics[name].topic.name == k.0 && 0 <= k.1
            < topics[name].topic.num_partitions {
        let name = choose|name: Seq<char>| #[trigger]
            topics.dom().contains(name) && topics[name].topic.name == k.0 && 0 <= k.1
                < topics[name].topic.num_partitions;
        let i = lemma_ascending_position::<String, TopicModel>(rows, name);
        assert(rows[i].1.topic.name == k.0);
    }
    if after.partitions.dom().contains(k) && !boot.partitions.dom().contains(k) {
        assert(after.partitions[k].batches.dom() =~= Set::<i64>::empty());
    }
}

/// Whether an incarnation is prepared to end in a way.
pub open spec fn prepared_to(detail: TxnDetailModel, committed: bool) -> bool {
    detail.state == Some(
        if committed {
            TxnState::PrepareCommit
        } else {
            TxnState::PrepareAbort
        },
    )
}

proof fn lemma_doubtful_epochs(id: Seq<char>, producer: i64, epochs: Seq<(i16, TxnDetailModel)>)
    requires
        ascending::<i16, TxnDetailModel>(epochs),
    ensures
        ({
            let list = in_doubt_epochs(id, producer, epochs);
            &&& list.no_duplicates()
            &&& forall|i: int|
                0 <= i < list.len() ==> (#[trigger] list[i]).0 == id && list[i].1 == producer
                    && exists|k: int|
                    0 <= k < epochs.len() && (#[trigger] epochs[k]).0 == list[i].2 && prepared_to(
                        epochs[k].1,
                        list[i].3,
                    )
            &&& forall|k: int, committed: bool|
                0 <= k < epochs.len() && #[trigger] prepared_to(epochs[k].1, committed)
                    ==> list.contains((id, producer, epochs[k].0, committed))
        }),
    decreases epochs.len(),
{
    if epochs.len() > 0 {
        let init = epochs.drop_last();
        let n = epochs.len() - 1;
        assert forall|i: int| 0 <= i < n implies #[trigger] init[i] == epochs[i] by {}
        assert(ascending::<i16, TxnDetailModel>(init)) by {
            assert forall|i: int, j: int| 0 <= i < j < init.len() implies i16::precedes(
                (#[trigger] init[i]).0,
                (#[trigger] init[j]).0,
            ) by {
                assert(i16::precedes(epochs[i].0, epochs[j].0));
            }
        }
        lemma_doubtful_epochs(id, producer, init);
        let before = in_doubt_epochs(id, producer, init);
        let list = in_doubt_epochs(id, producer, epochs);
        assert forall|i: int| 0 <= i < list.len() implies (#[trigger] list[i]).0 == id && list[i].1
            == producer && exists|k: int|
            0 <= k < epochs.len() && (#[trigger] epochs[k]).0 == list[i].2 && prepared_to(
                epochs[k].1,
                list[i].3,
            ) by {
            if i < before.len() {
                assert(list[i] == before[i]);
                let k = choose|k: int|
                    0 <= k < init.len() && (#[trigger] init[k]).0 == before[i].2 && prepared_to(
                        init[k].1,
                        before[i].3,
                    );
                assert(epochs[k] == init[k]);
            } else {
                assert(epochs[n].0 == list[i].2);
            }
        }
        assert forall|k: int, committed: bool|
            0 <= k < epochs.len() && #[trigger] prepared_to(
                epochs[k].1,
                committed,
            ) implies list.contains((id, producer, epochs[k].0, committed)) by {
            let item = (id, producer, epochs[k].0, committed);
            if k < n {
                assert(prepared_to(init[k].1, committed));
                assert(before.contains(item));
                let i = choose|i: int| 0 <= i < before.len() && before[i] == item;
                assert(list[i] == item);
            } else {
                assert(list[list.len() - 1] == item);
            }
        }
        assert forall|i: int, j: int| 0 <= i < j < list.len() implies list[i] != list[j] by {
            assert(list[i] == before[i]);
            if j < before.len() {
                assert(list[j] == before[j]);
            } else {
                let k = choose|k: int| 0 <= k < init.len() && (#[trigger] init[k]).0 == before[i].2;
                lemma_ascending_distinct::<i16, TxnDetailModel>(epochs, k, n);
            }
        }
    }
}

proof fn lemma_doubtful_txns(coord: &CoordState, n: int)
    requires
        coord.wf(),
        0 <= n <= coord.transactions.seq().len(),
    ensures
        ({
            let rows = coord.transactions.seq();
            let list = in_doubt_txns(rows.take(n));
            &&& list.no_duplicates()
            &&& forall|i: int|
                0 <= i < list.len() ==> exists|k: int|
                    0 <= k < n && (#[trigger] rows[k]).0 == (#[trigger] list[i]).0
                        && rows[k].1.producer == list[i].1 && rows[k].1.epochs.dom().contains(
                        list[i].2,
                    ) && prepared_to(rows[k].1.epochs[list[i].2], list[i].3)
            &&& forall|k: int, epoch: i16, committed: bool|
                0 <= k < n && rows[k].1.epochs.dom().contains(epoch) && #[trigger] prepared_to(
                    rows[k].1.epochs[epoch],
                    committed,
                ) ==> list.contains((rows[k].0, rows[k].1.producer, epoch, committed))
        }),
    decreases n,
{
    let rows = coord.transactions.seq();
    if n > 0 {
        coord.transactions.lemma_seq();
        lemma_doubtful_txns(coord, n - 1);
        assert(rows.take(n).drop_last() =~= rows.take(n - 1));
        let (id, txn) = rows[n - 1];
        let value = coord.transactions.lemma_value(n - 1);
        value.epochs.lemma_seq();
        let epochs = value.epochs.seq();
        lemma_doubtful_epochs(id, txn.producer, epochs);
        let head = in_doubt_txns(rows.take(n - 1));
        let tail = in_doubt_epochs(id, txn.producer, epochs);
        let list = in_doubt_txns(rows.take(n));
        assert(list == head + tail);
        assert forall|i: int| 0 <= i < list.len() implies exists|k: int|
            0 <= k < n && (#[trigger] rows[k]).0 == (#[trigger] list[i]).0 && rows[k].1.producer
                == list[i].1 && rows[k].1.epochs.dom().contains(list[i].2) && prepared_to(
                rows[k].1.epochs[list[i].2],
                list[i].3,
            ) by {
            if i < head.len() {
                assert(list[i] == head[i]);
                let k = choose|k: int|
                    0 <= k < n - 1 && (#[trigger] rows[k]).0 == head[i].0 && rows[k].1.producer
                        == head[i].1 && rows[k].1.epochs.dom().contains(head[i].2) && prepared_to(
                        rows[k].1.epochs[head[i].2],
                        head[i].3,
                    );
            } else {
                assert(list[i] == tail[i - head.len()]);
                let m = choose|m: int|
                    0 <= m < epochs.len() && (#[trigger] epochs[m]).0 == list[i].2 && prepared_to(
                        epochs[m].1,
                        list[i].3,
                    );
                lemma_ascending_at::<i16, TxnDetailModel>(epochs, m);
                assert(rows[n - 1].0 == list[i].0);
            }
        }
        assert forall|k: int, epoch: i16, committed: bool|
            0 <= k < n && rows[k].1.epochs.dom().contains(epoch) && #[trigger] prepared_to(
                rows[k].1.epochs[epoch],
                committed,
            ) implies list.contains((rows[k].0, rows[k].1.producer, epoch, committed)) by {
            let item = (rows[k].0, rows[k].1.producer, epoch, committed);
            if k < n - 1 {
                assert(head.contains(item));
                let i = choose|i: int| 0 <= i < head.len() && head[i] == item;
                assert(list[i] == item);
            } else {
                let m = lemma_ascending_position::<i16, TxnDetailModel>(epochs, epoch);
                assert(prepared_to(epochs[m].1, committed));
                assert(tail.contains(item));
                let i = choose|i: int| 0 <= i < tail.len() && tail[i] == item;
                assert(list[head.len() + i] == item);
            }
        }
        assert forall|i: int, j: int| 0 <= i < j < list.len() implies list[i] != list[j] by {
            if j < head.len() {
                assert(list[i] == head[i] && list[j] == head[j]);
            } else if i >= head.len() {
                assert(list[i] == tail[i - head.len()] && list[j] == tail[j - head.len()]);
            } else {
                assert(list[i] == head[i] && list[j] == tail[j - head.len()]);
                let k = choose|k: int| 0 <= k < n - 1 && (#[trigger] rows[k]).0 == head[i].0;
                lemma_ascending_distinct::<String, TxnModel>(rows, k, n - 1);
            }
        }
    }
}

/// The transactions in doubt after a boot are those that are prepared: every
/// incarnation that is, once, with its producer and the end it was prepared
/// for, and no other.
pub proof fn law_in_doubt_is_prepared(coord: &CoordState)
    requires
        coord.wf(),
    ensures
        ({
            let model = coord.model();
            let list = in_doubt(model);
            &&& list.no_duplicates()
            &&& forall|id: Seq<char>, producer: i64, epoch: i16, committed: bool| #[trigger]
                list.contains((id, producer, epoch, committed)) <==> {
                    &&& model.transactions.dom().contains(id)
                    &&& model.transactions[id].producer == producer
                    &&& txn_at(model, id, epoch) matches Some(detail)
                    &&& prepared_to(detail, committed)
                }
        }),
{
    let model = coord.model();
    let rows = coord.transactions.seq();
    coord.transactions.lemma_seq();
    lemma_doubtful_txns(coord, rows.len() as int);
    assert(rows.take(rows.len() as int) =~= rows);
    let list = in_doubt(model);
    assert forall|id: Seq<char>, producer: i64, epoch: i16, committed: bool| #[trigger]
        list.contains((id, producer, epoch, committed)) <==> {
            &&& model.transactions.dom().contains(id)
            &&& model.transactions[id].producer == producer
            &&& txn_at(model, id, epoch) matches Some(detail)
            &&& prepared_to(detail, committed)
        } by {
        let item = (id, producer, epoch, committed);
        if list.contains(item) {
            let i = choose|i: int| 0 <= i < list.len() && list[i] == item;
            let k = choose|k: int|
                0 <= k < rows.len() && (#[trigger] rows[k]).0 == list[i].0 && rows[k].1.producer
                    == list[i].1 && rows[k].1.epochs.dom().contains(list[i].2) && prepared_to(
                    rows[k].1.epochs[list[i].2],
                    list[i].3,
                );
            lemma_ascending_at::<String, TxnModel>(rows, k);
        }
        if model.transactions.dom().contains(id) && model.transactions[id].producer == producer && (
        txn_at(model, id, epoch) matches Some(detail) && prepared_to(detail, committed)) {
            let k = lemma_ascending_position::<String, TxnModel>(rows, id);
            assert(prepared_to(rows[k].1.epochs[epoch], committed));
        }
    }
}

/// Whether a partition is another but for its open transactions.
pub open spec fn same_but_open(a: PartModel, b: PartModel) -> bool {
    a == (PartModel { open_txns: a.open_txns, ..b })
}

proof fn lemma_pinned_ranges(
    partitions: PartsModel,
    key: (Seq<char>, (i64, i16)),
    ranges: Seq<(Seq<char>, i32, TxnProduceOffset)>,
    k: (Seq<char>, i32),
    other: (Seq<char>, (i64, i16)),
)
    requires
        partitions.dom().contains(k),
    ensures
        ({
            let after = pinned_ranges(partitions, key, ranges);
            let (was, is) = (partitions[k], after[k]);
            &&& after.dom() == partitions.dom()
            &&& same_but_open(is, was)
            &&& other != key ==> {
                &&& is.open_txns.dom().contains(other) <==> was.open_txns.dom().contains(other)
                &&& was.open_txns.dom().contains(other) ==> is.open_txns[other]
                    == was.open_txns[other]
            }
            &&& (forall|i: int|
                0 <= i < ranges.len() ==> ((#[trigger] ranges[i]).0, ranges[i].1) != k) ==> is
                == was
            &&& is.open_txns.dom().contains(key) && is != was ==> exists|i: int|
                0 <= i < ranges.len() && ((#[trigger] ranges[i]).0, ranges[i].1) == k
                    && is.open_txns[key] == ranges[i].2.offset_start
            &&& (exists|i: int|
                0 <= i < ranges.len() && ((#[trigger] ranges[i]).0, ranges[i].1) == k) ==> (exists|
                i: int,
            |
                0 <= i < ranges.len() && ((#[trigger] ranges[i]).0, ranges[i].1) == k
                    && is.open_txns.dom().contains(key) && is.open_txns[key]
                    == ranges[i].2.offset_start)
        }),
    decreases ranges.len(),
{
    let after = pinned_ranges(partitions, key, ranges);
    if ranges.len() > 0 {
        let init = ranges.drop_last();
        let n = ranges.len() - 1;
        assert forall|i: int| 0 <= i < n implies #[trigger] ranges[i] == init[i] by {}
        lemma_pinned_ranges(partitions, key, init, k, other);
        let middle = pinned_ranges(partitions, key, init);
        assert(after.dom() =~= partitions.dom());
        if (ranges[n].0, ranges[n].1) == k {
            assert(after[k].open_txns[key] == ranges[n].2.offset_start);
        } else {
            assert(after[k] == middle[k]);
            if forall|i: int| 0 <= i < ranges.len() ==> ((#[trigger] ranges[i]).0, ranges[i].1) != k {
                assert forall|i: int| 0 <= i < init.len() implies ((#[trigger] init[i]).0, init[i].1)
                    != k by {
                    assert((ranges[i].0, ranges[i].1) != k);
                }
            }
            if exists|i: int|
                0 <= i < ranges.len() && ((#[trigger] ranges[i]).0, ranges[i].1) == k {
                let i = choose|i: int|
                    0 <= i < ranges.len() && ((#[trigger] ranges[i]).0, ranges[i].1) == k;
                assert((init[i].0, init[i].1) == k);
                let j = choose|j: int|
                    0 <= j < init.len() && ((#[trigger] init[j]).0, init[j].1) == k
                        && middle[k].open_txns.dom().contains(key) && middle[k].open_txns[key]
                        == init[j].2.offset_start;
                assert((ranges[j].0, ranges[j].1) == k);
            }
        }
    }
}

/// The first offset that an incarnation pins a partition at: that of its range
/// there, where it has begun and not ended.
pub open spec fn pins(detail: TxnDetailModel, k: (Seq<char>, i32)) -> Option<i64> {
    if detail.state == Some(TxnState::Begin) || detail.state == Some(TxnState::PrepareCommit)
        || detail.state == Some(TxnState::PrepareAbort) {
        match range_at(detail.produces, k.0, k.1) {
            Some(range) => Some(range.offset_start),
            None => None,
        }
    } else {
        None
    }
}

/// What holds of a partition before and after transactions pin it: an
/// incarnation that pins it does so at its first offset there, and any other
/// is open if it was.
pub open spec fn pinned_by(
    was: PartModel,
    is: PartModel,
    key: (Seq<char>, (i64, i16)),
    at: Option<i64>,
) -> bool {
    match at {
        Some(offset) => is.open_txns.dom().contains(key) && is.open_txns[key] == offset,
        None => (is.open_txns.dom().contains(key) <==> was.open_txns.dom().contains(key)) && (
        was.open_txns.dom().contains(key) ==> is.open_txns[key] == was.open_txns[key]),
    }
}

proof fn lemma_pinned_epochs(
    partitions: PartsModel,
    id: Seq<char>,
    value: &crate::state::Txn,
    n: int,
    k: (Seq<char>, i32),
    other: (Seq<char>, (i64, i16)),
)
    requires
        value.wf(),
        partitions.dom().contains(k),
        0 <= n <= value.epochs.seq().len(),
    ensures
        ({
            let epochs = value.epochs.seq();
            let after = pinned_epochs(partitions, id, value.producer, epochs.take(n));
            &&& after.dom() == partitions.dom()
            &&& same_but_open(after[k], partitions[k])
            &&& pinned_by(
                partitions[k],
                after[k],
                other,
                if exists|m: int|
                    0 <= m < n && other == (id, (value.producer, (#[trigger] epochs[m]).0)) {
                    pins(value.model().epochs[other.1.1], k)
                } else {
                    None
                },
            )
        }),
    decreases n,
{
    let epochs = value.epochs.seq();
    let producer = value.producer;
    let after = pinned_epochs(partitions, id, producer, epochs.take(n));
    if n > 0 {
        value.epochs.lemma_seq();
        lemma_pinned_epochs(partitions, id, value, n - 1, k, other);
        assert(epochs.take(n).drop_last() =~= epochs.take(n - 1));
        let middle = pinned_epochs(partitions, id, producer, epochs.take(n - 1));
        let (epoch, detail) = epochs[n - 1];
        lemma_ascending_at::<i16, TxnDetailModel>(epochs, n - 1);
        let exact = value.epochs.lemma_value(n - 1);
        let ranges = produced_ranges(detail.produces);
        let key = (id, (producer, epoch));
        lemma_listed_ranges(&exact, k.0, k.1);
        if crate::recovery::is_open(detail) {
            lemma_pinned_ranges(middle, key, ranges, k, other);
            assert forall|i: int|
                0 <= i < ranges.len() && ((#[trigger] ranges[i]).0, ranges[i].1) == k implies cell(
                detail.produces,
                k.0,
                k.1,
            ) == Some(Some(ranges[i].2)) by {
                assert(ranges.contains(ranges[i]));
                assert(ranges.contains((k.0, k.1, ranges[i].2)));
            }
            if range_at(detail.produces, k.0, k.1) is Some {
                let range = range_at(detail.produces, k.0, k.1).unwrap();
                assert(ranges.contains((k.0, k.1, range)));
                let i = choose|i: int| 0 <= i < ranges.len() && ranges[i] == (k.0, k.1, range);
                assert((ranges[i].0, ranges[i].1) == k);
            }
        }
        let listed = exists|m: int|
            0 <= m < n && other == (id, (producer, (#[trigger] epochs[m]).0));
        let before = exists|m: int|
            0 <= m < n - 1 && other == (id, (producer, (#[trigger] epochs[m]).0));
        if other == key {
            assert(other == (id, (producer, epochs[n - 1].0)));
            if before {
                let m = choose|m: int|
                    0 <= m < n - 1 && other == (id, (producer, (#[trigger] epochs[m]).0));
                lemma_ascending_distinct::<i16, TxnDetailModel>(epochs, m, n - 1);
            }
        } else {
            if before {
                let m = choose|m: int|
                    0 <= m < n - 1 && other == (id, (producer, (#[trigger] epochs[m]).0));
                assert(other == (id, (producer, epochs[m].0)));
                assert(listed);
            }
            if listed {
                let m = choose|m: int|
                    0 <= m < n && other == (id, (producer, (#[trigger] epochs[m]).0));
                assert(m != n - 1);
                assert(before);
            }
        }
    }
}

proof fn lemma_pinned_txns(
    coord: &CoordState,
    partitions: PartsModel,
    n: int,
    k: (Seq<char>, i32),
    other: (Seq<char>, (i64, i16)),
)
    requires
        coord.wf(),
        partitions.dom().contains(k),
        0 <= n <= coord.transactions.seq().len(),
    ensures
        ({
            let rows = coord.transactions.seq();
            let after = pinned_txns(partitions, rows.take(n));
            let named = exists|m: int|
                0 <= m < n && (#[trigger] rows[m]).0 == other.0 && rows[m].1.producer == other.1.0
                    && rows[m].1.epochs.dom().contains(other.1.1);
            &&& after.dom() == partitions.dom()
            &&& same_but_open(after[k], partitions[k])
            &&& pinned_by(
                partitions[k],
                after[k],
                other,
                if named {
                    pins(coord.model().transactions[other.0].epochs[other.1.1], k)
                } else {
                    None
                },
            )
        }),
    decreases n,
{
    let rows = coord.transactions.seq();
    if n > 0 {
        coord.transactions.lemma_seq();
        lemma_pinned_txns(coord, partitions, n - 1, k, other);
        assert(rows.take(n).drop_last() =~= rows.take(n - 1));
        let (id, txn) = rows[n - 1];
        lemma_ascending_at::<String, TxnModel>(rows, n - 1);
        let value = coord.transactions.lemma_value(n - 1);
        value.epochs.lemma_seq();
        let epochs = value.epochs.seq();
        let middle = pinned_txns(partitions, rows.take(n - 1));
        lemma_pinned_epochs(middle, id, &value, epochs.len() as int, k, other);
        assert(epochs.take(epochs.len() as int) =~= epochs);
        let here = exists|m: int|
            0 <= m < epochs.len() && other == (id, (value.producer, (#[trigger] epochs[m]).0));
        let own = other.0 == id && txn.producer == other.1.0 && txn.epochs.dom().contains(other.1.1);
        assert(here <==> own) by {
            if here {
                let m = choose|m: int|
                    0 <= m < epochs.len() && other == (
                        id,
                        (value.producer, (#[trigger] epochs[m]).0),
                    );
                lemma_ascending_at::<i16, TxnDetailModel>(epochs, m);
            }
            if own {
                let m = lemma_ascending_position::<i16, TxnDetailModel>(epochs, other.1.1);
                assert(other == (id, (value.producer, epochs[m].0)));
            }
        }
        let before = exists|m: int|
            0 <= m < n - 1 && (#[trigger] rows[m]).0 == other.0 && rows[m].1.producer == other.1.0
                && rows[m].1.epochs.dom().contains(other.1.1);
        let named = exists|m: int|
            0 <= m < n && (#[trigger] rows[m]).0 == other.0 && rows[m].1.producer == other.1.0
                && rows[m].1.epochs.dom().contains(other.1.1);
        if own {
            assert(rows[n - 1].0 == other.0);
            assert(named);
            if before {
                let m = choose|m: int| 0 <= m < n - 1 && (#[trigger] rows[m]).0 == other.0;
                lemma_ascending_distinct::<String, TxnModel>(rows, m, n - 1);
            }
        } else {
            if before {
                let m = choose|m: int|
                    0 <= m < n - 1 && (#[trigger] rows[m]).0 == other.0 && rows[m].1.producer
                        == other.1.0 && rows[m].1.epochs.dom().contains(other.1.1);
                assert(rows[m].0 == other.0);
                assert(named);
            }
            if named {
                let m = choose|m: int|
                    0 <= m < n && (#[trigger] rows[m]).0 == other.0 && rows[m].1.producer
                        == other.1.0 && rows[m].1.epochs.dom().contains(other.1.1);
                assert(m != n - 1);
                assert(before);
            }
        }
    }
}

/// After a boot, a transaction is open on a partition, from its first offset
/// there, if it has begun and not ended and has produced to it; no other is
/// but those that were. Nothing else of a partition changes.
pub proof fn law_open_transactions_pin_exactly(
    coord: &CoordState,
    partitions: PartsModel,
    k: (Seq<char>, i32),
    key: (Seq<char>, (i64, i16)),
)
    requires
        coord.wf(),
        partitions.dom().contains(k),
    ensures
        ({
            let model = coord.model();
            let after = pinned_all(partitions, model);
            let known = model.transactions.dom().contains(key.0)
                && model.transactions[key.0].producer == key.1.0
                && model.transactions[key.0].epochs.dom().contains(key.1.1);
            &&& after.dom() == partitions.dom()
            &&& same_but_open(after[k], partitions[k])
            &&& pinned_by(
                partitions[k],
                after[k],
                key,
                if known {
                    pins(model.transactions[key.0].epochs[key.1.1], k)
                } else {
                    None
                },
            )
        }),
{
    let model = coord.model();
    let rows = coord.transactions.seq();
    coord.transactions.lemma_seq();
    lemma_pinned_txns(coord, partitions, rows.len() as int, k, key);
    assert(rows.take(rows.len() as int) =~= rows);
    if model.transactions.dom().contains(key.0) {
        let m = lemma_ascending_position::<String, TxnModel>(rows, key.0);
        assert(rows[m].0 == key.0);
    }
    if exists|m: int| 0 <= m < rows.len() && (#[trigger] rows[m]).0 == key.0 && rows[m].1.producer
        == key.1.0 && rows[m].1.epochs.dom().contains(key.1.1) {
        let m = choose|m: int|
            0 <= m < rows.len() && (#[trigger] rows[m]).0 == key.0 && rows[m].1.producer == key.1.0
                && rows[m].1.epochs.dom().contains(key.1.1);
        lemma_ascending_at::<String, TxnModel>(rows, m);
    }
}

/// Taking in a partition's segments gives that partition back, by what the
/// snapshot and the WAL know of it, and touches no other partition; what they
/// know of others, and the groups, stay.
pub proof fn law_scan_takes_in_one_partition(
    boot: BootModel,
    topition: (Seq<char>, i32),
    found: Seq<FoundBatch>,
    other: (Seq<char>, i32),
)
    ensures
        ({
            let after = with_scan(boot, topition, found);
            let skeleton = if boot.image.skeletons.dom().contains(topition) {
                boot.image.skeletons[topition]
            } else {
                SkeletonModel { log_start: 0, aborted: Seq::empty() }
            };
            let (part, coord) = rebuilt(boot.image.coord, topition, skeleton, found);
            &&& after.partitions.dom().contains(topition)
            &&& after.partitions[topition] == part
            &&& after.image.coord == coord
            &&& !after.image.skeletons.dom().contains(topition)
            &&& other != topition ==> {
                &&& after.partitions.dom().contains(other) <==> boot.partitions.dom().contains(
                    other,
                )
                &&& boot.partitions.dom().contains(other) ==> after.partitions[other]
                    == boot.partitions[other]
                &&& after.image.skeletons.dom().contains(other)
                    <==> boot.image.skeletons.dom().contains(other)
                &&& boot.image.skeletons.dom().contains(other) ==> after.image.skeletons[other]
                    == boot.image.skeletons[other]
            }
            &&& after.image.groups == boot.image.groups
            &&& after.image.group_offsets == boot.image.group_offsets
        }),
{
}

/// Taking in what the object store holds of a partition changes that partition
/// and no other, and nothing where there is no such partition.
pub proof fn law_store_takes_in_one_partition(
    boot: BootModel,
    topition: (Seq<char>, i32),
    remote: Seq<i64>,
    entries: Seq<(i64, SidecarEntry)>,
    other: (Seq<char>, i32),
)
    ensures
        ({
            let after = with_tier(boot, topition, remote, entries);
            let known = boot.partitions.dom().contains(topition);
            let (part, coord) = joined(
                boot.partitions[topition],
                boot.image.coord,
                topition,
                remote,
                entries,
            );
            &&& !known ==> after == boot
            &&& known ==> after.partitions[topition] == part && after.image.coord == coord
            &&& after.partitions.dom() == boot.partitions.dom()
            &&& other != topition && boot.partitions.dom().contains(other)
                ==> after.partitions[other] == boot.partitions[other]
            &&& after.image.skeletons == boot.image.skeletons
            &&& after.image.groups == boot.image.groups
            &&& after.image.group_offsets == boot.image.group_offsets
        }),
{
    assert(with_tier(boot, topition, remote, entries).partitions.dom() =~= boot.partitions.dom());
}

} // verus!
