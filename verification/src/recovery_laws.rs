//! What a boot gives back: the index that was appended, the sequence numbers
//! that were seen, the state that the WAL and snapshots carry, and every
//! transaction that was open.

use crate::model::{Key, Model};
use crate::ordmap::{
    ascending, chosen, lemma_ascending_at, lemma_ascending_position, ordered, to_map,
};
use crate::partition::{
    cached_total, clamped, empty_part, end_offset, indexed, reaching, sound, stays, uncached,
    EntryModel, PartModel,
};
use crate::produce::{validated, BatchHeader};
use crate::rebuild::{
    base_set, fetched, in_range, joined, local_entry, owners, part_seen, rebuilt, scanned,
    with_range_seen, with_sequence_seen, FoundBatch, SidecarEntry,
};
use crate::recovery::{
    idle, in_doubt, in_doubt_epochs, in_doubt_txns, is_open, pinned_all, pinned_epochs,
    pinned_ranges, pinned_txns, PartsModel,
};
use crate::replay::{replayed, Image, ImageModel, SkeletonModel};
use crate::snapshot::{captured, document, law_snapshot_round_trip, topics_named};
use crate::state::{
    cell, next_sequence, produced_ranges, producer_refusal, txn_at, CoordModel, CoordState,
    TxnDetailModel, TxnModel, TxnProduceOffset,
};
use crate::tier::{law_sidecar_round_trip, remote, sidecar_of};
use crate::types::TxnState;
use crate::unscanned::{law_replay_on_unscanned, unscanned_image};
use crate::wal::Record;
use vstd::prelude::*;

verus! {

/// Replaying one list of records behind another is replaying both.
pub proof fn law_replay_splits(image: ImageModel, first: Seq<Record>, second: Seq<Record>)
    ensures
        replayed(image, first + second) == replayed(replayed(image, first), second),
    decreases second.len(),
{
    if second.len() == 0 {
        assert(first + second =~= first);
    } else {
        assert((first + second).drop_last() =~= first + second.drop_last());
        law_replay_splits(image, first, second.drop_last());
    }
}

/// A snapshot stands for the WAL that it captures: replaying the records
/// behind it on what it captured gives what replaying them on the state itself
/// does, but for what the segment scan rebuilds.
pub proof fn law_snapshot_replaces_wal(wal_seq: u64, image: &Image, later: Seq<Record>)
    requires
        image.wf(),
        topics_named(image.coord.model()),
    ensures
        unscanned_image(
            replayed(
                captured(
                    document(
                        wal_seq,
                        image.coord.model(),
                        image.groups.model(),
                        image.group_offsets.model(),
                        ordered::<crate::types::Topition, SkeletonModel>(image.skeletons.model()),
                    ),
                ),
                later,
            ),
        ) == unscanned_image(replayed(image.model(), later)),
{
    image.skeletons.lemma_seq();
    law_snapshot_round_trip(
        wal_seq,
        &image.coord,
        &image.groups,
        &image.group_offsets,
        image.skeletons.seq(),
    );
    law_replay_on_unscanned(image.model(), later);
}

/// The batches of an index as they are found on disk.
pub open spec fn found_in(rows: Seq<(i64, EntryModel)>, found: Seq<FoundBatch>) -> bool {
    &&& found.len() == rows.len()
    &&& forall|i: int|
        0 <= i < rows.len() ==> (#[trigger] found[i]).offset == rows[i].0 && local_entry(found[i])
            == uncached(rows[i].1)
}

/// An index without its cached bytes.
pub open spec fn bare(batches: Map<i64, EntryModel>) -> Map<i64, EntryModel> {
    Map::new(|o: i64| batches.dom().contains(o), |o: i64| uncached(batches[o]))
}

/// One above the last offset of a list of batches, and 0 at least.
pub open spec fn end_of(rows: Seq<(i64, EntryModel)>) -> int
    decreases rows.len(),
{
    if rows.len() == 0 {
        0
    } else {
        let before = end_of(rows.drop_last());
        let next = end_offset(rows.last().0, rows.last().1) + 1;
        if next > before {
            next
        } else {
            before
        }
    }
}

proof fn lemma_scanned(
    start: PartModel,
    coord: CoordModel,
    by_producer: Map<i64, Seq<char>>,
    topition: (Seq<char>, i32),
    rows: Seq<(i64, EntryModel)>,
    found: Seq<FoundBatch>,
)
    requires
        start.batches == Map::<i64, EntryModel>::empty(),
        start.cached_bytes == 0,
        start.next_offset == 0,
        found_in(rows, found),
        forall|i: int|
            0 <= i < rows.len() ==> i64::MIN <= end_offset((#[trigger] rows[i]).0, rows[i].1)
                < i64::MAX,
    ensures
        ({
            let part = scanned(start, coord, by_producer, topition, found).0;
            &&& part == (PartModel {
                batches: bare(to_map(rows)),
                next_offset: end_of(rows) as i64,
                ..start
            })
            &&& 0 <= end_of(rows) <= i64::MAX
        }),
    decreases rows.len(),
{
    if rows.len() == 0 {
        assert(bare(to_map(rows)) =~= start.batches);
    } else {
        let init = rows.drop_last();
        let head = found.drop_last();
        assert forall|i: int| 0 <= i < init.len() implies (#[trigger] head[i]).offset == init[i].0
            && local_entry(head[i]) == uncached(init[i].1) by {
            assert(head[i] == found[i] && init[i] == rows[i]);
        }
        assert forall|i: int| 0 <= i < init.len() implies i64::MIN <= end_offset(
            (#[trigger] init[i]).0,
            init[i].1,
        ) < i64::MAX by {
            assert(init[i] == rows[i]);
        }
        lemma_scanned(start, coord, by_producer, topition, init, head);
        let last = rows.len() - 1;
        assert(found[last].offset == rows[last].0);
        let before = scanned(start, coord, by_producer, topition, head).0;
        let entry = local_entry(found[last]);
        let after = part_seen(before, found[last].offset, entry);
        assert(bare(to_map(rows)) =~= bare(to_map(init)).insert(rows[last].0, entry));
        assert(indexed(before, found[last].offset, entry, 0).batches == before.batches.insert(
            rows[last].0,
            entry,
        ));
    }
}

/// A boot gives back a partition's index: where every batch of a sound
/// partition is found on disk, it has the same batches at the same places, the
/// same log start and aborted ranges, and everything is durable.
pub proof fn law_scan_gives_back_partition(
    p: PartModel,
    coord: CoordModel,
    topition: (Seq<char>, i32),
    found: Seq<FoundBatch>,
)
    requires
        sound(p),
        p.log_start >= 0,
        found_in(ordered::<i64, EntryModel>(p.batches), found),
        forall|o: i64| #[trigger]
            p.batches.dom().contains(o) ==> end_offset(o, p.batches[o]) < i64::MAX && stays(
                p.log_start,
            )(o, p.batches[o]),
        forall|i: int|
            0 <= i < p.aborted.len() ==> (#[trigger] p.aborted[i]).offset_end >= p.log_start,
        p.next_offset == end_of(ordered::<i64, EntryModel>(p.batches)) || (p.next_offset
            == p.log_start && end_of(ordered::<i64, EntryModel>(p.batches)) <= p.log_start),
        p.next_offset >= p.log_start,
    ensures
        rebuilt(
            coord,
            topition,
            SkeletonModel { log_start: p.log_start, aborted: p.aborted },
            found,
        ).0 == (PartModel {
            log_start: p.log_start,
            next_offset: p.next_offset,
            durable_offset: p.next_offset,
            batches: bare(p.batches),
            aborted: p.aborted,
            ..empty_part()
        }),
{
    let rows = ordered::<i64, EntryModel>(p.batches);
    let start = PartModel { aborted: p.aborted, ..empty_part() };
    assert forall|i: int| 0 <= i < rows.len() implies i64::MIN <= end_offset(
        (#[trigger] rows[i]).0,
        rows[i].1,
    ) < i64::MAX by {
        lemma_ascending_at::<i64, EntryModel>(rows, i);
        assert(p.batches.dom().contains(rows[i].0));
    }
    lemma_scanned(start, coord, owners(coord), topition, rows, found);
    let part = scanned(start, coord, owners(coord), topition, found).0;
    let next = if p.log_start > part.next_offset {
        p.log_start
    } else {
        part.next_offset
    };
    assert(next == p.next_offset);
    let settled = PartModel {
        log_start: 0,
        next_offset: next,
        durable_offset: next,
        batches: bare(p.batches),
        aborted: p.aborted,
        ..empty_part()
    };
    assert(clamped(settled, p.log_start) == p.log_start);
    assert(chosen(settled.batches, stays(p.log_start)) =~= settled.batches) by {
        assert forall|o: i64| settled.batches.dom().contains(o) implies stays(p.log_start)(
            o,
            settled.batches[o],
        ) by {
            assert(p.batches.dom().contains(o));
        }
    }
    lemma_reaching_all(p.aborted, p.log_start);
    let gone = chosen(settled.batches, crate::partition::goes(p.log_start));
    assert(gone =~= Map::<i64, EntryModel>::empty()) by {
        assert forall|o: i64| !gone.dom().contains(o) by {
            if settled.batches.dom().contains(o) {
                assert(p.batches.dom().contains(o));
            }
        }
    }
    lemma_nothing_cached(gone);
}

proof fn lemma_reaching_all(aborted: Seq<crate::partition::AbortedRange>, at: i64)
    requires
        forall|i: int| 0 <= i < aborted.len() ==> (#[trigger] aborted[i]).offset_end >= at,
    ensures
        reaching(aborted, at) == aborted,
    decreases aborted.len(),
{
    if aborted.len() > 0 {
        let init = aborted.drop_last();
        assert forall|i: int| 0 <= i < init.len() implies (#[trigger] init[i]).offset_end >= at by {
            assert(init[i] == aborted[i]);
        }
        lemma_reaching_all(init, at);
        assert(aborted[aborted.len() - 1].offset_end >= at);
        assert(init.push(aborted.last()) =~= aborted);
    }
}

proof fn lemma_nothing_cached(batches: Map<i64, EntryModel>)
    requires
        batches == Map::<i64, EntryModel>::empty(),
    ensures
        cached_total(batches) == 0,
{
    let none = Seq::<(i64, EntryModel)>::empty();
    assert(to_map(none) =~= batches);
    crate::ordmap::lemma_ordered::<i64, EntryModel>(none);
}

/// The sidecars' entries of an index, each with its segment.
pub open spec fn sidecars_of(rows: Seq<(i64, EntryModel)>) -> Seq<(i64, SidecarEntry)> {
    Seq::new(
        rows.len(),
        |i: int| (rows[i].1.segment_base, sidecar_of(rows[i].0, rows[i].1)),
    )
}

/// An index of which only the object store holds the bytes.
pub open spec fn all_remote(batches: Map<i64, EntryModel>) -> Map<i64, EntryModel> {
    Map::new(|o: i64| batches.dom().contains(o), |o: i64| remote(batches[o]))
}

/// The later of a log start and the end of a list of batches.
pub open spec fn end_past(log_start: i64, rows: Seq<(i64, EntryModel)>) -> int {
    if end_of(rows) > log_start {
        end_of(rows)
    } else {
        log_start as int
    }
}

proof fn lemma_fetched(
    start: PartModel,
    coord: CoordModel,
    by_producer: Map<i64, Seq<char>>,
    topition: (Seq<char>, i32),
    rows: Seq<(i64, EntryModel)>,
)
    requires
        start.batches == Map::<i64, EntryModel>::empty(),
        start.cached_bytes == 0,
        start.next_offset == start.log_start,
        start.log_start >= 0,
        forall|i: int|
            0 <= i < rows.len() ==> i64::MIN <= end_offset((#[trigger] rows[i]).0, rows[i].1)
                < i64::MAX,
    ensures
        ({
            let part = fetched(start, coord, by_producer, topition, sidecars_of(rows)).0;
            &&& part == (PartModel {
                batches: all_remote(to_map(rows)),
                next_offset: end_past(start.log_start, rows) as i64,
                ..start
            })
            &&& 0 <= end_of(rows) <= i64::MAX
        }),
    decreases rows.len(),
{
    if rows.len() == 0 {
        assert(sidecars_of(rows) =~= Seq::empty());
        assert(all_remote(to_map(rows)) =~= start.batches);
    } else {
        let init = rows.drop_last();
        assert forall|i: int| 0 <= i < init.len() implies i64::MIN <= end_offset(
            (#[trigger] init[i]).0,
            init[i].1,
        ) < i64::MAX by {
            assert(init[i] == rows[i]);
        }
        lemma_fetched(start, coord, by_producer, topition, init);
        let entries = sidecars_of(rows);
        assert(entries.drop_last() =~= sidecars_of(init));
        let last = rows.len() - 1;
        let (offset, entry) = rows[last];
        assert(entries[last] == (entry.segment_base, sidecar_of(offset, entry)));
        let before = fetched(start, coord, by_producer, topition, sidecars_of(init)).0;
        law_sidecar_round_trip(entry.segment_base, offset, entry);
        assert(end_offset(offset, remote(entry)) == end_offset(offset, entry));
        assert(all_remote(to_map(rows)) =~= all_remote(to_map(init)).insert(
            offset,
            remote(entry),
        ));
        assert(indexed(before, offset, remote(entry), 0).batches == before.batches.insert(
            offset,
            remote(entry),
        ));
    }
}

/// A cold boot gives back a partition from its sidecars alone: the same batches
/// at the same places, now held by the object store, and the same log start and
/// aborted ranges.
pub proof fn law_sidecars_give_back_partition(
    p: PartModel,
    coord: CoordModel,
    topition: (Seq<char>, i32),
    bases: Seq<i64>,
)
    requires
        sound(p),
        p.log_start >= 0,
        bases.len() > 0,
        forall|o: i64| #[trigger]
            p.batches.dom().contains(o) ==> end_offset(o, p.batches[o]) < i64::MAX && stays(
                p.log_start,
            )(o, p.batches[o]),
        forall|i: int|
            0 <= i < p.aborted.len() ==> (#[trigger] p.aborted[i]).offset_end >= p.log_start,
    ensures
        ({
            let rows = ordered::<i64, EntryModel>(p.batches);
            let next = end_past(p.log_start, rows) as i64;
            joined(
                idle(SkeletonModel { log_start: p.log_start, aborted: p.aborted }),
                coord,
                topition,
                bases,
                sidecars_of(rows),
            ).0 == (PartModel {
                log_start: p.log_start,
                next_offset: next,
                durable_offset: next,
                batches: all_remote(p.batches),
                aborted: p.aborted,
                uploaded: base_set(bases),
                ..empty_part()
            })
        }),
{
    let rows = ordered::<i64, EntryModel>(p.batches);
    let skeleton = SkeletonModel { log_start: p.log_start, aborted: p.aborted };
    let start = PartModel { uploaded: base_set(bases), ..idle(skeleton) };
    assert forall|i: int| 0 <= i < rows.len() implies i64::MIN <= end_offset(
        (#[trigger] rows[i]).0,
        rows[i].1,
    ) < i64::MAX by {
        lemma_ascending_at::<i64, EntryModel>(rows, i);
        assert(p.batches.dom().contains(rows[i].0));
    }
    lemma_fetched(start, coord, owners(coord), topition, rows);
    let next = end_past(p.log_start, rows) as i64;
    let settled = PartModel {
        log_start: 0,
        next_offset: next,
        durable_offset: next,
        batches: all_remote(p.batches),
        aborted: p.aborted,
        uploaded: base_set(bases),
        ..empty_part()
    };
    assert(clamped(settled, p.log_start) == p.log_start);
    assert(chosen(settled.batches, stays(p.log_start)) =~= settled.batches) by {
        assert forall|o: i64| settled.batches.dom().contains(o) implies stays(p.log_start)(
            o,
            settled.batches[o],
        ) by {
            assert(p.batches.dom().contains(o));
        }
    }
    lemma_reaching_all(p.aborted, p.log_start);
    let gone = chosen(settled.batches, crate::partition::goes(p.log_start));
    assert(gone =~= Map::<i64, EntryModel>::empty()) by {
        assert forall|o: i64| !gone.dom().contains(o) by {
            if settled.batches.dom().contains(o) {
                assert(p.batches.dom().contains(o));
            }
        }
    }
    lemma_nothing_cached(gone);
}

/// A batch that was found on disk is a duplicate when it is sent again: the
/// rebuilt sequence number is past it.
pub proof fn law_found_batch_is_duplicate(
    coord: CoordModel,
    topition: (Seq<char>, i32),
    entry: EntryModel,
    header: BatchHeader,
)
    requires
        entry.last_offset_delta >= 0,
        entry.base_sequence + entry.last_offset_delta < i32::MAX,
        header.producer_id == entry.producer_id,
        header.producer_epoch == entry.producer_epoch,
        header.base_sequence == entry.base_sequence,
        producer_refusal(coord, entry.producer_id, entry.producer_epoch) is None,
    ensures
        validated(
            with_sequence_seen(coord, topition, entry),
            header,
            topition.0,
            topition.1,
        ).1 == Some(crate::error::ErrorCode::DuplicateSequenceNumber),
{
    let (id, epoch) = (entry.producer_id, entry.producer_epoch);
    let after = with_sequence_seen(coord, topition, entry);
    assert(after.producers[id].dom() =~= coord.producers[id].dom());
    assert(after.producers[id] != Map::<i16, crate::state::SequenceModel>::empty()) by {
        assert(after.producers[id].dom().contains(epoch));
    }
    assert(producer_refusal(after, id, epoch) is None);
    assert(next_sequence(after, id, epoch, topition.0, topition.1) > entry.base_sequence);
}

/// The sequence number that is known of a producer on a partition.
pub open spec fn known_sequence(
    coord: CoordModel,
    producer_id: i64,
    producer_epoch: i16,
    topition: (Seq<char>, i32),
) -> Option<i32> {
    if coord.producers.dom().contains(producer_id) && coord.producers[producer_id].dom().contains(
        producer_epoch,
    ) {
        cell(coord.producers[producer_id][producer_epoch], topition.0, topition.1)
    } else {
        None
    }
}

/// After a scan the known sequence number of every idempotent producer is past
/// each batch of its that was found.
pub proof fn law_sequences_rebuilt(
    start: PartModel,
    coord: CoordModel,
    by_producer: Map<i64, Seq<char>>,
    topition: (Seq<char>, i32),
    found: Seq<FoundBatch>,
    i: int,
)
    requires
        0 <= i < found.len(),
        found[i].header.idempotent,
        forall|j: int|
            0 <= j < found.len() ==> in_range(
                (#[trigger] found[j]).offset,
                local_entry(found[j]),
                found[j].header.idempotent,
            ),
    ensures
        ({
            let header = found[i].header;
            let after = scanned(start, coord, by_producer, topition, found).1;
            known_sequence(
                after,
                header.producer_id,
                header.producer_epoch,
                topition,
            ) matches Some(sequence) && sequence > header.base_sequence + header.last_offset_delta
        }),
    decreases found.len(),
{
    let init = found.drop_last();
    let before = scanned(start, coord, by_producer, topition, init).1;
    let last = found[found.len() - 1];
    assert(in_range(last.offset, local_entry(last), last.header.idempotent));
    if i < init.len() {
        assert forall|j: int| 0 <= j < init.len() implies in_range(
            (#[trigger] init[j]).offset,
            local_entry(init[j]),
            init[j].header.idempotent,
        ) by {
            assert(init[j] == found[j]);
        }
        law_sequences_rebuilt(start, coord, by_producer, topition, init, i);
    }
    lemma_range_keeps_producers(
        if last.header.idempotent {
            with_sequence_seen(before, topition, local_entry(last))
        } else {
            before
        },
        by_producer,
        topition,
        last.offset,
        local_entry(last),
    );
}

proof fn lemma_range_keeps_producers(
    coord: CoordModel,
    by_producer: Map<i64, Seq<char>>,
    topition: (Seq<char>, i32),
    offset: i64,
    entry: EntryModel,
)
    ensures
        with_range_seen(coord, by_producer, topition, offset, entry).producers == coord.producers,
{
}

/// Whether an open incarnation's range on a partition covers offsets.
pub open spec fn covers(
    coord: CoordModel,
    id: Seq<char>,
    epoch: i16,
    producer: i64,
    topition: (Seq<char>, i32),
    offset: i64,
    offset_end: int,
) -> bool {
    &&& txn_at(coord, id, epoch) matches Some(detail)
    &&& detail.state == Some(TxnState::Begin)
    &&& cell(detail.produces, topition.0, topition.1) matches Some(Some(range))
    &&& range.offset_start <= offset
    &&& offset_end <= range.offset_end
    &&& coord.transactions[id].producer == producer
}

/// After a scan the range of every transaction that is open covers each data
/// batch of its that was found.
pub proof fn law_ranges_rebuilt(
    start: PartModel,
    coord: CoordModel,
    by_producer: Map<i64, Seq<char>>,
    topition: (Seq<char>, i32),
    found: Seq<FoundBatch>,
    i: int,
    id: Seq<char>,
)
    requires
        0 <= i < found.len(),
        found[i].header.transaction,
        !found[i].header.control,
        by_producer.dom().contains(found[i].header.producer_id),
        by_producer[found[i].header.producer_id] == id,
        txn_at(coord, id, found[i].header.producer_epoch) matches Some(detail) && detail.state
            == Some(TxnState::Begin),
        coord.transactions[id].producer == found[i].header.producer_id,
        forall|j: int|
            0 <= j < found.len() ==> in_range(
                (#[trigger] found[j]).offset,
                local_entry(found[j]),
                found[j].header.idempotent,
            ),
    ensures
        covers(
            scanned(start, coord, by_producer, topition, found).1,
            id,
            found[i].header.producer_epoch,
            found[i].header.producer_id,
            topition,
            found[i].offset,
            end_offset(found[i].offset, local_entry(found[i])),
        ),
    decreases found.len(),
{
    let init = found.drop_last();
    let header = found[i].header;
    let last = found[found.len() - 1];
    assert(in_range(last.offset, local_entry(last), last.header.idempotent));
    assert forall|j: int| 0 <= j < init.len() implies in_range(
        (#[trigger] init[j]).offset,
        local_entry(init[j]),
        init[j].header.idempotent,
    ) by {
        assert(init[j] == found[j]);
    }
    lemma_scan_keeps_txn(start, coord, by_producer, topition, init, id, header.producer_epoch);
    if i < init.len() {
        law_ranges_rebuilt(start, coord, by_producer, topition, init, i, id);
    }
}

/// A scan changes no transaction's state nor its producer.
proof fn lemma_scan_keeps_txn(
    start: PartModel,
    coord: CoordModel,
    by_producer: Map<i64, Seq<char>>,
    topition: (Seq<char>, i32),
    found: Seq<FoundBatch>,
    id: Seq<char>,
    epoch: i16,
)
    requires
        txn_at(coord, id, epoch) is Some,
    ensures
        ({
            let after = scanned(start, coord, by_producer, topition, found).1;
            &&& txn_at(after, id, epoch) matches Some(detail) && detail.state == txn_at(
                coord,
                id,
                epoch,
            ).unwrap().state
            &&& after.transactions[id].producer == coord.transactions[id].producer
        }),
    decreases found.len(),
{
    if found.len() > 0 {
        lemma_scan_keeps_txn(
            start,
            coord,
            by_producer,
            topition,
            found.drop_last(),
            id,
            epoch,
        );
    }
}

/// A transaction that was prepared and not resolved is in doubt after a boot,
/// with the end that its preparation asked for.
pub proof fn law_prepared_is_in_doubt(coord: &CoordState, id: Seq<char>, epoch: i16, committed: bool)
    requires
        coord.wf(),
        coord.model().transactions.dom().contains(id),
        coord.model().transactions[id].epochs.dom().contains(epoch),
        coord.model().transactions[id].epochs[epoch].state == Some(
            crate::txn::prepared_state(committed),
        ),
    ensures
        in_doubt(coord.model()).contains(
            (id, coord.model().transactions[id].producer, epoch, committed),
        ),
{
    let rows = coord.transactions.seq();
    coord.transactions.lemma_seq();
    let i = lemma_ascending_position::<String, TxnModel>(rows, id);
    lemma_ascending_at::<String, TxnModel>(rows, i);
    let txn = coord.transactions.lemma_value(i);
    txn.epochs.lemma_seq();
    let epochs = txn.epochs.seq();
    let e = lemma_ascending_position::<i16, TxnDetailModel>(epochs, epoch);
    lemma_ascending_at::<i16, TxnDetailModel>(epochs, e);
    lemma_in_doubt_epoch(id, txn.producer, epochs, e, committed);
    lemma_in_doubt_txn(rows, i, (id, txn.producer, epoch, committed));
}

proof fn lemma_in_doubt_epoch(
    id: Seq<char>,
    producer: i64,
    epochs: Seq<(i16, TxnDetailModel)>,
    e: int,
    committed: bool,
)
    requires
        0 <= e < epochs.len(),
        epochs[e].1.state == Some(crate::txn::prepared_state(committed)),
    ensures
        in_doubt_epochs(id, producer, epochs).contains((id, producer, epochs[e].0, committed)),
    decreases epochs.len(),
{
    let init = epochs.drop_last();
    let before = in_doubt_epochs(id, producer, init);
    let after = in_doubt_epochs(id, producer, epochs);
    let item = (id, producer, epochs[e].0, committed);
    if e < init.len() {
        lemma_in_doubt_epoch(id, producer, init, e, committed);
        let j = choose|j: int| 0 <= j < before.len() && before[j] == item;
        assert(after[j] == item);
    } else {
        assert(after[after.len() - 1] == item);
    }
}

proof fn lemma_in_doubt_txn(
    rows: Seq<(Seq<char>, TxnModel)>,
    i: int,
    item: (Seq<char>, i64, i16, bool),
)
    requires
        0 <= i < rows.len(),
        in_doubt_epochs(
            rows[i].0,
            rows[i].1.producer,
            ordered::<i16, TxnDetailModel>(rows[i].1.epochs),
        ).contains(item),
    ensures
        in_doubt_txns(rows).contains(item),
    decreases rows.len(),
{
    let init = rows.drop_last();
    let before = in_doubt_txns(init);
    let tail = in_doubt_epochs(
        rows.last().0,
        rows.last().1.producer,
        ordered::<i16, TxnDetailModel>(rows.last().1.epochs),
    );
    let after = in_doubt_txns(rows);
    if i < init.len() {
        lemma_in_doubt_txn(init, i, item);
        let j = choose|j: int| 0 <= j < before.len() && before[j] == item;
        assert(after[j] == item);
    } else {
        let j = choose|j: int| 0 <= j < tail.len() && tail[j] == item;
        assert(after[before.len() + j] == item);
    }
}

/// Whether an open transaction holds a partition at an offset.
pub open spec fn holds(
    partitions: PartsModel,
    k: (Seq<char>, i32),
    key: (Seq<char>, (i64, i16)),
    offset: i64,
) -> bool {
    &&& partitions.dom().contains(k)
    &&& partitions[k].open_txns.dom().contains(key)
    &&& partitions[k].open_txns[key] == offset
}

/// After a boot every open transaction holds the last stable offset of each
/// partition that it produced to at its first offset there.
pub proof fn law_open_txns_pinned(
    coord: &CoordState,
    partitions: PartsModel,
    id: Seq<char>,
    epoch: i16,
    range: (Seq<char>, i32, TxnProduceOffset),
)
    requires
        coord.wf(),
        coord.model().transactions.dom().contains(id),
        coord.model().transactions[id].epochs.dom().contains(epoch),
        is_open(coord.model().transactions[id].epochs[epoch]),
        cell(
            coord.model().transactions[id].epochs[epoch].produces,
            range.0,
            range.1,
        ) == Some(Some(range.2)),
        partitions.dom().contains((range.0, range.1)),
    ensures
        holds(
            pinned_all(partitions, coord.model()),
            (range.0, range.1),
            (id, (coord.model().transactions[id].producer, epoch)),
            range.2.offset_start,
        ),
{
    let rows = coord.transactions.seq();
    coord.transactions.lemma_seq();
    let i = lemma_ascending_position::<String, TxnModel>(rows, id);
    lemma_ascending_at::<String, TxnModel>(rows, i);
    let txn = coord.transactions.lemma_value(i);
    txn.epochs.lemma_seq();
    let epochs = txn.epochs.seq();
    let e = lemma_ascending_position::<i16, TxnDetailModel>(epochs, epoch);
    lemma_ascending_at::<i16, TxnDetailModel>(epochs, e);
    let detail = txn.epochs.lemma_value(e);
    crate::resolution::lemma_listed_ranges(&detail, range.0, range.1);
    let ranges = produced_ranges(detail.model().produces);
    assert(ranges.contains((range.0, range.1, range.2)));
    assert forall|j: int|
        0 <= j < ranges.len() && (#[trigger] ranges[j]).0 == range.0 && ranges[j].1
            == range.1 implies ranges[j].2 == range.2 by {
        assert(ranges.contains((range.0, range.1, ranges[j].2)));
    }
    lemma_pinned_txns(rows, partitions, i, e, range);
}

proof fn lemma_pinned_ranges(
    partitions: PartsModel,
    key: (Seq<char>, (i64, i16)),
    ranges: Seq<(Seq<char>, i32, TxnProduceOffset)>,
    range: (Seq<char>, i32, TxnProduceOffset),
)
    requires
        partitions.dom().contains((range.0, range.1)),
        forall|j: int|
            0 <= j < ranges.len() && (#[trigger] ranges[j]).0 == range.0 && ranges[j].1 == range.1
                ==> ranges[j].2 == range.2,
    ensures
        pinned_ranges(partitions, key, ranges).dom() == partitions.dom(),
        ranges.contains(range) ==> holds(
            pinned_ranges(partitions, key, ranges),
            (range.0, range.1),
            key,
            range.2.offset_start,
        ),
    decreases ranges.len(),
{
    if ranges.len() > 0 {
        let init = ranges.drop_last();
        assert forall|j: int|
            0 <= j < init.len() && (#[trigger] init[j]).0 == range.0 && init[j].1
                == range.1 implies init[j].2 == range.2 by {
            assert(init[j] == ranges[j]);
        }
        lemma_pinned_ranges(partitions, key, init, range);
        let last = ranges[ranges.len() - 1];
        let before = pinned_ranges(partitions, key, init);
        let after = pinned_ranges(partitions, key, ranges);
        assert(after.dom() =~= partitions.dom());
        if ranges.contains(range) {
            let j = choose|j: int| 0 <= j < ranges.len() && ranges[j] == range;
            if j < init.len() {
                assert(init[j] == range);
            }
        }
    }
}

/// Pinning under other keys leaves what a key holds.
proof fn lemma_pinned_others(
    partitions: PartsModel,
    other: (Seq<char>, (i64, i16)),
    ranges: Seq<(Seq<char>, i32, TxnProduceOffset)>,
    k: (Seq<char>, i32),
    key: (Seq<char>, (i64, i16)),
    offset: i64,
)
    requires
        other != key,
        holds(partitions, k, key, offset),
    ensures
        holds(pinned_ranges(partitions, other, ranges), k, key, offset),
    decreases ranges.len(),
{
    if ranges.len() > 0 {
        lemma_pinned_others(partitions, other, ranges.drop_last(), k, key, offset);
    }
}

proof fn lemma_pinned_dom(
    partitions: PartsModel,
    key: (Seq<char>, (i64, i16)),
    ranges: Seq<(Seq<char>, i32, TxnProduceOffset)>,
)
    ensures
        pinned_ranges(partitions, key, ranges).dom() == partitions.dom(),
    decreases ranges.len(),
{
    if ranges.len() > 0 {
        lemma_pinned_dom(partitions, key, ranges.drop_last());
        assert(pinned_ranges(partitions, key, ranges).dom() =~= partitions.dom());
    }
}

proof fn lemma_epochs_dom(
    partitions: PartsModel,
    id: Seq<char>,
    producer: i64,
    epochs: Seq<(i16, TxnDetailModel)>,
)
    ensures
        pinned_epochs(partitions, id, producer, epochs).dom() == partitions.dom(),
    decreases epochs.len(),
{
    if epochs.len() > 0 {
        lemma_epochs_dom(partitions, id, producer, epochs.drop_last());
        let before = pinned_epochs(partitions, id, producer, epochs.drop_last());
        let (epoch, detail) = epochs.last();
        lemma_pinned_dom(before, (id, (producer, epoch)), produced_ranges(detail.produces));
    }
}

proof fn lemma_txns_dom(partitions: PartsModel, rows: Seq<(Seq<char>, TxnModel)>)
    ensures
        pinned_txns(partitions, rows).dom() == partitions.dom(),
    decreases rows.len(),
{
    if rows.len() > 0 {
        lemma_txns_dom(partitions, rows.drop_last());
        lemma_epochs_dom(
            pinned_txns(partitions, rows.drop_last()),
            rows.last().0,
            rows.last().1.producer,
            ordered::<i16, TxnDetailModel>(rows.last().1.epochs),
        );
    }
}

proof fn lemma_pinned_epochs(
    partitions: PartsModel,
    id: Seq<char>,
    producer: i64,
    epochs: Seq<(i16, TxnDetailModel)>,
    e: int,
    range: (Seq<char>, i32, TxnProduceOffset),
)
    requires
        ascending::<i16, TxnDetailModel>(epochs),
        0 <= e < epochs.len(),
        is_open(epochs[e].1),
        partitions.dom().contains((range.0, range.1)),
        produced_ranges(epochs[e].1.produces).contains(range),
        forall|j: int|
            #![trigger produced_ranges(epochs[e].1.produces)[j]]
            0 <= j < produced_ranges(epochs[e].1.produces).len() && produced_ranges(
                epochs[e].1.produces,
            )[j].0 == range.0 && produced_ranges(epochs[e].1.produces)[j].1 == range.1
                ==> produced_ranges(epochs[e].1.produces)[j].2 == range.2,
    ensures
        holds(
            pinned_epochs(partitions, id, producer, epochs),
            (range.0, range.1),
            (id, (producer, epochs[e].0)),
            range.2.offset_start,
        ),
    decreases epochs.len(),
{
    let init = epochs.drop_last();
    let last = epochs.len() - 1;
    let before = pinned_epochs(partitions, id, producer, init);
    lemma_epochs_dom(partitions, id, producer, init);
    let (epoch, detail) = epochs[last];
    if e < last {
        assert(init[e] == epochs[e]);
        assert forall|a: int, b: int| 0 <= a < b < init.len() implies i16::precedes(
            (#[trigger] init[a]).0,
            (#[trigger] init[b]).0,
        ) by {
            assert(i16::precedes(epochs[a].0, epochs[b].0));
        }
        lemma_pinned_epochs(partitions, id, producer, init, e, range);
        assert(i16::precedes(epochs[e].0, epochs[last].0));
        if is_open(detail) {
            lemma_pinned_others(
                before,
                (id, (producer, epoch)),
                produced_ranges(detail.produces),
                (range.0, range.1),
                (id, (producer, epochs[e].0)),
                range.2.offset_start,
            );
        }
    } else {
        lemma_pinned_ranges(
            before,
            (id, (producer, epoch)),
            produced_ranges(detail.produces),
            range,
        );
    }
}

/// Pinning another transaction's epochs leaves what a key holds.
proof fn lemma_other_epochs(
    partitions: PartsModel,
    id: Seq<char>,
    producer: i64,
    epochs: Seq<(i16, TxnDetailModel)>,
    k: (Seq<char>, i32),
    key: (Seq<char>, (i64, i16)),
    offset: i64,
)
    requires
        id != key.0,
        holds(partitions, k, key, offset),
    ensures
        holds(pinned_epochs(partitions, id, producer, epochs), k, key, offset),
    decreases epochs.len(),
{
    if epochs.len() > 0 {
        lemma_other_epochs(partitions, id, producer, epochs.drop_last(), k, key, offset);
        let (epoch, detail) = epochs.last();
        if is_open(detail) {
            lemma_pinned_others(
                pinned_epochs(partitions, id, producer, epochs.drop_last()),
                (id, (producer, epoch)),
                produced_ranges(detail.produces),
                k,
                key,
                offset,
            );
        }
    }
}

proof fn lemma_pinned_txns(
    rows: Seq<(Seq<char>, TxnModel)>,
    partitions: PartsModel,
    i: int,
    e: int,
    range: (Seq<char>, i32, TxnProduceOffset),
)
    requires
        ascending::<String, TxnModel>(rows),
        0 <= i < rows.len(),
        ascending::<i16, TxnDetailModel>(ordered::<i16, TxnDetailModel>(rows[i].1.epochs)),
        0 <= e < ordered::<i16, TxnDetailModel>(rows[i].1.epochs).len(),
        is_open(ordered::<i16, TxnDetailModel>(rows[i].1.epochs)[e].1),
        partitions.dom().contains((range.0, range.1)),
        ({
            let ranges = produced_ranges(
                ordered::<i16, TxnDetailModel>(rows[i].1.epochs)[e].1.produces,
            );
            ranges.contains(range) && forall|j: int|
                0 <= j < ranges.len() && (#[trigger] ranges[j]).0 == range.0 && ranges[j].1
                    == range.1 ==> ranges[j].2 == range.2
        }),
    ensures
        holds(
            pinned_txns(partitions, rows),
            (range.0, range.1),
            (
                rows[i].0,
                (rows[i].1.producer, ordered::<i16, TxnDetailModel>(rows[i].1.epochs)[e].0),
            ),
            range.2.offset_start,
        ),
    decreases rows.len(),
{
    let init = rows.drop_last();
    let last = rows.len() - 1;
    lemma_txns_dom(partitions, init);
    let before = pinned_txns(partitions, init);
    let epochs = ordered::<i16, TxnDetailModel>(rows[i].1.epochs);
    if i < last {
        assert(init[i] == rows[i]);
        assert forall|a: int, b: int| 0 <= a < b < init.len() implies String::precedes(
            (#[trigger] init[a]).0,
            (#[trigger] init[b]).0,
        ) by {
            assert(String::precedes(rows[a].0, rows[b].0));
        }
        lemma_pinned_txns(init, partitions, i, e, range);
        assert(String::precedes(rows[i].0, rows[last].0));
        String::precedes_irreflexive(rows[i].0);
        lemma_other_epochs(
            before,
            rows[last].0,
            rows[last].1.producer,
            ordered::<i16, TxnDetailModel>(rows[last].1.epochs),
            (range.0, range.1),
            (rows[i].0, (rows[i].1.producer, epochs[e].0)),
            range.2.offset_start,
        );
    } else {
        lemma_pinned_epochs(before, rows[i].0, rows[i].1.producer, epochs, e, range);
    }
}

} // verus!
