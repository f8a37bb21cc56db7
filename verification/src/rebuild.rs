//! Rebuilding partitions at boot: the batches found in local segments and in
//! the object store's sidecars give back the index, the watermarks, the
//! producers' sequence numbers and the ranges of open transactions.

use crate::model::Model;
use crate::ordmap::{ordered, OrdMap};
use crate::partition::{
    advanced, empty_part, end_offset, indexed, law_index_keeps_entries, BatchEntry, EntryModel,
    PartModel, PartitionInner,
};
use crate::produce::BatchHeader;
use crate::replay::{Skeleton, SkeletonModel};
use crate::state::{
    cell, get_or, txn_at, with_cell, with_txn, CoordModel, CoordState, ProducerDetail, TxnDetail,
    TxnDetailModel, TxnModel, TxnProduceOffset,
};
use crate::types::{Topition, TxnState};
use vstd::prelude::*;

verus! {

/// A batch found in a local segment.
#[derive(Clone, Copy, Debug, PartialEq, Eq, Structural)]
pub struct FoundBatch {
    pub segment_base: i64,
    pub offset: i64,
    pub position: u64,
    pub len: u32,
    pub header: BatchHeader,
}

/// One batch's location and recovery metadata, kept beside a segment in the
/// object store so that a cold boot never scans the segment.
#[derive(Clone, Copy, Debug, PartialEq, Eq, Structural)]
pub struct SidecarEntry {
    pub offset: i64,
    pub position: u64,
    pub len: u32,
    pub last_offset_delta: i32,
    pub max_timestamp: i64,
    pub is_control: bool,
    pub is_transactional: bool,
    pub producer_id: i64,
    pub producer_epoch: i16,
    pub base_sequence: i32,
}

/// A produced range grown to cover more offsets.
pub open spec fn merged(
    range: Option<Option<TxnProduceOffset>>,
    offset: i64,
    offset_end: i64,
) -> TxnProduceOffset {
    match range {
        Some(Some(range)) => TxnProduceOffset {
            offset_start: if offset < range.offset_start {
                offset
            } else {
                range.offset_start
            },
            offset_end: if offset_end > range.offset_end {
                offset_end
            } else {
                range.offset_end
            },
        },
        _ => TxnProduceOffset { offset_start: offset, offset_end },
    }
}

/// Grows a transaction's range on a partition to cover more offsets.
pub fn merge_range(detail: &mut TxnDetail, topition: &Topition, offset: i64, offset_end: i64)
    requires
        old(detail).wf(),
    ensures
        final(detail).wf(),
        final(detail).model() == (TxnDetailModel {
            produces: with_cell(
                old(detail).model().produces,
                topition.topic@,
                topition.partition,
                Some(
                    merged(
                        cell(old(detail).model().produces, topition.topic@, topition.partition),
                        offset,
                        offset_end,
                    ),
                ),
            ),
            ..old(detail).model()
        }),
{
    let partitions = detail.produces.entry(topition.topic.clone(), OrdMap::new());
    let slot = partitions.entry(topition.partition, None);
    let grown = match *slot {
        Some(range) => TxnProduceOffset {
            offset_start: if offset < range.offset_start {
                offset
            } else {
                range.offset_start
            },
            offset_end: if offset_end > range.offset_end {
                offset_end
            } else {
                range.offset_end
            },
        },
        None => TxnProduceOffset { offset_start: offset, offset_end },
    };
    *slot = Some(grown);
}

/// The transaction of each producer; of two with one producer, the later one
/// in the order of their ids.
pub open spec fn owners_of(txns: Seq<(Seq<char>, TxnModel)>) -> Map<i64, Seq<char>>
    decreases txns.len(),
{
    if txns.len() == 0 {
        Map::empty()
    } else {
        owners_of(txns.drop_last()).insert(txns.last().1.producer, txns.last().0)
    }
}

/// The transaction of each producer.
pub open spec fn owners(coord: CoordModel) -> Map<i64, Seq<char>> {
    owners_of(ordered::<String, TxnModel>(coord.transactions))
}

/// The state with a producer's sequence number at least as high as a batch
/// on disk left it.
pub open spec fn with_sequence_seen(
    coord: CoordModel,
    topition: (Seq<char>, i32),
    entry: EntryModel,
) -> CoordModel {
    let epochs = get_or(coord.producers, entry.producer_id, Map::empty());
    let by_topic = get_or(epochs, entry.producer_epoch, Map::empty());
    let seen = (entry.base_sequence + entry.last_offset_delta + 1) as i32;
    let known = match cell(by_topic, topition.0, topition.1) {
        Some(sequence) => sequence,
        None => 0,
    };
    CoordModel {
        producers: coord.producers.insert(
            entry.producer_id,
            epochs.insert(
                entry.producer_epoch,
                with_cell(
                    by_topic,
                    topition.0,
                    topition.1,
                    if seen > known {
                        seen
                    } else {
                        known
                    },
                ),
            ),
        ),
        ..coord
    }
}

/// The open transaction that a batch on disk belongs to.
pub open spec fn open_owner(
    coord: CoordModel,
    owners: Map<i64, Seq<char>>,
    entry: EntryModel,
) -> Option<(Seq<char>, TxnDetailModel)> {
    if entry.is_transactional && !entry.is_control && owners.dom().contains(entry.producer_id) {
        let id = owners[entry.producer_id];
        match txn_at(coord, id, entry.producer_epoch) {
            Some(detail) => if coord.transactions[id].producer == entry.producer_id
                && detail.state == Some(TxnState::Begin) {
                Some((id, detail))
            } else {
                None
            },
            None => None,
        }
    } else {
        None
    }
}

/// The state with an open transaction's range grown by a batch on disk. (The
/// ranges of prepared ones are in the WAL.)
pub open spec fn with_range_seen(
    coord: CoordModel,
    owners: Map<i64, Seq<char>>,
    topition: (Seq<char>, i32),
    offset: i64,
    entry: EntryModel,
) -> CoordModel {
    match open_owner(coord, owners, entry) {
        Some((id, detail)) => with_txn(
            coord,
            id,
            entry.producer_epoch,
            TxnDetailModel {
                produces: with_cell(
                    detail.produces,
                    topition.0,
                    topition.1,
                    Some(
                        merged(
                            cell(detail.produces, topition.0, topition.1),
                            offset,
                            end_offset(offset, entry) as i64,
                        ),
                    ),
                ),
                ..detail
            },
        ),
        None => coord,
    }
}

/// The coordination state after a batch on disk was looked at.
pub open spec fn coord_seen(
    coord: CoordModel,
    owners: Map<i64, Seq<char>>,
    topition: (Seq<char>, i32),
    offset: i64,
    entry: EntryModel,
    idempotent: bool,
) -> CoordModel {
    with_range_seen(
        if idempotent {
            with_sequence_seen(coord, topition, entry)
        } else {
            coord
        },
        owners,
        topition,
        offset,
        entry,
    )
}

/// The partition after a batch on disk was looked at.
pub open spec fn part_seen(p: PartModel, offset: i64, entry: EntryModel) -> PartModel {
    let after = indexed(p, offset, entry, 0);
    PartModel {
        next_offset: if end_offset(offset, entry) + 1 > after.next_offset {
            (end_offset(offset, entry) + 1) as i64
        } else {
            after.next_offset
        },
        ..after
    }
}

/// Whether the numbers of a batch on disk are ones that appending it left
/// within range.
pub open spec fn in_range(offset: i64, entry: EntryModel, idempotent: bool) -> bool {
    &&& i64::MIN <= end_offset(offset, entry) < i64::MAX
    &&& idempotent ==> i32::MIN <= entry.base_sequence + entry.last_offset_delta < i32::MAX
}

impl CoordState {
    /// The transaction of each producer.
    pub fn owners(&self) -> (by_producer: OrdMap<i64, String>)
        requires
            self.wf(),
        ensures
            by_producer.wf(),
            by_producer.model() == owners(self.model()),
    {
        let mut found = OrdMap::new();
        let ghost rows = self.transactions.seq();
        proof {
            self.transactions.lemma_seq();
        }
        let mut i: usize = 0;
        assert(rows.take(0) =~= Seq::<(Seq<char>, TxnModel)>::empty());
        while i < self.transactions.len()
            invariant
                self.wf(),
                found.wf(),
                rows == self.transactions.seq(),
                i <= rows.len(),
                found.model() == owners_of(rows.take(i as int)),
            decreases rows.len() - i,
        {
            let (id, txn) = self.transactions.at(i);
            assert(rows.take(i + 1).drop_last() =~= rows.take(i as int));
            found.insert(txn.producer, id.clone());
            i += 1;
        }
        assert(rows.take(i as int) =~= rows);
        found
    }

    /// Takes over what a batch on disk says of its producer and transaction.
    fn see_batch(
        &mut self,
        owners: &OrdMap<i64, String>,
        topition: &Topition,
        offset: i64,
        entry: &BatchEntry,
        idempotent: bool,
    )
        requires
            old(self).wf(),
            owners.wf(),
            in_range(offset, entry.model(), idempotent),
        ensures
            final(self).wf(),
            final(self).model() == coord_seen(
                old(self).model(),
                owners.model(),
                topition.model(),
                offset,
                entry.model(),
                idempotent,
            ),
    {
        if idempotent {
            let detail = self.producers.entry(
                entry.producer_id,
                ProducerDetail { sequences: OrdMap::new() },
            );
            let by_topic = detail.sequences.entry(entry.producer_epoch, OrdMap::new());
            let by_partition = by_topic.entry(topition.topic.clone(), OrdMap::new());
            let sequence = by_partition.entry(topition.partition, 0i32);
            let seen: i32 = entry.base_sequence + entry.last_offset_delta + 1;
            if seen > *sequence {
                *sequence = seen;
            }
        }
        let ghost before = self.model();
        if entry.is_transactional && !entry.is_control {
            if let Some(id) = owners.get(&entry.producer_id) {
                let mut open = false;
                if let Some(txn) = self.transactions.get(id) {
                    if txn.producer == entry.producer_id {
                        if let Some(detail) = txn.epochs.get(&entry.producer_epoch) {
                            open = detail.state == Some(TxnState::Begin);
                        }
                    }
                }
                assert(open <==> open_owner(before, owners.model(), entry.model()) is Some);
                if open {
                    let txn = self.transactions.get_mut(id).unwrap();
                    let detail = txn.epochs.get_mut(&entry.producer_epoch).unwrap();
                    merge_range(detail, topition, offset, offset + entry.last_offset_delta as i64);
                }
            }
        }
    }
}

impl PartitionInner {
    /// Indexes a batch on disk.
    fn see(&mut self, offset: i64, entry: BatchEntry)
        requires
            old(self).wf(),
            i64::MIN <= end_offset(offset, entry.model()) < i64::MAX,
            entry.model().cached is None,
        ensures
            final(self).wf(),
            final(self).model() == part_seen(old(self).model(), offset, entry.model()),
    {
        let next: i64 = offset + entry.last_offset_delta as i64 + 1;
        self.index(offset, entry, 0);
        if next > self.next_offset {
            self.next_offset = next;
        }
    }
}

/// How a batch found in a local segment is indexed.
pub open spec fn local_entry(found: FoundBatch) -> EntryModel {
    EntryModel {
        segment_base: found.segment_base,
        position: found.position,
        len: found.len,
        tiered: false,
        cached: None,
        last_offset_delta: found.header.last_offset_delta,
        max_timestamp: found.header.max_timestamp,
        is_control: found.header.control,
        is_transactional: found.header.transaction,
        producer_id: found.header.producer_id,
        producer_epoch: found.header.producer_epoch,
        base_sequence: found.header.base_sequence,
    }
}

/// The partition and the coordination state after a list of batches found in
/// local segments was looked at.
pub open spec fn scanned(
    p: PartModel,
    coord: CoordModel,
    owners: Map<i64, Seq<char>>,
    topition: (Seq<char>, i32),
    found: Seq<FoundBatch>,
) -> (PartModel, CoordModel)
    decreases found.len(),
{
    if found.len() == 0 {
        (p, coord)
    } else {
        let (part, before) = scanned(p, coord, owners, topition, found.drop_last());
        let last = found.last();
        (
            part_seen(part, last.offset, local_entry(last)),
            coord_seen(
                before,
                owners,
                topition,
                last.offset,
                local_entry(last),
                last.header.idempotent,
            ),
        )
    }
}

/// The partition once its log start is taken over: everything found survived
/// and is durable, and what ends below the log start is dropped.
pub open spec fn settled_at(p: PartModel, log_start: i64) -> PartModel {
    advanced(PartModel { log_start: 0, durable_offset: p.next_offset, ..p }, log_start)
}

/// A partition as its segments, the snapshot and the WAL give it back. A log
/// start past the found tail still positions the next offset.
pub open spec fn rebuilt(
    coord: CoordModel,
    topition: (Seq<char>, i32),
    skeleton: SkeletonModel,
    found: Seq<FoundBatch>,
) -> (PartModel, CoordModel) {
    let start = PartModel { aborted: skeleton.aborted, ..empty_part() };
    let (part, after) = scanned(start, coord, owners(coord), topition, found);
    let next = if skeleton.log_start > part.next_offset {
        skeleton.log_start
    } else {
        part.next_offset
    };
    (settled_at(PartModel { next_offset: next, ..part }, skeleton.log_start), after)
}

/// Rebuilds a partition from the batches found in its segments.
pub fn scan_partition(
    topition: &Topition,
    skeleton: Skeleton,
    found: &Vec<FoundBatch>,
    coord: &mut CoordState,
) -> (inner: PartitionInner)
    requires
        old(coord).wf(),
        forall|i: int|
            0 <= i < found@.len() ==> in_range(
                (#[trigger] found@[i]).offset,
                local_entry(found@[i]),
                found@[i].header.idempotent,
            ),
    ensures
        inner.wf(),
        final(coord).wf(),
        (inner.model(), final(coord).model()) == rebuilt(
            old(coord).model(),
            topition.model(),
            skeleton.model(),
            found@,
        ),
{
    let owners = coord.owners();
    let mut inner = PartitionInner::new();
    inner.aborted = skeleton.aborted;
    let ghost start = inner.model();
    let mut i: usize = 0;
    assert(found@.take(0) =~= Seq::<FoundBatch>::empty());
    while i < found.len()
        invariant
            inner.wf(),
            coord.wf(),
            owners.wf(),
            i <= found@.len(),
            forall|i: int|
                0 <= i < found@.len() ==> in_range(
                    (#[trigger] found@[i]).offset,
                    local_entry(found@[i]),
                    found@[i].header.idempotent,
                ),
            (inner.model(), coord.model()) == scanned(
                start,
                old(coord).model(),
                owners.model(),
                topition.model(),
                found@.take(i as int),
            ),
            inner.next_offset >= 0,
        decreases found@.len() - i,
    {
        let batch = found[i];
        assert(found@.take(i + 1).drop_last() =~= found@.take(i as int));
        assert(in_range(
            found@[i as int].offset,
            local_entry(found@[i as int]),
            found@[i as int].header.idempotent,
        ));
        let entry = BatchEntry {
            segment_base: batch.segment_base,
            position: batch.position,
            len: batch.len,
            tiered: false,
            cached: None,
            last_offset_delta: batch.header.last_offset_delta,
            max_timestamp: batch.header.max_timestamp,
            is_control: batch.header.control,
            is_transactional: batch.header.transaction,
            producer_id: batch.header.producer_id,
            producer_epoch: batch.header.producer_epoch,
            base_sequence: batch.header.base_sequence,
        };
        assert(entry.model() == local_entry(batch));
        proof {
            law_index_keeps_entries(inner.model(), batch.offset, entry.model(), 0);
        }
        coord.see_batch(&owners, topition, batch.offset, &entry, batch.header.idempotent);
        inner.see(batch.offset, entry);
        i += 1;
    }
    assert(found@.take(i as int) =~= found@);
    if skeleton.log_start > inner.next_offset {
        inner.next_offset = skeleton.log_start;
    }
    inner.settle(skeleton.log_start);
    inner
}

impl PartitionInner {
    /// Takes everything indexed as durable, and the log start over.
    fn settle(&mut self, log_start: i64)
        requires
            old(self).wf(),
            0 <= old(self).next_offset,
        ensures
            final(self).wf(),
            final(self).model() == settled_at(old(self).model(), log_start),
    {
        self.durable_offset = self.next_offset;
        self.log_start = 0;
        let _ = self.advance_log_start(log_start);
    }
}

/// How a batch that only the object store holds is indexed.
pub open spec fn remote_entry(base: i64, entry: SidecarEntry) -> EntryModel {
    EntryModel {
        segment_base: base,
        position: entry.position,
        len: entry.len,
        tiered: true,
        cached: None,
        last_offset_delta: entry.last_offset_delta,
        max_timestamp: entry.max_timestamp,
        is_control: entry.is_control,
        is_transactional: entry.is_transactional,
        producer_id: entry.producer_id,
        producer_epoch: entry.producer_epoch,
        base_sequence: entry.base_sequence,
    }
}

/// Whether a sidecar's batch came from an idempotent producer.
pub open spec fn sequenced(entry: SidecarEntry) -> bool {
    entry.producer_id >= 0 && entry.base_sequence >= 0
}

/// The partition and the coordination state after a list of batches that the
/// object store holds was looked at.
pub open spec fn fetched(
    p: PartModel,
    coord: CoordModel,
    owners: Map<i64, Seq<char>>,
    topition: (Seq<char>, i32),
    entries: Seq<(i64, SidecarEntry)>,
) -> (PartModel, CoordModel)
    decreases entries.len(),
{
    if entries.len() == 0 {
        (p, coord)
    } else {
        let (part, before) = fetched(p, coord, owners, topition, entries.drop_last());
        let (base, entry) = entries.last();
        (
            part_seen(part, entry.offset, remote_entry(base, entry)),
            coord_seen(
                before,
                owners,
                topition,
                entry.offset,
                remote_entry(base, entry),
                sequenced(entry),
            ),
        )
    }
}

/// A set of segments.
pub open spec fn base_set(bases: Seq<i64>) -> Map<i64, ()>
    decreases bases.len(),
{
    if bases.len() == 0 {
        Map::empty()
    } else {
        base_set(bases.drop_last()).insert(bases.last(), ())
    }
}

/// The segments of one list that another lacks.
pub open spec fn lacking(remote: Seq<i64>, local: Seq<i64>) -> Seq<i64>
    decreases remote.len(),
{
    if remote.len() == 0 {
        remote
    } else {
        let rest = lacking(remote.drop_last(), local);
        if local.contains(remote.last()) {
            rest
        } else {
            rest.push(remote.last())
        }
    }
}

/// The segments whose sidecars a boot reads: those in the object store that
/// are absent locally.
pub fn absent_segments(remote: &Vec<i64>, local: &Vec<i64>) -> (absent: Vec<i64>)
    ensures
        absent@ == lacking(remote@, local@),
{
    let mut absent: Vec<i64> = Vec::new();
    let mut i: usize = 0;
    assert(remote@.take(0) =~= Seq::<i64>::empty());
    while i < remote.len()
        invariant
            i <= remote@.len(),
            absent@ == lacking(remote@.take(i as int), local@),
        decreases remote@.len() - i,
    {
        assert(remote@.take(i + 1).drop_last() =~= remote@.take(i as int));
        let mut there: bool = false;
        let mut j: usize = 0;
        while j < local.len() && !there
            invariant
                i < remote@.len(),
                j <= local@.len(),
                there ==> local@.contains(remote@[i as int]),
                !there ==> forall|k: int| 0 <= k < j ==> #[trigger] local@[k] != remote@[i as int],
            decreases local@.len() - j,
        {
            if local[j] == remote[i] {
                there = true;
                assert(local@.contains(local@[j as int]));
            }
            j += 1;
        }
        if !there {
            absent.push(remote[i]);
        }
        i += 1;
    }
    assert(remote@.take(i as int) =~= remote@);
    absent
}

/// A partition once the object store's part of it is known; one of which the
/// store holds nothing stays as it is.
pub open spec fn joined(
    p: PartModel,
    coord: CoordModel,
    topition: (Seq<char>, i32),
    remote: Seq<i64>,
    entries: Seq<(i64, SidecarEntry)>,
) -> (PartModel, CoordModel) {
    if remote.len() == 0 {
        (p, coord)
    } else {
        let start = PartModel { uploaded: base_set(remote), ..p };
        let (part, after) = fetched(start, coord, owners(coord), topition, entries);
        (settled_at(part, part.log_start), after)
    }
}

/// Rebuilds the part of a partition's index that only the object store holds.
pub fn join_tier(
    inner: &mut PartitionInner,
    coord: &mut CoordState,
    topition: &Topition,
    remote: &Vec<i64>,
    entries: &Vec<(i64, SidecarEntry)>,
)
    requires
        old(inner).wf(),
        old(coord).wf(),
        0 <= old(inner).next_offset,
        forall|i: int|
            0 <= i < entries@.len() ==> in_range(
                (#[trigger] entries@[i]).1.offset,
                remote_entry(entries@[i].0, entries@[i].1),
                sequenced(entries@[i].1),
            ),
    ensures
        final(inner).wf(),
        final(coord).wf(),
        (final(inner).model(), final(coord).model()) == joined(
            old(inner).model(),
            old(coord).model(),
            topition.model(),
            remote@,
            entries@,
        ),
{
    if remote.len() == 0 {
        return ;
    }
    let owners = coord.owners();
    let mut uploaded: OrdMap<i64, ()> = OrdMap::new();
    let mut k: usize = 0;
    assert(remote@.take(0) =~= Seq::<i64>::empty());
    while k < remote.len()
        invariant
            uploaded.wf(),
            k <= remote@.len(),
            uploaded.model() == base_set(remote@.take(k as int)),
        decreases remote@.len() - k,
    {
        assert(remote@.take(k + 1).drop_last() =~= remote@.take(k as int));
        uploaded.insert(remote[k], ());
        k += 1;
    }
    assert(remote@.take(k as int) =~= remote@);
    inner.uploaded = uploaded;
    let ghost start = inner.model();
    let mut i: usize = 0;
    assert(entries@.take(0) =~= Seq::<(i64, SidecarEntry)>::empty());
    while i < entries.len()
        invariant
            inner.wf(),
            coord.wf(),
            owners.wf(),
            i <= entries@.len(),
            forall|i: int|
                0 <= i < entries@.len() ==> in_range(
                    (#[trigger] entries@[i]).1.offset,
                    remote_entry(entries@[i].0, entries@[i].1),
                    sequenced(entries@[i].1),
                ),
            (inner.model(), coord.model()) == fetched(
                start,
                old(coord).model(),
                owners.model(),
                topition.model(),
                entries@.take(i as int),
            ),
            inner.next_offset >= 0,
        decreases entries@.len() - i,
    {
        let (base, batch) = entries[i];
        assert(entries@.take(i + 1).drop_last() =~= entries@.take(i as int));
        assert(in_range(
            entries@[i as int].1.offset,
            remote_entry(entries@[i as int].0, entries@[i as int].1),
            sequenced(entries@[i as int].1),
        ));
        let entry = BatchEntry {
            segment_base: base,
            position: batch.position,
            len: batch.len,
            tiered: true,
            cached: None,
            last_offset_delta: batch.last_offset_delta,
            max_timestamp: batch.max_timestamp,
            is_control: batch.is_control,
            is_transactional: batch.is_transactional,
            producer_id: batch.producer_id,
            producer_epoch: batch.producer_epoch,
            base_sequence: batch.base_sequence,
        };
        assert(entry.model() == remote_entry(base, batch));
        proof {
            law_index_keeps_entries(inner.model(), batch.offset, entry.model(), 0);
        }
        coord.see_batch(
            &owners,
            topition,
            batch.offset,
            &entry,
            batch.producer_id >= 0 && batch.base_sequence >= 0,
        );
        inner.see(batch.offset, entry);
        i += 1;
    }
    assert(entries@.take(i as int) =~= entries@);
    let log_start = inner.log_start;
    inner.settle(log_start);
}

} // verus!
