//! What the end of transactions leaves to be done: each is logged, releases
//! the last stable offset of its partitions (its ranges published where it
//! aborted), and its staged offsets become group commits.

use crate::fetch::{aborted_from, AbortedTransaction};
use crate::model::Model;
use crate::ordmap::{lemma_ascending_at, lemma_ascending_position, ordered, OrdMap};
use crate::overlap::{
    blocking, ending_too, ends_too, held, lemma_blocking, lemma_filtered, lemma_unended_txns, names,
    unended_txns,
};
use crate::overlap_laws::{lemma_resolved_at, listed};
use crate::partition::{reaching, stable, AbortedRange, OpenTxnKey, PartModel, PartitionInner};
use crate::producer::timed_out;
use crate::replay::{applied, push_aborted, replayed, with_aborted, ImageModel};
use crate::state::{
    cell, get_or, produced_ranges, ranges_of, topic_ranges, txn_at, txn_refusal, with_txn,
    CommitOffsetModel, CoordModel, CoordState, TxnDetail, TxnDetailModel, TxnProduceOffset,
    TxnRefModel,
};
use crate::time::SystemTime;
use crate::txn::{
    begun, effects_of, effects_view, ended, ending, outcome, prepared_state,
    ranges_map, resolution, resolved, terminal_state, with_offsets, with_partitions, Effects,
    TxnEffects,
};
use crate::types::{bare_commit, OffsetCommit, OffsetCommitRequest, Topition, TxnState};
use crate::wal::{Record, WalRecord};
use vstd::prelude::*;

verus! {

/// What is logged of a transaction's end.
pub open spec fn terminal_of(effects: Effects) -> Record {
    Record::TxnTerminal {
        transaction_id: effects.transaction,
        producer_id: effects.producer_id,
        producer_epoch: effects.producer_epoch,
        committed: !effects.aborting,
        aborted: if effects.aborting {
            effects.ranges
        } else {
            Seq::empty()
        },
    }
}

/// What is logged of a list of ends.
pub open spec fn terminals(effects: Seq<Effects>) -> Seq<Record> {
    Seq::new(effects.len(), |i: int| terminal_of(effects[i]))
}

impl TxnEffects {
    /// The record to be logged before the effects are applied.
    pub fn terminal_record(&self) -> (record: WalRecord)
        ensures
            record@ == terminal_of(self@),
    {
        let aborted: Vec<(String, i32, TxnProduceOffset)> = if self.aborting {
            self.ranges.dup()
        } else {
            Vec::new()
        };
        assert(!self.aborting ==> aborted.model() =~= Seq::empty());
        WalRecord::TxnTerminal {
            transaction_id: self.transaction.clone(),
            producer_id: self.producer_id,
            producer_epoch: self.producer_epoch,
            committed: !self.aborting,
            aborted,
        }
    }
}

/// A partition after a transaction that produced a range to it has ended.
pub open spec fn released(
    p: PartModel,
    key: (Seq<char>, (i64, i16)),
    aborting: bool,
    range: TxnProduceOffset,
) -> PartModel {
    PartModel {
        open_txns: p.open_txns.remove(key),
        aborted: if aborting {
            with_aborted(
                p.aborted,
                AbortedRange {
                    producer: key.1.0,
                    offset_start: range.offset_start,
                    offset_end: range.offset_end,
                },
            )
        } else {
            p.aborted
        },
        ..p
    }
}

impl PartitionInner {
    /// Releases the last stable offset from a transaction that has ended and,
    /// where it aborted, publishes the range it produced here.
    pub fn release(&mut self, effects: &TxnEffects, range: TxnProduceOffset)
        requires
            old(self).wf(),
        ensures
            final(self).wf(),
            final(self).model() == released(
                old(self).model(),
                (effects@.transaction, (effects@.producer_id, effects@.producer_epoch)),
                effects@.aborting,
                range,
            ),
    {
        let key = (
            effects.transaction.clone(),
            (effects.producer_id, effects.producer_epoch),
        );
        let _ = self.open_txns.remove(&key);
        if effects.aborting {
            push_aborted(
                &mut self.aborted,
                AbortedRange {
                    producer: effects.producer_id,
                    offset_start: range.offset_start,
                    offset_end: range.offset_end,
                },
            );
        }
    }
}

/// Whether a partition holds a producer's end marker at or after an offset.
pub open spec fn marker_at(p: PartModel, from: i64, producer_id: i64) -> bool {
    exists|o: i64| #[trigger]
        p.batches.dom().contains(o) && o >= from && p.batches[o].is_control
            && p.batches[o].producer_id == producer_id
}

impl PartitionInner {
    /// Whether the end marker of a prepared transaction was written before a
    /// crash: one that was not is written at boot.
    pub fn marker_present(&self, from: i64, producer_id: i64) -> (found: bool)
        requires
            self.wf(),
        ensures
            found == marker_at(self.model(), from, producer_id),
    {
        let ghost rows = self.batches.seq();
        proof {
            self.batches.lemma_seq();
        }
        let start: usize = self.batches.lower_bound(&from);
        let mut i: usize = start;
        while i < self.batches.len()
            invariant
                self.wf(),
                rows == self.batches.seq(),
                start <= i <= rows.len(),
                forall|j: int| 0 <= j < start ==> (#[trigger] rows[j]).0 < from,
                forall|j: int| start <= j < rows.len() ==> (#[trigger] rows[j]).0 >= from,
                forall|j: int|
                    start <= j < i ==> !((#[trigger] rows[j]).1.is_control
                        && rows[j].1.producer_id == producer_id),
            decreases rows.len() - i,
        {
            let (_, entry) = self.batches.at(i);
            if entry.is_control && entry.producer_id == producer_id {
                proof {
                    self.batches.lemma_seq();
                    lemma_ascending_at::<i64, crate::partition::EntryModel>(rows, i as int);
                    assert(self.model().batches.dom().contains(rows[i as int].0));
                }
                return true;
            }
            i += 1;
        }
        proof {
            self.batches.lemma_seq();
            assert forall|o: i64| #[trigger] self.model().batches.dom().contains(o) && o >= from implies !(
            self.model().batches[o].is_control && self.model().batches[o].producer_id
                == producer_id) by {
                let j = lemma_ascending_position::<i64, crate::partition::EntryModel>(rows, o);
                lemma_ascending_at::<i64, crate::partition::EntryModel>(rows, j);
            }
        }
        false
    }
}

/// Group commits with a list of staged offsets put in.
pub open spec fn grouped(
    commits: Map<Seq<char>, Seq<((Seq<char>, i32), OffsetCommit)>>,
    offsets: Seq<((Seq<char>, (Seq<char>, i32)), CommitOffsetModel)>,
) -> Map<Seq<char>, Seq<((Seq<char>, i32), OffsetCommit)>>
    decreases offsets.len(),
{
    if offsets.len() == 0 {
        commits
    } else {
        let before = grouped(commits, offsets.drop_last());
        let ((group, topition), staged) = offsets.last();
        before.insert(
            group,
            get_or(before, group, Seq::empty()).push(
                (topition, bare_commit(staged.committed_offset)),
            ),
        )
    }
}

/// The group commits that a list of ends makes, by group, in the order of the
/// ends.
pub open spec fn group_commits(effects: Seq<Effects>) -> Map<
    Seq<char>,
    Seq<((Seq<char>, i32), OffsetCommit)>,
>
    decreases effects.len(),
{
    if effects.len() == 0 {
        Map::empty()
    } else {
        grouped(group_commits(effects.drop_last()), effects.last().offsets)
    }
}

/// The group commits that a list of ends makes.
pub fn commits_by_group(effects: &Vec<TxnEffects>) -> (commits: OrdMap<
    String,
    Vec<(Topition, OffsetCommitRequest)>,
>)
    ensures
        commits.wf(),
        commits.model() == group_commits(effects_view(effects@)),
{
    let mut commits: OrdMap<String, Vec<(Topition, OffsetCommitRequest)>> = OrdMap::new();
    let ghost rows = effects_view(effects@);
    let mut i: usize = 0;
    assert(rows.take(0) =~= Seq::<Effects>::empty());
    while i < effects.len()
        invariant
            commits.wf(),
            rows == effects_view(effects@),
            i <= rows.len(),
            commits.model() == group_commits(rows.take(i as int)),
        decreases rows.len() - i,
    {
        let ghost before = commits.model();
        let offsets = &effects[i].offsets;
        let ghost cells = offsets.model();
        proof {
            assert(rows.take(i + 1).drop_last() =~= rows.take(i as int));
            assert(rows.take(i + 1).last().offsets == cells);
            assert(cells.take(0) =~= Seq::<
                ((Seq<char>, (Seq<char>, i32)), CommitOffsetModel),
            >::empty());
        }
        let mut j: usize = 0;
        while j < offsets.len()
            invariant
                commits.wf(),
                cells == offsets.model(),
                j <= cells.len(),
                commits.model() == grouped(before, cells.take(j as int)),
            decreases cells.len() - j,
        {
            proof {
                assert(cells.take(j + 1).drop_last() =~= cells.take(j as int));
                assert(cells.take(j + 1).last() == offsets@[j as int].model());
            }
            let empty: Vec<(Topition, OffsetCommitRequest)> = Vec::new();
            assert(empty.model() =~= Seq::empty());
            let list = commits.entry(offsets[j].0.0.clone(), empty);
            let ghost listed = list.model();
            list.push(
                (offsets[j].0.1.dup(), OffsetCommitRequest::of(offsets[j].1.committed_offset)),
            );
            assert(list.model() =~= listed.push(list@.last().model()));
            j += 1;
        }
        assert(cells.take(j as int) =~= cells);
        i += 1;
    }
    assert(rows.take(i as int) =~= rows);
    commits
}

/// A transaction that has ended never blocks another's end: what blocks is
/// open or prepared.
pub proof fn law_terminal_never_blocks(
    coord: &CoordState,
    transaction_id: Seq<char>,
    producer_id: i64,
    producer_epoch: i16,
    i: int,
)
    requires
        coord.wf(),
        0 <= i < blocking(coord.model(), transaction_id, producer_id, producer_epoch).len(),
    ensures
        !blocking(
            coord.model(),
            transaction_id,
            producer_id,
            producer_epoch,
        )[i].state.terminal(),
{
    lemma_blocking(coord, transaction_id, producer_id, producer_epoch);
}

/// Whether each of a list of references names its transaction's producer.
pub open spec fn owned(coord: CoordModel, txns: Seq<TxnRefModel>) -> bool {
    forall|i: int|
        0 <= i < txns.len() ==> coord.transactions.dom().contains(
            (#[trigger] txns[i]).transaction,
        ) && coord.transactions[txns[i].transaction].producer == txns[i].producer_id
}

proof fn lemma_resolved_producers(coord: CoordModel, txns: Seq<TxnRefModel>, id: Seq<char>)
    ensures
        ({
            let after = resolved(coord, txns).0;
            &&& after.transactions.dom().contains(id) <==> coord.transactions.dom().contains(id)
            &&& coord.transactions.dom().contains(id) ==> after.transactions[id].producer
                == coord.transactions[id].producer
        }),
    decreases txns.len(),
{
    if txns.len() > 0 {
        lemma_resolved_producers(coord, txns.drop_last(), id);
        lemma_resolved_producers(coord, txns.drop_last(), txns.last().transaction);
    }
}

/// The last of overlapping ends resolves: where no transaction that overlaps
/// it is open, a prepared transaction whose end is asked for has ended
/// afterwards, as its preparation said.
pub proof fn law_last_end_resolves(
    coord: &CoordState,
    transaction_id: Seq<char>,
    producer_id: i64,
    producer_epoch: i16,
    committed: bool,
)
    requires
        coord.wf(),
        txn_refusal(coord.model(), transaction_id, producer_id, producer_epoch) is None,
        !held(coord.model(), transaction_id, producer_epoch),
        txn_at(coord.model(), transaction_id, producer_epoch).unwrap().state == Some(
            prepared_state(committed),
        ),
    ensures
        ({
            let (after, effects) = resolution(
                coord.model(),
                transaction_id,
                producer_id,
                producer_epoch,
                committed,
            );
            let before = txn_at(coord.model(), transaction_id, producer_epoch).unwrap();
            &&& txn_at(after, transaction_id, producer_epoch) == Some(
                ended(before, terminal_state(committed)),
            )
            &&& effects.len() > 0
            &&& effects.last().transaction == transaction_id
            &&& effects.last().aborting == !committed
            &&& effects.last().ranges == produced_ranges(before.produces)
        }),
{
    let model = coord.model();
    let others = ending_too(model, transaction_id, producer_epoch);
    let all = ending(model, transaction_id, producer_id, producer_epoch, committed);
    assert(all.drop_last() =~= others);
    lemma_filtered(
        unended_txns(model),
        |txn: TxnRefModel| ends_too(model, transaction_id, producer_epoch, txn),
    );
    assert(!listed(others, transaction_id, producer_epoch));
    lemma_resolved_at(model, others, transaction_id, producer_epoch);
}

/// The logged ends replay to the state that resolving left.
pub proof fn law_resolution_replays(
    image: ImageModel,
    coord: &CoordState,
    transaction_id: Seq<char>,
    producer_id: i64,
    producer_epoch: i16,
    committed: bool,
)
    requires
        coord.wf(),
        image.coord == coord.model(),
        txn_refusal(image.coord, transaction_id, producer_id, producer_epoch) is None,
    ensures
        ({
            let (after, effects) = resolution(
                image.coord,
                transaction_id,
                producer_id,
                producer_epoch,
                committed,
            );
            replayed(image, terminals(effects)).coord == after
        }),
{
    let others = ending_too(image.coord, transaction_id, producer_epoch);
    let refs = unended_txns(image.coord);
    let all = ending(image.coord, transaction_id, producer_id, producer_epoch, committed);
    lemma_unended_txns(coord);
    lemma_filtered(
        refs,
        |txn: TxnRefModel| ends_too(image.coord, transaction_id, producer_epoch, txn),
    );
    assert forall|i: int| 0 <= i < all.len() implies image.coord.transactions.dom().contains(
        (#[trigger] all[i]).transaction,
    ) && image.coord.transactions[all[i].transaction].producer == all[i].producer_id by {
        if i < others.len() {
            assert(all[i] == others[i]);
            assert(others.contains(others[i]));
            let k = choose|k: int| 0 <= k < refs.len() && refs[k] == others[i];
            assert(names(image.coord, refs[k]));
        }
    }
    lemma_resolved_replays(image, all);
}

proof fn lemma_resolved_replays(image: ImageModel, txns: Seq<TxnRefModel>)
    requires
        owned(image.coord, txns),
    ensures
        ({
            let (after, effects) = resolved(image.coord, txns);
            replayed(image, terminals(effects)).coord == after
        }),
    decreases txns.len(),
{
    if txns.len() == 0 {
        assert(terminals(resolved(image.coord, txns).1) =~= Seq::<Record>::empty());
    } else {
        let init = txns.drop_last();
        assert forall|i: int| 0 <= i < init.len() implies image.coord.transactions.dom().contains(
            (#[trigger] init[i]).transaction,
        ) && image.coord.transactions[init[i].transaction].producer == init[i].producer_id by {
            assert(init[i] == txns[i]);
        }
        lemma_resolved_replays(image, init);
        let (before, effects) = resolved(image.coord, init);
        let txn = txns[txns.len() - 1];
        lemma_resolved_producers(image.coord, init, txn.transaction);
        let (after, more) = resolved(image.coord, txns);
        if more != effects {
            let detail = txn_at(before, txn.transaction, txn.producer_epoch).unwrap();
            assert(terminals(more).drop_last() =~= terminals(effects));
            assert(terminals(more).last() == terminal_of(effects_of(txn, detail)));
        } else if let Some(detail) = txn_at(before, txn.transaction, txn.producer_epoch) {
            if outcome(detail.state) is Some {
                assert(more.len() == effects.len() + 1);
            }
        }
    }
}

/// What is logged of a transaction's begin replays to the state that it left.
pub proof fn law_begin_replays(
    image: ImageModel,
    transaction_id: Seq<char>,
    producer_id: i64,
    producer_epoch: i16,
    partitions: Seq<(Seq<char>, i32)>,
    started_at: SystemTime,
)
    requires
        txn_refusal(image.coord, transaction_id, producer_id, producer_epoch) is None,
    ensures
        applied(
            image,
            Record::TxnBegin {
                transaction_id,
                producer_id,
                producer_epoch,
                started_at,
                partitions,
            },
        ).coord == with_txn(
            image.coord,
            transaction_id,
            producer_epoch,
            begun(
                txn_at(image.coord, transaction_id, producer_epoch).unwrap(),
                partitions,
                started_at,
            ),
        ),
{
}

/// What is logged of staged offsets replays to the state that staging left.
pub proof fn law_staging_replays(
    image: ImageModel,
    transaction_id: Seq<char>,
    producer_id: i64,
    producer_epoch: i16,
    group: Seq<char>,
    offsets: Seq<(Seq<char>, i32, CommitOffsetModel)>,
)
    requires
        txn_refusal(image.coord, transaction_id, producer_id, producer_epoch) is None,
    ensures
        ({
            let detail = txn_at(image.coord, transaction_id, producer_epoch).unwrap();
            applied(
                image,
                Record::TxnOffsets {
                    transaction_id,
                    producer_id,
                    producer_epoch,
                    group,
                    offsets,
                },
            ).coord == with_txn(
                image.coord,
                transaction_id,
                producer_epoch,
                TxnDetailModel { offsets: with_offsets(detail.offsets, group, offsets), ..detail },
            )
        }),
{
}

/// What is logged of a preparation replays to the prepared incarnation, with
/// the same range on each partition that it produced to. (Partitions that were
/// added and not produced to are not logged.)
pub proof fn law_prepare_replays(
    image: ImageModel,
    detail: &TxnDetail,
    transaction_id: Seq<char>,
    producer_id: i64,
    producer_epoch: i16,
    committed: bool,
)
    requires
        detail.wf(),
        txn_refusal(image.coord, transaction_id, producer_id, producer_epoch) is None,
        txn_at(image.coord, transaction_id, producer_epoch) == Some(detail.model()),
    ensures
        ({
            let after = txn_at(
                applied(
                    image,
                    Record::TxnPrepare {
                        transaction_id,
                        producer_id,
                        producer_epoch,
                        committed,
                        produced: produced_ranges(detail.model().produces),
                    },
                ).coord,
                transaction_id,
                producer_epoch,
            );
            &&& after is Some
            &&& after.unwrap() == (TxnDetailModel {
                state: Some(prepared_state(committed)),
                produces: after.unwrap().produces,
                ..detail.model()
            })
            &&& forall|topic: Seq<char>, partition: i32| #[trigger]
                cell(after.unwrap().produces, topic, partition) == (match cell(
                    detail.model().produces,
                    topic,
                    partition,
                ) {
                    Some(Some(range)) => Some(Some(range)),
                    _ => None,
                })
        }),
{
    let produces = detail.model().produces;
    let list = produced_ranges(produces);
    assert forall|topic: Seq<char>, partition: i32| #[trigger]
        cell(ranges_map(list), topic, partition) == (match cell(produces, topic, partition) {
            Some(Some(range)) => Some(Some(range)),
            _ => None,
        }) by {
        lemma_listed_ranges(detail, topic, partition);
        lemma_ranges_map(list, topic, partition);
        if let Some(Some(range)) = cell(produces, topic, partition) {
            assert(list.contains((topic, partition, range)));
        }
        if let Some(Some(range)) = cell(ranges_map(list), topic, partition) {
            assert(list.contains((topic, partition, range)));
        }
    }
}

/// A list of ranges, as a map, has at a cell the range that is listed for it.
proof fn lemma_ranges_map(
    list: Seq<(Seq<char>, i32, TxnProduceOffset)>,
    topic: Seq<char>,
    partition: i32,
)
    ensures
        match cell(ranges_map(list), topic, partition) {
            Some(Some(range)) => list.contains((topic, partition, range)),
            Some(None) => false,
            None => forall|range: TxnProduceOffset| !list.contains((topic, partition, range)),
        },
    decreases list.len(),
{
    if list.len() > 0 {
        let init = list.drop_last();
        lemma_ranges_map(init, topic, partition);
        let last = list.last();
        if (last.0, last.1) == (topic, partition) {
            assert(list[list.len() - 1] == (topic, partition, last.2));
        } else {
            assert forall|range: TxnProduceOffset|
                list.contains((topic, partition, range)) == init.contains(
                    (topic, partition, range),
                ) by {
                if init.contains((topic, partition, range)) {
                    let i = choose|i: int|
                        0 <= i < init.len() && init[i] == (topic, partition, range);
                    assert(list[i] == init[i]);
                }
                if list.contains((topic, partition, range)) {
                    let i = choose|i: int|
                        0 <= i < list.len() && list[i] == (topic, partition, range);
                    assert(init[i] == list[i]);
                }
            }
            assert(cell(ranges_map(list), topic, partition) == cell(
                ranges_map(init),
                topic,
                partition,
            ));
        }
    }
}

/// The listed ranges are those of the produced cells.
pub proof fn lemma_listed_ranges(detail: &TxnDetail, topic: Seq<char>, partition: i32)
    requires
        detail.wf(),
    ensures
        forall|range: TxnProduceOffset|
            produced_ranges(detail.model().produces).contains((topic, partition, range)) <==> cell(
                detail.model().produces,
                topic,
                partition,
            ) == Some(Some(range)),
{
    let rows = detail.produces.seq();
    detail.produces.lemma_seq();
    assert forall|i: int| 0 <= i < rows.len() implies crate::totals::listable::<
        i32,
        Option<TxnProduceOffset>,
    >((#[trigger] rows[i]).1) by {
        let inner = detail.produces.lemma_value(i);
        inner.lemma_seq();
    }
    assert forall|range: TxnProduceOffset|
        produced_ranges(detail.model().produces).contains((topic, partition, range)) <==> cell(
            detail.model().produces,
            topic,
            partition,
        ) == Some(Some(range)) by {
        lemma_ranges_of(rows, topic, partition, range);
        if detail.model().produces.dom().contains(topic) {
            let i = lemma_ascending_position::<String, Map<i32, Option<TxnProduceOffset>>>(
                rows,
                topic,
            );
            lemma_ascending_at::<String, Map<i32, Option<TxnProduceOffset>>>(rows, i);
        }
        if exists|i: int|
            0 <= i < rows.len() && (#[trigger] rows[i]).0 == topic
                && rows[i].1.dom().contains(partition) && rows[i].1[partition] == Some(range) {
            let i = choose|i: int|
                0 <= i < rows.len() && (#[trigger] rows[i]).0 == topic
                    && rows[i].1.dom().contains(partition) && rows[i].1[partition] == Some(range);
            lemma_ascending_at::<String, Map<i32, Option<TxnProduceOffset>>>(rows, i);
        }
    }
}

proof fn lemma_ranges_of(
    topics: Seq<(Seq<char>, Map<i32, Option<TxnProduceOffset>>)>,
    topic: Seq<char>,
    partition: i32,
    range: TxnProduceOffset,
)
    requires
        forall|i: int|
            0 <= i < topics.len() ==> crate::totals::listable::<i32, Option<TxnProduceOffset>>(
                (#[trigger] topics[i]).1,
            ),
    ensures
        ranges_of(topics).contains((topic, partition, range)) <==> exists|i: int|
            0 <= i < topics.len() && (#[trigger] topics[i]).0 == topic
                && topics[i].1.dom().contains(partition) && topics[i].1[partition] == Some(range),
    decreases topics.len(),
{
    if topics.len() > 0 {
        let init = topics.drop_last();
        assert forall|i: int| 0 <= i < init.len() implies crate::totals::listable::<
            i32,
            Option<TxnProduceOffset>,
        >((#[trigger] init[i]).1) by {
            assert(init[i] == topics[i]);
        }
        lemma_ranges_of(init, topic, partition, range);
        let last = topics.len() - 1;
        let (name, inner) = topics[last];
        let cells = ordered::<i32, Option<TxnProduceOffset>>(inner);
        lemma_topic_ranges(name, cells, topic, partition, range);
        let head = ranges_of(init);
        let tail = topic_ranges(name, cells);
        let item = (topic, partition, range);
        assert(ranges_of(topics) == head + tail);
        assert((head + tail).contains(item) <==> head.contains(item) || tail.contains(item)) by {
            if head.contains(item) {
                let i = choose|i: int| 0 <= i < head.len() && head[i] == item;
                assert((head + tail)[i] == item);
            }
            if tail.contains(item) {
                let i = choose|i: int| 0 <= i < tail.len() && tail[i] == item;
                assert((head + tail)[head.len() + i] == item);
            }
            if (head + tail).contains(item) {
                let i = choose|i: int| 0 <= i < (head + tail).len() && (head + tail)[i] == item;
                if i < head.len() {
                    assert(head[i] == item);
                } else {
                    assert(tail[i - head.len()] == item);
                }
            }
        }
        if tail.contains(item) {
            let j = choose|j: int|
                0 <= j < cells.len() && (#[trigger] cells[j]) == (partition, Some(range));
            lemma_ascending_at::<i32, Option<TxnProduceOffset>>(cells, j);
            assert(topics[last].0 == topic);
        }
        if head.contains(item) {
            let i = choose|i: int|
                0 <= i < init.len() && (#[trigger] init[i]).0 == topic
                    && init[i].1.dom().contains(partition) && init[i].1[partition] == Some(range);
            assert(topics[i] == init[i]);
        }
        if exists|i: int|
            0 <= i < topics.len() && (#[trigger] topics[i]).0 == topic
                && topics[i].1.dom().contains(partition) && topics[i].1[partition] == Some(range) {
            let i = choose|i: int|
                0 <= i < topics.len() && (#[trigger] topics[i]).0 == topic
                    && topics[i].1.dom().contains(partition) && topics[i].1[partition] == Some(
                    range,
                );
            if i < last {
                assert(init[i] == topics[i]);
            } else {
                let j = lemma_ascending_position::<i32, Option<TxnProduceOffset>>(
                    cells,
                    partition,
                );
                lemma_ascending_at::<i32, Option<TxnProduceOffset>>(cells, j);
                assert(cells[j] == (partition, Some(range)));
            }
        }
    }
}

proof fn lemma_topic_ranges(
    name: Seq<char>,
    cells: Seq<(i32, Option<TxnProduceOffset>)>,
    topic: Seq<char>,
    partition: i32,
    range: TxnProduceOffset,
)
    ensures
        topic_ranges(name, cells).contains((topic, partition, range)) <==> name == topic && exists|
            j: int,
        |
            0 <= j < cells.len() && (#[trigger] cells[j]) == (partition, Some(range)),
    decreases cells.len(),
{
    let item = (topic, partition, range);
    if cells.len() > 0 {
        let init = cells.drop_last();
        lemma_topic_ranges(name, init, topic, partition, range);
        let before = topic_ranges(name, init);
        let after = topic_ranges(name, cells);
        let last = cells.len() - 1;
        if before.contains(item) {
            let i = choose|i: int| 0 <= i < before.len() && before[i] == item;
            assert(after[i] == item);
            let j = choose|j: int|
                0 <= j < init.len() && (#[trigger] init[j]) == (partition, Some(range));
            assert(cells[j] == init[j]);
        }
        if after.contains(item) && !before.contains(item) {
            let i = choose|i: int| 0 <= i < after.len() && after[i] == item;
            if i < before.len() {
                assert(before[i] == item);
            }
            assert(cells[last] == (partition, Some(range)));
        }
        if name == topic && exists|j: int|
            0 <= j < cells.len() && (#[trigger] cells[j]) == (partition, Some(range)) {
            let j = choose|j: int|
                0 <= j < cells.len() && (#[trigger] cells[j]) == (partition, Some(range));
            if j < last {
                assert(init[j] == cells[j]);
            } else {
                assert(after[after.len() - 1] == item);
            }
        }
    }
}

/// An ended transaction holds the last stable offset no longer: on the
/// partitions it produced to, its key is gone, and the offset never moves
/// back.
pub proof fn law_release_advances_stable(
    p: &PartitionInner,
    key: (Seq<char>, (i64, i16)),
    aborting: bool,
    range: TxnProduceOffset,
)
    requires
        p.wf(),
    ensures
        !released(p.model(), key, aborting, range).open_txns.dom().contains(key),
        stable(released(p.model(), key, aborting, range)) >= stable(p.model()),
        released(p.model(), key, aborting, range).durable_offset == p.model().durable_offset,
{
    let before = p.model();
    let after = released(before, key, aborting, range);
    p.open_txns.lemma_seq();
    crate::partition::law_stable_offset(before);
    let rows = p.open_txns.seq();
    if before.open_txns.dom().contains(key) {
        let i = lemma_ascending_position::<OpenTxnKey, i64>(rows, key);
        crate::ordmap::lemma_remove_map::<OpenTxnKey, i64>(rows, i);
        crate::ordmap::lemma_ordered::<OpenTxnKey, i64>(rows.remove(i));
    } else {
        assert(before.open_txns.remove(key) =~= before.open_txns);
    }
    crate::partition::law_stable_offset(after);
    if stable(after) != after.durable_offset {
        let k = choose|k: (Seq<char>, (i64, i16))| #[trigger]
            after.open_txns.dom().contains(k) && after.open_txns[k] == stable(after);
        assert(before.open_txns.dom().contains(k));
    }
}

/// A range that an abort published is reported to every committed reader that
/// it reaches.
pub proof fn law_abort_is_reported(
    p: PartModel,
    key: (Seq<char>, (i64, i16)),
    range: TxnProduceOffset,
    fetch_offset: i64,
)
    requires
        range.offset_end >= fetch_offset,
    ensures
        aborted_from(released(p, key, true, range).aborted, fetch_offset).contains(
            AbortedTransaction { producer_id: key.1.0, first_offset: range.offset_start },
        ),
{
    let published = AbortedRange {
        producer: key.1.0,
        offset_start: range.offset_start,
        offset_end: range.offset_end,
    };
    let list = released(p, key, true, range).aborted;
    assert(list.contains(published)) by {
        if !p.aborted.contains(published) {
            assert(list[list.len() - 1] == published);
        }
    }
    lemma_reaching_contains(list, fetch_offset, published);
    let kept = reaching(list, fetch_offset);
    let i = choose|i: int| 0 <= i < kept.len() && kept[i] == published;
    assert(aborted_from(list, fetch_offset)[i] == (AbortedTransaction {
        producer_id: key.1.0,
        first_offset: range.offset_start,
    }));
}

proof fn lemma_reaching_contains(list: Seq<AbortedRange>, at: i64, range: AbortedRange)
    requires
        list.contains(range),
        range.offset_end >= at,
    ensures
        reaching(list, at).contains(range),
    decreases list.len(),
{
    let init = list.drop_last();
    let after = reaching(list, at);
    if list.last() == range {
        assert(after[after.len() - 1] == range);
    } else {
        let i = choose|i: int| 0 <= i < list.len() && list[i] == range;
        assert(init[i] == range);
        lemma_reaching_contains(init, at, range);
        let before = reaching(init, at);
        let j = choose|j: int| 0 <= j < before.len() && before[j] == range;
        assert(after[j] == range);
    }
}

/// A transaction that begins again after it ended, in the same epoch, carries
/// nothing over: no range, and no staged offset.
pub proof fn law_rebegin_is_clean(
    detail: TxnDetailModel,
    partitions: Seq<(Seq<char>, i32)>,
    started_at: SystemTime,
    topic: Seq<char>,
    partition: i32,
)
    requires
        detail.state matches Some(state) && state.terminal(),
    ensures
        ({
            let after = begun(detail, partitions, started_at);
            &&& after.state == Some(TxnState::Begin)
            &&& after.offsets == Map::<
                Seq<char>,
                Map<Seq<char>, Map<i32, CommitOffsetModel>>,
            >::empty()
            &&& match cell(after.produces, topic, partition) {
                Some(range) => range is None && partitions.contains((topic, partition)),
                None => !partitions.contains((topic, partition)),
            }
        }),
{
    lemma_added_partitions(partitions, topic, partition);
}

proof fn lemma_added_partitions(
    partitions: Seq<(Seq<char>, i32)>,
    topic: Seq<char>,
    partition: i32,
)
    ensures
        match cell(with_partitions(Map::empty(), partitions), topic, partition) {
            Some(range) => range is None && partitions.contains((topic, partition)),
            None => !partitions.contains((topic, partition)),
        },
    decreases partitions.len(),
{
    if partitions.len() > 0 {
        let init = partitions.drop_last();
        lemma_added_partitions(init, topic, partition);
        lemma_added_partitions(init, partitions.last().0, partitions.last().1);
        let last = partitions.len() - 1;
        if partitions.last() == (topic, partition) {
            assert(partitions[last] == (topic, partition));
        } else {
            assert(partitions.contains((topic, partition)) == init.contains((topic, partition))) by {
                if init.contains((topic, partition)) {
                    let i = choose|i: int| 0 <= i < init.len() && init[i] == (topic, partition);
                    assert(partitions[i] == (topic, partition));
                }
                if partitions.contains((topic, partition)) {
                    let i = choose|i: int|
                        0 <= i < partitions.len() && partitions[i] == (topic, partition);
                    assert(init[i] == (topic, partition));
                }
            }
        }
    }
}

/// A transaction that has ended does not time out.
pub proof fn law_ended_never_times_out(detail: TxnDetailModel, state: TxnState, now: SystemTime)
    ensures
        !timed_out(ended(detail, state), now),
{
}

} // verus!
