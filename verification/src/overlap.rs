//! What holds the resolution of a transaction up: which transactions' produced
//! ranges overlap, which are reached from one another through overlaps, and
//! which overlap an open one. Every incarnation counts for itself: a prepared
//! one does not hide an open one of the same transaction.

use crate::model::{list_model, Model};
use crate::ordmap::{lemma_ascending_at, lemma_ascending_position, ordered, OrdMap};
use crate::state::{
    cell, produces_at, txn_at, CoordModel, CoordState, ProducesModel, TxnDetailModel, TxnModel,
    TxnProduceOffset, TxnRef, TxnRefModel,
};
use crate::types::TxnState;
use vstd::prelude::*;
use vstd::seq_lib::group_filter_ensures;

verus! {

/// Whether the ranges that two transactions produced to a partition have an
/// offset in common.
pub open spec fn overlaps_at(
    produces: ProducesModel,
    candidate: ProducesModel,
    topic: Seq<char>,
    partition: i32,
) -> bool {
    &&& cell(produces, topic, partition) matches Some(Some(range))
    &&& cell(candidate, topic, partition) matches Some(Some(own))
    &&& range.offset_start <= own.offset_end
    &&& own.offset_start <= range.offset_end
}

/// Whether the ranges that two transactions produced have an offset in common
/// on any partition.
pub open spec fn overlaps(produces: ProducesModel, candidate: ProducesModel) -> bool {
    exists|topic: Seq<char>, partition: i32| overlaps_at(produces, candidate, topic, partition)
}

/// Ranges overlap on a partition if and only if some offset lies in both.
pub proof fn law_overlap_is_a_common_offset(
    produces: ProducesModel,
    candidate: ProducesModel,
    topic: Seq<char>,
    partition: i32,
    range: TxnProduceOffset,
    own: TxnProduceOffset,
)
    requires
        cell(produces, topic, partition) == Some(Some(range)),
        cell(candidate, topic, partition) == Some(Some(own)),
        range.offset_start <= range.offset_end,
        own.offset_start <= own.offset_end,
    ensures
        overlaps_at(produces, candidate, topic, partition) <==> exists|offset: int|
            #![trigger common(range, own, offset)]
            common(range, own, offset),
{
    let later = if range.offset_start > own.offset_start {
        range.offset_start as int
    } else {
        own.offset_start as int
    };
    if overlaps_at(produces, candidate, topic, partition) {
        assert(common(range, own, later));
    }
}

/// Whether an offset lies in two ranges.
pub open spec fn common(range: TxnProduceOffset, own: TxnProduceOffset, offset: int) -> bool {
    range.offset_start <= offset <= range.offset_end && own.offset_start <= offset
        <= own.offset_end
}

/// Whether an incarnation is open or prepared: it began and has not ended.
pub open spec fn unended(detail: TxnDetailModel) -> bool {
    detail.state matches Some(state) && !state.terminal()
}

/// The open and prepared incarnations among those of one transaction.
pub open spec fn epoch_refs(
    transaction: Seq<char>,
    producer_id: i64,
    epochs: Seq<(i16, TxnDetailModel)>,
) -> Seq<TxnRefModel>
    decreases epochs.len(),
{
    if epochs.len() == 0 {
        Seq::empty()
    } else {
        let before = epoch_refs(transaction, producer_id, epochs.drop_last());
        let (producer_epoch, detail) = epochs.last();
        match detail.state {
            Some(state) => if state.terminal() {
                before
            } else {
                before.push(TxnRefModel { transaction, producer_id, producer_epoch, state })
            },
            None => before,
        }
    }
}

/// The open and prepared incarnations of a list of transactions.
pub open spec fn txn_refs(transactions: Seq<(Seq<char>, TxnModel)>) -> Seq<TxnRefModel>
    decreases transactions.len(),
{
    if transactions.len() == 0 {
        Seq::empty()
    } else {
        let (id, txn) = transactions.last();
        txn_refs(transactions.drop_last()) + epoch_refs(
            id,
            txn.producer,
            ordered::<i16, TxnDetailModel>(txn.epochs),
        )
    }
}

/// Every open or prepared incarnation, by transaction and epoch.
pub open spec fn unended_txns(coord: CoordModel) -> Seq<TxnRefModel> {
    txn_refs(ordered::<String, TxnModel>(coord.transactions))
}

/// Whether what two incarnations produced overlaps.
pub open spec fn overlapping(
    coord: CoordModel,
    transaction_id: Seq<char>,
    epoch: i16,
    other: Seq<char>,
    other_epoch: i16,
) -> bool {
    overlaps(
        produces_at(coord, other, other_epoch),
        produces_at(coord, transaction_id, epoch),
    )
}

/// Whether an open or prepared incarnation is another one than the one asked
/// about, and overlaps it.
pub open spec fn blocks(
    coord: CoordModel,
    transaction_id: Seq<char>,
    producer_id: i64,
    producer_epoch: i16,
    txn: TxnRefModel,
) -> bool {
    &&& !(txn.transaction == transaction_id && txn.producer_id == producer_id && txn.producer_epoch
        == producer_epoch)
    &&& overlapping(coord, transaction_id, producer_epoch, txn.transaction, txn.producer_epoch)
}

/// The open or prepared incarnations that overlap one, every incarnation of a
/// transaction that does. A terminal one is never among them: it could not
/// become prepared any more, and would hold a resolution up for ever.
pub open spec fn blocking(
    coord: CoordModel,
    transaction_id: Seq<char>,
    producer_id: i64,
    producer_epoch: i16,
) -> Seq<TxnRefModel> {
    unended_txns(coord).filter(
        |txn: TxnRefModel| blocks(coord, transaction_id, producer_id, producer_epoch, txn),
    )
}

/// Whether an incarnation is open or prepared and overlaps another.
pub open spec fn linked(
    coord: CoordModel,
    transaction_id: Seq<char>,
    epoch: i16,
    other: Seq<char>,
    other_epoch: i16,
) -> bool {
    &&& txn_at(coord, other, other_epoch) matches Some(detail)
    &&& unended(detail)
    &&& overlapping(coord, transaction_id, epoch, other, other_epoch)
}

/// Whether a number of overlaps leads from one incarnation to another.
pub open spec fn reached_in(
    coord: CoordModel,
    transaction_id: Seq<char>,
    epoch: i16,
    other: Seq<char>,
    other_epoch: i16,
    steps: nat,
) -> bool
    decreases steps,
{
    if steps == 0 {
        (other, other_epoch) == (transaction_id, epoch)
    } else {
        exists|via: Seq<char>, via_epoch: i16|
            reached_in(coord, transaction_id, epoch, via, via_epoch, (steps - 1) as nat)
                && #[trigger] linked(coord, via, via_epoch, other, other_epoch)
    }
}

/// Whether overlaps lead from one incarnation to another, through open and
/// prepared ones. Each is reached from itself.
pub open spec fn reached(
    coord: CoordModel,
    transaction_id: Seq<char>,
    epoch: i16,
    other: Seq<char>,
    other_epoch: i16,
) -> bool {
    exists|steps: nat| reached_in(coord, transaction_id, epoch, other, other_epoch, steps)
}

/// Whether an incarnation is open.
pub open spec fn is_open(coord: CoordModel, transaction_id: Seq<char>, epoch: i16) -> bool {
    txn_at(coord, transaction_id, epoch) matches Some(detail) && detail.state == Some(
        TxnState::Begin,
    )
}

/// Whether an incarnation is held up: it overlaps another one that is open.
pub open spec fn held(coord: CoordModel, transaction_id: Seq<char>, epoch: i16) -> bool {
    exists|other: Seq<char>, other_epoch: i16|
        is_open(coord, other, other_epoch) && (other, other_epoch) != (transaction_id, epoch)
            && #[trigger] overlapping(coord, transaction_id, epoch, other, other_epoch)
}

/// Whether an incarnation ends when the end of another is asked for: it is
/// reached from there, prepared, and overlaps no open one.
pub open spec fn ends_too(
    coord: CoordModel,
    transaction_id: Seq<char>,
    epoch: i16,
    txn: TxnRefModel,
) -> bool {
    &&& (txn.transaction, txn.producer_epoch) != (transaction_id, epoch)
    &&& txn.state.prepared()
    &&& reached(coord, transaction_id, epoch, txn.transaction, txn.producer_epoch)
    &&& !held(coord, txn.transaction, txn.producer_epoch)
}

/// The incarnations that end when the end of another is asked for.
pub open spec fn ending_too(coord: CoordModel, transaction_id: Seq<char>, epoch: i16) -> Seq<
    TxnRefModel,
> {
    unended_txns(coord).filter(
        |txn: TxnRefModel| ends_too(coord, transaction_id, epoch, txn),
    )
}

/// Whether a reference says what the state says of its incarnation, which is
/// open or prepared.
pub open spec fn names(coord: CoordModel, txn: TxnRefModel) -> bool {
    &&& coord.transactions.dom().contains(txn.transaction)
    &&& coord.transactions[txn.transaction].producer == txn.producer_id
    &&& txn_at(coord, txn.transaction, txn.producer_epoch) matches Some(detail)
    &&& detail.state == Some(txn.state)
    &&& !txn.state.terminal()
}

/// Whether one partition's ranges of a topic overlap.
fn topic_overlaps(
    partitions: &OrdMap<i32, Option<TxnProduceOffset>>,
    candidate: &OrdMap<i32, Option<TxnProduceOffset>>,
) -> (found: bool)
    requires
        partitions.wf(),
        candidate.wf(),
    ensures
        found == exists|partition: i32|
            range_overlaps(partitions.model(), candidate.model(), partition),
{
    let ghost cells = partitions.seq();
    proof {
        partitions.lemma_seq();
    }
    let mut j: usize = 0;
    while j < partitions.len()
        invariant
            partitions.wf(),
            candidate.wf(),
            cells == partitions.seq(),
            j <= cells.len(),
            forall|b: int|
                0 <= b < j ==> !range_overlaps(
                    partitions.model(),
                    candidate.model(),
                    (#[trigger] cells[b]).0,
                ),
        decreases cells.len() - j,
    {
        let (partition, range) = partitions.at(j);
        proof {
            partitions.lemma_seq();
            lemma_ascending_at::<i32, Option<TxnProduceOffset>>(cells, j as int);
        }
        if let Some(range) = range {
            if let Some(Some(own)) = candidate.get(partition) {
                if range.offset_start <= own.offset_end && own.offset_start <= range.offset_end {
                    assert(range_overlaps(partitions.model(), candidate.model(), *partition));
                    return true;
                }
            }
        }
        j += 1;
    }
    assert forall|partition: i32| !range_overlaps(
        partitions.model(),
        candidate.model(),
        partition,
    ) by {
        if partitions.model().dom().contains(partition) {
            partitions.lemma_seq();
            let b = lemma_ascending_position::<i32, Option<TxnProduceOffset>>(cells, partition);
        }
    }
    false
}

/// Whether two topics' ranges overlap on a partition.
pub open spec fn range_overlaps(
    partitions: Map<i32, Option<TxnProduceOffset>>,
    candidate: Map<i32, Option<TxnProduceOffset>>,
    partition: i32,
) -> bool {
    &&& partitions.dom().contains(partition)
    &&& candidate.dom().contains(partition)
    &&& partitions[partition] matches Some(range)
    &&& candidate[partition] matches Some(own)
    &&& range.offset_start <= own.offset_end
    &&& own.offset_start <= range.offset_end
}

fn produces_overlap(
    produces: &OrdMap<String, OrdMap<i32, Option<TxnProduceOffset>>>,
    candidate: &OrdMap<String, OrdMap<i32, Option<TxnProduceOffset>>>,
) -> (found: bool)
    requires
        produces.wf(),
        candidate.wf(),
    ensures
        found == overlaps(produces.model(), candidate.model()),
{
    let ghost rows = produces.seq();
    let mut i: usize = 0;
    while i < produces.len()
        invariant
            produces.wf(),
            candidate.wf(),
            rows == produces.seq(),
            i <= rows.len(),
            forall|a: int, partition: i32|
                0 <= a < i ==> !#[trigger] overlaps_at(
                    produces.model(),
                    candidate.model(),
                    rows[a].0,
                    partition,
                ),
        decreases rows.len() - i,
    {
        let (topic, partitions) = produces.at(i);
        proof {
            produces.lemma_seq();
            lemma_ascending_at::<String, Map<i32, Option<TxnProduceOffset>>>(rows, i as int);
        }
        match candidate.get(topic) {
            Some(own) => {
                assert forall|partition: i32| #[trigger] overlaps_at(
                    produces.model(),
                    candidate.model(),
                    topic@,
                    partition,
                ) == range_overlaps(partitions.model(), own.model(), partition) by {}
                if topic_overlaps(partitions, own) {
                    let ghost partition = choose|partition: i32|
                        range_overlaps(partitions.model(), own.model(), partition);
                    assert(overlaps_at(
                        produces.model(),
                        candidate.model(),
                        topic@,
                        partition,
                    ));
                    return true;
                }
            },
            None => {},
        }
        i += 1;
    }
    assert forall|topic: Seq<char>, partition: i32| !overlaps_at(
        produces.model(),
        candidate.model(),
        topic,
        partition,
    ) by {
        if produces.model().dom().contains(topic) {
            produces.lemma_seq();
            let a = lemma_ascending_position::<String, Map<i32, Option<TxnProduceOffset>>>(
                rows,
                topic,
            );
            assert(!overlaps_at(produces.model(), candidate.model(), rows[a].0, partition));
        }
    }
    false
}

proof fn lemma_epoch_refs(
    transaction: Seq<char>,
    producer_id: i64,
    epochs: Seq<(i16, TxnDetailModel)>,
)
    ensures
        forall|i: int|
            0 <= i < epoch_refs(transaction, producer_id, epochs).len() ==> {
                let txn = #[trigger] epoch_refs(transaction, producer_id, epochs)[i];
                txn.transaction == transaction && txn.producer_id == producer_id
                    && !txn.state.terminal() && exists|j: int|
                    0 <= j < epochs.len() && (#[trigger] epochs[j]).0 == txn.producer_epoch
                        && epochs[j].1.state == Some(txn.state)
            },
        forall|j: int|
            0 <= j < epochs.len() && unended((#[trigger] epochs[j]).1) ==> epoch_refs(
                transaction,
                producer_id,
                epochs,
            ).contains(
                TxnRefModel {
                    transaction,
                    producer_id,
                    producer_epoch: epochs[j].0,
                    state: epochs[j].1.state.unwrap(),
                },
            ),
    decreases epochs.len(),
{
    if epochs.len() > 0 {
        let init = epochs.drop_last();
        let before = epoch_refs(transaction, producer_id, init);
        let refs = epoch_refs(transaction, producer_id, epochs);
        let last = epochs.len() - 1;
        lemma_epoch_refs(transaction, producer_id, init);
        assert forall|i: int| 0 <= i < refs.len() implies {
            let txn = #[trigger] refs[i];
            txn.transaction == transaction && txn.producer_id == producer_id
                && !txn.state.terminal() && exists|j: int|
                0 <= j < epochs.len() && (#[trigger] epochs[j]).0 == txn.producer_epoch
                    && epochs[j].1.state == Some(txn.state)
        } by {
            if i < before.len() {
                assert(refs[i] == before[i]);
                let j = choose|j: int|
                    0 <= j < init.len() && (#[trigger] init[j]).0 == before[i].producer_epoch
                        && init[j].1.state == Some(before[i].state);
                assert(init[j] == epochs[j]);
            } else {
                assert(epochs[last].0 == refs[i].producer_epoch);
            }
        }
        assert forall|j: int| 0 <= j < epochs.len() && unended((#[trigger] epochs[j]).1) implies refs.contains(
            TxnRefModel {
                transaction,
                producer_id,
                producer_epoch: epochs[j].0,
                state: epochs[j].1.state.unwrap(),
            },
        ) by {
            let txn = TxnRefModel {
                transaction,
                producer_id,
                producer_epoch: epochs[j].0,
                state: epochs[j].1.state.unwrap(),
            };
            if j < last {
                assert(init[j] == epochs[j]);
                let i = choose|i: int| 0 <= i < before.len() && before[i] == txn;
                assert(refs[i] == txn);
            } else {
                assert(refs[refs.len() - 1] == txn);
            }
        }
    }
}

/// What is listed is open or prepared, and what is open or prepared is listed.
pub proof fn lemma_unended_txns(coord: &CoordState)
    requires
        coord.wf(),
    ensures
        forall|i: int|
            0 <= i < unended_txns(coord.model()).len() ==> names(
                coord.model(),
                #[trigger] unended_txns(coord.model())[i],
            ),
        forall|txn: TxnRefModel| #[trigger]
            names(coord.model(), txn) ==> unended_txns(coord.model()).contains(txn),
{
    let rows = coord.transactions.seq();
    coord.transactions.lemma_seq();
    lemma_txn_refs(coord, rows.len() as int);
    assert(rows.take(rows.len() as int) =~= rows);
    assert forall|txn: TxnRefModel| #[trigger] names(coord.model(), txn) implies unended_txns(
        coord.model(),
    ).contains(txn) by {
        let i = lemma_ascending_position::<String, TxnModel>(rows, txn.transaction);
    }
}

proof fn lemma_txn_refs(coord: &CoordState, n: int)
    requires
        coord.wf(),
        0 <= n <= coord.transactions.seq().len(),
    ensures
        forall|i: int|
            0 <= i < txn_refs(coord.transactions.seq().take(n)).len() ==> names(
                coord.model(),
                #[trigger] txn_refs(coord.transactions.seq().take(n))[i],
            ),
        forall|txn: TxnRefModel, k: int|
            0 <= k < n && #[trigger] names(coord.model(), txn) && (
            #[trigger] coord.transactions.seq()[k]).0 == txn.transaction ==> txn_refs(
                coord.transactions.seq().take(n),
            ).contains(txn),
    decreases n,
{
    if n > 0 {
        let rows = coord.transactions.seq();
        coord.transactions.lemma_seq();
        lemma_txn_refs(coord, n - 1);
        assert(rows.take(n).drop_last() =~= rows.take(n - 1));
        lemma_ascending_at::<String, TxnModel>(rows, n - 1);
        let (id, txn) = rows[n - 1];
        let value = coord.transactions.lemma_value(n - 1);
        value.epochs.lemma_seq();
        let epochs = value.epochs.seq();
        lemma_epoch_refs(id, txn.producer, epochs);
        let before = txn_refs(rows.take(n - 1));
        let own = epoch_refs(id, txn.producer, epochs);
        let refs = txn_refs(rows.take(n));
        assert(refs == before + own);
        assert forall|i: int| 0 <= i < refs.len() implies names(
            coord.model(),
            #[trigger] refs[i],
        ) by {
            if i < before.len() {
                assert(refs[i] == before[i]);
            } else {
                assert(refs[i] == own[i - before.len()]);
                let j = choose|j: int|
                    0 <= j < epochs.len() && (#[trigger] epochs[j]).0 == refs[i].producer_epoch
                        && epochs[j].1.state == Some(refs[i].state);
                lemma_ascending_at::<i16, TxnDetailModel>(epochs, j);
            }
        }
        assert forall|found: TxnRefModel, k: int|
            0 <= k < n && #[trigger] names(coord.model(), found) && (#[trigger] rows[k]).0
                == found.transaction implies refs.contains(found) by {
            if k < n - 1 {
                let i = choose|i: int| 0 <= i < before.len() && before[i] == found;
                assert(refs[i] == found);
            } else {
                let j = lemma_ascending_position::<i16, TxnDetailModel>(
                    epochs,
                    found.producer_epoch,
                );
                let i = choose|i: int| 0 <= i < own.len() && own[i] == found;
                assert(refs[before.len() + i] == found);
            }
        }
    }
}

impl CoordState {
    /// Every open or prepared incarnation, by transaction and epoch.
    fn list_unended(&self) -> (list: Vec<TxnRef>)
        requires
            self.wf(),
        ensures
            list_model(list@) == unended_txns(self.model()),
    {
        let mut list: Vec<TxnRef> = Vec::new();
        let ghost rows = self.transactions.seq();
        proof {
            self.transactions.lemma_seq();
            assert(list_model(list@) =~= txn_refs(rows.take(0)));
        }
        let mut i: usize = 0;
        while i < self.transactions.len()
            invariant
                self.wf(),
                rows == self.transactions.seq(),
                i <= rows.len(),
                list_model(list@) == txn_refs(rows.take(i as int)),
            decreases rows.len() - i,
        {
            let (id, txn) = self.transactions.at(i);
            let ghost before = list_model(list@);
            let ghost epochs = txn.epochs.seq();
            proof {
                txn.epochs.lemma_seq();
                assert(rows.take(i + 1).drop_last() =~= rows.take(i as int));
                assert(list_model(list@) =~= before + epoch_refs(id@, txn.producer, epochs.take(0)));
            }
            let mut j: usize = 0;
            while j < txn.epochs.len()
                invariant
                    txn.wf(),
                    epochs == txn.epochs.seq(),
                    j <= epochs.len(),
                    list_model(list@) == before + epoch_refs(
                        id@,
                        txn.producer,
                        epochs.take(j as int),
                    ),
                decreases epochs.len() - j,
            {
                let (epoch, detail) = txn.epochs.at(j);
                let ghost so_far = list_model(list@);
                proof {
                    assert(epochs.take(j + 1).drop_last() =~= epochs.take(j as int));
                }
                if let Some(state) = detail.state {
                    if !state.is_terminal() {
                        list.push(
                            TxnRef {
                                transaction: id.clone(),
                                producer_id: txn.producer,
                                producer_epoch: *epoch,
                                state,
                            },
                        );
                        assert(list_model(list@) =~= so_far.push(list@.last().model()));
                    }
                }
                j += 1;
                assert(list_model(list@) =~= before + epoch_refs(
                    id@,
                    txn.producer,
                    epochs.take(j as int),
                ));
            }
            assert(epochs.take(j as int) =~= epochs);
            i += 1;
        }
        assert(rows.take(i as int) =~= rows);
        list
    }

    /// Whether what two incarnations produced overlaps.
    fn overlap(&self, id: &String, epoch: i16, other: &String, other_epoch: i16) -> (found: bool)
        requires
            self.wf(),
        ensures
            found == overlapping(self.model(), id@, epoch, other@, other_epoch),
    {
        let nothing: OrdMap<String, OrdMap<i32, Option<TxnProduceOffset>>> = OrdMap::new();
        let mut candidate = &nothing;
        if let Some(txn) = self.transactions.get(id) {
            if let Some(detail) = txn.epochs.get(&epoch) {
                candidate = &detail.produces;
            }
        }
        let mut produces = &nothing;
        if let Some(txn) = self.transactions.get(other) {
            if let Some(detail) = txn.epochs.get(&other_epoch) {
                produces = &detail.produces;
            }
        }
        produces_overlap(produces, candidate)
    }

    /// Transactions whose produced ranges overlap the candidate's on any
    /// partition.
    pub fn overlapping_transactions(
        &self,
        transaction_id: &str,
        producer_id: i64,
        producer_epoch: i16,
    ) -> (found: Vec<TxnRef>)
        requires
            self.wf(),
        ensures
            list_model(found@) == blocking(
                self.model(),
                transaction_id@,
                producer_id,
                producer_epoch,
            ),
    {
        let id = transaction_id.to_owned();
        let list = self.list_unended();
        let ghost refs = list_model(list@);
        let ghost other = |txn: TxnRefModel|
            blocks(self.model(), transaction_id@, producer_id, producer_epoch, txn);
        let mut found: Vec<TxnRef> = Vec::new();
        proof {
            reveal(Seq::filter);
            assert(list_model(found@) =~= refs.take(0).filter(other));
        }
        let mut i: usize = 0;
        while i < list.len()
            invariant
                self.wf(),
                id@ == transaction_id@,
                refs == list_model(list@),
                i <= refs.len(),
                other == |txn: TxnRefModel|
                    blocks(self.model(), transaction_id@, producer_id, producer_epoch, txn),
                list_model(found@) == refs.take(i as int).filter(other),
            decreases refs.len() - i,
        {
            proof {
                reveal(Seq::filter);
                assert(refs.take(i + 1).drop_last() =~= refs.take(i as int));
                assert(refs.take(i + 1).last() == list@[i as int].model());
            }
            let txn = &list[i];
            let own = txn.transaction == id && txn.producer_id == producer_id
                && txn.producer_epoch == producer_epoch;
            if !own && self.overlap(&id, producer_epoch, &txn.transaction, txn.producer_epoch) {
                let ghost before = list_model(found@);
                found.push(txn.dup());
                assert(list_model(found@) =~= before.push(found@.last().model()));
            }
            i += 1;
        }
        assert(refs.take(i as int) =~= refs);
        found
    }

    /// Whether an incarnation overlaps another one that is open.
    pub fn is_held(&self, transaction_id: &str, producer_id: i64, producer_epoch: i16) -> (found:
        bool)
        requires
            self.wf(),
            self.model().transactions.dom().contains(transaction_id@),
            self.model().transactions[transaction_id@].producer == producer_id,
        ensures
            found == held(self.model(), transaction_id@, producer_epoch),
    {
        let list = self.overlapping_transactions(transaction_id, producer_id, producer_epoch);
        let ghost refs = list_model(list@);
        proof {
            lemma_unended_txns(self);
            lemma_blocking(self, transaction_id@, producer_id, producer_epoch);
        }
        let mut i: usize = 0;
        while i < list.len()
            invariant
                refs == list_model(list@),
                refs == blocking(self.model(), transaction_id@, producer_id, producer_epoch),
                i <= refs.len(),
                self.model().transactions[transaction_id@].producer == producer_id,
                forall|k: int|
                    0 <= k < refs.len() ==> names(self.model(), #[trigger] refs[k]) && blocks(
                        self.model(),
                        transaction_id@,
                        producer_id,
                        producer_epoch,
                        refs[k],
                    ),
                forall|k: int| 0 <= k < i ==> (#[trigger] refs[k]).state != TxnState::Begin,
            decreases refs.len() - i,
        {
            assert(refs[i as int] == list@[i as int].model());
            if list[i].state == TxnState::Begin {
                assert(overlapping(
                    self.model(),
                    transaction_id@,
                    producer_epoch,
                    refs[i as int].transaction,
                    refs[i as int].producer_epoch,
                ));
                return true;
            }
            i += 1;
        }
        proof {
            assert forall|other: Seq<char>, other_epoch: i16|
                is_open(self.model(), other, other_epoch) && (other, other_epoch) != (
                    transaction_id@,
                    producer_epoch,
                ) implies !#[trigger] overlapping(
                self.model(),
                transaction_id@,
                producer_epoch,
                other,
                other_epoch,
            ) by {
                let txn = TxnRefModel {
                    transaction: other,
                    producer_id: self.model().transactions[other].producer,
                    producer_epoch: other_epoch,
                    state: TxnState::Begin,
                };
                assert(names(self.model(), txn));
                if overlapping(
                    self.model(),
                    transaction_id@,
                    producer_epoch,
                    other,
                    other_epoch,
                ) {
                    assert(refs.contains(txn));
                }
            }
        }
        false
    }
}

/// What overlaps an incarnation is what is open or prepared and does.
pub proof fn lemma_blocking(
    coord: &CoordState,
    transaction_id: Seq<char>,
    producer_id: i64,
    producer_epoch: i16,
)
    requires
        coord.wf(),
    ensures
        forall|i: int|
            0 <= i < blocking(coord.model(), transaction_id, producer_id, producer_epoch).len()
                ==> {
                let txn = #[trigger] blocking(
                    coord.model(),
                    transaction_id,
                    producer_id,
                    producer_epoch,
                )[i];
                names(coord.model(), txn) && blocks(
                    coord.model(),
                    transaction_id,
                    producer_id,
                    producer_epoch,
                    txn,
                )
            },
        forall|txn: TxnRefModel| #[trigger]
            names(coord.model(), txn) && blocks(
                coord.model(),
                transaction_id,
                producer_id,
                producer_epoch,
                txn,
            ) ==> blocking(coord.model(), transaction_id, producer_id, producer_epoch).contains(
                txn,
            ),
{
    lemma_unended_txns(coord);
    lemma_filtered(
        unended_txns(coord.model()),
        |txn: TxnRefModel|
            blocks(coord.model(), transaction_id, producer_id, producer_epoch, txn),
    );
    let refs = unended_txns(coord.model());
    let found = blocking(coord.model(), transaction_id, producer_id, producer_epoch);
    assert forall|i: int| 0 <= i < found.len() implies names(
        coord.model(),
        #[trigger] found[i],
    ) by {
        assert(found.contains(found[i]));
        let k = choose|k: int| 0 <= k < refs.len() && refs[k] == found[i];
    }
}

/// What a filter keeps.
pub proof fn lemma_filtered(refs: Seq<TxnRefModel>, pred: spec_fn(TxnRefModel) -> bool)
    ensures
        forall|txn: TxnRefModel| #[trigger]
            refs.filter(pred).contains(txn) <==> refs.contains(txn) && pred(txn),
        forall|i: int| 0 <= i < refs.filter(pred).len() ==> pred(#[trigger] refs.filter(pred)[i]),
{
    broadcast use group_filter_ensures;

    assert forall|txn: TxnRefModel| refs.contains(txn) && pred(txn) implies #[trigger] refs.filter(
        pred,
    ).contains(txn) by {
        let k = choose|k: int| 0 <= k < refs.len() && refs[k] == txn;
        assert(refs.filter(pred).contains(refs[k]));
    }
    assert forall|txn: TxnRefModel| #[trigger] refs.filter(pred).contains(txn) implies refs.contains(
        txn,
    ) && pred(txn) by {
        refs.lemma_filter_contains_rev(pred, txn);
    }
}

/// How many of a list of marks are not set.
pub open spec fn unmarked(marks: Seq<bool>) -> nat
    decreases marks.len(),
{
    if marks.len() == 0 {
        0
    } else {
        unmarked(marks.drop_last()) + if marks.last() {
            0nat
        } else {
            1nat
        }
    }
}

proof fn lemma_marked(marks: Seq<bool>, i: int)
    requires
        0 <= i < marks.len(),
        !marks[i],
    ensures
        unmarked(marks.update(i, true)) + 1 == unmarked(marks),
    decreases marks.len(),
{
    let after = marks.update(i, true);
    if i < marks.len() - 1 {
        assert(after.drop_last() =~= marks.drop_last().update(i, true));
        lemma_marked(marks.drop_last(), i);
    } else {
        assert(after.drop_last() =~= marks.drop_last());
    }
}

/// Whether an incarnation of a list overlaps the one asked about or a marked
/// one.
pub open spec fn touched(
    coord: CoordModel,
    transaction_id: Seq<char>,
    epoch: i16,
    refs: Seq<TxnRefModel>,
    marks: Seq<bool>,
    i: int,
) -> bool {
    let txn = refs[i];
    ||| overlapping(coord, transaction_id, epoch, txn.transaction, txn.producer_epoch)
    ||| exists|k: int|
        0 <= k < refs.len() && #[trigger] marks[k] && overlapping(
            coord,
            refs[k].transaction,
            refs[k].producer_epoch,
            txn.transaction,
            txn.producer_epoch,
        )
}

/// Whether an incarnation of a list is the one asked about, or reached from it.
pub open spec fn reaches(
    coord: CoordModel,
    transaction_id: Seq<char>,
    epoch: i16,
    txn: TxnRefModel,
) -> bool {
    reached(coord, transaction_id, epoch, txn.transaction, txn.producer_epoch)
}

/// One more overlap leads on from what is reached.
pub proof fn lemma_reached_on(
    coord: CoordModel,
    transaction_id: Seq<char>,
    epoch: i16,
    via: Seq<char>,
    via_epoch: i16,
    other: Seq<char>,
    other_epoch: i16,
)
    requires
        reached(coord, transaction_id, epoch, via, via_epoch),
        linked(coord, via, via_epoch, other, other_epoch),
    ensures
        reached(coord, transaction_id, epoch, other, other_epoch),
{
    let steps = choose|steps: nat|
        reached_in(coord, transaction_id, epoch, via, via_epoch, steps);
    assert(reached_in(coord, transaction_id, epoch, other, other_epoch, steps + 1));
}

/// Each incarnation is reached from itself.
pub proof fn lemma_reached_self(coord: CoordModel, transaction_id: Seq<char>, epoch: i16)
    ensures
        reached(coord, transaction_id, epoch, transaction_id, epoch),
{
    assert(reached_in(coord, transaction_id, epoch, transaction_id, epoch, 0));
}

/// Where nothing unmarked is touched, all that is reached is marked.
proof fn lemma_all_marked(
    coord: &CoordState,
    transaction_id: Seq<char>,
    epoch: i16,
    marks: Seq<bool>,
    other: Seq<char>,
    other_epoch: i16,
    steps: nat,
)
    requires
        coord.wf(),
        marks.len() == unended_txns(coord.model()).len(),
        forall|i: int|
            0 <= i < marks.len() && !#[trigger] marks[i] ==> !touched(
                coord.model(),
                transaction_id,
                epoch,
                unended_txns(coord.model()),
                marks,
                i,
            ),
        reached_in(coord.model(), transaction_id, epoch, other, other_epoch, steps),
    ensures
        (other, other_epoch) == (transaction_id, epoch) || forall|i: int|
            0 <= i < marks.len() && (#[trigger] unended_txns(coord.model())[i]).transaction == other
                && unended_txns(coord.model())[i].producer_epoch == other_epoch ==> marks[i],
    decreases steps,
{
    if steps > 0 {
        let model = coord.model();
        let refs = unended_txns(model);
        let (via, via_epoch) = choose|via: Seq<char>, via_epoch: i16|
            reached_in(model, transaction_id, epoch, via, via_epoch, (steps - 1) as nat)
                && #[trigger] linked(model, via, via_epoch, other, other_epoch);
        lemma_all_marked(
            coord,
            transaction_id,
            epoch,
            marks,
            via,
            via_epoch,
            (steps - 1) as nat,
        );
        if (via, via_epoch) != (transaction_id, epoch) {
            lemma_unended_txns(coord);
            lemma_reached_unended(
                model,
                transaction_id,
                epoch,
                via,
                via_epoch,
                (steps - 1) as nat,
            );
            let txn = TxnRefModel {
                transaction: via,
                producer_id: model.transactions[via].producer,
                producer_epoch: via_epoch,
                state: txn_at(model, via, via_epoch).unwrap().state.unwrap(),
            };
            assert(names(model, txn));
            let k = choose|k: int| 0 <= k < refs.len() && refs[k] == txn;
            assert(marks[k]);
        }
    }
}

/// What is reached is the incarnation itself, or open or prepared.
pub proof fn lemma_reached_unended(
    coord: CoordModel,
    transaction_id: Seq<char>,
    epoch: i16,
    other: Seq<char>,
    other_epoch: i16,
    steps: nat,
)
    requires
        reached_in(coord, transaction_id, epoch, other, other_epoch, steps),
    ensures
        (other, other_epoch) == (transaction_id, epoch) || (txn_at(coord, other, other_epoch) matches Some(
            detail,
        ) && unended(detail)),
{
}

impl CoordState {
    /// Whether an incarnation of a list overlaps the one asked about or a
    /// marked one.
    fn is_touched(
        &self,
        id: &String,
        epoch: i16,
        list: &Vec<TxnRef>,
        marks: &Vec<bool>,
        i: usize,
    ) -> (found: bool)
        requires
            self.wf(),
            i < list.len(),
            marks.len() == list.len(),
        ensures
            found == touched(self.model(), id@, epoch, list_model(list@), marks@, i as int),
    {
        let ghost refs = list_model(list@);
        let txn = &list[i];
        assert(refs[i as int] == txn.model());
        if self.overlap(id, epoch, &txn.transaction, txn.producer_epoch) {
            return true;
        }
        let mut k: usize = 0;
        while k < list.len()
            invariant
                self.wf(),
                k <= list.len(),
                marks.len() == list.len(),
                refs == list_model(list@),
                refs[i as int] == txn.model(),
                forall|b: int|
                    0 <= b < k && #[trigger] marks@[b] ==> !overlapping(
                        self.model(),
                        refs[b].transaction,
                        refs[b].producer_epoch,
                        txn.transaction@,
                        txn.producer_epoch,
                    ),
            decreases list.len() - k,
        {
            assert(refs[k as int] == list@[k as int].model());
            if marks[k] && self.overlap(
                &list[k].transaction,
                list[k].producer_epoch,
                &txn.transaction,
                txn.producer_epoch,
            ) {
                assert(marks@[k as int]);
                return true;
            }
            k += 1;
        }
        false
    }

    /// Marks the incarnations that are reached from one.
    fn mark_reached(&self, id: &String, epoch: i16, list: &Vec<TxnRef>) -> (marks: Vec<bool>)
        requires
            self.wf(),
            list_model(list@) == unended_txns(self.model()),
        ensures
            marks.len() == list.len(),
            forall|i: int|
                0 <= i < marks.len() ==> #[trigger] marks@[i] == reaches(
                    self.model(),
                    id@,
                    epoch,
                    list_model(list@)[i],
                ),
    {
        let ghost model = self.model();
        let ghost refs = list_model(list@);
        let mut marks: Vec<bool> = Vec::new();
        while marks.len() < list.len()
            invariant
                marks.len() <= list.len(),
                model == self.model(),
                refs == list_model(list@),
                forall|i: int|
                    0 <= i < marks.len() ==> #[trigger] marks@[i] == ((
                        refs[i].transaction,
                        refs[i].producer_epoch,
                    ) == (id@, epoch)),
            decreases list.len() - marks.len(),
        {
            let txn = &list[marks.len()];
            assert(refs[marks.len() as int] == txn.model());
            marks.push(txn.transaction == *id && txn.producer_epoch == epoch);
        }
        proof {
            lemma_reached_self(model, id@, epoch);
            lemma_unended_txns(self);
        }
        let mut growing = true;
        while growing
            invariant
                self.wf(),
                model == self.model(),
                refs == list_model(list@),
                refs == unended_txns(model),
                marks.len() == list.len(),
                forall|i: int| 0 <= i < refs.len() ==> names(model, #[trigger] refs[i]),
                reached(model, id@, epoch, id@, epoch),
                forall|i: int|
                    0 <= i < marks.len() && #[trigger] marks@[i] ==> reaches(
                        model,
                        id@,
                        epoch,
                        refs[i],
                    ),
                forall|i: int|
                    0 <= i < marks.len() && (refs[i].transaction, refs[i].producer_epoch) == (
                        id@,
                        epoch,
                    ) ==> #[trigger] marks@[i],
                !growing ==> forall|i: int|
                    0 <= i < marks.len() && !#[trigger] marks@[i] ==> !touched(
                        model,
                        id@,
                        epoch,
                        refs,
                        marks@,
                        i,
                    ),
            decreases unmarked(marks@), growing as nat,
        {
            growing = false;
            let ghost before = marks@;
            let mut i: usize = 0;
            while i < list.len()
                invariant
                    self.wf(),
                    model == self.model(),
                    refs == list_model(list@),
                    i <= list.len(),
                    marks.len() == list.len(),
                    forall|k: int| 0 <= k < refs.len() ==> names(model, #[trigger] refs[k]),
                    reached(model, id@, epoch, id@, epoch),
                    forall|k: int|
                        0 <= k < marks.len() && #[trigger] marks@[k] ==> reaches(
                            model,
                            id@,
                            epoch,
                            refs[k],
                        ),
                    forall|k: int|
                        0 <= k < marks.len() && (refs[k].transaction, refs[k].producer_epoch) == (
                            id@,
                            epoch,
                        ) ==> #[trigger] marks@[k],
                    growing ==> unmarked(marks@) < unmarked(before),
                    !growing ==> marks@ == before && forall|k: int|
                        0 <= k < i && !#[trigger] marks@[k] ==> !touched(
                            model,
                            id@,
                            epoch,
                            refs,
                            marks@,
                            k,
                        ),
                decreases list.len() - i,
            {
                if !marks[i] && self.is_touched(id, epoch, list, &marks, i) {
                    proof {
                        let txn = refs[i as int];
                        assert(names(model, txn));
                        if overlapping(model, id@, epoch, txn.transaction, txn.producer_epoch) {
                            lemma_reached_on(
                                model,
                                id@,
                                epoch,
                                id@,
                                epoch,
                                txn.transaction,
                                txn.producer_epoch,
                            );
                        } else {
                            let k = choose|k: int|
                                0 <= k < refs.len() && #[trigger] marks@[k] && overlapping(
                                    model,
                                    refs[k].transaction,
                                    refs[k].producer_epoch,
                                    txn.transaction,
                                    txn.producer_epoch,
                                );
                            assert(reaches(model, id@, epoch, refs[k]));
                            lemma_reached_on(
                                model,
                                id@,
                                epoch,
                                refs[k].transaction,
                                refs[k].producer_epoch,
                                txn.transaction,
                                txn.producer_epoch,
                            );
                        }
                        lemma_marked(marks@, i as int);
                    }
                    marks.set(i, true);
                    growing = true;
                }
                i += 1;
            }
        }
        proof {
            assert forall|i: int| 0 <= i < marks.len() implies #[trigger] marks@[i] == reaches(
                model,
                id@,
                epoch,
                refs[i],
            ) by {
                if reaches(model, id@, epoch, refs[i]) {
                    let steps = choose|steps: nat|
                        reached_in(
                            model,
                            id@,
                            epoch,
                            refs[i].transaction,
                            refs[i].producer_epoch,
                            steps,
                        );
                    lemma_all_marked(
                        self,
                        id@,
                        epoch,
                        marks@,
                        refs[i].transaction,
                        refs[i].producer_epoch,
                        steps,
                    );
                }
            }
        }
        marks
    }

    /// The incarnations that end when the end of another is asked for.
    pub fn list_ending(&self, transaction_id: &str, epoch: i16) -> (found: Vec<TxnRef>)
        requires
            self.wf(),
        ensures
            list_model(found@) == ending_too(self.model(), transaction_id@, epoch),
    {
        let id = transaction_id.to_owned();
        let list = self.list_unended();
        let marks = self.mark_reached(&id, epoch, &list);
        let ghost refs = list_model(list@);
        let ghost kept = |txn: TxnRefModel| ends_too(self.model(), transaction_id@, epoch, txn);
        let mut found: Vec<TxnRef> = Vec::new();
        proof {
            lemma_unended_txns(self);
            reveal(Seq::filter);
            assert(list_model(found@) =~= refs.take(0).filter(kept));
        }
        let mut i: usize = 0;
        while i < list.len()
            invariant
                self.wf(),
                id@ == transaction_id@,
                refs == list_model(list@),
                refs == unended_txns(self.model()),
                i <= refs.len(),
                marks.len() == list.len(),
                forall|k: int| 0 <= k < refs.len() ==> names(self.model(), #[trigger] refs[k]),
                forall|k: int|
                    0 <= k < marks.len() ==> #[trigger] marks@[k] == reaches(
                        self.model(),
                        transaction_id@,
                        epoch,
                        refs[k],
                    ),
                kept == |txn: TxnRefModel| ends_too(self.model(), transaction_id@, epoch, txn),
                list_model(found@) == refs.take(i as int).filter(kept),
            decreases refs.len() - i,
        {
            proof {
                reveal(Seq::filter);
                assert(refs.take(i + 1).drop_last() =~= refs.take(i as int));
                assert(refs.take(i + 1).last() == list@[i as int].model());
                assert(names(self.model(), refs[i as int]));
            }
            let txn = &list[i];
            let own = txn.transaction == id && txn.producer_epoch == epoch;
            if !own && marks[i] && txn.state.is_prepared() && !self.is_held(
                txn.transaction.as_str(),
                txn.producer_id,
                txn.producer_epoch,
            ) {
                let ghost before = list_model(found@);
                found.push(txn.dup());
                assert(list_model(found@) =~= before.push(found@.last().model()));
            }
            i += 1;
        }
        assert(refs.take(i as int) =~= refs);
        found
    }
}

} // verus!
