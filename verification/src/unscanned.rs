//! Coordination state without what the segment scan rebuilds at boot: the
//! producers' sequence numbers, and the ranges of transactions that are open.

use crate::model::Model;
use crate::ordmap::OrdMap;
use crate::replay::{applied, replayed, with_epoch, with_named, with_producer, ImageModel};
use crate::revise::{remapped, Revise};
use crate::state::{
    cell, with_cell, with_txn, CoordModel, CoordState, ProducerDetail, ProducesModel, SequenceModel,
    Txn, TxnDetail, TxnDetailModel, TxnModel, TxnProduceOffset,
};
use crate::time::SystemTime;
use crate::txn::{
    begun, ended, prepared_state, ranges_map, terminal_state, with_offsets, with_partition,
    with_partitions,
};
use crate::types::TxnState;
use crate::wal::Record;
use vstd::prelude::*;

verus! {

/// An epoch's sequence numbers become none.
pub open spec fn no_sequences() -> spec_fn(SequenceModel) -> SequenceModel {
    |sequences: SequenceModel| Map::empty()
}

/// A producer keeps its epochs, without sequence numbers.
pub open spec fn without_sequences() -> spec_fn(Map<i16, SequenceModel>) -> Map<
    i16,
    SequenceModel,
> {
    |epochs: Map<i16, SequenceModel>| remapped(epochs, no_sequences())
}

/// A partition's range becomes none.
pub open spec fn no_range() -> spec_fn(Option<TxnProduceOffset>) -> Option<TxnProduceOffset> {
    |range: Option<TxnProduceOffset>| None
}

/// A topic keeps its partitions, without ranges.
pub open spec fn no_ranges() -> spec_fn(Map<i32, Option<TxnProduceOffset>>) -> Map<
    i32,
    Option<TxnProduceOffset>,
> {
    |partitions: Map<i32, Option<TxnProduceOffset>>| remapped(partitions, no_range())
}

/// The partitions of a transaction, without ranges.
pub open spec fn unscanned_produces(produces: ProducesModel) -> ProducesModel {
    remapped(produces, no_ranges())
}

/// An open incarnation keeps its partitions, without ranges; another is kept
/// as it is.
pub open spec fn unscanned_detail() -> spec_fn(TxnDetailModel) -> TxnDetailModel {
    |detail: TxnDetailModel|
        if detail.state == Some(TxnState::Begin) {
            TxnDetailModel { produces: unscanned_produces(detail.produces), ..detail }
        } else {
            detail
        }
}

/// A transaction without the ranges of open incarnations.
pub open spec fn without_open_ranges() -> spec_fn(TxnModel) -> TxnModel {
    |txn: TxnModel| TxnModel { epochs: remapped(txn.epochs, unscanned_detail()), ..txn }
}

/// The state without what the segment scan rebuilds.
pub open spec fn unscanned(coord: CoordModel) -> CoordModel {
    CoordModel {
        producers: remapped(coord.producers, without_sequences()),
        transactions: remapped(coord.transactions, without_open_ranges()),
        ..coord
    }
}

/// What a boot knows before its segment scan.
pub open spec fn unscanned_image(image: ImageModel) -> ImageModel {
    ImageModel { coord: unscanned(image.coord), ..image }
}

/// Drops what the segment scan rebuilds.
struct Unscanned;

impl Revise<OrdMap<String, OrdMap<i32, i32>>> for Unscanned {
    closed spec fn revised(&self, v: SequenceModel) -> SequenceModel {
        Map::empty()
    }

    fn revise(&self, value: &OrdMap<String, OrdMap<i32, i32>>) -> (after: OrdMap<
        String,
        OrdMap<i32, i32>,
    >) {
        OrdMap::new()
    }
}

impl Revise<ProducerDetail> for Unscanned {
    closed spec fn revised(&self, v: Map<i16, SequenceModel>) -> Map<i16, SequenceModel> {
        remapped(v, no_sequences())
    }

    fn revise(&self, value: &ProducerDetail) -> (after: ProducerDetail) {
        let after = ProducerDetail { sequences: value.sequences.revised(self) };
        assert(after.model() =~= remapped(value.model(), no_sequences()));
        after
    }
}

impl Revise<Option<TxnProduceOffset>> for Unscanned {
    closed spec fn revised(&self, v: Option<TxnProduceOffset>) -> Option<TxnProduceOffset> {
        None
    }

    fn revise(&self, value: &Option<TxnProduceOffset>) -> (after: Option<TxnProduceOffset>) {
        None
    }
}

impl Revise<OrdMap<i32, Option<TxnProduceOffset>>> for Unscanned {
    closed spec fn revised(&self, v: Map<i32, Option<TxnProduceOffset>>) -> Map<
        i32,
        Option<TxnProduceOffset>,
    > {
        remapped(v, no_range())
    }

    fn revise(&self, value: &OrdMap<i32, Option<TxnProduceOffset>>) -> (after: OrdMap<
        i32,
        Option<TxnProduceOffset>,
    >) {
        let after = value.revised(self);
        assert(after.model() =~= remapped(value.model(), no_range()));
        after
    }
}

impl Revise<TxnDetail> for Unscanned {
    closed spec fn revised(&self, v: TxnDetailModel) -> TxnDetailModel {
        unscanned_detail()(v)
    }

    fn revise(&self, value: &TxnDetail) -> (after: TxnDetail) {
        let mut after = value.dup();
        if value.state == Some(TxnState::Begin) {
            after.produces = value.produces.revised(self);
            assert(after.produces.model() =~= unscanned_produces(value.produces.model()));
        }
        after
    }
}

impl Revise<Txn> for Unscanned {
    closed spec fn revised(&self, v: TxnModel) -> TxnModel {
        without_open_ranges()(v)
    }

    fn revise(&self, value: &Txn) -> (after: Txn) {
        let after = Txn { producer: value.producer, epochs: value.epochs.revised(self) };
        assert(after.epochs.model() =~= remapped(value.epochs.model(), unscanned_detail()));
        after
    }
}

impl CoordState {
    /// The producers with their epochs, without sequence numbers.
    pub fn unscanned_producers(&self) -> (producers: OrdMap<i64, ProducerDetail>)
        requires
            self.wf(),
        ensures
            producers.wf(),
            producers.model() == unscanned(self.model()).producers,
    {
        let producers = self.producers.revised(&Unscanned);
        assert(producers.model() =~= unscanned(self.model()).producers);
        producers
    }

    /// The transactions, without the ranges of open incarnations.
    pub fn unscanned_transactions(&self) -> (transactions: OrdMap<String, Txn>)
        requires
            self.wf(),
        ensures
            transactions.wf(),
            transactions.model() == unscanned(self.model()).transactions,
    {
        let transactions = self.transactions.revised(&Unscanned);
        assert(transactions.model() =~= unscanned(self.model()).transactions);
        transactions
    }
}

/// No sequence number, and no range of an open transaction, is left: the
/// producers' epochs and the transactions' partitions are.
pub proof fn law_nothing_scanned_is_left(
    coord: CoordModel,
    producer_id: i64,
    id: Seq<char>,
    epoch: i16,
    topic: Seq<char>,
    partition: i32,
)
    ensures
        ({
            let bare = unscanned(coord);
            &&& bare.producers.dom() == coord.producers.dom()
            &&& bare.producers.dom().contains(producer_id) ==> {
                &&& bare.producers[producer_id].dom() == coord.producers[producer_id].dom()
                &&& bare.producers[producer_id].dom().contains(epoch)
                    ==> bare.producers[producer_id][epoch] == Map::<
                    Seq<char>,
                    Map<i32, i32>,
                >::empty()
            }
            &&& crate::state::txn_at(coord, id, epoch) matches Some(detail) ==> {
                let after = crate::state::txn_at(bare, id, epoch);
                &&& after is Some
                &&& if detail.state == Some(TxnState::Begin) {
                    cell(after.unwrap().produces, topic, partition) == (match cell(
                        detail.produces,
                        topic,
                        partition,
                    ) {
                        Some(_) => Some(None::<TxnProduceOffset>),
                        None => None,
                    })
                } else {
                    after.unwrap() == detail
                }
            }
        }),
{
    let bare = unscanned(coord);
    assert(bare.producers.dom() =~= coord.producers.dom());
    if coord.producers.dom().contains(producer_id) {
        assert(bare.producers[producer_id].dom() =~= coord.producers[producer_id].dom());
    }
}

proof fn lemma_with_partition(produces: ProducesModel, topic: Seq<char>, partition: i32)
    ensures
        unscanned_produces(with_partition(produces, topic, partition)) == with_cell(
            unscanned_produces(produces),
            topic,
            partition,
            None,
        ),
{
    let after = with_partition(produces, topic, partition);
    let wanted = with_cell(unscanned_produces(produces), topic, partition, None);
    assert(unscanned_produces(after)[topic] =~= wanted[topic]);
    assert(unscanned_produces(after) =~= wanted);
}

/// What is left of added partitions rests on what was left before.
proof fn lemma_with_partitions(a: ProducesModel, b: ProducesModel, list: Seq<(Seq<char>, i32)>)
    requires
        unscanned_produces(a) == unscanned_produces(b),
    ensures
        unscanned_produces(with_partitions(a, list)) == unscanned_produces(
            with_partitions(b, list),
        ),
    decreases list.len(),
{
    if list.len() > 0 {
        let init = list.drop_last();
        lemma_with_partitions(a, b, init);
        lemma_with_partition(with_partitions(a, init), list.last().0, list.last().1);
        lemma_with_partition(with_partitions(b, init), list.last().0, list.last().1);
    }
}

proof fn lemma_begun(
    a: TxnDetailModel,
    b: TxnDetailModel,
    partitions: Seq<(Seq<char>, i32)>,
    started_at: SystemTime,
)
    requires
        unscanned_detail()(a) == unscanned_detail()(b),
    ensures
        unscanned_detail()(begun(a, partitions, started_at)) == unscanned_detail()(
            begun(b, partitions, started_at),
        ),
{
    assert(a.state == b.state);
    let over = a.state matches Some(state) && state.terminal();
    if !over {
        if a.state != Some(TxnState::Begin) {
            assert(a == b);
        }
        lemma_with_partitions(a.produces, b.produces, partitions);
    }
}

/// A changed incarnation shows in what is left as a changed incarnation.
proof fn lemma_unscanned_txn(
    coord: CoordModel,
    id: Seq<char>,
    epoch: i16,
    detail: TxnDetailModel,
)
    requires
        coord.transactions.dom().contains(id),
    ensures
        unscanned(with_txn(coord, id, epoch, detail)) == with_txn(
            unscanned(coord),
            id,
            epoch,
            unscanned_detail()(detail),
        ),
{
    let after = unscanned(with_txn(coord, id, epoch, detail));
    let wanted = with_txn(unscanned(coord), id, epoch, unscanned_detail()(detail));
    assert(after.transactions[id].epochs =~= wanted.transactions[id].epochs);
    assert(after.transactions =~= wanted.transactions);
}

/// A change that respects what is left of an incarnation respects what is left
/// of the state.
proof fn lemma_unscanned_named(
    a: CoordModel,
    b: CoordModel,
    id: Seq<char>,
    producer_id: i64,
    epoch: i16,
    change: spec_fn(TxnDetailModel) -> TxnDetailModel,
)
    requires
        unscanned(a) == unscanned(b),
        forall|x: TxnDetailModel, y: TxnDetailModel|
            unscanned_detail()(x) == unscanned_detail()(y) ==> unscanned_detail()(
                #[trigger] change(x),
            ) == unscanned_detail()(#[trigger] change(y)),
    ensures
        unscanned(with_named(a, id, producer_id, epoch, change)) == unscanned(
            with_named(b, id, producer_id, epoch, change),
        ),
{
    let left_a = unscanned(a);
    let left_b = unscanned(b);
    assert(a.transactions.dom().contains(id) == left_a.transactions.dom().contains(id));
    assert(b.transactions.dom().contains(id) == left_b.transactions.dom().contains(id));
    if a.transactions.dom().contains(id) {
        let ta = a.transactions[id];
        let tb = b.transactions[id];
        assert(left_a.transactions[id] == without_open_ranges()(ta));
        assert(left_b.transactions[id] == without_open_ranges()(tb));
        assert(ta.producer == tb.producer);
        assert(ta.epochs.dom().contains(epoch) == left_a.transactions[id].epochs.dom().contains(
            epoch,
        ));
        assert(tb.epochs.dom().contains(epoch) == left_b.transactions[id].epochs.dom().contains(
            epoch,
        ));
        if ta.producer == producer_id && ta.epochs.dom().contains(epoch) {
            let da = ta.epochs[epoch];
            let db = tb.epochs[epoch];
            assert(left_a.transactions[id].epochs[epoch] == unscanned_detail()(da));
            assert(left_b.transactions[id].epochs[epoch] == unscanned_detail()(db));
            lemma_unscanned_txn(a, id, epoch, change(da));
            lemma_unscanned_txn(b, id, epoch, change(db));
        }
    }
}

proof fn lemma_unscanned_producer(
    coord: CoordModel,
    producer_id: i64,
    transaction_id: Option<Seq<char>>,
    timeout: i32,
)
    ensures
        unscanned(with_producer(coord, producer_id, transaction_id, timeout)) == with_producer(
            unscanned(coord),
            producer_id,
            transaction_id,
            timeout,
        ),
{
    let after = unscanned(with_producer(coord, producer_id, transaction_id, timeout));
    let wanted = with_producer(unscanned(coord), producer_id, transaction_id, timeout);
    assert(after.producers[producer_id] =~= wanted.producers[producer_id]);
    assert(after.producers =~= wanted.producers);
    if let Some(id) = transaction_id {
        assert(after.transactions[id].epochs =~= wanted.transactions[id].epochs);
    }
    assert(after.transactions =~= wanted.transactions);
}

proof fn lemma_unscanned_epoch(
    coord: CoordModel,
    id: Seq<char>,
    producer_id: i64,
    epoch: i16,
    timeout: i32,
)
    ensures
        unscanned(with_epoch(coord, id, producer_id, epoch, timeout)) == with_epoch(
            unscanned(coord),
            id,
            producer_id,
            epoch,
            timeout,
        ),
{
    let after = unscanned(with_epoch(coord, id, producer_id, epoch, timeout));
    let wanted = with_epoch(unscanned(coord), id, producer_id, epoch, timeout);
    if coord.producers.dom().contains(producer_id) {
        assert(after.producers[producer_id] =~= wanted.producers[producer_id]);
    }
    assert(after.producers =~= wanted.producers);
    if coord.transactions.dom().contains(id) {
        assert(after.transactions[id].epochs =~= wanted.transactions[id].epochs);
    }
    assert(after.transactions =~= wanted.transactions);
}

/// What a replayed record leaves, but for what the segment scan rebuilds, rests
/// on no more than that.
pub proof fn law_replay_needs_no_scan(a: ImageModel, b: ImageModel, record: Record)
    requires
        unscanned_image(a) == unscanned_image(b),
    ensures
        unscanned_image(applied(a, record)) == unscanned_image(applied(b, record)),
{
    assert(unscanned(a.coord) == unscanned_image(a).coord);
    assert(unscanned(b.coord) == unscanned_image(b).coord);
    assert(a.coord.topics == unscanned(a.coord).topics);
    assert(b.coord.topics == unscanned(b.coord).topics);
    assert(a.coord.scram == unscanned(a.coord).scram);
    assert(b.coord.scram == unscanned(b.coord).scram);
    assert(a.groups == unscanned_image(a).groups);
    assert(b.groups == unscanned_image(b).groups);
    assert(a.group_offsets == unscanned_image(a).group_offsets);
    assert(b.group_offsets == unscanned_image(b).group_offsets);
    assert(a.skeletons == unscanned_image(a).skeletons);
    assert(b.skeletons == unscanned_image(b).skeletons);
    assert(unscanned(a.coord).producers == unscanned(b.coord).producers);
    assert(unscanned(a.coord).transactions == unscanned(b.coord).transactions);
    match record {
        Record::PidAlloc { producer_id, transaction_id, transaction_timeout_ms } => {
            lemma_unscanned_producer(a.coord, producer_id, transaction_id, transaction_timeout_ms);
            lemma_unscanned_producer(b.coord, producer_id, transaction_id, transaction_timeout_ms);
        },
        Record::EpochBump {
            transaction_id,
            producer_id,
            producer_epoch,
            transaction_timeout_ms,
        } => {
            lemma_unscanned_epoch(
                a.coord,
                transaction_id,
                producer_id,
                producer_epoch,
                transaction_timeout_ms,
            );
            lemma_unscanned_epoch(
                b.coord,
                transaction_id,
                producer_id,
                producer_epoch,
                transaction_timeout_ms,
            );
        },
        Record::TxnBegin { transaction_id, producer_id, producer_epoch, started_at, partitions } => {
            let change = |detail: TxnDetailModel| begun(detail, partitions, started_at);
            assert forall|x: TxnDetailModel, y: TxnDetailModel|
                unscanned_detail()(x) == unscanned_detail()(y) implies unscanned_detail()(
                #[trigger] change(x),
            ) == unscanned_detail()(#[trigger] change(y)) by {
                lemma_begun(x, y, partitions, started_at);
            }
            lemma_unscanned_named(
                a.coord,
                b.coord,
                transaction_id,
                producer_id,
                producer_epoch,
                change,
            );
        },
        Record::TxnPrepare { transaction_id, producer_id, producer_epoch, committed, produced } => {
            lemma_unscanned_named(
                a.coord,
                b.coord,
                transaction_id,
                producer_id,
                producer_epoch,
                |detail: TxnDetailModel|
                    TxnDetailModel {
                        state: Some(prepared_state(committed)),
                        produces: ranges_map(produced),
                        ..detail
                    },
            );
        },
        Record::TxnTerminal { transaction_id, producer_id, producer_epoch, committed, aborted } => {
            lemma_unscanned_named(
                a.coord,
                b.coord,
                transaction_id,
                producer_id,
                producer_epoch,
                |detail: TxnDetailModel| ended(detail, terminal_state(committed)),
            );
        },
        Record::TxnOffsets { transaction_id, producer_id, producer_epoch, group, offsets } => {
            lemma_unscanned_named(
                a.coord,
                b.coord,
                transaction_id,
                producer_id,
                producer_epoch,
                |detail: TxnDetailModel|
                    TxnDetailModel {
                        offsets: with_offsets(detail.offsets, group, offsets),
                        ..detail
                    },
            );
        },
        _ => {},
    }
}

proof fn lemma_replayed_unscanned(a: ImageModel, b: ImageModel, records: Seq<Record>)
    requires
        unscanned_image(a) == unscanned_image(b),
    ensures
        unscanned_image(replayed(a, records)) == unscanned_image(replayed(b, records)),
    decreases records.len(),
{
    if records.len() > 0 {
        lemma_replayed_unscanned(a, b, records.drop_last());
        law_replay_needs_no_scan(
            replayed(a, records.drop_last()),
            replayed(b, records.drop_last()),
            records.last(),
        );
    }
}

/// Replaying on a state without what the segment scan rebuilds gives what
/// replaying on the state itself does, but for that.
pub proof fn law_replay_on_unscanned(image: ImageModel, records: Seq<Record>)
    ensures
        unscanned_image(replayed(unscanned_image(image), records)) == unscanned_image(
            replayed(image, records),
        ),
{
    let bare = unscanned_image(image);
    let again = unscanned_image(bare);
    assert forall|id: i64| bare.coord.producers.dom().contains(id) implies again.coord.producers[id]
        == #[trigger] bare.coord.producers[id] by {
        assert(again.coord.producers[id] =~= bare.coord.producers[id]);
    }
    assert(again.coord.producers =~= bare.coord.producers);
    assert forall|id: Seq<char>| bare.coord.transactions.dom().contains(
        id,
    ) implies again.coord.transactions[id] == #[trigger] bare.coord.transactions[id] by {
        let x = again.coord.transactions[id].epochs;
        let y = bare.coord.transactions[id].epochs;
        assert forall|epoch: i16| y.dom().contains(epoch) implies x[epoch] == #[trigger] y[epoch] by {
            lemma_unscanned_twice(image.coord.transactions[id].epochs[epoch]);
        }
        assert(x =~= y);
    }
    assert(again.coord.transactions =~= bare.coord.transactions);
    lemma_replayed_unscanned(bare, image, records);
}

proof fn lemma_unscanned_twice(detail: TxnDetailModel)
    ensures
        unscanned_detail()(unscanned_detail()(detail)) == unscanned_detail()(detail),
{
    let once = unscanned_produces(detail.produces);
    let twice = unscanned_produces(once);
    assert forall|topic: Seq<char>| once.dom().contains(topic) implies twice[topic]
        == #[trigger] once[topic] by {
        assert(twice[topic] =~= once[topic]);
    }
    assert(twice =~= once);
}

} // verus!
