//! What adding partitions, staging offsets and preparing the end do to a
//! transaction, and what a new incarnation starts with.

use crate::commit_laws::staged_at;
use crate::error::ErrorCode;
use crate::model::Model;
use crate::overlap_laws::is_prepared;
use crate::produce_laws::{due, range_at};
use crate::replay::{with_epoch, with_named, with_producer};
use crate::resolution::lemma_listed_ranges;
use crate::state::{
    cell, produced_ranges, txn_at, txn_refusal, with_txn, CommitOffsetModel, CoordModel,
    OffsetsModel, ProducesModel, TxnDetail, TxnDetailModel, TxnProduceOffset,
};
use crate::time::SystemTime;
use crate::txn::{
    answers, begun, flat_offsets, listed, marked, offset_answers, or_none, prepared_state,
    with_offsets, with_partitions,
};
use crate::types::TxnState;
use vstd::prelude::*;

verus! {

/// Whether a partition was added to a transaction, whether or not anything was
/// produced to it.
pub open spec fn has_partition(produces: ProducesModel, topic: Seq<char>, partition: i32) -> bool {
    produces.dom().contains(topic) && produces[topic].dom().contains(partition)
}

proof fn lemma_with_partitions(
    produces: ProducesModel,
    partitions: Seq<(Seq<char>, i32)>,
    topic: Seq<char>,
    partition: i32,
)
    ensures
        ({
            let after = with_partitions(produces, partitions);
            &&& has_partition(after, topic, partition) <==> has_partition(
                produces,
                topic,
                partition,
            ) || partitions.contains((topic, partition))
            &&& range_at(after, topic, partition) == range_at(produces, topic, partition)
        }),
    decreases partitions.len(),
{
    if partitions.len() > 0 {
        let init = partitions.drop_last();
        let n = partitions.len() - 1;
        lemma_with_partitions(produces, init, topic, partition);
        lemma_with_partitions(produces, init, partitions.last().0, partitions.last().1);
        let item = (topic, partition);
        assert(partitions.contains(item) <==> init.contains(item) || partitions[n] == item) by {
            if init.contains(item) {
                let i = choose|i: int| 0 <= i < init.len() && init[i] == item;
                assert(partitions[i] == item);
            }
            if partitions.contains(item) && partitions[n] != item {
                let i = choose|i: int| 0 <= i < partitions.len() && partitions[i] == item;
                assert(init[i] == item);
            }
        }
    }
}

/// Adding partitions opens the transaction, from then on. It has the partitions
/// it had and those that are added, with the ranges it had; its staged offsets
/// and its timeout stay. One that had ended begins with the added partitions
/// and nothing else.
pub proof fn law_partitions_are_added(
    detail: TxnDetailModel,
    partitions: Seq<(Seq<char>, i32)>,
    started_at: SystemTime,
    topic: Seq<char>,
    partition: i32,
)
    ensures
        ({
            let after = begun(detail, partitions, started_at);
            let over = detail.state == Some(TxnState::Committed) || detail.state == Some(
                TxnState::Aborted,
            );
            &&& after.state == Some(TxnState::Begin)
            &&& after.started_at == Some(started_at)
            &&& after.transaction_timeout_ms == detail.transaction_timeout_ms
            &&& has_partition(after.produces, topic, partition) <==> partitions.contains(
                (topic, partition),
            ) || (!over && has_partition(detail.produces, topic, partition))
            &&& range_at(after.produces, topic, partition) == if over {
                None
            } else {
                range_at(detail.produces, topic, partition)
            }
            &&& !over ==> after.offsets == detail.offsets
            &&& over ==> after.offsets.dom() == Set::<Seq<char>>::empty()
        }),
{
    let over = detail.state == Some(TxnState::Committed) || detail.state == Some(TxnState::Aborted);
    let start = if over {
        Map::empty()
    } else {
        detail.produces
    };
    lemma_with_partitions(start, partitions, topic, partition);
    assert(begun(detail, partitions, started_at).offsets.dom() =~= if over {
        Set::<Seq<char>>::empty()
    } else {
        detail.offsets.dom()
    });
}

/// The partitions of a request are those of its topics, one after the other,
/// each in its order.
pub proof fn law_request_is_listed<T>(topics: Seq<(Seq<char>, Option<Seq<T>>)>)
    ensures
        listed(topics) == topics.map_values(
            |topic: (Seq<char>, Option<Seq<T>>)|
                match topic.1 {
                    Some(partitions) => partitions.map_values(|partition: T| (topic.0, partition)),
                    None => Seq::empty(),
                },
        ).flatten(),
    decreases topics.len(),
{
    let of = |topic: (Seq<char>, Option<Seq<T>>)|
        match topic.1 {
            Some(partitions) => partitions.map_values(|partition: T| (topic.0, partition)),
            None => Seq::<(Seq<char>, T)>::empty(),
        };
    if topics.len() == 0 {
        assert(topics.map_values(of).flatten() =~= Seq::<(Seq<char>, T)>::empty());
    } else {
        let init = topics.drop_last();
        law_request_is_listed(init);
        let own = of(topics.last());
        assert(topics.map_values(of) =~= init.map_values(of).push(own));
        init.map_values(of).lemma_flatten_push(own);
        let (name, partitions) = topics.last();
        assert(own =~= Seq::new(or_none(partitions).len(), |j: int| (name, or_none(partitions)[j])));
    }
}

/// Every partition of a request is answered, in its order and with its topic's
/// name, with one code.
pub proof fn law_every_partition_is_answered(
    topics: Seq<(Seq<char>, Option<Seq<i32>>)>,
    code: ErrorCode,
    i: int,
)
    requires
        0 <= i < topics.len(),
    ensures
        ({
            let answered = answers(topics, code);
            let asked = match topics[i].1 {
                Some(partitions) => partitions,
                None => Seq::empty(),
            };
            &&& answered.len() == topics.len()
            &&& answered[i].0 == topics[i].0
            &&& answered[i].1.len() == asked.len()
            &&& forall|j: int|
                0 <= j < asked.len() ==> #[trigger] answered[i].1[j] == (asked[j], code)
        }),
{
}

/// Every partition that an offset is staged for is answered, in its order and
/// with its topic's name, with one code.
pub proof fn law_every_staged_partition_is_answered(
    topics: Seq<(Seq<char>, Option<Seq<(i32, CommitOffsetModel)>>)>,
    code: ErrorCode,
    i: int,
)
    requires
        0 <= i < topics.len(),
    ensures
        ({
            let answered = offset_answers(topics, code);
            let asked = match topics[i].1 {
                Some(partitions) => partitions,
                None => Seq::empty(),
            };
            &&& answered.len() == topics.len()
            &&& answered[i].0 == topics[i].0
            &&& answered[i].1.len() == asked.len()
            &&& forall|j: int|
                0 <= j < asked.len() ==> #[trigger] answered[i].1[j] == (asked[j].0, code)
        }),
{
}

/// What a request stages is topic, partition and offset as it lists them.
pub proof fn law_staged_list(list: Seq<(Seq<char>, (i32, CommitOffsetModel))>)
    ensures
        flat_offsets(list).len() == list.len(),
        forall|i: int|
            0 <= i < list.len() ==> #[trigger] flat_offsets(list)[i] == (
                list[i].0,
                list[i].1.0,
                list[i].1.1,
            ),
{
}

/// Staging offsets: a partition of the group has the last one that is listed
/// for it; where none is, and in every other group, what was staged stays.
pub proof fn law_offsets_are_staged(
    offsets: OffsetsModel,
    group: Seq<char>,
    list: Seq<(Seq<char>, i32, CommitOffsetModel)>,
    other: Seq<char>,
    topic: Seq<char>,
    partition: i32,
)
    ensures
        ({
            let after = with_offsets(offsets, group, list);
            &&& forall|i: int|
                0 <= i < list.len() && ((#[trigger] list[i]).0, list[i].1) == (topic, partition) && (
                forall|j: int|
                    i < j < list.len() ==> ((#[trigger] list[j]).0, list[j].1) != (
                        topic,
                        partition,
                    )) ==> staged_at(after, group, topic, partition) == Some(list[i].2)
            &&& other != group || (forall|i: int|
                0 <= i < list.len() ==> ((#[trigger] list[i]).0, list[i].1) != (topic, partition))
                ==> staged_at(after, other, topic, partition) == staged_at(
                offsets,
                other,
                topic,
                partition,
            )
        }),
    decreases list.len(),
{
    if list.len() > 0 {
        let init = list.drop_last();
        let n = list.len() - 1;
        assert forall|i: int| 0 <= i < n implies #[trigger] list[i] == init[i] by {}
        law_offsets_are_staged(offsets, group, init, other, topic, partition);
        let after = with_offsets(offsets, group, list);
        let before = with_offsets(offsets, group, init);
        assert forall|i: int|
            0 <= i < list.len() && ((#[trigger] list[i]).0, list[i].1) == (topic, partition) && (
            forall|j: int|
                i < j < list.len() ==> ((#[trigger] list[j]).0, list[j].1) != (
                    topic,
                    partition,
                )) implies staged_at(after, group, topic, partition) == Some(list[i].2) by {
            if i < n {
                assert((list[n].0, list[n].1) != (topic, partition));
                assert((init[i].0, init[i].1) == (topic, partition));
                assert forall|j: int| i < j < init.len() implies ((#[trigger] init[j]).0, init[j].1)
                    != (topic, partition) by {
                    assert((list[j].0, list[j].1) != (topic, partition));
                }
                assert(staged_at(before, group, topic, partition) == Some(init[i].2));
            }
        }
        if other != group || (forall|i: int|
            0 <= i < list.len() ==> ((#[trigger] list[i]).0, list[i].1) != (topic, partition)) {
            if other == group {
                assert((list[n].0, list[n].1) != (topic, partition));
                assert forall|i: int| 0 <= i < init.len() implies ((#[trigger] init[i]).0, init[i].1)
                    != (topic, partition) by {
                    assert((list[i].0, list[i].1) != (topic, partition));
                }
            }
        }
    }
}

/// The ranges that are logged of a prepared transaction are those it produced,
/// and the partitions that get an end marker are those of these ranges: every
/// partition that it produced to, and no other.
pub proof fn law_prepare_marks_what_was_produced(
    detail: &TxnDetail,
    topic: Seq<char>,
    partition: i32,
)
    requires
        detail.wf(),
    ensures
        ({
            let produces = detail.model().produces;
            let produced = produced_ranges(produces);
            &&& forall|range: TxnProduceOffset| #[trigger]
                produced.contains((topic, partition, range)) <==> range_at(
                    produces,
                    topic,
                    partition,
                ) == Some(range)
            &&& marked(produced).contains((topic, partition)) <==> range_at(
                produces,
                topic,
                partition,
            ) is Some
            &&& marked(produced).len() == produced.len()
        }),
{
    let produces = detail.model().produces;
    let produced = produced_ranges(produces);
    let markers = marked(produced);
    lemma_listed_ranges(detail, topic, partition);
    assert forall|range: TxnProduceOffset| #[trigger]
        produced.contains((topic, partition, range)) <==> range_at(produces, topic, partition)
            == Some(range) by {
        assert(produced.contains((topic, partition, range)) <==> cell(produces, topic, partition)
            == Some(Some(range)));
    }
    if markers.contains((topic, partition)) {
        let i = choose|i: int| 0 <= i < markers.len() && markers[i] == (topic, partition);
        assert(produced.contains(produced[i]));
        assert(produced.contains((topic, partition, produced[i].2)));
    }
    if range_at(produces, topic, partition) is Some {
        let range = range_at(produces, topic, partition).unwrap();
        assert(produced.contains((topic, partition, range)));
        let i = choose|i: int|
            0 <= i < produced.len() && produced[i] == (topic, partition, range);
        assert(markers[i] == (topic, partition));
    }
}

/// A transaction that is prepared is prepared for what was asked: a commit is
/// no abort.
pub proof fn law_prepared_as_asked(
    coord: CoordModel,
    transaction_id: Seq<char>,
    epoch: i16,
    committed: bool,
    other: Seq<char>,
    other_epoch: i16,
)
    requires
        txn_at(coord, transaction_id, epoch) is Some,
    ensures
        ({
            let detail = txn_at(coord, transaction_id, epoch).unwrap();
            let after = with_txn(
                coord,
                transaction_id,
                epoch,
                TxnDetailModel { state: Some(prepared_state(committed)), ..detail },
            );
            &&& is_prepared(after, transaction_id, epoch)
            &&& txn_at(after, transaction_id, epoch).unwrap().state == Some(
                TxnState::PrepareCommit,
            ) <==> committed
            &&& (other, other_epoch) != (transaction_id, epoch) ==> txn_at(
                after,
                other,
                other_epoch,
            ) == txn_at(coord, other, other_epoch)
            &&& after == (CoordModel { transactions: after.transactions, ..coord })
        }),
{
}

/// Why a request on a transaction is refused, if it is: no transaction has the
/// id, another producer has it, or the epoch is not its greatest.
pub proof fn law_only_the_current_producer_is_served(
    coord: CoordModel,
    transaction_id: Seq<char>,
    producer_id: i64,
    producer_epoch: i16,
)
    ensures
        ({
            let refusal = txn_refusal(coord, transaction_id, producer_id, producer_epoch);
            let known = coord.transactions.dom().contains(transaction_id);
            let txn = coord.transactions[transaction_id];
            let current = txn.epochs.dom().contains(producer_epoch) && forall|epoch: i16| #[trigger]
                txn.epochs.dom().contains(epoch) ==> epoch <= producer_epoch;
            &&& refusal == Some(ErrorCode::TransactionalIdNotFound) <==> !known
            &&& refusal == Some(ErrorCode::UnknownProducerId) <==> known && txn.producer
                != producer_id
            &&& refusal == Some(ErrorCode::ProducerFenced) <==> known && txn.producer == producer_id
                && !current
            &&& refusal is None <==> known && txn.producer == producer_id && current
        }),
{
}

/// A new producer, and a new epoch of one, start afresh: no sequence number is
/// kept for it, so that its first batch on any partition is numbered 0, and the
/// transaction's new incarnation has not begun, has produced and staged nothing
/// and has the timeout that was asked for. What earlier epochs have stays.
pub proof fn law_new_epoch_starts_afresh(
    coord: CoordModel,
    transaction_id: Seq<char>,
    producer_id: i64,
    producer_epoch: i16,
    transaction_timeout_ms: i32,
    topic: Seq<char>,
    partition: i32,
    other: Seq<char>,
    other_epoch: i16,
)
    requires
        coord.transactions.dom().contains(transaction_id),
        coord.producers.dom().contains(producer_id),
    ensures
        ({
            let new = with_producer(coord, producer_id, Some(transaction_id), transaction_timeout_ms);
            let next = with_epoch(
                coord,
                transaction_id,
                producer_id,
                producer_epoch,
                transaction_timeout_ms,
            );
            &&& new.producers.dom().contains(producer_id)
            &&& new.producers[producer_id].dom() == set![0i16]
            &&& due(new, producer_id, 0, topic, partition) == 0
            &&& new.transactions[transaction_id].producer == producer_id
            &&& new.transactions[transaction_id].epochs.dom() == set![0i16]
            &&& afresh(txn_at(new, transaction_id, 0).unwrap(), transaction_timeout_ms)
            &&& next.producers[producer_id].dom() == coord.producers[producer_id].dom().insert(
                producer_epoch,
            )
            &&& due(next, producer_id, producer_epoch, topic, partition) == 0
            &&& next.transactions[transaction_id].producer
                == coord.transactions[transaction_id].producer
            &&& txn_at(next, transaction_id, producer_epoch) matches Some(detail) && afresh(
                detail,
                transaction_timeout_ms,
            )
            &&& (other, other_epoch) != (transaction_id, producer_epoch) ==> txn_at(
                next,
                other,
                other_epoch,
            ) == txn_at(coord, other, other_epoch)
            &&& other_epoch != producer_epoch ==> due(
                next,
                producer_id,
                other_epoch,
                topic,
                partition,
            ) == due(coord, producer_id, other_epoch, topic, partition)
        }),
{
    let new = with_producer(coord, producer_id, Some(transaction_id), transaction_timeout_ms);
    let next = with_epoch(
        coord,
        transaction_id,
        producer_id,
        producer_epoch,
        transaction_timeout_ms,
    );
    assert(new.producers[producer_id].dom() =~= set![0i16]);
    assert(new.transactions[transaction_id].epochs.dom() =~= set![0i16]);
    assert(next.producers[producer_id].dom() =~= coord.producers[producer_id].dom().insert(
        producer_epoch,
    ));
}

/// Whether an incarnation has done nothing yet.
pub open spec fn afresh(detail: TxnDetailModel, transaction_timeout_ms: i32) -> bool {
    &&& detail.transaction_timeout_ms == transaction_timeout_ms
    &&& detail.started_at is None
    &&& detail.state is None
    &&& forall|topic: Seq<char>| !#[trigger] detail.produces.dom().contains(topic)
    &&& forall|group: Seq<char>| !#[trigger] detail.offsets.dom().contains(group)
}

/// A record of a transaction changes the incarnation that it names, where the
/// transaction is the named producer's and has that epoch, and changes nothing
/// otherwise; no other incarnation changes, and nothing else does.
pub proof fn law_record_changes_what_it_names(
    coord: CoordModel,
    transaction_id: Seq<char>,
    producer_id: i64,
    epoch: i16,
    change: spec_fn(TxnDetailModel) -> TxnDetailModel,
    other: Seq<char>,
    other_epoch: i16,
)
    ensures
        ({
            let after = with_named(coord, transaction_id, producer_id, epoch, change);
            let named = coord.transactions.dom().contains(transaction_id)
                && coord.transactions[transaction_id].producer == producer_id
                && coord.transactions[transaction_id].epochs.dom().contains(epoch);
            &&& !named ==> after == coord
            &&& named ==> txn_at(after, transaction_id, epoch) == Some(
                change(txn_at(coord, transaction_id, epoch).unwrap()),
            )
            &&& (other, other_epoch) != (transaction_id, epoch) ==> txn_at(
                after,
                other,
                other_epoch,
            ) == txn_at(coord, other, other_epoch)
            &&& coord.transactions.dom().contains(other) ==> after.transactions[other].producer
                == coord.transactions[other].producer
            &&& after.producers == coord.producers
            &&& after.topics == coord.topics
            &&& after.scram == coord.scram
        }),
{
}

} // verus!
