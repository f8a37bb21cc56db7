//! What holds of any run of producers' first requests, rollbacks included.

use crate::error::ErrorCode;
use crate::model::{Key, Model};
use crate::ordmap::{
    ascending, greatest, lemma_ascending_at, lemma_ascending_position, lemma_top_key, to_map,
    top_key,
};
use crate::overlap::{ending_too, ends_too, held, lemma_filtered, unended_txns};
use crate::overlap_laws::{lemma_resolved_at, listed};
use crate::producer::{initiated, next_producer, no_producer, Initiation, ProducerIdResponse};
use crate::state::{
    txn_at, txn_refusal, with_txn, CoordModel, CoordState, ProducesModel, SequenceModel,
    TxnDetailModel, TxnModel, TxnRefModel,
};
use crate::txn::{ending, resolution, resolved};
use crate::txn_laws::afresh;
use crate::types::TxnState;
use vstd::prelude::*;

verus! {

/// A producer's first request, and the ranges that its open incarnation has
/// produced once it has its end markers, where it is rolled back.
pub struct InitCall {
    pub transaction_id: Option<Seq<char>>,
    pub transaction_timeout_ms: i32,
    pub producer_id: Option<i64>,
    pub producer_epoch: Option<i16>,
    pub produces: ProducesModel,
}

/// The state after the open incarnation of a transaction was prepared to
/// abort, and has got its end markers.
pub open spec fn prepared_to_abort(
    coord: CoordModel,
    transaction_id: Seq<char>,
    produces: ProducesModel,
) -> CoordModel {
    let epochs = coord.transactions[transaction_id].epochs;
    let epoch = top_key::<i16, TxnDetailModel>(epochs);
    with_txn(
        coord,
        transaction_id,
        epoch,
        TxnDetailModel { state: Some(TxnState::PrepareAbort), produces, ..epochs[epoch] },
    )
}

/// The state after it was resolved, too.
pub open spec fn rolled_back(
    coord: CoordModel,
    transaction_id: Seq<char>,
    produces: ProducesModel,
) -> CoordModel {
    let txn = coord.transactions[transaction_id];
    resolution(
        prepared_to_abort(coord, transaction_id, produces),
        transaction_id,
        txn.producer,
        top_key::<i16, TxnDetailModel>(txn.epochs),
        false,
    ).0
}

/// The state after a request was served, and its answer: where the transaction
/// is open it is rolled back, and the request made again.
pub open spec fn init_served(coord: CoordModel, call: InitCall) -> (
    CoordModel,
    ProducerIdResponse,
) {
    match initiated(
        coord,
        call.transaction_id,
        call.transaction_timeout_ms,
        call.producer_id,
        call.producer_epoch,
    ) {
        (after, Initiation::Completed { response, .. }) => (after, response),
        (_, Initiation::NeedToRollback { .. }) => match initiated(
            rolled_back(coord, call.transaction_id.unwrap(), call.produces),
            call.transaction_id,
            call.transaction_timeout_ms,
            call.producer_id,
            call.producer_epoch,
        ) {
            (after, Initiation::Completed { response, .. }) => (after, response),
            (after, Initiation::NeedToRollback { .. }) => (after, no_producer()),
        },
    }
}

/// The state after a run of requests, and their answers.
pub open spec fn init_run(coord: CoordModel, calls: Seq<InitCall>) -> (
    CoordModel,
    Seq<ProducerIdResponse>,
)
    decreases calls.len(),
{
    if calls.len() == 0 {
        (coord, Seq::empty())
    } else {
        let (before, responses) = init_run(coord, calls.drop_last());
        let (after, response) = init_served(before, calls.last());
        (after, responses.push(response))
    }
}

/// Whether producers and epochs have a greatest one to count on from: there is
/// no transaction without an incarnation.
pub open spec fn countable(coord: CoordModel) -> bool {
    &&& coord.producers == Map::<i64, Map<i16, SequenceModel>>::empty() || greatest::<
        i64,
        Map<i16, SequenceModel>,
    >(coord.producers, top_key::<i64, Map<i16, SequenceModel>>(coord.producers))
    &&& forall|id: Seq<char>| #[trigger]
        coord.transactions.dom().contains(id) ==> has_top(coord.transactions[id].epochs)
}

/// Whether a transaction's incarnations have a greatest epoch.
pub open spec fn has_top(epochs: Map<i16, TxnDetailModel>) -> bool {
    greatest::<i16, TxnDetailModel>(epochs, top_key::<i16, TxnDetailModel>(epochs))
}

/// A state in which every transaction has an incarnation can be counted on.
pub proof fn law_countable(coord: &CoordState)
    requires
        coord.wf(),
        forall|id: Seq<char>| #[trigger]
            coord.model().transactions.dom().contains(id) ==> coord.model().transactions[id].epochs
                != Map::<i16, TxnDetailModel>::empty(),
    ensures
        countable(coord.model()),
{
    let model = coord.model();
    coord.producers.lemma_seq();
    if model.producers != Map::<i64, Map<i16, SequenceModel>>::empty() {
        lemma_last_is_top::<i64, Map<i16, SequenceModel>>(coord.producers.seq());
    }
    assert forall|id: Seq<char>| #[trigger] model.transactions.dom().contains(id) implies has_top(
        model.transactions[id].epochs,
    ) by {
        coord.transactions.lemma_seq();
        let i = lemma_ascending_position::<String, TxnModel>(coord.transactions.seq(), id);
        let txn = coord.transactions.lemma_value(i);
        txn.epochs.lemma_seq();
        lemma_last_is_top::<i16, TxnDetailModel>(txn.epochs.seq());
    }
}

/// The last key of an ascending list is the greatest.
proof fn lemma_last_is_top<K: Key, W>(rows: Seq<(K::V, W)>)
    requires
        ascending::<K, W>(rows),
        to_map(rows) != Map::<K::V, W>::empty(),
    ensures
        greatest::<K, W>(
            to_map(rows),
            top_key::<K, W>(to_map(rows)),
        ),
{
    let map = to_map(rows);
    let top = rows[rows.len() - 1].0;
    lemma_ascending_at::<K, W>(rows, rows.len() - 1);
    assert forall|k: K::V| #[trigger] map.dom().contains(k) implies !K::precedes(top, k) by {
        let i = lemma_ascending_position::<K, W>(rows, k);
        K::precedes_irreflexive(top);
        if i < rows.len() - 1 {
            assert(K::precedes(rows[i].0, rows[rows.len() - 1].0));
            if K::precedes(top, k) {
                K::precedes_transitive(top, k, top);
            }
        }
    }
    assert(greatest::<K, W>(map, top));
}

/// Whether the id or the epoch that a request would get can be counted up to.
pub open spec fn has_room(coord: CoordModel, call: InitCall) -> bool {
    if known(coord, call) {
        top_key::<i16, TxnDetailModel>(
            coord.transactions[call.transaction_id.unwrap()].epochs,
        ) < i16::MAX
    } else {
        next_producer(coord) <= i64::MAX
    }
}

/// Whether a request names a transaction that is known.
pub open spec fn known(coord: CoordModel, call: InitCall) -> bool {
    call.transaction_id matches Some(id) && coord.transactions.dom().contains(id)
}

/// Whether a request asks for an id or an epoch.
pub open spec fn asks(call: InitCall) -> bool {
    call.producer_id == Some(-1 as i64) && call.producer_epoch == Some(-1 as i16)
}

proof fn lemma_resolved_frame(coord: CoordModel, txns: Seq<TxnRefModel>)
    ensures
        resolved(coord, txns).0.producers == coord.producers,
        resolved(coord, txns).0.transactions.dom() =~= coord.transactions.dom(),
        forall|id: Seq<char>| #[trigger]
            coord.transactions.dom().contains(id) ==> {
                let after = resolved(coord, txns).0.transactions[id];
                after.producer == coord.transactions[id].producer && after.epochs.dom()
                    =~= coord.transactions[id].epochs.dom()
            },
    decreases txns.len(),
{
    if txns.len() > 0 {
        lemma_resolved_frame(coord, txns.drop_last());
    }
}

/// Epochs keep their greatest while their keys stay.
proof fn lemma_same_top(before: Map<i16, TxnDetailModel>, after: Map<i16, TxnDetailModel>)
    requires
        has_top(before),
        before.dom() =~= after.dom(),
    ensures
        has_top(after),
        top_key::<i16, TxnDetailModel>(after) == top_key::<i16, TxnDetailModel>(before),
{
    let top = top_key::<i16, TxnDetailModel>(before);
    assert(greatest::<i16, TxnDetailModel>(after, top));
    lemma_top_key::<i16, TxnDetailModel>(after, top);
}

/// Rolling back ends the open incarnation as aborted, or leaves it prepared to
/// abort where it overlaps an open one; ids, producers and epochs stay.
proof fn lemma_rolled_back(coord: CoordModel, transaction_id: Seq<char>, produces: ProducesModel)
    requires
        countable(coord),
        coord.transactions.dom().contains(transaction_id),
    ensures
        ({
            let after = rolled_back(coord, transaction_id, produces);
            let top = top_key::<i16, TxnDetailModel>(coord.transactions[transaction_id].epochs);
            &&& countable(after)
            &&& after.producers == coord.producers
            &&& after.transactions.dom() =~= coord.transactions.dom()
            &&& after.transactions[transaction_id].producer
                == coord.transactions[transaction_id].producer
            &&& top_key::<i16, TxnDetailModel>(after.transactions[transaction_id].epochs) == top
            &&& aborted_by(coord, transaction_id, produces, after)
        }),
{
    let txn = coord.transactions[transaction_id];
    let top = top_key::<i16, TxnDetailModel>(txn.epochs);
    let prepared = prepared_to_abort(coord, transaction_id, produces);
    assert(has_top(txn.epochs));
    let txns = ending(prepared, transaction_id, txn.producer, top, false);
    let after = resolved(prepared, txns).0;
    assert(prepared.transactions.dom() =~= coord.transactions.dom());
    assert forall|id: Seq<char>| #[trigger] coord.transactions.dom().contains(id) implies {
        &&& prepared.transactions[id].producer == coord.transactions[id].producer
        &&& prepared.transactions[id].epochs.dom() =~= coord.transactions[id].epochs.dom()
    } by {}
    lemma_resolved_frame(prepared, txns);
    assert forall|id: Seq<char>| #[trigger] after.transactions.dom().contains(id) implies has_top(
        after.transactions[id].epochs,
    ) by {
        assert(coord.transactions.dom().contains(id));
        lemma_same_top(coord.transactions[id].epochs, after.transactions[id].epochs);
    }
    lemma_same_top(txn.epochs, after.transactions[transaction_id].epochs);
    lemma_filtered(
        unended_txns(prepared),
        |txn: TxnRefModel| ends_too(prepared, transaction_id, top, txn),
    );
    let others = ending_too(prepared, transaction_id, top);
    if held(prepared, transaction_id, top) {
        assert(!listed(txns, transaction_id, top));
    } else {
        assert(txns[others.len() as int].transaction == transaction_id);
        assert(listed(txns, transaction_id, top));
    }
    lemma_resolved_at(prepared, txns, transaction_id, top);
}

/// Whether the greatest incarnation of a transaction has ended as aborted, or,
/// where it overlaps an open one, is prepared to.
pub open spec fn aborted_by(
    coord: CoordModel,
    transaction_id: Seq<char>,
    produces: ProducesModel,
    after: CoordModel,
) -> bool {
    let top = top_key::<i16, TxnDetailModel>(coord.transactions[transaction_id].epochs);
    &&& txn_at(after, transaction_id, top) matches Some(detail)
    &&& detail.state == Some(
        if held(prepared_to_abort(coord, transaction_id, produces), transaction_id, top) {
            TxnState::PrepareAbort
        } else {
            TxnState::Aborted
        },
    )
}

/// Whether the epoch that was answered is a producer's, and no sequence number
/// is kept for it.
pub open spec fn numbered_afresh(coord: CoordModel, response: ProducerIdResponse) -> bool {
    &&& coord.producers.dom().contains(response.id)
    &&& coord.producers[response.id].dom().contains(response.epoch)
    &&& forall|topic: Seq<char>| !#[trigger]
        coord.producers[response.id][response.epoch].dom().contains(topic)
}

/// A producer's first request. Without a transaction, or with a new one, it
/// gets an id one above the greatest (1 to begin with), which was no
/// producer's before, and epoch 0. With a known transaction it gets the same
/// id and the epoch after its greatest, and if that incarnation was open, it
/// has ended as aborted, or is prepared to where it overlaps an open one. A
/// request that gives an id or an epoch gets neither, and changes nothing. The
/// epoch that is answered starts afresh, with the timeout that was asked for.
pub proof fn law_init_producer(coord: CoordModel, call: InitCall)
    requires
        countable(coord),
        has_room(coord, call),
    ensures
        ({
            let (after, response) = init_served(coord, call);
            &&& countable(after)
            &&& if !asks(call) {
                after == coord && response == no_producer()
            } else if known(coord, call) {
                let id = call.transaction_id.unwrap();
                let top = top_key::<i16, TxnDetailModel>(coord.transactions[id].epochs);
                &&& response == (ProducerIdResponse {
                    id: coord.transactions[id].producer,
                    epoch: (top + 1) as i16,
                    error: ErrorCode::NoError,
                })
                &&& after.producers.dom() == coord.producers.dom()
                &&& coord.producers.dom().contains(response.id) ==> numbered_afresh(after, response)
                &&& txn_at(after, id, response.epoch) matches Some(detail) && afresh(
                    detail,
                    call.transaction_timeout_ms,
                )
                &&& after.transactions[id].producer == response.id
                &&& if txn_at(coord, id, top).unwrap().state == Some(TxnState::Begin) {
                    aborted_by(coord, id, call.produces, after)
                } else {
                    txn_at(after, id, top) == txn_at(coord, id, top)
                }
            } else {
                &&& response == (ProducerIdResponse {
                    id: next_producer(coord) as i64,
                    epoch: 0,
                    error: ErrorCode::NoError,
                })
                &&& !coord.producers.dom().contains(response.id)
                &&& coord.producers.dom() == Set::<i64>::empty() ==> response.id == 1
                &&& coord.producers.dom() != Set::<i64>::empty() ==> coord.producers.dom().contains(
                    (response.id - 1) as i64,
                )
                &&& forall|other: i64| #[trigger]
                    coord.producers.dom().contains(other) ==> other < response.id
                &&& after.producers.dom() == coord.producers.dom().insert(response.id)
                &&& numbered_afresh(after, response)
                &&& match call.transaction_id {
                    Some(id) => {
                        &&& after.transactions.dom() == coord.transactions.dom().insert(id)
                        &&& after.transactions[id].producer == response.id
                        &&& after.transactions[id].epochs.dom() == set![0i16]
                        &&& afresh(
                            txn_at(after, id, 0).unwrap(),
                            call.transaction_timeout_ms,
                        )
                    },
                    None => after.transactions == coord.transactions,
                }
            }
        }),
{
    let (after, response) = init_served(coord, call);
    if asks(call) && known(coord, call) {
        let id = call.transaction_id.unwrap();
        let epochs = coord.transactions[id].epochs;
        let top = top_key::<i16, TxnDetailModel>(epochs);
        assert(has_top(epochs));
        assert(epochs.dom().contains(top));
        let start = if epochs[top].state == Some(TxnState::Begin) {
            lemma_rolled_back(coord, id, call.produces);
            rolled_back(coord, id, call.produces)
        } else {
            coord
        };
        let at = start.transactions[id].epochs;
        assert(has_top(at));
        assert(at.dom().contains(top));
        assert(after.producers.dom() =~= coord.producers.dom());
        lemma_next_top(at, (top + 1) as i16, after.transactions[id].epochs);
        assert(after.transactions[id].epochs.dom().contains((top + 1) as i16));
        lemma_producers_top(start.producers, after.producers);
        assert forall|other: Seq<char>| #[trigger] after.transactions.dom().contains(
            other,
        ) implies has_top(after.transactions[other].epochs) by {
            assert(start.transactions.dom().contains(other));
        }
    } else if asks(call) {
        let producers = coord.producers;
        let id = response.id;
        if producers == Map::<i64, Map<i16, SequenceModel>>::empty() {
            assert(greatest::<i64, Map<i16, SequenceModel>>(after.producers, id));
        } else {
            let top = top_key::<i64, Map<i16, SequenceModel>>(producers);
            assert(producers.dom().contains(top));
            assert(i64::precedes(top, id));
            assert forall|other: i64| #[trigger]
                after.producers.dom().contains(other) implies !i64::precedes(id, other) by {
                assert(other == id || producers.dom().contains(other));
            }
            assert(greatest::<i64, Map<i16, SequenceModel>>(after.producers, id));
        }
        lemma_top_key::<i64, Map<i16, SequenceModel>>(after.producers, id);
        assert(after.producers.dom() =~= producers.dom().insert(id));
        if producers.dom() == Set::<i64>::empty() {
            assert(producers =~= Map::<i64, Map<i16, SequenceModel>>::empty());
        } else {
            if producers == Map::<i64, Map<i16, SequenceModel>>::empty() {
                assert(producers.dom() =~= Set::<i64>::empty());
            }
            assert forall|other: i64| #[trigger] producers.dom().contains(other) implies other
                < id by {}
        }
        if let Some(named) = call.transaction_id {
            assert(after.transactions.dom() =~= coord.transactions.dom().insert(named));
            assert(after.transactions[named].epochs.dom() =~= set![0i16]);
        }
        assert forall|other: Seq<char>| #[trigger] after.transactions.dom().contains(
            other,
        ) implies has_top(after.transactions[other].epochs) by {
            if call.transaction_id == Some(other) {
                let epochs = after.transactions[other].epochs;
                assert(greatest::<i16, TxnDetailModel>(epochs, 0));
                lemma_top_key::<i16, TxnDetailModel>(epochs, 0);
            } else {
                assert(coord.transactions.dom().contains(other));
            }
        }
    }
}

/// An epoch above the greatest is the greatest once it is there.
proof fn lemma_next_top(
    before: Map<i16, TxnDetailModel>,
    epoch: i16,
    after: Map<i16, TxnDetailModel>,
)
    requires
        has_top(before),
        epoch > top_key::<i16, TxnDetailModel>(before),
        after.dom() =~= before.dom().insert(epoch),
    ensures
        has_top(after),
{
    assert forall|other: i16| #[trigger] after.dom().contains(other) implies !i16::precedes(
        epoch,
        other,
    ) by {
        if other != epoch {
            assert(before.dom().contains(other));
        }
    }
    assert(greatest::<i16, TxnDetailModel>(after, epoch));
    lemma_top_key::<i16, TxnDetailModel>(after, epoch);
}

/// Producers keep their greatest while their ids stay.
proof fn lemma_producers_top(
    before: Map<i64, Map<i16, SequenceModel>>,
    after: Map<i64, Map<i16, SequenceModel>>,
)
    requires
        before == Map::<i64, Map<i16, SequenceModel>>::empty() || greatest::<
            i64,
            Map<i16, SequenceModel>,
        >(before, top_key::<i64, Map<i16, SequenceModel>>(before)),
        before.dom() =~= after.dom(),
    ensures
        after == Map::<i64, Map<i16, SequenceModel>>::empty() || greatest::<
            i64,
            Map<i16, SequenceModel>,
        >(after, top_key::<i64, Map<i16, SequenceModel>>(after)),
        after == Map::<i64, Map<i16, SequenceModel>>::empty() <==> before == Map::<
            i64,
            Map<i16, SequenceModel>,
        >::empty(),
{
    if before == Map::<i64, Map<i16, SequenceModel>>::empty() {
        assert(after =~= before);
    } else {
        let top = top_key::<i64, Map<i16, SequenceModel>>(before);
        assert(before.dom().contains(top));
        assert(greatest::<i64, Map<i16, SequenceModel>>(after, top));
        lemma_top_key::<i64, Map<i16, SequenceModel>>(after, top);
        if after == Map::<i64, Map<i16, SequenceModel>>::empty() {
            assert(!after.dom().contains(top));
        }
    }
}

/// Rolling an open incarnation back is never refused.
pub proof fn law_rollback_is_accepted(coord: CoordModel, transaction_id: Seq<char>)
    requires
        countable(coord),
        coord.transactions.dom().contains(transaction_id),
    ensures
        txn_refusal(
            coord,
            transaction_id,
            coord.transactions[transaction_id].producer,
            top_key::<i16, TxnDetailModel>(coord.transactions[transaction_id].epochs),
        ) is None,
{
    assert(has_top(coord.transactions[transaction_id].epochs));
}

/// Whether every request of a run can be counted up to.
pub open spec fn all_have_room(coord: CoordModel, calls: Seq<InitCall>) -> bool {
    forall|k: int|
        0 <= k < calls.len() ==> has_room(init_run(coord, calls.take(k)).0, #[trigger] calls[k])
}

proof fn lemma_init_run(coord: CoordModel, calls: Seq<InitCall>, n: int)
    requires
        countable(coord),
        all_have_room(coord, calls),
        0 <= n <= calls.len(),
    ensures
        countable(init_run(coord, calls.take(n)).0),
        init_run(coord, calls.take(n)).1.len() == n,
        n < calls.len() ==> ({
            let (before, responses) = init_run(coord, calls.take(n));
            let (after, response) = init_served(before, calls[n]);
            init_run(coord, calls.take(n + 1)) == (after, responses.push(response))
        }),
    decreases n,
{
    if n > 0 {
        lemma_init_run(coord, calls, n - 1);
        assert(calls.take(n).drop_last() =~= calls.take(n - 1));
        assert(has_room(init_run(coord, calls.take(n - 1)).0, calls[n - 1]));
        law_init_producer(init_run(coord, calls.take(n - 1)).0, calls[n - 1]);
    }
    if n < calls.len() {
        assert(calls.take(n + 1).drop_last() =~= calls.take(n));
    }
}

/// What a run has answered, a longer run has answered too, and producers stay.
proof fn lemma_run_grows(coord: CoordModel, calls: Seq<InitCall>, i: int, n: int)
    requires
        countable(coord),
        all_have_room(coord, calls),
        0 <= i <= n <= calls.len(),
    ensures
        init_run(coord, calls.take(n)).1.len() == n,
        forall|k: int|
            0 <= k < i ==> #[trigger] init_run(coord, calls.take(n)).1[k] == init_run(
                coord,
                calls.take(i),
            ).1[k],
        init_run(coord, calls.take(i)).0.producers.dom().subset_of(
            init_run(coord, calls.take(n)).0.producers.dom(),
        ),
    decreases n - i,
{
    lemma_init_run(coord, calls, n);
    if i < n {
        lemma_run_grows(coord, calls, i, n - 1);
        lemma_init_run(coord, calls, n - 1);
        assert(has_room(init_run(coord, calls.take(n - 1)).0, calls[n - 1]));
        law_init_producer(init_run(coord, calls.take(n - 1)).0, calls[n - 1]);
    }
}

/// Whether a request of a run is given a new id.
pub open spec fn allocates(coord: CoordModel, calls: Seq<InitCall>, k: int) -> bool {
    asks(calls[k]) && !known(init_run(coord, calls.take(k)).0, calls[k])
}

/// No id is handed out twice: in any run of requests, a new id is one that no
/// producer had at the start, and another one than every new id before it.
pub proof fn law_ids_are_never_handed_out_twice(
    coord: CoordModel,
    calls: Seq<InitCall>,
    i: int,
    j: int,
)
    requires
        countable(coord),
        all_have_room(coord, calls),
        0 <= i < j < calls.len(),
        allocates(coord, calls, i),
        allocates(coord, calls, j),
    ensures
        ({
            let responses = init_run(coord, calls).1;
            &&& !coord.producers.dom().contains(responses[i].id)
            &&& !coord.producers.dom().contains(responses[j].id)
            &&& responses[i].id != responses[j].id
        }),
{
    lemma_given_id(coord, calls, i);
    lemma_given_id(coord, calls, j);
    lemma_run_grows(coord, calls, i + 1, j);
}

/// A new id is no producer's before, and a producer's afterwards.
proof fn lemma_given_id(coord: CoordModel, calls: Seq<InitCall>, i: int)
    requires
        countable(coord),
        all_have_room(coord, calls),
        0 <= i < calls.len(),
        allocates(coord, calls, i),
    ensures
        ({
            let id = init_run(coord, calls).1[i].id;
            &&& !coord.producers.dom().contains(id)
            &&& !init_run(coord, calls.take(i)).0.producers.dom().contains(id)
            &&& init_run(coord, calls.take(i + 1)).0.producers.dom().contains(id)
        }),
{
    lemma_init_run(coord, calls, i);
    assert(has_room(init_run(coord, calls.take(i)).0, calls[i]));
    law_init_producer(init_run(coord, calls.take(i)).0, calls[i]);
    lemma_run_grows(coord, calls, 0, i);
    assert(calls.take(0) =~= Seq::<InitCall>::empty());
    lemma_run_grows(coord, calls, i + 1, calls.len() as int);
    assert(calls.take(calls.len() as int) =~= calls);
    lemma_init_run(coord, calls, i + 1);
    assert(init_run(coord, calls).1[i] == init_run(coord, calls.take(i + 1)).1[i]);
}

} // verus!
