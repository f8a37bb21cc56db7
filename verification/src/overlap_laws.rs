//! What the resolution of overlapping transactions ends and what it leaves.

use crate::model::Model;
use crate::overlap::{
    blocking, ending_too, ends_too, held, is_open, lemma_blocking, lemma_filtered, lemma_reached_on, lemma_reached_self,
    lemma_reached_unended, lemma_unended_txns, linked, names, overlapping, overlaps, overlaps_at,
    reached, reached_in, unended_txns,
};
use crate::produce_laws::range_at;
use crate::state::{
    produces_at, txn_at, txn_refusal, with_txn, CoordModel, CoordState, ProducesModel,
    TxnDetailModel, TxnRefModel,
};
use crate::txn::{ended, ending, outcome, prepared_state, resolution, resolved};
use crate::types::TxnState;
use vstd::prelude::*;

verus! {

/// Whether an incarnation stands in a list of references.
pub open spec fn listed(txns: Seq<TxnRefModel>, transaction_id: Seq<char>, epoch: i16) -> bool {
    exists|i: int|
        0 <= i < txns.len() && (#[trigger] txns[i]).transaction == transaction_id
            && txns[i].producer_epoch == epoch
}

/// An incarnation ends where it is listed and is to end, and stays as it was
/// otherwise.
pub proof fn lemma_resolved_at(
    coord: CoordModel,
    txns: Seq<TxnRefModel>,
    transaction_id: Seq<char>,
    epoch: i16,
)
    ensures
        txn_at(resolved(coord, txns).0, transaction_id, epoch) == match txn_at(
            coord,
            transaction_id,
            epoch,
        ) {
            Some(detail) => if listed(txns, transaction_id, epoch) && outcome(
                detail.state,
            ) is Some {
                Some(ended(detail, outcome(detail.state).unwrap()))
            } else {
                Some(detail)
            },
            None => None,
        },
    decreases txns.len(),
{
    if txns.len() > 0 {
        let init = txns.drop_last();
        let last = txns[txns.len() - 1];
        lemma_resolved_at(coord, init, transaction_id, epoch);
        if listed(init, transaction_id, epoch) {
            let i = choose|i: int|
                0 <= i < init.len() && (#[trigger] init[i]).transaction == transaction_id
                    && init[i].producer_epoch == epoch;
            assert(txns[i] == init[i]);
        }
        if listed(txns, transaction_id, epoch) && !(last.transaction == transaction_id
            && last.producer_epoch == epoch) {
            let i = choose|i: int|
                0 <= i < txns.len() && (#[trigger] txns[i]).transaction == transaction_id
                    && txns[i].producer_epoch == epoch;
            assert(init[i] == txns[i]);
        }
    }
}

/// Whether an incarnation ends when the end of one is asked for: it is that
/// one or reached from it, it is to end, and it overlaps no other that is open.
pub open spec fn ends(
    coord: CoordModel,
    transaction_id: Seq<char>,
    producer_epoch: i16,
    other: Seq<char>,
    other_epoch: i16,
) -> bool {
    &&& reached(coord, transaction_id, producer_epoch, other, other_epoch)
    &&& !held(coord, other, other_epoch)
    &&& txn_at(coord, other, other_epoch) matches Some(detail)
    &&& outcome(detail.state) is Some
}

/// What is listed to end is what ends.
proof fn lemma_listed_ends(
    coord: &CoordState,
    transaction_id: Seq<char>,
    producer_id: i64,
    producer_epoch: i16,
    committed: bool,
    other: Seq<char>,
    other_epoch: i16,
)
    requires
        coord.wf(),
        txn_refusal(coord.model(), transaction_id, producer_id, producer_epoch) is None,
    ensures
        ({
            let txns = ending(
                coord.model(),
                transaction_id,
                producer_id,
                producer_epoch,
                committed,
            );
            ends(coord.model(), transaction_id, producer_epoch, other, other_epoch) <==> listed(
                txns,
                other,
                other_epoch,
            ) && (txn_at(coord.model(), other, other_epoch) matches Some(detail) && outcome(
                detail.state,
            ) is Some)
        }),
{
    let model = coord.model();
    let refs = unended_txns(model);
    let others = ending_too(model, transaction_id, producer_epoch);
    let txns = ending(model, transaction_id, producer_id, producer_epoch, committed);
    lemma_unended_txns(coord);
    lemma_filtered(
        refs,
        |txn: TxnRefModel| ends_too(model, transaction_id, producer_epoch, txn),
    );
    lemma_reached_self(model, transaction_id, producer_epoch);
    if listed(txns, other, other_epoch) {
        let i = choose|i: int|
            0 <= i < txns.len() && (#[trigger] txns[i]).transaction == other
                && txns[i].producer_epoch == other_epoch;
        if i < others.len() {
            assert(txns[i] == others[i]);
            assert(others.contains(others[i]));
        }
    }
    if ends(model, transaction_id, producer_epoch, other, other_epoch) {
        if (other, other_epoch) == (transaction_id, producer_epoch) {
            assert(txns[txns.len() - 1].transaction == other);
        } else {
            let steps = choose|steps: nat|
                reached_in(model, transaction_id, producer_epoch, other, other_epoch, steps);
            lemma_reached_unended(
                model,
                transaction_id,
                producer_epoch,
                other,
                other_epoch,
                steps,
            );
            let txn = TxnRefModel {
                transaction: other,
                producer_id: model.transactions[other].producer,
                producer_epoch: other_epoch,
                state: txn_at(model, other, other_epoch).unwrap().state.unwrap(),
            };
            assert(names(model, txn));
            assert(others.contains(txn));
            let i = choose|i: int| 0 <= i < others.len() && others[i] == txn;
            assert(txns[i] == txn);
        }
    }
}

/// What the resolution of an asked-for end changes: each prepared incarnation
/// that overlaps reach from there and that overlaps no open one ends as its
/// preparation said, the asked-for one among them, and every other stays as it
/// was.
pub proof fn law_resolution_ends_exactly(
    coord: &CoordState,
    transaction_id: Seq<char>,
    producer_id: i64,
    producer_epoch: i16,
    committed: bool,
)
    requires
        coord.wf(),
        txn_refusal(coord.model(), transaction_id, producer_id, producer_epoch) is None,
    ensures
        forall|other: Seq<char>, other_epoch: i16| #[trigger]
            txn_at(
                resolution(
                    coord.model(),
                    transaction_id,
                    producer_id,
                    producer_epoch,
                    committed,
                ).0,
                other,
                other_epoch,
            ) == if ends(coord.model(), transaction_id, producer_epoch, other, other_epoch) {
                let detail = txn_at(coord.model(), other, other_epoch).unwrap();
                Some(ended(detail, outcome(detail.state).unwrap()))
            } else {
                txn_at(coord.model(), other, other_epoch)
            },
{
    let model = coord.model();
    let txns = ending(model, transaction_id, producer_id, producer_epoch, committed);
    assert forall|other: Seq<char>, other_epoch: i16| #[trigger]
        txn_at(
            resolution(model, transaction_id, producer_id, producer_epoch, committed).0,
            other,
            other_epoch,
        ) == if ends(model, transaction_id, producer_epoch, other, other_epoch) {
            let detail = txn_at(model, other, other_epoch).unwrap();
            Some(ended(detail, outcome(detail.state).unwrap()))
        } else {
            txn_at(model, other, other_epoch)
        } by {
        lemma_resolved_at(model, txns, other, other_epoch);
        lemma_listed_ends(
            coord,
            transaction_id,
            producer_id,
            producer_epoch,
            committed,
            other,
            other_epoch,
        );
    }
}

/// Nothing stays deferred: where no transaction is open, all that overlaps
/// reach from an asked-for end has ended afterwards, through however many
/// others and whatever incarnation of a transaction it is.
pub proof fn law_nothing_stays_deferred(
    coord: &CoordState,
    transaction_id: Seq<char>,
    producer_id: i64,
    producer_epoch: i16,
    committed: bool,
)
    requires
        coord.wf(),
        txn_refusal(coord.model(), transaction_id, producer_id, producer_epoch) is None,
        forall|other: Seq<char>, other_epoch: i16| #[trigger]
            txn_at(coord.model(), other, other_epoch) matches Some(detail) ==> detail.state != Some(
                TxnState::Begin,
            ),
    ensures
        forall|other: Seq<char>, other_epoch: i16| #[trigger]
            reached(coord.model(), transaction_id, producer_epoch, other, other_epoch) ==> {
                &&& txn_at(
                    resolution(
                        coord.model(),
                        transaction_id,
                        producer_id,
                        producer_epoch,
                        committed,
                    ).0,
                    other,
                    other_epoch,
                ) matches Some(detail)
                &&& detail.state matches Some(state)
                &&& state.terminal()
            },
{
    let model = coord.model();
    law_resolution_ends_exactly(coord, transaction_id, producer_id, producer_epoch, committed);
    assert forall|other: Seq<char>, other_epoch: i16| #[trigger]
        reached(model, transaction_id, producer_epoch, other, other_epoch) implies {
        &&& txn_at(
            resolution(model, transaction_id, producer_id, producer_epoch, committed).0,
            other,
            other_epoch,
        ) matches Some(detail)
        &&& detail.state matches Some(state)
        &&& state.terminal()
    } by {
        let steps = choose|steps: nat|
            reached_in(model, transaction_id, producer_epoch, other, other_epoch, steps);
        lemma_reached_unended(model, transaction_id, producer_epoch, other, other_epoch, steps);
    }
}

/// What overlaps an open transaction does not end: whatever end is asked for,
/// it stays as it was.
pub proof fn law_open_one_holds(
    coord: &CoordState,
    transaction_id: Seq<char>,
    producer_id: i64,
    producer_epoch: i16,
    committed: bool,
    other: Seq<char>,
    other_epoch: i16,
)
    requires
        coord.wf(),
        txn_refusal(coord.model(), transaction_id, producer_id, producer_epoch) is None,
        held(coord.model(), other, other_epoch) || is_open(coord.model(), other, other_epoch),
    ensures
        txn_at(
            resolution(
                coord.model(),
                transaction_id,
                producer_id,
                producer_epoch,
                committed,
            ).0,
            other,
            other_epoch,
        ) == txn_at(coord.model(), other, other_epoch),
{
    law_resolution_ends_exactly(coord, transaction_id, producer_id, producer_epoch, committed);
}

/// Whether an incarnation is prepared.
pub open spec fn is_prepared(coord: CoordModel, transaction_id: Seq<char>, epoch: i16) -> bool {
    txn_at(coord, transaction_id, epoch) matches Some(detail) && detail.state matches Some(state)
        && state.prepared()
}

/// Whether every prepared incarnation overlaps an open one.
pub open spec fn deferred_only(coord: CoordModel) -> bool {
    forall|other: Seq<char>, other_epoch: i16| #[trigger]
        is_prepared(coord, other, other_epoch) ==> held(coord, other, other_epoch)
}

/// Whether every prepared incarnation overlaps an open one or is reached from
/// an incarnation.
pub open spec fn deferred_but(coord: CoordModel, transaction_id: Seq<char>, epoch: i16) -> bool {
    forall|other: Seq<char>, other_epoch: i16| #[trigger]
        is_prepared(coord, other, other_epoch) ==> held(coord, other, other_epoch) || reached(
            coord,
            transaction_id,
            epoch,
            other,
            other_epoch,
        )
}

/// Where every prepared transaction waits for an open one, preparing an open
/// one leaves none that neither waits for an open one nor is reached from the
/// one that was prepared.
pub proof fn law_prepare_reaches(
    coord: CoordModel,
    transaction_id: Seq<char>,
    producer_epoch: i16,
    committed: bool,
)
    requires
        is_open(coord, transaction_id, producer_epoch),
        deferred_only(coord),
    ensures
        deferred_but(
            with_txn(
                coord,
                transaction_id,
                producer_epoch,
                TxnDetailModel {
                    state: Some(prepared_state(committed)),
                    ..txn_at(coord, transaction_id, producer_epoch).unwrap()
                },
            ),
            transaction_id,
            producer_epoch,
        ),
{
    let detail = txn_at(coord, transaction_id, producer_epoch).unwrap();
    let after = with_txn(
        coord,
        transaction_id,
        producer_epoch,
        TxnDetailModel { state: Some(prepared_state(committed)), ..detail },
    );
    assert forall|id: Seq<char>, epoch: i16| #[trigger]
        produces_at(after, id, epoch) == produces_at(coord, id, epoch) by {}
    assert forall|other: Seq<char>, other_epoch: i16| #[trigger]
        is_prepared(after, other, other_epoch) implies held(after, other, other_epoch) || reached(
        after,
        transaction_id,
        producer_epoch,
        other,
        other_epoch,
    ) by {
        lemma_reached_self(after, transaction_id, producer_epoch);
        if (other, other_epoch) != (transaction_id, producer_epoch) {
            assert(txn_at(after, other, other_epoch) == txn_at(coord, other, other_epoch));
            assert(is_prepared(coord, other, other_epoch));
            let (open, open_epoch) = choose|open: Seq<char>, open_epoch: i16|
                is_open(coord, open, open_epoch) && (open, open_epoch) != (other, other_epoch)
                    && #[trigger] overlapping(coord, other, other_epoch, open, open_epoch);
            if (open, open_epoch) == (transaction_id, producer_epoch) {
                lemma_overlaps_both_ways(
                    produces_at(coord, open, open_epoch),
                    produces_at(coord, other, other_epoch),
                );
                assert(linked(after, transaction_id, producer_epoch, other, other_epoch));
                lemma_reached_on(
                    after,
                    transaction_id,
                    producer_epoch,
                    transaction_id,
                    producer_epoch,
                    other,
                    other_epoch,
                );
            } else {
                assert(txn_at(after, open, open_epoch) == txn_at(coord, open, open_epoch));
                assert(overlapping(after, other, other_epoch, open, open_epoch));
            }
        }
    }
}

/// To overlap goes both ways.
proof fn lemma_overlaps_both_ways(
    produces: ProducesModel,
    candidate: ProducesModel,
)
    requires
        overlaps(produces, candidate),
    ensures
        overlaps(candidate, produces),
{
    let (topic, partition) = choose|topic: Seq<char>, partition: i32|
        overlaps_at(produces, candidate, topic, partition);
    assert(overlaps_at(candidate, produces, topic, partition));
}

/// A prepared transaction waits for open ones only: resolving an end leaves
/// every prepared one that was reached, or waited for an open one, waiting for
/// an open one.
pub proof fn law_resolution_leaves_deferred_only(
    coord: &CoordState,
    transaction_id: Seq<char>,
    producer_id: i64,
    producer_epoch: i16,
    committed: bool,
)
    requires
        coord.wf(),
        txn_refusal(coord.model(), transaction_id, producer_id, producer_epoch) is None,
        deferred_but(coord.model(), transaction_id, producer_epoch),
    ensures
        deferred_only(
            resolution(
                coord.model(),
                transaction_id,
                producer_id,
                producer_epoch,
                committed,
            ).0,
        ),
{
    let model = coord.model();
    let after = resolution(model, transaction_id, producer_id, producer_epoch, committed).0;
    law_resolution_ends_exactly(coord, transaction_id, producer_id, producer_epoch, committed);
    assert forall|other: Seq<char>, other_epoch: i16| #[trigger]
        is_prepared(after, other, other_epoch) implies held(after, other, other_epoch) by {
        assert(!ends(model, transaction_id, producer_epoch, other, other_epoch));
        assert(txn_at(after, other, other_epoch) == txn_at(model, other, other_epoch));
        assert(is_prepared(model, other, other_epoch));
        assert(held(model, other, other_epoch));
        let (open, open_epoch) = choose|open: Seq<char>, open_epoch: i16|
            is_open(model, open, open_epoch) && (open, open_epoch) != (other, other_epoch)
                && #[trigger] overlapping(model, other, other_epoch, open, open_epoch);
        assert(txn_at(after, open, open_epoch) == txn_at(model, open, open_epoch));
        assert(overlapping(after, other, other_epoch, open, open_epoch));
    }
}

/// Whether two incarnations have produced a common offset on some partition.
pub open spec fn share_an_offset(
    coord: CoordModel,
    id: Seq<char>,
    epoch: i16,
    other: Seq<char>,
    other_epoch: i16,
) -> bool {
    &&& txn_at(coord, id, epoch) matches Some(detail)
    &&& txn_at(coord, other, other_epoch) matches Some(other_detail)
    &&& exists|topic: Seq<char>, partition: i32| #[trigger]
        ranges_meet(detail, other_detail, topic, partition)
}

/// Whether the ranges of two incarnations on a partition have a common offset.
pub open spec fn ranges_meet(
    detail: TxnDetailModel,
    other: TxnDetailModel,
    topic: Seq<char>,
    partition: i32,
) -> bool {
    &&& range_at(detail.produces, topic, partition) matches Some(range)
    &&& range_at(other.produces, topic, partition) matches Some(own)
    &&& range.offset_start <= own.offset_end
    &&& own.offset_start <= range.offset_end
}

proof fn lemma_overlapping(
    coord: CoordModel,
    id: Seq<char>,
    epoch: i16,
    other: Seq<char>,
    other_epoch: i16,
)
    ensures
        overlapping(coord, id, epoch, other, other_epoch) <==> share_an_offset(
            coord,
            id,
            epoch,
            other,
            other_epoch,
        ),
{
    let own = produces_at(coord, id, epoch);
    let theirs = produces_at(coord, other, other_epoch);
    if overlapping(coord, id, epoch, other, other_epoch) {
        let (topic, partition) = choose|topic: Seq<char>, partition: i32|
            overlaps_at(theirs, own, topic, partition);
        assert(ranges_meet(
            txn_at(coord, id, epoch).unwrap(),
            txn_at(coord, other, other_epoch).unwrap(),
            topic,
            partition,
        ));
    }
    if share_an_offset(coord, id, epoch, other, other_epoch) {
        let (topic, partition) = choose|topic: Seq<char>, partition: i32| #[trigger]
            ranges_meet(
                txn_at(coord, id, epoch).unwrap(),
                txn_at(coord, other, other_epoch).unwrap(),
                topic,
                partition,
            );
        assert(overlaps_at(theirs, own, topic, partition));
    }
}

/// An incarnation is held up if and only if another one, of whatever
/// transaction, is open and has produced an offset that it has produced.
pub proof fn law_held_by_an_open_one(coord: CoordModel, id: Seq<char>, epoch: i16)
    ensures
        held(coord, id, epoch) ==> exists|other: Seq<char>, other_epoch: i16|
            (other, other_epoch) != (id, epoch) && txn_at(
                coord,
                other,
                other_epoch,
            ).unwrap().state == Some(TxnState::Begin) && #[trigger] share_an_offset(
                coord,
                id,
                epoch,
                other,
                other_epoch,
            ),
        forall|other: Seq<char>, other_epoch: i16|
            (other, other_epoch) != (id, epoch) && #[trigger] share_an_offset(
                coord,
                id,
                epoch,
                other,
                other_epoch,
            ) && txn_at(coord, other, other_epoch).unwrap().state == Some(TxnState::Begin) ==> held(
                coord,
                id,
                epoch,
            ),
{
    if held(coord, id, epoch) {
        let (other, other_epoch) = choose|other: Seq<char>, other_epoch: i16|
            is_open(coord, other, other_epoch) && (other, other_epoch) != (id, epoch)
                && #[trigger] overlapping(coord, id, epoch, other, other_epoch);
        lemma_overlapping(coord, id, epoch, other, other_epoch);
        assert(share_an_offset(coord, id, epoch, other, other_epoch));
    }
    assert forall|other: Seq<char>, other_epoch: i16|
        (other, other_epoch) != (id, epoch) && #[trigger] share_an_offset(
            coord,
            id,
            epoch,
            other,
            other_epoch,
        ) && txn_at(coord, other, other_epoch).unwrap().state == Some(
            TxnState::Begin,
        ) implies held(coord, id, epoch) by {
        lemma_overlapping(coord, id, epoch, other, other_epoch);
        assert(is_open(coord, other, other_epoch));
    }
}

/// The transactions that overlap one are the incarnations, other than itself,
/// that have begun and not ended and have produced an offset that it has
/// produced: each of them, with its producer and state, and no other.
pub proof fn law_overlapping_transactions(
    coord: &CoordState,
    id: Seq<char>,
    producer_id: i64,
    epoch: i16,
    txn: TxnRefModel,
)
    requires
        coord.wf(),
    ensures
        ({
            let model = coord.model();
            blocking(model, id, producer_id, epoch).contains(txn) <==> {
                &&& share_an_offset(model, id, epoch, txn.transaction, txn.producer_epoch)
                &&& model.transactions[txn.transaction].producer == txn.producer_id
                &&& txn_at(model, txn.transaction, txn.producer_epoch).unwrap().state == Some(
                    txn.state,
                )
                &&& txn.state != TxnState::Committed && txn.state != TxnState::Aborted
                &&& !(txn.transaction == id && txn.producer_id == producer_id
                    && txn.producer_epoch == epoch)
            }
        }),
{
    let model = coord.model();
    let found = blocking(model, id, producer_id, epoch);
    lemma_blocking(coord, id, producer_id, epoch);
    lemma_overlapping(model, id, epoch, txn.transaction, txn.producer_epoch);
    if found.contains(txn) {
        let i = choose|i: int| 0 <= i < found.len() && found[i] == txn;
        assert(names(model, found[i]));
    }
    if share_an_offset(model, id, epoch, txn.transaction, txn.producer_epoch)
        && model.transactions[txn.transaction].producer == txn.producer_id && txn_at(
        model,
        txn.transaction,
        txn.producer_epoch,
    ).unwrap().state == Some(txn.state) && txn.state != TxnState::Committed && txn.state
        != TxnState::Aborted {
        assert(names(model, txn));
    }
}

/// What is reached from an incarnation is what common offsets lead to: it is
/// reached itself, what has begun and not ended and shares an offset with what
/// is reached is reached, and whatever holds of the one and passes on so holds
/// of all that is reached.
pub proof fn law_reached_is_what_overlaps_lead_to(
    coord: CoordModel,
    id: Seq<char>,
    epoch: i16,
    marked: spec_fn(Seq<char>, i16) -> bool,
)
    ensures
        reached(coord, id, epoch, id, epoch),
        forall|via: Seq<char>, via_epoch: i16, other: Seq<char>, other_epoch: i16|
            reached(coord, id, epoch, via, via_epoch) && #[trigger] leads(
                coord,
                via,
                via_epoch,
                other,
                other_epoch,
            ) ==> reached(coord, id, epoch, other, other_epoch),
        marked(id, epoch) && (forall|via: Seq<char>, via_epoch: i16, other: Seq<char>, other_epoch: i16|
            marked(via, via_epoch) && #[trigger] leads(coord, via, via_epoch, other, other_epoch)
                ==> marked(other, other_epoch)) ==> forall|other: Seq<char>, other_epoch: i16|
            #[trigger] reached(coord, id, epoch, other, other_epoch) ==> marked(other, other_epoch),
{
    lemma_reached_self(coord, id, epoch);
    assert forall|via: Seq<char>, via_epoch: i16, other: Seq<char>, other_epoch: i16|
        reached(coord, id, epoch, via, via_epoch) && #[trigger] leads(
            coord,
            via,
            via_epoch,
            other,
            other_epoch,
        ) implies reached(coord, id, epoch, other, other_epoch) by {
        lemma_overlapping(coord, via, via_epoch, other, other_epoch);
        lemma_reached_on(coord, id, epoch, via, via_epoch, other, other_epoch);
    }
    if marked(id, epoch) && (forall|via: Seq<char>, via_epoch: i16, other: Seq<char>, other_epoch: i16|
        marked(via, via_epoch) && #[trigger] leads(coord, via, via_epoch, other, other_epoch)
            ==> marked(other, other_epoch)) {
        assert forall|other: Seq<char>, other_epoch: i16| #[trigger]
            reached(coord, id, epoch, other, other_epoch) implies marked(other, other_epoch) by {
            let steps = choose|steps: nat|
                reached_in(coord, id, epoch, other, other_epoch, steps);
            lemma_marked_all_along(coord, id, epoch, marked, other, other_epoch, steps);
        }
    }
}

/// Whether an overlap leads on from one incarnation to another, which has begun
/// and not ended.
pub open spec fn leads(
    coord: CoordModel,
    via: Seq<char>,
    via_epoch: i16,
    other: Seq<char>,
    other_epoch: i16,
) -> bool {
    &&& share_an_offset(coord, via, via_epoch, other, other_epoch)
    &&& txn_at(coord, other, other_epoch) matches Some(detail)
    &&& detail.state is Some
    &&& detail.state != Some(TxnState::Committed)
    &&& detail.state != Some(TxnState::Aborted)
}

proof fn lemma_marked_all_along(
    coord: CoordModel,
    id: Seq<char>,
    epoch: i16,
    marked: spec_fn(Seq<char>, i16) -> bool,
    other: Seq<char>,
    other_epoch: i16,
    steps: nat,
)
    requires
        marked(id, epoch),
        forall|via: Seq<char>, via_epoch: i16, next: Seq<char>, next_epoch: i16|
            marked(via, via_epoch) && #[trigger] leads(coord, via, via_epoch, next, next_epoch)
                ==> marked(next, next_epoch),
        reached_in(coord, id, epoch, other, other_epoch, steps),
    ensures
        marked(other, other_epoch),
    decreases steps,
{
    if steps > 0 {
        let (via, via_epoch) = choose|via: Seq<char>, via_epoch: i16|
            reached_in(coord, id, epoch, via, via_epoch, (steps - 1) as nat)
                && #[trigger] linked(coord, via, via_epoch, other, other_epoch);
        lemma_marked_all_along(coord, id, epoch, marked, via, via_epoch, (steps - 1) as nat);
        lemma_overlapping(coord, via, via_epoch, other, other_epoch);
        assert(leads(coord, via, via_epoch, other, other_epoch));
    }
}

/// An incarnation that has ended keeps its timeout and nothing else: it has not
/// begun, has produced nothing and has staged nothing.
pub proof fn law_ended_is_left_with_nothing(detail: TxnDetailModel, state: TxnState)
    ensures
        ({
            let after = ended(detail, state);
            &&& after.state == Some(state)
            &&& after.started_at is None
            &&& after.transaction_timeout_ms == detail.transaction_timeout_ms
            &&& forall|topic: Seq<char>| !#[trigger] after.produces.dom().contains(topic)
            &&& forall|group: Seq<char>| !#[trigger] after.offsets.dom().contains(group)
        }),
{
}

} // verus!
