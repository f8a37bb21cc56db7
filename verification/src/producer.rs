//! Producers: ids are allocated, epochs bumped, and transactions that outlive
//! their timeout found.

use crate::error::ErrorCode;
use crate::model::{Key, Model};
use crate::ordmap::{
    greatest, lemma_ascending_at, lemma_ascending_position, lemma_top_key, ordered, top_key,
};
use crate::replay::{applied, with_epoch, with_producer, ImageModel};
use crate::state::{with_txn, CoordModel, CoordState, SequenceModel, TxnDetailModel, TxnModel};
use crate::time::{Duration, SystemTime};
use crate::types::TxnState;
use crate::wal::{Record, WalRecord};
use vstd::prelude::*;

verus! {

/// A producer's id and epoch.
#[derive(Clone, Copy, Debug, PartialEq, Eq, Structural)]
pub struct ProducerIdResponse {
    pub id: i64,
    pub epoch: i16,
    pub error: ErrorCode,
}

/// The answer to a request that cannot be served.
pub open spec fn no_producer() -> ProducerIdResponse {
    ProducerIdResponse { id: -1 as i64, epoch: -1 as i16, error: ErrorCode::UnknownServerError }
}

/// What comes of a producer's first request.
#[derive(Debug)]
pub enum InitProducer {
    /// An answer, given once the record is logged, if there is one.
    Completed { response: ProducerIdResponse, record: Option<WalRecord> },
    /// The transaction is open and has to be aborted first.
    NeedToRollback { producer_id: i64, producer_epoch: i16 },
}

/// What an [`InitProducer`] says.
pub enum Initiation {
    Completed { response: ProducerIdResponse, record: Option<Record> },
    NeedToRollback { producer_id: i64, producer_epoch: i16 },
}

impl View for InitProducer {
    type V = Initiation;

    open spec fn view(&self) -> Initiation {
        match self {
            InitProducer::Completed { response, record } => Initiation::Completed {
                response: *response,
                record: match record {
                    Some(record) => Some(record@),
                    None => None,
                },
            },
            InitProducer::NeedToRollback { producer_id, producer_epoch } =>
            Initiation::NeedToRollback {
                producer_id: *producer_id,
                producer_epoch: *producer_epoch,
            },
        }
    }
}

/// The next id to allocate: one above the greatest, and 1 to begin with.
pub open spec fn next_producer(coord: CoordModel) -> int {
    if coord.producers == Map::<i64, Map<i16, SequenceModel>>::empty() {
        1
    } else {
        top_key::<i64, Map<i16, SequenceModel>>(coord.producers) + 1
    }
}

/// The state after a producer's first request, and what comes of it.
pub open spec fn initiated(
    coord: CoordModel,
    transaction_id: Option<Seq<char>>,
    transaction_timeout_ms: i32,
    producer_id: Option<i64>,
    producer_epoch: Option<i16>,
) -> (CoordModel, Initiation) {
    let nothing = (coord, Initiation::Completed { response: no_producer(), record: None });
    if producer_id != Some(-1 as i64) || producer_epoch != Some(-1 as i16) {
        nothing
    } else if transaction_id matches Some(id) && coord.transactions.dom().contains(id) {
        let id = transaction_id.unwrap();
        let txn = coord.transactions[id];
        if txn.epochs == Map::<i16, TxnDetailModel>::empty() {
            nothing
        } else {
            let current = top_key::<i16, TxnDetailModel>(txn.epochs);
            if txn.epochs[current].state == Some(TxnState::Begin) {
                (
                    coord,
                    Initiation::NeedToRollback {
                        producer_id: txn.producer,
                        producer_epoch: current,
                    },
                )
            } else {
                let epoch = (current + 1) as i16;
                (
                    with_epoch(coord, id, txn.producer, epoch, transaction_timeout_ms),
                    Initiation::Completed {
                        response: ProducerIdResponse {
                            id: txn.producer,
                            epoch,
                            error: ErrorCode::NoError,
                        },
                        record: Some(
                            Record::EpochBump {
                                transaction_id: id,
                                producer_id: txn.producer,
                                producer_epoch: epoch,
                                transaction_timeout_ms,
                            },
                        ),
                    },
                )
            }
        }
    } else {
        let id = next_producer(coord) as i64;
        let timeout = if transaction_id is Some {
            transaction_timeout_ms
        } else {
            0
        };
        (
            with_producer(coord, id, transaction_id, timeout),
            Initiation::Completed {
                response: ProducerIdResponse { id, epoch: 0, error: ErrorCode::NoError },
                record: Some(
                    Record::PidAlloc {
                        producer_id: id,
                        transaction_id,
                        transaction_timeout_ms: timeout,
                    },
                ),
            },
        )
    }
}

/// Whether the next id, and the next epoch of a transaction, can be counted
/// up to.
pub open spec fn can_allocate(coord: CoordModel, transaction_id: Option<Seq<char>>) -> bool {
    match transaction_id {
        Some(id) => if coord.transactions.dom().contains(id) {
            let epochs = coord.transactions[id].epochs;
            epochs == Map::<i16, TxnDetailModel>::empty() || epochs[top_key::<i16, TxnDetailModel>(
                epochs,
            )].state == Some(TxnState::Begin) || top_key::<i16, TxnDetailModel>(epochs) < i16::MAX
        } else {
            next_producer(coord) <= i64::MAX
        },
        None => next_producer(coord) <= i64::MAX,
    }
}

impl CoordState {
    /// The next id to allocate.
    fn next_producer_id(&self) -> (id: i64)
        requires
            self.wf(),
            next_producer(self.model()) <= i64::MAX,
        ensures
            id == next_producer(self.model()),
    {
        match self.producers.last() {
            Some((id, _)) => {
                proof {
                    lemma_top_key::<i64, Map<i16, SequenceModel>>(self.producers.model(), *id);
                }
                *id + 1
            },
            None => 1,
        }
    }

    /// A producer's first request: allocates an id or, for a transaction that
    /// is known, bumps its epoch. A transaction that is open is to be aborted
    /// first, and the request made again.
    pub fn init_producer(
        &mut self,
        transaction_id: Option<&str>,
        transaction_timeout_ms: i32,
        producer_id: Option<i64>,
        producer_epoch: Option<i16>,
    ) -> (outcome: InitProducer)
        requires
            old(self).wf(),
            producer_id == Some(-1 as i64) && producer_epoch == Some(-1 as i16) ==> can_allocate(
                old(self).model(),
                crate::produce::text_view(transaction_id),
            ),
        ensures
            final(self).wf(),
            (final(self).model(), outcome@) == initiated(
                old(self).model(),
                crate::produce::text_view(transaction_id),
                transaction_timeout_ms,
                producer_id,
                producer_epoch,
            ),
    {
        let nothing = ProducerIdResponse {
            id: -1,
            epoch: -1,
            error: ErrorCode::UnknownServerError,
        };
        if producer_id != Some(-1i64) || producer_epoch != Some(-1i16) {
            return InitProducer::Completed { response: nothing, record: None };
        }
        let transaction_id = match transaction_id {
            Some(transaction_id) => transaction_id.to_owned(),
            None => {
                let id = self.next_producer_id();
                self.add_producer(id, None, 0);
                return InitProducer::Completed {
                    response: ProducerIdResponse { id, epoch: 0, error: ErrorCode::NoError },
                    record: Some(
                        WalRecord::PidAlloc {
                            producer_id: id,
                            transaction_id: None,
                            transaction_timeout_ms: 0,
                        },
                    ),
                };
            },
        };
        let known: Option<(i64, Option<(i16, bool)>)> = match self.transactions.get(
            &transaction_id,
        ) {
            Some(txn) => match txn.epochs.last() {
                Some((epoch, detail)) => {
                    proof {
                        lemma_top_key::<i16, TxnDetailModel>(txn.epochs.model(), *epoch);
                    }
                    Some((txn.producer, Some((*epoch, detail.state == Some(TxnState::Begin)))))
                },
                None => Some((txn.producer, None)),
            },
            None => None,
        };
        match known {
            None => {
                let id = self.next_producer_id();
                self.add_producer(id, Some(transaction_id.clone()), transaction_timeout_ms);
                InitProducer::Completed {
                    response: ProducerIdResponse { id, epoch: 0, error: ErrorCode::NoError },
                    record: Some(
                        WalRecord::PidAlloc {
                            producer_id: id,
                            transaction_id: Some(transaction_id),
                            transaction_timeout_ms,
                        },
                    ),
                }
            },
            Some((_, None)) => InitProducer::Completed { response: nothing, record: None },
            Some((producer_id, Some((producer_epoch, true)))) => InitProducer::NeedToRollback {
                producer_id,
                producer_epoch,
            },
            Some((producer_id, Some((current, false)))) => {
                let epoch: i16 = current + 1;
                self.add_epoch(&transaction_id, producer_id, epoch, transaction_timeout_ms);
                InitProducer::Completed {
                    response: ProducerIdResponse {
                        id: producer_id,
                        epoch,
                        error: ErrorCode::NoError,
                    },
                    record: Some(
                        WalRecord::EpochBump {
                            transaction_id,
                            producer_id,
                            producer_epoch: epoch,
                            transaction_timeout_ms,
                        },
                    ),
                }
            },
        }
    }
}

/// The answer once the open transaction's abort was asked for: none where it
/// was aborted, and the request is made again.
pub fn after_rollback(error_code: ErrorCode) -> (response: Option<ProducerIdResponse>)
    ensures
        response == (if error_code == ErrorCode::NoError {
            None
        } else {
            Some(no_producer())
        }),
{
    if error_code == ErrorCode::NoError {
        None
    } else {
        Some(ProducerIdResponse { id: -1, epoch: -1, error: ErrorCode::UnknownServerError })
    }
}

/// An allocated id was no producer's before.
pub proof fn law_producer_id_fresh(coord: &CoordState)
    requires
        coord.wf(),
        next_producer(coord.model()) <= i64::MAX,
    ensures
        !coord.model().producers.dom().contains(next_producer(coord.model()) as i64),
{
    let producers = coord.producers.model();
    let rows = coord.producers.seq();
    coord.producers.lemma_seq();
    if producers != Map::<i64, Map<i16, SequenceModel>>::empty() {
        let top = rows.last().0;
        lemma_ascending_at::<i64, Map<i16, SequenceModel>>(rows, rows.len() - 1);
        assert forall|id: i64| #[trigger] producers.dom().contains(id) implies !i64::precedes(
            top,
            id,
        ) by {
            let i = lemma_ascending_position::<i64, Map<i16, SequenceModel>>(rows, id);
            if i < rows.len() - 1 {
                assert(i64::precedes(rows[i].0, rows[rows.len() - 1].0));
            }
        }
        assert(greatest::<i64, Map<i16, SequenceModel>>(producers, top));
        lemma_top_key::<i64, Map<i16, SequenceModel>>(producers, top);
        assert(i64::precedes(top, (top + 1) as i64));
    }
}

/// What is logged of a producer's first request replays to the state that the
/// request left.
pub proof fn law_init_replays(
    image: ImageModel,
    transaction_id: Option<Seq<char>>,
    transaction_timeout_ms: i32,
    producer_id: Option<i64>,
    producer_epoch: Option<i16>,
)
    ensures
        ({
            let (coord, outcome) = initiated(
                image.coord,
                transaction_id,
                transaction_timeout_ms,
                producer_id,
                producer_epoch,
            );
            match outcome {
                Initiation::Completed { record: Some(record), .. } => applied(image, record) == (
                ImageModel { coord, ..image }),
                _ => coord == image.coord,
            }
        }),
{
}

/// Once the open incarnation of a transaction is no longer open, whatever its
/// end came to, the producer's request completes: there is no second rollback.
pub proof fn law_init_completes_after_rollback(
    coord: CoordModel,
    transaction_id: Seq<char>,
    transaction_timeout_ms: i32,
    detail: TxnDetailModel,
)
    requires
        coord.transactions.dom().contains(transaction_id),
        greatest::<i16, TxnDetailModel>(
            coord.transactions[transaction_id].epochs,
            top_key::<i16, TxnDetailModel>(coord.transactions[transaction_id].epochs),
        ),
        detail.state != Some(TxnState::Begin),
    ensures
        ({
            let current = top_key::<i16, TxnDetailModel>(
                coord.transactions[transaction_id].epochs,
            );
            let ended = with_txn(coord, transaction_id, current, detail);
            let (after, outcome) = initiated(
                ended,
                Some(transaction_id),
                transaction_timeout_ms,
                Some(-1 as i64),
                Some(-1 as i16),
            );
            outcome matches Initiation::Completed { response, .. } && response.error
                == ErrorCode::NoError && response.id == coord.transactions[transaction_id].producer
                && response.epoch == (current + 1) as i16
        }),
{
    let epochs = coord.transactions[transaction_id].epochs;
    let current = top_key::<i16, TxnDetailModel>(epochs);
    let ended = with_txn(coord, transaction_id, current, detail);
    let after = ended.transactions[transaction_id].epochs;
    assert(after.dom() =~= epochs.dom());
    assert(greatest::<i16, TxnDetailModel>(after, current));
    lemma_top_key::<i16, TxnDetailModel>(after, current);
    assert(after.dom().contains(current));
}

/// Whether an incarnation is not over and has outlived its timeout.
pub open spec fn timed_out(detail: TxnDetailModel, now: SystemTime) -> bool {
    &&& !(detail.state matches Some(state) && state.terminal())
    &&& detail.started_at matches Some(started_at) && now.nanos >= started_at.nanos && now.nanos
        - started_at.nanos > (if detail.transaction_timeout_ms > 0 {
        detail.transaction_timeout_ms as int
    } else {
        0
    }) * 1_000_000
}

pub open spec fn expired_epochs(
    id: Seq<char>,
    producer: i64,
    epochs: Seq<(i16, TxnDetailModel)>,
    now: SystemTime,
) -> Seq<(Seq<char>, i64, i16)>
    decreases epochs.len(),
{
    if epochs.len() == 0 {
        Seq::empty()
    } else {
        let before = expired_epochs(id, producer, epochs.drop_last(), now);
        if timed_out(epochs.last().1, now) {
            before.push((id, producer, epochs.last().0))
        } else {
            before
        }
    }
}

pub open spec fn expired_txns(txns: Seq<(Seq<char>, TxnModel)>, now: SystemTime) -> Seq<
    (Seq<char>, i64, i16),
>
    decreases txns.len(),
{
    if txns.len() == 0 {
        Seq::empty()
    } else {
        expired_txns(txns.drop_last(), now) + expired_epochs(
            txns.last().0,
            txns.last().1.producer,
            ordered::<i16, TxnDetailModel>(txns.last().1.epochs),
            now,
        )
    }
}

/// The incarnations that have outlived their timeouts: id, producer and epoch,
/// in the order of id and epoch.
pub open spec fn expired(coord: CoordModel, now: SystemTime) -> Seq<(Seq<char>, i64, i16)> {
    expired_txns(ordered::<String, TxnModel>(coord.transactions), now)
}

impl CoordState {
    /// The transactions that have outlived their timeouts and are to be
    /// aborted.
    pub fn expired_transactions(&self, now: SystemTime) -> (list: Vec<(String, i64, i16)>)
        requires
            self.wf(),
        ensures
            list.model() == expired(self.model(), now),
    {
        let mut list: Vec<(String, i64, i16)> = Vec::new();
        let ghost rows = self.transactions.seq();
        proof {
            self.transactions.lemma_seq();
            assert(list.model() =~= expired_txns(rows.take(0), now));
        }
        let mut i: usize = 0;
        while i < self.transactions.len()
            invariant
                self.wf(),
                rows == self.transactions.seq(),
                i <= rows.len(),
                list.model() == expired_txns(rows.take(i as int), now),
            decreases rows.len() - i,
        {
            let (id, txn) = self.transactions.at(i);
            let ghost listed = list.model();
            let ghost epochs = txn.epochs.seq();
            proof {
                assert(rows.take(i + 1).drop_last() =~= rows.take(i as int));
                txn.epochs.lemma_seq();
                assert(listed =~= listed + expired_epochs(
                    id@,
                    txn.producer,
                    epochs.take(0),
                    now,
                ));
            }
            let mut e: usize = 0;
            while e < txn.epochs.len()
                invariant
                    txn.wf(),
                    epochs == txn.epochs.seq(),
                    e <= epochs.len(),
                    list.model() == listed + expired_epochs(
                        id@,
                        txn.producer,
                        epochs.take(e as int),
                        now,
                    ),
                decreases epochs.len() - e,
            {
                let (epoch, detail) = txn.epochs.at(e);
                assert(epochs.take(e + 1).drop_last() =~= epochs.take(e as int));
                let over = match detail.state {
                    Some(state) => state.is_terminal(),
                    None => false,
                };
                let mut late: bool = false;
                if !over {
                    if let Some(started_at) = detail.started_at {
                        let millis: u64 = if detail.transaction_timeout_ms > 0 {
                            detail.transaction_timeout_ms as u64
                        } else {
                            0
                        };
                        late = now.past(started_at, Duration::from_millis(millis));
                    }
                }
                assert(late == timed_out(detail.model(), now));
                let ghost before = list.model();
                if late {
                    list.push((id.clone(), txn.producer, *epoch));
                    assert(list.model() =~= before.push((id@, txn.producer, *epoch)));
                }
                e += 1;
                assert(list.model() =~= listed + expired_epochs(
                    id@,
                    txn.producer,
                    epochs.take(e as int),
                    now,
                ));
            }
            assert(epochs.take(e as int) =~= epochs);
            i += 1;
        }
        assert(rows.take(i as int) =~= rows);
        list
    }
}

} // verus!
