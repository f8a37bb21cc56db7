//! The end of a transaction, a step at a time: it is prepared and that logged,
//! its partitions get end markers, it is resolved together with those that
//! waited for it, unless it has itself to wait for an open one, and once their
//! ends are logged their effects apply.

use crate::error::{refused, Fault, Result};
use crate::groups::records_view;
use crate::model::Model;
use crate::ordmap::OrdMap;
use crate::resolution::{commits_by_group, group_commits, terminal_of, terminals};
use crate::state::{produced_ranges, txn_at, txn_refusal, with_txn, CoordState, TxnDetailModel};
use crate::txn::{effects_view, marked, prepared_state, resolution, Effects, TxnEffects};
use crate::types::{OffsetCommitRequest, Topition, TxnState};
use crate::wal::{Record, WalRecord};
use vstd::prelude::*;

verus! {

/// Which transaction ends, and how.
pub struct EndRequest {
    pub transaction_id: Seq<char>,
    pub producer_id: i64,
    pub producer_epoch: i16,
    pub committed: bool,
}

/// A transaction whose end was asked for and is to be resolved.
pub struct Ending {
    transaction_id: String,
    producer_id: i64,
    producer_epoch: i16,
    committed: bool,
}

impl View for Ending {
    type V = EndRequest;

    closed spec fn view(&self) -> EndRequest {
        EndRequest {
            transaction_id: self.transaction_id@,
            producer_id: self.producer_id,
            producer_epoch: self.producer_epoch,
            committed: self.committed,
        }
    }
}

impl Ending {
    /// Prepares the end of a transaction. Where it was open, gives what is to
    /// be logged, and then the partitions that get an end marker: a crash in
    /// between leaves the transaction in doubt with known ranges.
    pub fn prepare(
        coord: &mut CoordState,
        transaction_id: &str,
        producer_id: i64,
        producer_epoch: i16,
        committed: bool,
    ) -> (result: Result<(Ending, Option<(WalRecord, Vec<Topition>)>)>)
        requires
            old(coord).wf(),
        ensures
            final(coord).wf(),
            match txn_refusal(old(coord).model(), transaction_id@, producer_id, producer_epoch) {
                Some(code) => {
                    &&& refused(result, Fault::Api(code))
                    &&& final(coord).model() == old(coord).model()
                },
                None => {
                    let detail = txn_at(
                        old(coord).model(),
                        transaction_id@,
                        producer_epoch,
                    ).unwrap();
                    let produced = produced_ranges(detail.produces);
                    &&& result matches Ok((ending, _)) && ending@ == (EndRequest {
                        transaction_id: transaction_id@,
                        producer_id,
                        producer_epoch,
                        committed,
                    })
                    &&& if detail.state == Some(TxnState::Begin) {
                        &&& final(coord).model() == with_txn(
                            old(coord).model(),
                            transaction_id@,
                            producer_epoch,
                            TxnDetailModel { state: Some(prepared_state(committed)), ..detail },
                        )
                        &&& result matches Ok((_, Some((record, markers)))) && record@ == (
                        Record::TxnPrepare {
                            transaction_id: transaction_id@,
                            producer_id,
                            producer_epoch,
                            committed,
                            produced,
                        }) && markers.model() == marked(produced)
                    } else {
                        &&& final(coord).model() == old(coord).model()
                        &&& result matches Ok((_, None))
                    }
                },
            },
    {
        match coord.txn_prepare(transaction_id, producer_id, producer_epoch, committed) {
            Ok(prepared) => {
                let ending = Ending {
                    transaction_id: transaction_id.to_owned(),
                    producer_id,
                    producer_epoch,
                    committed,
                };
                Ok((ending, prepared))
            },
            Err(error) => Err(error),
        }
    }

    /// Resolves the transaction, unless it overlaps an open one, together with
    /// the prepared ones that overlaps reach from it and no open one holds up.
    pub fn resolve(self, coord: &mut CoordState) -> (result: Result<Resolution>)
        requires
            old(coord).wf(),
        ensures
            final(coord).wf(),
            match txn_refusal(
                old(coord).model(),
                self@.transaction_id,
                self@.producer_id,
                self@.producer_epoch,
            ) {
                Some(code) => {
                    &&& refused(result, Fault::Api(code))
                    &&& final(coord).model() == old(coord).model()
                },
                None => result matches Ok(resolved) && (final(coord).model(), resolved@)
                    == resolution(
                    old(coord).model(),
                    self@.transaction_id,
                    self@.producer_id,
                    self@.producer_epoch,
                    self@.committed,
                ),
            },
    {
        match coord.txn_resolve(
            self.transaction_id.as_str(),
            self.producer_id,
            self.producer_epoch,
            self.committed,
        ) {
            Ok(effects) => Ok(Resolution { effects }),
            Err(error) => Err(error),
        }
    }
}

/// Transactions that have ended and whose ends are to be logged.
pub struct Resolution {
    effects: Vec<TxnEffects>,
}

impl View for Resolution {
    type V = Seq<Effects>;

    closed spec fn view(&self) -> Seq<Effects> {
        effects_view(self.effects@)
    }
}

impl Resolution {
    /// What is to be logged before the effects apply, one record for each end.
    pub fn records(&self) -> (records: Vec<WalRecord>)
        ensures
            records_view(records@) == terminals(self@),
    {
        let mut records: Vec<WalRecord> = Vec::new();
        let mut i: usize = 0;
        while i < self.effects.len()
            invariant
                i <= self.effects@.len(),
                records@.len() == i,
                forall|j: int|
                    0 <= j < i ==> (#[trigger] records@[j])@ == terminal_of(self.effects@[j]@),
            decreases self.effects@.len() - i,
        {
            records.push(self.effects[i].terminal_record());
            i += 1;
        }
        assert(records_view(records@) =~= terminals(self@));
        records
    }

    /// What is to be done to the partitions, now that the ends are logged.
    pub fn effects(&self) -> (effects: &Vec<TxnEffects>)
        ensures
            effects_view(effects@) == self@,
    {
        &self.effects
    }

    /// The group commits to be made.
    pub fn commits(&self) -> (commits: OrdMap<String, Vec<(Topition, OffsetCommitRequest)>>)
        ensures
            commits.wf(),
            commits.model() == group_commits(self@),
    {
        commits_by_group(&self.effects)
    }
}

} // verus!
