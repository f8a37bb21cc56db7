//! The life of a transaction in the coordination state: partitions are added,
//! consumer offsets are staged, the end is prepared, and the transaction is
//! resolved. Resolution is gated: a prepared transaction ends only once no open
//! one overlaps it, so an end that is asked for may be answered while the
//! transaction stays prepared, and ends with another's.

use crate::error::{refused, Error, ErrorCode, Fault, Result};
use crate::model::{list_model, Model};
use crate::ordmap::{ordered, OrdMap};
use crate::overlap::{ending_too, held};
use crate::state::{
    cell, get_or, list_ranges, produced_ranges, txn_at, txn_refusal, with_cell, with_txn,
    CommitOffsetModel, CoordModel, CoordState, OffsetsModel, ProducesModel, TxnCommitOffset,
    TxnDetail, TxnDetailModel, TxnProduceOffset, TxnRef, TxnRefModel,
};
use crate::time::SystemTime;
use crate::types::{Topition, TxnState};
use crate::wal::{record_view, Record, WalRecord};
use vstd::prelude::*;

verus! {

/// The partitions of one topic that a producer adds to its transaction.
#[derive(Debug)]
pub struct AddPartitionsToTxnTopic {
    pub name: String,
    pub partitions: Option<Vec<i32>>,
}

impl Model for AddPartitionsToTxnTopic {
    type V = (Seq<char>, Option<Seq<i32>>);

    open spec fn model(&self) -> (Seq<char>, Option<Seq<i32>>) {
        (self.name@, self.partitions.model())
    }

    open spec fn wf(&self) -> bool {
        true
    }

    fn dup(&self) -> (copy: Self) {
        AddPartitionsToTxnTopic { name: self.name.clone(), partitions: self.partitions.dup() }
    }
}

/// One consumer offset that a producer stages with its transaction.
#[derive(Debug)]
pub struct TxnOffsetPartition {
    pub partition_index: i32,
    pub committed_offset: i64,
    pub committed_leader_epoch: Option<i32>,
    pub committed_metadata: Option<String>,
}

/// The offset to be committed.
pub open spec fn staged(partition: TxnOffsetPartition) -> (i32, CommitOffsetModel) {
    (
        partition.partition_index,
        CommitOffsetModel {
            committed_offset: partition.committed_offset,
            leader_epoch: partition.committed_leader_epoch,
            metadata: partition.committed_metadata.model(),
        },
    )
}

impl Model for TxnOffsetPartition {
    type V = (i32, CommitOffsetModel);

    open spec fn model(&self) -> (i32, CommitOffsetModel) {
        staged(*self)
    }

    open spec fn wf(&self) -> bool {
        true
    }

    fn dup(&self) -> (copy: Self) {
        TxnOffsetPartition {
            partition_index: self.partition_index,
            committed_offset: self.committed_offset,
            committed_leader_epoch: self.committed_leader_epoch,
            committed_metadata: self.committed_metadata.dup(),
        }
    }
}

/// The consumer offsets of one topic that a producer stages.
#[derive(Debug)]
pub struct TxnOffsetTopic {
    pub name: String,
    pub partitions: Option<Vec<TxnOffsetPartition>>,
}

impl Model for TxnOffsetTopic {
    type V = (Seq<char>, Option<Seq<(i32, CommitOffsetModel)>>);

    open spec fn model(&self) -> (Seq<char>, Option<Seq<(i32, CommitOffsetModel)>>) {
        (self.name@, self.partitions.model())
    }

    open spec fn wf(&self) -> bool {
        true
    }

    fn dup(&self) -> (copy: Self) {
        TxnOffsetTopic { name: self.name.clone(), partitions: self.partitions.dup() }
    }
}

/// A producer's request to add partitions to its transaction.
#[derive(Debug)]
pub enum TxnAddPartitionsRequest {
    VersionZeroToThree {
        transaction_id: String,
        producer_id: i64,
        producer_epoch: i16,
        topics: Vec<AddPartitionsToTxnTopic>,
    },
    /// A batch of transactions, which the engine does not take.
    VersionFourPlus,
}

/// A producer's request to stage consumer offsets with its transaction.
#[derive(Debug)]
pub struct TxnOffsetCommitRequest {
    pub transaction_id: String,
    pub group_id: String,
    pub producer_id: i64,
    pub producer_epoch: i16,
    pub topics: Vec<TxnOffsetTopic>,
}

/// An answer for each partition of a topic.
#[derive(Debug, PartialEq, Eq)]
pub struct TopicResult {
    pub name: String,
    pub partitions: Vec<(i32, ErrorCode)>,
}

impl View for TopicResult {
    type V = (Seq<char>, Seq<(i32, ErrorCode)>);

    open spec fn view(&self) -> (Seq<char>, Seq<(i32, ErrorCode)>) {
        (self.name@, self.partitions@)
    }
}

/// What a list of answers says.
pub open spec fn results_view(results: Seq<TopicResult>) -> Seq<(Seq<char>, Seq<(i32, ErrorCode)>)> {
    Seq::new(results.len(), |i: int| results[i]@)
}

/// The partitions of an optional list.
pub open spec fn or_none<T>(list: Option<Seq<T>>) -> Seq<T> {
    match list {
        Some(list) => list,
        None => Seq::empty(),
    }
}

/// One answer for every partition that was asked about.
pub open spec fn answers(topics: Seq<(Seq<char>, Option<Seq<i32>>)>, code: ErrorCode) -> Seq<
    (Seq<char>, Seq<(i32, ErrorCode)>),
> {
    Seq::new(
        topics.len(),
        |i: int|
            (
                topics[i].0,
                Seq::new(or_none(topics[i].1).len(), |j: int| (or_none(topics[i].1)[j], code)),
            ),
    )
}

/// One answer for every partition that an offset was staged for.
pub open spec fn offset_answers(
    topics: Seq<(Seq<char>, Option<Seq<(i32, CommitOffsetModel)>>)>,
    code: ErrorCode,
) -> Seq<(Seq<char>, Seq<(i32, ErrorCode)>)> {
    Seq::new(
        topics.len(),
        |i: int|
            (
                topics[i].0,
                Seq::new(or_none(topics[i].1).len(), |j: int| (or_none(topics[i].1)[j].0, code)),
            ),
    )
}

/// Answers every partition with one code.
pub fn txn_add_partitions_response(
    topics: &Vec<AddPartitionsToTxnTopic>,
    error_code: ErrorCode,
) -> (results: Vec<TopicResult>)
    ensures
        results_view(results@) == answers(topics.model(), error_code),
{
    let mut results: Vec<TopicResult> = Vec::new();
    let ghost all = answers(topics.model(), error_code);
    let mut i: usize = 0;
    while i < topics.len()
        invariant
            all == answers(topics.model(), error_code),
            i <= topics@.len(),
            results_view(results@) == all.take(i as int),
        decreases topics@.len() - i,
    {
        let mut partitions: Vec<(i32, ErrorCode)> = Vec::new();
        if let Some(list) = &topics[i].partitions {
            let mut j: usize = 0;
            while j < list.len()
                invariant
                    j <= list@.len(),
                    partitions@ == Seq::new(j as nat, |k: int| (list.model()[k], error_code)),
                decreases list@.len() - j,
            {
                partitions.push((list[j], error_code));
                j += 1;
                assert(partitions@ =~= Seq::new(
                    j as nat,
                    |k: int| (list.model()[k], error_code),
                ));
            }
        }
        let ghost before = results_view(results@);
        results.push(TopicResult { name: topics[i].name.clone(), partitions });
        proof {
            assert(results@.last()@.1 =~= all[i as int].1);
            assert(results_view(results@) =~= before.push(results@.last()@));
            assert(all.take(i + 1) =~= all.take(i as int).push(all[i as int]));
        }
        i += 1;
    }
    assert(all.take(i as int) =~= all);
    results
}

/// Answers every partition with one code.
pub fn txn_offset_commit_response(topics: &Vec<TxnOffsetTopic>, error_code: ErrorCode) -> (results:
    Vec<TopicResult>)
    ensures
        results_view(results@) == offset_answers(topics.model(), error_code),
{
    let mut results: Vec<TopicResult> = Vec::new();
    let ghost all = offset_answers(topics.model(), error_code);
    let mut i: usize = 0;
    while i < topics.len()
        invariant
            all == offset_answers(topics.model(), error_code),
            i <= topics@.len(),
            results_view(results@) == all.take(i as int),
        decreases topics@.len() - i,
    {
        let mut partitions: Vec<(i32, ErrorCode)> = Vec::new();
        if let Some(list) = &topics[i].partitions {
            let mut j: usize = 0;
            while j < list.len()
                invariant
                    j <= list@.len(),
                    partitions@ == Seq::new(j as nat, |k: int| (list.model()[k].0, error_code)),
                decreases list@.len() - j,
            {
                partitions.push((list[j].partition_index, error_code));
                j += 1;
                assert(partitions@ =~= Seq::new(
                    j as nat,
                    |k: int| (list.model()[k].0, error_code),
                ));
            }
        }
        let ghost before = results_view(results@);
        results.push(TopicResult { name: topics[i].name.clone(), partitions });
        proof {
            assert(results@.last()@.1 =~= all[i as int].1);
            assert(results_view(results@) =~= before.push(results@.last()@));
            assert(all.take(i + 1) =~= all.take(i as int).push(all[i as int]));
        }
        i += 1;
    }
    assert(all.take(i as int) =~= all);
    results
}

/// The partitions that a request lists, topic by topic.
pub open spec fn listed<T>(topics: Seq<(Seq<char>, Option<Seq<T>>)>) -> Seq<(Seq<char>, T)>
    decreases topics.len(),
{
    if topics.len() == 0 {
        Seq::empty()
    } else {
        let (name, partitions) = topics.last();
        listed(topics.drop_last()) + Seq::new(
            or_none(partitions).len(),
            |j: int| (name, or_none(partitions)[j]),
        )
    }
}

fn list_partitions(topics: &Vec<AddPartitionsToTxnTopic>) -> (list: Vec<(String, i32)>)
    ensures
        list.model() == listed(topics.model()),
{
    let mut list: Vec<(String, i32)> = Vec::new();
    let ghost rows = topics.model();
    let mut i: usize = 0;
    assert(list.model() =~= listed(rows.take(0)));
    while i < topics.len()
        invariant
            rows == topics.model(),
            i <= rows.len(),
            list.model() == listed(rows.take(i as int)),
        decreases rows.len() - i,
    {
        let ghost before = list.model();
        proof {
            assert(rows.take(i + 1).drop_last() =~= rows.take(i as int));
            assert(rows.take(i + 1).last() == topics@[i as int].model());
        }
        let ghost name = topics@[i as int].name@;
        if let Some(partitions) = &topics[i].partitions {
            let mut j: usize = 0;
            while j < partitions.len()
                invariant
                    i < topics@.len(),
                    name == topics@[i as int].name@,
                    j <= partitions@.len(),
                    list.model() == before + Seq::new(
                        j as nat,
                        |k: int| (name, partitions.model()[k]),
                    ),
                decreases partitions@.len() - j,
            {
                let ghost so_far = list.model();
                list.push((topics[i].name.clone(), partitions[j]));
                assert(list.model() =~= so_far.push((name, partitions@[j as int])));
                j += 1;
                assert(list.model() =~= before + Seq::new(
                    j as nat,
                    |k: int| (name, partitions.model()[k]),
                ));
            }
        }
        i += 1;
        assert(list.model() =~= listed(rows.take(i as int)));
    }
    assert(rows.take(i as int) =~= rows);
    list
}

fn list_staged(topics: &Vec<TxnOffsetTopic>) -> (list: Vec<(String, i32, TxnCommitOffset)>)
    ensures
        list.model() == flat_offsets(listed(topics.model())),
{
    let mut list: Vec<(String, i32, TxnCommitOffset)> = Vec::new();
    let ghost rows = topics.model();
    let mut i: usize = 0;
    assert(list.model() =~= flat_offsets(listed(rows.take(0))));
    while i < topics.len()
        invariant
            rows == topics.model(),
            i <= rows.len(),
            list.model() == flat_offsets(listed(rows.take(i as int))),
        decreases rows.len() - i,
    {
        let ghost before = list.model();
        proof {
            assert(rows.take(i + 1).drop_last() =~= rows.take(i as int));
            assert(rows.take(i + 1).last() == topics@[i as int].model());
        }
        let ghost name = topics@[i as int].name@;
        if let Some(partitions) = &topics[i].partitions {
            let ghost cells = partitions.model();
            let mut j: usize = 0;
            while j < partitions.len()
                invariant
                    i < topics@.len(),
                    name == topics@[i as int].name@,
                    cells == partitions.model(),
                    j <= cells.len(),
                    list.model() == before + Seq::new(
                        j as nat,
                        |k: int| (name, cells[k].0, cells[k].1),
                    ),
                decreases cells.len() - j,
            {
                let partition = &partitions[j];
                let ghost so_far = list.model();
                list.push(
                    (
                        topics[i].name.clone(),
                        partition.partition_index,
                        TxnCommitOffset {
                            committed_offset: partition.committed_offset,
                            leader_epoch: partition.committed_leader_epoch,
                            metadata: partition.committed_metadata.dup(),
                        },
                    ),
                );
                assert(list.model() =~= so_far.push(
                    (name, cells[j as int].0, cells[j as int].1),
                ));
                j += 1;
                assert(list.model() =~= before + Seq::new(
                    j as nat,
                    |k: int| (name, cells[k].0, cells[k].1),
                ));
            }
        }
        i += 1;
        assert(list.model() =~= flat_offsets(listed(rows.take(i as int))));
    }
    assert(rows.take(i as int) =~= rows);
    list
}

/// Topic, partition and offset side by side.
pub open spec fn flat_offsets(list: Seq<(Seq<char>, (i32, CommitOffsetModel))>) -> Seq<
    (Seq<char>, i32, CommitOffsetModel),
> {
    Seq::new(list.len(), |i: int| (list[i].0, list[i].1.0, list[i].1.1))
}

/// Produced ranges with a partition added; one that is there keeps its range.
pub open spec fn with_partition(produces: ProducesModel, topic: Seq<char>, partition: i32) -> ProducesModel {
    with_cell(
        produces,
        topic,
        partition,
        match cell(produces, topic, partition) {
            Some(range) => range,
            None => None,
        },
    )
}

pub open spec fn with_partitions(produces: ProducesModel, list: Seq<(Seq<char>, i32)>) -> ProducesModel
    decreases list.len(),
{
    if list.len() == 0 {
        produces
    } else {
        with_partition(
            with_partitions(produces, list.drop_last()),
            list.last().0,
            list.last().1,
        )
    }
}

/// An incarnation that begins, or goes on, with partitions added. One that had
/// ended (clients reuse the epoch across transactions) begins anew: nothing of
/// its previous incarnation leaks into it.
pub open spec fn begun(
    detail: TxnDetailModel,
    partitions: Seq<(Seq<char>, i32)>,
    started_at: SystemTime,
) -> TxnDetailModel {
    let ended = detail.state matches Some(state) && state.terminal();
    TxnDetailModel {
        transaction_timeout_ms: detail.transaction_timeout_ms,
        started_at: Some(started_at),
        state: Some(TxnState::Begin),
        produces: with_partitions(
            if ended {
                Map::empty()
            } else {
                detail.produces
            },
            partitions,
        ),
        offsets: if ended {
            Map::empty()
        } else {
            detail.offsets
        },
    }
}

/// Staged offsets with one more.
pub open spec fn with_offset(
    offsets: OffsetsModel,
    group: Seq<char>,
    topic: Seq<char>,
    partition: i32,
    commit: CommitOffsetModel,
) -> OffsetsModel {
    offsets.insert(
        group,
        with_cell(get_or(offsets, group, Map::empty()), topic, partition, commit),
    )
}

pub open spec fn with_offsets(
    offsets: OffsetsModel,
    group: Seq<char>,
    list: Seq<(Seq<char>, i32, CommitOffsetModel)>,
) -> OffsetsModel
    decreases list.len(),
{
    if list.len() == 0 {
        offsets
    } else {
        with_offset(
            with_offsets(offsets, group, list.drop_last()),
            group,
            list.last().0,
            list.last().1,
            list.last().2,
        )
    }
}

/// The state that preparing the end leads to.
pub open spec fn prepared_state(committed: bool) -> TxnState {
    if committed {
        TxnState::PrepareCommit
    } else {
        TxnState::PrepareAbort
    }
}

/// The state that ending leads to.
pub open spec fn terminal_state(committed: bool) -> TxnState {
    if committed {
        TxnState::Committed
    } else {
        TxnState::Aborted
    }
}

/// An incarnation that has ended.
pub open spec fn ended(detail: TxnDetailModel, state: TxnState) -> TxnDetailModel {
    TxnDetailModel {
        transaction_timeout_ms: detail.transaction_timeout_ms,
        started_at: None,
        state: Some(state),
        produces: Map::empty(),
        offsets: Map::empty(),
    }
}

/// The partitions of a list of produced ranges.
pub open spec fn marked(produced: Seq<(Seq<char>, i32, TxnProduceOffset)>) -> Seq<
    (Seq<char>, i32),
> {
    Seq::new(produced.len(), |i: int| (produced[i].0, produced[i].1))
}

fn list_marked(produced: &Vec<(String, i32, TxnProduceOffset)>) -> (list: Vec<Topition>)
    ensures
        list.model() == marked(produced.model()),
{
    let mut list: Vec<Topition> = Vec::new();
    let ghost rows = produced.model();
    let mut i: usize = 0;
    while i < produced.len()
        invariant
            rows == produced.model(),
            i <= rows.len(),
            list@.len() == i,
            forall|j: int| 0 <= j < i ==> (#[trigger] list@[j]).model() == (rows[j].0, rows[j].1),
        decreases rows.len() - i,
    {
        assert(rows[i as int] == produced@[i as int].model());
        list.push(Topition { topic: produced[i].0.clone(), partition: produced[i].1 });
        i += 1;
    }
    assert(list.model() =~= marked(rows));
    list
}

/// Produced ranges that a list writes out.
pub open spec fn ranges_map(list: Seq<(Seq<char>, i32, TxnProduceOffset)>) -> ProducesModel
    decreases list.len(),
{
    if list.len() == 0 {
        Map::empty()
    } else {
        with_cell(
            ranges_map(list.drop_last()),
            list.last().0,
            list.last().1,
            Some(list.last().2),
        )
    }
}

impl TxnDetail {
    /// Begins, or goes on, with partitions added.
    pub fn begin(&mut self, partitions: &Vec<(String, i32)>, started_at: SystemTime)
        requires
            old(self).wf(),
        ensures
            final(self).wf(),
            final(self).model() == begun(old(self).model(), partitions.model(), started_at),
    {
        let ended = match self.state {
            Some(state) => state.is_terminal(),
            None => false,
        };
        if ended {
            self.produces.clear();
            self.offsets.clear();
        }
        let ghost start = self.produces.model();
        let ghost rows = partitions.model();
        let mut i: usize = 0;
        assert(rows.take(0) =~= Seq::<(Seq<char>, i32)>::empty());
        while i < partitions.len()
            invariant
                self.wf(),
                rows == partitions.model(),
                i <= rows.len(),
                self.produces.model() == with_partitions(start, rows.take(i as int)),
                self.offsets.model() == (if ended {
                    Map::empty()
                } else {
                    old(self).model().offsets
                }),
                self.transaction_timeout_ms == old(self).transaction_timeout_ms,
            decreases rows.len() - i,
        {
            proof {
                assert(rows.take(i + 1).drop_last() =~= rows.take(i as int));
                assert(rows.take(i + 1).last() == partitions@[i as int].model());
            }
            let by_topic = self.produces.entry(partitions[i].0.clone(), OrdMap::new());
            let slot = by_topic.entry(partitions[i].1, None);
            i += 1;
        }
        assert(rows.take(i as int) =~= rows);
        self.started_at = Some(started_at);
        self.state = Some(TxnState::Begin);
    }

    /// Stages consumer offsets of a group.
    pub fn stage(&mut self, group: &String, list: &Vec<(String, i32, TxnCommitOffset)>)
        requires
            old(self).wf(),
        ensures
            final(self).wf(),
            final(self).model() == (TxnDetailModel {
                offsets: with_offsets(old(self).model().offsets, group@, list.model()),
                ..old(self).model()
            }),
    {
        let ghost rows = list.model();
        let mut i: usize = 0;
        assert(rows.take(0) =~= Seq::<(Seq<char>, i32, CommitOffsetModel)>::empty());
        while i < list.len()
            invariant
                self.wf(),
                rows == list.model(),
                i <= rows.len(),
                self.model() == (TxnDetailModel {
                    offsets: with_offsets(
                        old(self).model().offsets,
                        group@,
                        rows.take(i as int),
                    ),
                    ..old(self).model()
                }),
            decreases rows.len() - i,
        {
            proof {
                assert(rows.take(i + 1).drop_last() =~= rows.take(i as int));
                assert(rows.take(i + 1).last() == list@[i as int].model());
            }
            let by_group = self.offsets.entry(group.clone(), OrdMap::new());
            let by_topic = by_group.entry(list[i].0.clone(), OrdMap::new());
            by_topic.insert(list[i].1, list[i].2.dup());
            i += 1;
        }
        assert(rows.take(i as int) =~= rows);
    }

    /// Ends.
    pub fn end(&mut self, state: TxnState)
        ensures
            final(self).wf(),
            final(self).model() == ended(old(self).model(), state),
    {
        self.state = Some(state);
        self.produces.clear();
        self.offsets.clear();
        self.started_at = None;
    }

    /// Prepares the end with the ranges that were recorded then.
    pub fn prepare_with(
        &mut self,
        committed: bool,
        produced: &Vec<(String, i32, TxnProduceOffset)>,
    )
        requires
            old(self).wf(),
        ensures
            final(self).wf(),
            final(self).model() == (TxnDetailModel {
                state: Some(prepared_state(committed)),
                produces: ranges_map(produced.model()),
                ..old(self).model()
            }),
    {
        self.state = Some(
            if committed {
                TxnState::PrepareCommit
            } else {
                TxnState::PrepareAbort
            },
        );
        self.produces.clear();
        let ghost rows = produced.model();
        let mut i: usize = 0;
        assert(rows.take(0) =~= Seq::<(Seq<char>, i32, TxnProduceOffset)>::empty());
        while i < produced.len()
            invariant
                self.wf(),
                rows == produced.model(),
                i <= rows.len(),
                self.model() == (TxnDetailModel {
                    state: Some(prepared_state(committed)),
                    produces: ranges_map(rows.take(i as int)),
                    ..old(self).model()
                }),
            decreases rows.len() - i,
        {
            proof {
                assert(rows.take(i + 1).drop_last() =~= rows.take(i as int));
                assert(rows.take(i + 1).last() == produced@[i as int].model());
            }
            let by_topic = self.produces.entry(produced[i].0.clone(), OrdMap::new());
            by_topic.insert(produced[i].1, Some(produced[i].2));
            i += 1;
        }
        assert(rows.take(i as int) =~= rows);
    }
}

/// What a resolved transaction leaves to be done.
pub struct TxnEffects {
    pub transaction: String,
    pub producer_id: i64,
    pub producer_epoch: i16,
    pub aborting: bool,
    /// The ranges it produced.
    pub ranges: Vec<(String, i32, TxnProduceOffset)>,
    /// The consumer offsets that a commit applies, by group and partition.
    pub offsets: Vec<((String, Topition), TxnCommitOffset)>,
}

/// What [`TxnEffects`] say.
pub struct Effects {
    pub transaction: Seq<char>,
    pub producer_id: i64,
    pub producer_epoch: i16,
    pub aborting: bool,
    pub ranges: Seq<(Seq<char>, i32, TxnProduceOffset)>,
    pub offsets: Seq<((Seq<char>, (Seq<char>, i32)), CommitOffsetModel)>,
}

impl View for TxnEffects {
    type V = Effects;

    open spec fn view(&self) -> Effects {
        Effects {
            transaction: self.transaction@,
            producer_id: self.producer_id,
            producer_epoch: self.producer_epoch,
            aborting: self.aborting,
            ranges: self.ranges.model(),
            offsets: self.offsets.model(),
        }
    }
}

/// What a list of effects says.
pub open spec fn effects_view(effects: Seq<TxnEffects>) -> Seq<Effects> {
    Seq::new(effects.len(), |i: int| effects[i]@)
}

/// The staged offsets of one topic, in partition order.
pub open spec fn topic_offsets(
    group: Seq<char>,
    topic: Seq<char>,
    partitions: Seq<(i32, CommitOffsetModel)>,
) -> Seq<((Seq<char>, (Seq<char>, i32)), CommitOffsetModel)> {
    Seq::new(partitions.len(), |i: int| ((group, (topic, partitions[i].0)), partitions[i].1))
}

pub open spec fn group_offsets(
    group: Seq<char>,
    topics: Seq<(Seq<char>, Map<i32, CommitOffsetModel>)>,
) -> Seq<((Seq<char>, (Seq<char>, i32)), CommitOffsetModel)>
    decreases topics.len(),
{
    if topics.len() == 0 {
        Seq::empty()
    } else {
        group_offsets(group, topics.drop_last()) + topic_offsets(
            group,
            topics.last().0,
            ordered::<i32, CommitOffsetModel>(topics.last().1),
        )
    }
}

pub open spec fn all_offsets(
    groups: Seq<(Seq<char>, Map<Seq<char>, Map<i32, CommitOffsetModel>>)>,
) -> Seq<((Seq<char>, (Seq<char>, i32)), CommitOffsetModel)>
    decreases groups.len(),
{
    if groups.len() == 0 {
        Seq::empty()
    } else {
        all_offsets(groups.drop_last()) + group_offsets(
            groups.last().0,
            ordered::<String, Map<i32, CommitOffsetModel>>(groups.last().1),
        )
    }
}

/// The staged offsets in the order of group, topic and partition.
pub open spec fn staged_offsets(offsets: OffsetsModel) -> Seq<
    ((Seq<char>, (Seq<char>, i32)), CommitOffsetModel),
> {
    all_offsets(ordered::<String, Map<Seq<char>, Map<i32, CommitOffsetModel>>>(offsets))
}

/// Lists the staged offsets.
fn list_offsets(offsets: &OrdMap<String, OrdMap<String, OrdMap<i32, TxnCommitOffset>>>) -> (list:
    Vec<((String, Topition), TxnCommitOffset)>)
    requires
        offsets.wf(),
    ensures
        list.model() == staged_offsets(offsets.model()),
{
    let mut list: Vec<((String, Topition), TxnCommitOffset)> = Vec::new();
    let ghost groups = offsets.seq();
    proof {
        offsets.lemma_seq();
        assert(list.model() =~= all_offsets(groups.take(0)));
    }
    let mut g: usize = 0;
    while g < offsets.len()
        invariant
            offsets.wf(),
            groups == offsets.seq(),
            g <= groups.len(),
            list.model() == all_offsets(groups.take(g as int)),
        decreases groups.len() - g,
    {
        let (group, by_topic) = offsets.at(g);
        let ghost before = list.model();
        let ghost topics = by_topic.seq();
        proof {
            by_topic.lemma_seq();
            assert(groups.take(g + 1).drop_last() =~= groups.take(g as int));
            assert(before =~= before + group_offsets(group@, topics.take(0)));
        }
        let mut t: usize = 0;
        while t < by_topic.len()
            invariant
                by_topic.wf(),
                topics == by_topic.seq(),
                t <= topics.len(),
                list.model() == before + group_offsets(group@, topics.take(t as int)),
            decreases topics.len() - t,
        {
            let (topic, partitions) = by_topic.at(t);
            let ghost so_far = list.model();
            let ghost cells = partitions.seq();
            proof {
                partitions.lemma_seq();
                assert(topics.take(t + 1).drop_last() =~= topics.take(t as int));
                assert(so_far =~= so_far + topic_offsets(group@, topic@, cells.take(0)));
            }
            let mut p: usize = 0;
            while p < partitions.len()
                invariant
                    partitions.wf(),
                    cells == partitions.seq(),
                    p <= cells.len(),
                    list.model() == so_far + topic_offsets(group@, topic@, cells.take(p as int)),
                decreases cells.len() - p,
            {
                let (partition, commit) = partitions.at(p);
                let ghost last = list.model();
                list.push(
                    (
                        (group.clone(), Topition { topic: topic.clone(), partition: *partition }),
                        commit.dup(),
                    ),
                );
                p += 1;
                proof {
                    assert(list.model() =~= last.push(list@.last().model()));
                    assert(list.model() =~= so_far + topic_offsets(
                        group@,
                        topic@,
                        cells.take(p as int),
                    ));
                }
            }
            assert(cells.take(p as int) =~= cells);
            t += 1;
            assert(list.model() =~= before + group_offsets(group@, topics.take(t as int)));
        }
        assert(topics.take(t as int) =~= topics);
        g += 1;
    }
    assert(groups.take(g as int) =~= groups);
    list
}

/// How a prepared transaction ends; one that never began (it only staged
/// offsets) ends as committed. An open or an ended one does not end now.
pub open spec fn outcome(state: Option<TxnState>) -> Option<TxnState> {
    match state {
        None | Some(TxnState::PrepareCommit) => Some(TxnState::Committed),
        Some(TxnState::PrepareAbort) => Some(TxnState::Aborted),
        _ => None,
    }
}

/// What the end of one transaction leaves to be done. Its offsets apply where
/// the end that was asked for is a commit.
pub open spec fn effects_of(txn: TxnRefModel, detail: TxnDetailModel) -> Effects {
    Effects {
        transaction: txn.transaction,
        producer_id: txn.producer_id,
        producer_epoch: txn.producer_epoch,
        aborting: outcome(detail.state) == Some(TxnState::Aborted),
        ranges: produced_ranges(detail.produces),
        offsets: if txn.state == TxnState::PrepareCommit {
            staged_offsets(detail.offsets)
        } else {
            Seq::empty()
        },
    }
}

/// The state after a list of transactions has ended, and what they leave to be
/// done.
pub open spec fn resolved(coord: CoordModel, txns: Seq<TxnRefModel>) -> (CoordModel, Seq<Effects>)
    decreases txns.len(),
{
    if txns.len() == 0 {
        (coord, Seq::empty())
    } else {
        let (before, effects) = resolved(coord, txns.drop_last());
        let txn = txns.last();
        match txn_at(before, txn.transaction, txn.producer_epoch) {
            Some(detail) => match outcome(detail.state) {
                Some(state) => (
                    with_txn(before, txn.transaction, txn.producer_epoch, ended(detail, state)),
                    effects.push(effects_of(txn, detail)),
                ),
                None => (before, effects),
            },
            None => (before, effects),
        }
    }
}

/// The transactions that end when the end of one was asked for: of those that
/// overlaps reach from it, the prepared ones that overlap no open one; and the
/// transaction itself, last, unless it overlaps an open one.
pub open spec fn ending(
    coord: CoordModel,
    transaction_id: Seq<char>,
    producer_id: i64,
    producer_epoch: i16,
    committed: bool,
) -> Seq<TxnRefModel> {
    let others = ending_too(coord, transaction_id, producer_epoch);
    if held(coord, transaction_id, producer_epoch) {
        others
    } else {
        others.push(
            TxnRefModel {
                transaction: transaction_id,
                producer_id,
                producer_epoch,
                state: prepared_state(committed),
            },
        )
    }
}

/// The state after an end was asked for, and what is left to be done. A
/// transaction that overlaps an open one stays prepared: the end of the last
/// open one that it overlaps reaches it, and ends it.
pub open spec fn resolution(
    coord: CoordModel,
    transaction_id: Seq<char>,
    producer_id: i64,
    producer_epoch: i16,
    committed: bool,
) -> (CoordModel, Seq<Effects>) {
    resolved(coord, ending(coord, transaction_id, producer_id, producer_epoch, committed))
}

impl CoordState {
    /// Adds partitions to a transaction, which begins it. Answers every
    /// partition, and gives what is to be logged where the transaction began.
    /// A request of a version that names several transactions is refused.
    pub fn txn_add_partitions(
        &mut self,
        request: &TxnAddPartitionsRequest,
        started_at: SystemTime,
    ) -> (result: Result<(Vec<TopicResult>, Option<WalRecord>)>)
        requires
            old(self).wf(),
        ensures
            final(self).wf(),
            match request {
                TxnAddPartitionsRequest::VersionFourPlus => {
                    &&& refused(result, Fault::Api(ErrorCode::UnsupportedVersion))
                    &&& final(self).model() == old(self).model()
                },
                TxnAddPartitionsRequest::VersionZeroToThree {
                    transaction_id,
                    producer_id,
                    producer_epoch,
                    topics,
                } => result matches Ok((answered, record)) && match txn_refusal(
                    old(self).model(),
                    transaction_id@,
                    *producer_id,
                    *producer_epoch,
                ) {
                    Some(code) => {
                        &&& final(self).model() == old(self).model()
                        &&& results_view(answered@) == answers(topics.model(), code)
                        &&& record is None
                    },
                    None => {
                        let detail = txn_at(
                            old(self).model(),
                            transaction_id@,
                            *producer_epoch,
                        ).unwrap();
                        let partitions = listed(topics.model());
                        &&& final(self).model() == with_txn(
                            old(self).model(),
                            transaction_id@,
                            *producer_epoch,
                            begun(detail, partitions, started_at),
                        )
                        &&& results_view(answered@) == answers(topics.model(), ErrorCode::NoError)
                        &&& record_view(record) == Some(
                            Record::TxnBegin {
                                transaction_id: transaction_id@,
                                producer_id: *producer_id,
                                producer_epoch: *producer_epoch,
                                started_at,
                                partitions,
                            },
                        )
                    },
                },
            },
    {
        let (transaction_id, producer_id, producer_epoch, topics) = match request {
            TxnAddPartitionsRequest::VersionZeroToThree {
                transaction_id,
                producer_id,
                producer_epoch,
                topics,
            } => (transaction_id, *producer_id, *producer_epoch, topics),
            TxnAddPartitionsRequest::VersionFourPlus => {
                return Err(Error::Api(ErrorCode::UnsupportedVersion));
            },
        };
        match self.txn_detail_mut(transaction_id.as_str(), producer_id, producer_epoch) {
            Ok(detail) => {
                let partitions = list_partitions(topics);
                detail.begin(&partitions, started_at);
                let record = WalRecord::TxnBegin {
                    transaction_id: transaction_id.clone(),
                    producer_id,
                    producer_epoch,
                    started_at,
                    partitions,
                };
                Ok((txn_add_partitions_response(topics, ErrorCode::NoError), Some(record)))
            },
            Err(Error::Api(code)) => Ok((txn_add_partitions_response(topics, code), None)),
            Err(error) => Err(error),
        }
    }

    /// Stages consumer offsets with a transaction. Answers every partition,
    /// and gives what is to be logged where they were staged.
    pub fn txn_offset_commit(&mut self, request: &TxnOffsetCommitRequest) -> (result: Result<
        (Vec<TopicResult>, Option<WalRecord>),
    >)
        requires
            old(self).wf(),
        ensures
            final(self).wf(),
            result matches Ok((answered, record)) && match txn_refusal(
                old(self).model(),
                request.transaction_id@,
                request.producer_id,
                request.producer_epoch,
            ) {
                Some(code) => {
                    &&& final(self).model() == old(self).model()
                    &&& results_view(answered@) == offset_answers(request.topics.model(), code)
                    &&& record is None
                },
                None => {
                    let detail = txn_at(
                        old(self).model(),
                        request.transaction_id@,
                        request.producer_epoch,
                    ).unwrap();
                    let staged = flat_offsets(listed(request.topics.model()));
                    &&& final(self).model() == with_txn(
                        old(self).model(),
                        request.transaction_id@,
                        request.producer_epoch,
                        TxnDetailModel {
                            offsets: with_offsets(detail.offsets, request.group_id@, staged),
                            ..detail
                        },
                    )
                    &&& results_view(answered@) == offset_answers(
                        request.topics.model(),
                        ErrorCode::NoError,
                    )
                    &&& record_view(record) == Some(
                        Record::TxnOffsets {
                            transaction_id: request.transaction_id@,
                            producer_id: request.producer_id,
                            producer_epoch: request.producer_epoch,
                            group: request.group_id@,
                            offsets: staged,
                        },
                    )
                },
            },
    {
        let topics = &request.topics;
        match self.txn_detail_mut(
            request.transaction_id.as_str(),
            request.producer_id,
            request.producer_epoch,
        ) {
            Ok(detail) => {
                let offsets = list_staged(topics);
                detail.stage(&request.group_id, &offsets);
                let record = WalRecord::TxnOffsets {
                    transaction_id: request.transaction_id.clone(),
                    producer_id: request.producer_id,
                    producer_epoch: request.producer_epoch,
                    group: request.group_id.clone(),
                    offsets,
                };
                Ok((txn_offset_commit_response(topics, ErrorCode::NoError), Some(record)))
            },
            Err(Error::Api(code)) => Ok((txn_offset_commit_response(topics, code), None)),
            Err(error) => Err(error),
        }
    }

    /// Prepares the end of an open transaction: gives what is to be logged
    /// first, and then the partitions it produced to, each of which gets an
    /// end marker. One that is not open stays as it is.
    pub fn txn_prepare(
        &mut self,
        transaction_id: &str,
        producer_id: i64,
        producer_epoch: i16,
        committed: bool,
    ) -> (result: Result<Option<(WalRecord, Vec<Topition>)>>)
        requires
            old(self).wf(),
        ensures
            final(self).wf(),
            match txn_refusal(old(self).model(), transaction_id@, producer_id, producer_epoch) {
                Some(code) => {
                    &&& refused(result, Fault::Api(code))
                    &&& final(self).model() == old(self).model()
                },
                None => {
                    let detail = txn_at(
                        old(self).model(),
                        transaction_id@,
                        producer_epoch,
                    ).unwrap();
                    let produced = produced_ranges(detail.produces);
                    if detail.state == Some(TxnState::Begin) {
                        &&& final(self).model() == with_txn(
                            old(self).model(),
                            transaction_id@,
                            producer_epoch,
                            TxnDetailModel { state: Some(prepared_state(committed)), ..detail },
                        )
                        &&& result matches Ok(Some((record, markers))) && record@ == (
                        Record::TxnPrepare {
                            transaction_id: transaction_id@,
                            producer_id,
                            producer_epoch,
                            committed,
                            produced,
                        }) && markers.model() == marked(produced)
                    } else {
                        &&& final(self).model() == old(self).model()
                        &&& result matches Ok(None)
                    }
                },
            },
    {
        match self.txn_detail_mut(transaction_id, producer_id, producer_epoch) {
            Ok(detail) => {
                let mut prepared: Option<(WalRecord, Vec<Topition>)> = None;
                if detail.state == Some(TxnState::Begin) {
                    detail.state = Some(
                        if committed {
                            TxnState::PrepareCommit
                        } else {
                            TxnState::PrepareAbort
                        },
                    );
                    let produced = list_ranges(&detail.produces);
                    let markers = list_marked(&produced);
                    let record = WalRecord::TxnPrepare {
                        transaction_id: transaction_id.to_owned(),
                        producer_id,
                        producer_epoch,
                        committed,
                        produced,
                    };
                    prepared = Some((record, markers));
                }
                proof {
                    lemma_same_txn(old(self).model(), transaction_id@, producer_epoch);
                }
                Ok(prepared)
            },
            Err(error) => Err(error),
        }
    }

    /// Ends one transaction, if it is to end.
    fn resolve_one(&mut self, txn: TxnRef) -> (effects: Option<TxnEffects>)
        requires
            old(self).wf(),
        ensures
            final(self).wf(),
            match txn_at(old(self).model(), txn.transaction@, txn.producer_epoch) {
                Some(detail) => match outcome(detail.state) {
                    Some(state) => {
                        &&& final(self).model() == with_txn(
                            old(self).model(),
                            txn.transaction@,
                            txn.producer_epoch,
                            ended(detail, state),
                        )
                        &&& effects matches Some(effects) && effects@ == effects_of(
                            txn.model(),
                            detail,
                        )
                    },
                    None => final(self).model() == old(self).model() && effects is None,
                },
                None => final(self).model() == old(self).model() && effects is None,
            },
    {
        let terminal = match self.transactions.get(&txn.transaction) {
            Some(transaction) => match transaction.epochs.get(&txn.producer_epoch) {
                Some(detail) => match detail.state {
                    None => TxnState::Committed,
                    Some(TxnState::PrepareCommit) => TxnState::Committed,
                    Some(TxnState::PrepareAbort) => TxnState::Aborted,
                    _ => {
                        return None;
                    },
                },
                None => {
                    return None;
                },
            },
            None => {
                return None;
            },
        };
        let transaction = self.transactions.get_mut(&txn.transaction).unwrap();
        let detail = transaction.epochs.get_mut(&txn.producer_epoch).unwrap();
        let ranges = list_ranges(&detail.produces);
        let offsets = if txn.state == TxnState::PrepareCommit {
            list_offsets(&detail.offsets)
        } else {
            Vec::new()
        };
        detail.end(terminal);
        let effects = TxnEffects {
            transaction: txn.transaction,
            producer_id: txn.producer_id,
            producer_epoch: txn.producer_epoch,
            aborting: terminal == TxnState::Aborted,
            ranges,
            offsets,
        };
        assert(effects@.offsets =~= effects_of(
            txn.model(),
            txn_at(old(self).model(), txn.transaction@, txn.producer_epoch).unwrap(),
        ).offsets);
        Some(effects)
    }

    /// Resolves a prepared transaction, unless it overlaps an open one, together
    /// with the prepared ones that overlaps reach from it and no open one holds
    /// up.
    pub fn txn_resolve(
        &mut self,
        transaction_id: &str,
        producer_id: i64,
        producer_epoch: i16,
        committed: bool,
    ) -> (result: Result<Vec<TxnEffects>>)
        requires
            old(self).wf(),
        ensures
            final(self).wf(),
            match txn_refusal(old(self).model(), transaction_id@, producer_id, producer_epoch) {
                Some(code) => {
                    &&& refused(result, Fault::Api(code))
                    &&& final(self).model() == old(self).model()
                },
                None => result matches Ok(effects) && (
                    final(self).model(),
                    effects_view(effects@),
                ) == resolution(
                    old(self).model(),
                    transaction_id@,
                    producer_id,
                    producer_epoch,
                    committed,
                ),
            },
    {
        match self.txn_detail_mut(transaction_id, producer_id, producer_epoch) {
            Ok(_) => {
                proof {
                    lemma_same_txn(old(self).model(), transaction_id@, producer_epoch);
                }
            },
            Err(error) => {
                return Err(error);
            },
        }
        let mut txns = self.list_ending(transaction_id, producer_epoch);
        if !self.is_held(transaction_id, producer_id, producer_epoch) {
            txns.push(
                TxnRef {
                    transaction: transaction_id.to_owned(),
                    producer_id,
                    producer_epoch,
                    state: if committed {
                        TxnState::PrepareCommit
                    } else {
                        TxnState::PrepareAbort
                    },
                },
            );
        }
        let ghost all = list_model(txns@);
        proof {
            assert(all =~= ending(
                self.model(),
                transaction_id@,
                producer_id,
                producer_epoch,
                committed,
            ));
        }
        let mut effects: Vec<TxnEffects> = Vec::new();
        let mut k: usize = 0;
        let ghost coord = self.model();
        assert(effects_view(effects@) =~= Seq::<Effects>::empty());
        while k < txns.len()
            invariant
                all == list_model(txns@),
                k <= all.len(),
                self.wf(),
                (self.model(), effects_view(effects@)) == resolved(coord, all.take(k as int)),
            decreases all.len() - k,
        {
            proof {
                assert(all.take(k + 1).drop_last() =~= all.take(k as int));
                assert(all.take(k + 1).last() == txns@[k as int].model());
            }
            let ghost before = effects_view(effects@);
            let txn = txns[k].dup();
            if let Some(done) = self.resolve_one(txn) {
                effects.push(done);
                assert(effects_view(effects@) =~= before.push(done@));
            }
            k += 1;
        }
        assert(all.take(k as int) =~= all);
        Ok(effects)
    }
}

/// Putting an incarnation back as it was changes nothing.
pub proof fn lemma_same_txn(coord: CoordModel, transaction_id: Seq<char>, epoch: i16)
    requires
        txn_at(coord, transaction_id, epoch) is Some,
    ensures
        with_txn(
            coord,
            transaction_id,
            epoch,
            txn_at(coord, transaction_id, epoch).unwrap(),
        ) == coord,
{
    let txn = coord.transactions[transaction_id];
    let detail = txn.epochs[epoch];
    assert(txn.epochs.insert(epoch, detail) =~= txn.epochs);
    assert(coord.transactions.insert(transaction_id, txn) =~= coord.transactions);
}

} // verus!
