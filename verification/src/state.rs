//! Coordination state: producers, transactions, topics and SCRAM credentials.
//!
//! Plain in-memory data; durability comes from the metadata WAL and snapshots
//! (both replayed at boot), never from rewriting this state to disk inline.

use crate::error::{refused, Error, ErrorCode, Fault, Result};
use crate::model::{list_model, Model};
use crate::ordmap::{greatest, ordered, OrdMap};
use crate::time::SystemTime;
use crate::types::{
    CreatableTopic, Credential, ScramCredential, TopicId, TopicRef, TopicSpec, TxnState,
};
use vstd::prelude::*;

verus! {

/// Sequence numbers by topic and partition.
pub type SequenceModel = Map<Seq<char>, Map<i32, i32>>;

/// What one producer has sent, by epoch.
pub struct ProducerDetail {
    pub sequences: OrdMap<i16, OrdMap<String, OrdMap<i32, i32>>>,
}

impl Model for ProducerDetail {
    type V = Map<i16, SequenceModel>;

    open spec fn model(&self) -> Map<i16, SequenceModel> {
        self.sequences.model()
    }

    open spec fn wf(&self) -> bool {
        self.sequences.wf()
    }

    fn dup(&self) -> (copy: Self) {
        ProducerDetail { sequences: self.sequences.dup() }
    }
}

/// The first and the last offset that a transaction produced to a partition.
#[derive(Clone, Copy, Debug, PartialEq, Eq, Structural)]
pub struct TxnProduceOffset {
    pub offset_start: i64,
    pub offset_end: i64,
}

impl Model for TxnProduceOffset {
    type V = TxnProduceOffset;

    open spec fn model(&self) -> TxnProduceOffset {
        *self
    }

    open spec fn wf(&self) -> bool {
        true
    }

    fn dup(&self) -> (copy: Self) {
        *self
    }
}

/// A consumer offset to be committed with a transaction.
#[derive(Debug, PartialEq, Eq)]
pub struct TxnCommitOffset {
    pub committed_offset: i64,
    pub leader_epoch: Option<i32>,
    pub metadata: Option<String>,
}

/// What a [`TxnCommitOffset`] says.
pub struct CommitOffsetModel {
    pub committed_offset: i64,
    pub leader_epoch: Option<i32>,
    pub metadata: Option<Seq<char>>,
}

impl Model for TxnCommitOffset {
    type V = CommitOffsetModel;

    open spec fn model(&self) -> CommitOffsetModel {
        CommitOffsetModel {
            committed_offset: self.committed_offset,
            leader_epoch: self.leader_epoch,
            metadata: self.metadata.model(),
        }
    }

    open spec fn wf(&self) -> bool {
        true
    }

    fn dup(&self) -> (copy: Self) {
        TxnCommitOffset {
            committed_offset: self.committed_offset,
            leader_epoch: self.leader_epoch,
            metadata: self.metadata.dup(),
        }
    }
}

/// Produced ranges by topic and partition; a partition that was only added to
/// the transaction has none.
pub type ProducesModel = Map<Seq<char>, Map<i32, Option<TxnProduceOffset>>>;

/// Offsets to commit by group, topic and partition.
pub type OffsetsModel = Map<Seq<char>, Map<Seq<char>, Map<i32, CommitOffsetModel>>>;

/// One incarnation of a transaction.
pub struct TxnDetail {
    pub transaction_timeout_ms: i32,
    pub started_at: Option<SystemTime>,
    pub state: Option<TxnState>,
    pub produces: OrdMap<String, OrdMap<i32, Option<TxnProduceOffset>>>,
    pub offsets: OrdMap<String, OrdMap<String, OrdMap<i32, TxnCommitOffset>>>,
}

/// What a [`TxnDetail`] says.
#[verifier::ext_equal]
pub struct TxnDetailModel {
    pub transaction_timeout_ms: i32,
    pub started_at: Option<SystemTime>,
    pub state: Option<TxnState>,
    pub produces: ProducesModel,
    pub offsets: OffsetsModel,
}

impl Model for TxnDetail {
    type V = TxnDetailModel;

    open spec fn model(&self) -> TxnDetailModel {
        TxnDetailModel {
            transaction_timeout_ms: self.transaction_timeout_ms,
            started_at: self.started_at,
            state: self.state,
            produces: self.produces.model(),
            offsets: self.offsets.model(),
        }
    }

    open spec fn wf(&self) -> bool {
        self.produces.wf() && self.offsets.wf()
    }

    fn dup(&self) -> (copy: Self) {
        TxnDetail {
            transaction_timeout_ms: self.transaction_timeout_ms,
            started_at: self.started_at,
            state: self.state,
            produces: self.produces.dup(),
            offsets: self.offsets.dup(),
        }
    }
}

/// An incarnation that has not begun.
pub open spec fn fresh_txn(transaction_timeout_ms: i32) -> TxnDetailModel {
    TxnDetailModel {
        transaction_timeout_ms,
        started_at: None,
        state: None,
        produces: Map::empty(),
        offsets: Map::empty(),
    }
}

impl TxnDetail {
    /// An incarnation that has not begun.
    pub fn fresh(transaction_timeout_ms: i32) -> (detail: Self)
        ensures
            detail.wf(),
            detail.model() == fresh_txn(transaction_timeout_ms),
    {
        TxnDetail {
            transaction_timeout_ms,
            started_at: None,
            state: None,
            produces: OrdMap::new(),
            offsets: OrdMap::new(),
        }
    }
}

/// A transaction: its producer and its incarnations by epoch.
pub struct Txn {
    pub producer: i64,
    pub epochs: OrdMap<i16, TxnDetail>,
}

/// What a [`Txn`] says.
#[verifier::ext_equal]
pub struct TxnModel {
    pub producer: i64,
    pub epochs: Map<i16, TxnDetailModel>,
}

impl Model for Txn {
    type V = TxnModel;

    open spec fn model(&self) -> TxnModel {
        TxnModel { producer: self.producer, epochs: self.epochs.model() }
    }

    open spec fn wf(&self) -> bool {
        self.epochs.wf()
    }

    fn dup(&self) -> (copy: Self) {
        Txn { producer: self.producer, epochs: self.epochs.dup() }
    }
}

/// A topic and its id.
#[derive(Debug, PartialEq, Eq)]
pub struct TopicMetadata {
    pub id: u128,
    pub topic: CreatableTopic,
}

/// What a [`TopicMetadata`] says.
pub struct TopicModel {
    pub id: u128,
    pub topic: TopicSpec,
}

impl Model for TopicMetadata {
    type V = TopicModel;

    open spec fn model(&self) -> TopicModel {
        TopicModel { id: self.id, topic: self.topic.model() }
    }

    open spec fn wf(&self) -> bool {
        true
    }

    fn dup(&self) -> (copy: Self) {
        TopicMetadata { id: self.id, topic: self.topic.dup() }
    }
}

/// A reference to one transaction incarnation, as the overlap scan gives it.
#[derive(Debug, PartialEq, Eq)]
pub struct TxnRef {
    pub transaction: String,
    pub producer_id: i64,
    pub producer_epoch: i16,
    pub state: TxnState,
}

/// What a [`TxnRef`] says.
pub struct TxnRefModel {
    pub transaction: Seq<char>,
    pub producer_id: i64,
    pub producer_epoch: i16,
    pub state: TxnState,
}

impl Model for TxnRef {
    type V = TxnRefModel;

    open spec fn model(&self) -> TxnRefModel {
        TxnRefModel {
            transaction: self.transaction@,
            producer_id: self.producer_id,
            producer_epoch: self.producer_epoch,
            state: self.state,
        }
    }

    open spec fn wf(&self) -> bool {
        true
    }

    fn dup(&self) -> (copy: Self) {
        TxnRef {
            transaction: self.transaction.clone(),
            producer_id: self.producer_id,
            producer_epoch: self.producer_epoch,
            state: self.state,
        }
    }
}

/// The coordination state.
pub struct CoordState {
    pub producers: OrdMap<i64, ProducerDetail>,
    pub transactions: OrdMap<String, Txn>,
    pub topics: OrdMap<String, TopicMetadata>,
    pub scram: OrdMap<(String, String), ScramCredential>,
}

/// What a [`CoordState`] says.
#[verifier::ext_equal]
pub struct CoordModel {
    pub producers: Map<i64, Map<i16, SequenceModel>>,
    pub transactions: Map<Seq<char>, TxnModel>,
    pub topics: Map<Seq<char>, TopicModel>,
    pub scram: Map<(Seq<char>, Seq<char>), Credential>,
}

impl Model for CoordState {
    type V = CoordModel;

    open spec fn model(&self) -> CoordModel {
        CoordModel {
            producers: self.producers.model(),
            transactions: self.transactions.model(),
            topics: self.topics.model(),
            scram: self.scram.model(),
        }
    }

    open spec fn wf(&self) -> bool {
        self.producers.wf() && self.transactions.wf() && self.topics.wf() && self.scram.wf()
    }

    fn dup(&self) -> (copy: Self) {
        CoordState {
            producers: self.producers.dup(),
            transactions: self.transactions.dup(),
            topics: self.topics.dup(),
            scram: self.scram.dup(),
        }
    }
}

/// A coordination state with nothing in it.
pub open spec fn empty_coord() -> CoordModel {
    CoordModel {
        producers: Map::empty(),
        transactions: Map::empty(),
        topics: Map::empty(),
        scram: Map::empty(),
    }
}

/// The value of a key of a map, or another where it has none.
pub open spec fn get_or<A, W>(m: Map<A, W>, k: A, fallback: W) -> W {
    if m.dom().contains(k) {
        m[k]
    } else {
        fallback
    }
}

/// The value two levels down.
pub open spec fn cell<W>(m: Map<Seq<char>, Map<i32, W>>, topic: Seq<char>, partition: i32) -> Option<W> {
    if m.dom().contains(topic) && m[topic].dom().contains(partition) {
        Some(m[topic][partition])
    } else {
        None
    }
}

/// A map with a value put in two levels down.
pub open spec fn with_cell<W>(
    m: Map<Seq<char>, Map<i32, W>>,
    topic: Seq<char>,
    partition: i32,
    w: W,
) -> Map<Seq<char>, Map<i32, W>> {
    m.insert(topic, get_or(m, topic, Map::empty()).insert(partition, w))
}

/// Why a request on a transaction is refused, if it is: the transaction is
/// not known, another producer owns it, or the epoch is not its current one.
pub open spec fn txn_refusal(
    coord: CoordModel,
    transaction_id: Seq<char>,
    producer_id: i64,
    producer_epoch: i16,
) -> Option<ErrorCode> {
    if !coord.transactions.dom().contains(transaction_id) {
        Some(ErrorCode::TransactionalIdNotFound)
    } else if coord.transactions[transaction_id].producer != producer_id {
        Some(ErrorCode::UnknownProducerId)
    } else if !greatest::<i16, TxnDetailModel>(
        coord.transactions[transaction_id].epochs,
        producer_epoch,
    ) {
        Some(ErrorCode::ProducerFenced)
    } else {
        None
    }
}

/// One incarnation of a transaction.
pub open spec fn txn_at(coord: CoordModel, transaction_id: Seq<char>, epoch: i16) -> Option<
    TxnDetailModel,
> {
    if coord.transactions.dom().contains(transaction_id)
        && coord.transactions[transaction_id].epochs.dom().contains(epoch) {
        Some(coord.transactions[transaction_id].epochs[epoch])
    } else {
        None
    }
}

/// The state with one incarnation of a transaction replaced.
pub open spec fn with_txn(
    coord: CoordModel,
    transaction_id: Seq<char>,
    epoch: i16,
    detail: TxnDetailModel,
) -> CoordModel {
    let txn = coord.transactions[transaction_id];
    CoordModel {
        transactions: coord.transactions.insert(
            transaction_id,
            TxnModel { producer: txn.producer, epochs: txn.epochs.insert(epoch, detail) },
        ),
        ..coord
    }
}

/// Why an idempotent batch is refused before its sequence number is looked
/// at, if it is.
pub open spec fn producer_refusal(
    coord: CoordModel,
    producer_id: i64,
    producer_epoch: i16,
) -> Option<ErrorCode> {
    if !coord.producers.dom().contains(producer_id) {
        Some(ErrorCode::UnknownProducerId)
    } else if coord.producers[producer_id] == Map::<i16, SequenceModel>::empty() {
        Some(ErrorCode::UnknownServerError)
    } else if !greatest::<i16, SequenceModel>(coord.producers[producer_id], producer_epoch) {
        Some(ErrorCode::ProducerFenced)
    } else {
        None
    }
}

/// The sequence number that a producer's next batch must have.
pub open spec fn next_sequence(
    coord: CoordModel,
    producer_id: i64,
    producer_epoch: i16,
    topic: Seq<char>,
    partition: i32,
) -> i32 {
    match cell(coord.producers[producer_id][producer_epoch], topic, partition) {
        Some(sequence) => sequence,
        None => 0,
    }
}

/// The state with a producer's sequence number set.
pub open spec fn with_sequence(
    coord: CoordModel,
    producer_id: i64,
    producer_epoch: i16,
    topic: Seq<char>,
    partition: i32,
    sequence: i32,
) -> CoordModel {
    let epochs = coord.producers[producer_id];
    CoordModel {
        producers: coord.producers.insert(
            producer_id,
            epochs.insert(
                producer_epoch,
                with_cell(
                    get_or(epochs, producer_epoch, Map::empty()),
                    topic,
                    partition,
                    sequence,
                ),
            ),
        ),
        ..coord
    }
}

/// Whether a batch has the sequence number that is expected of it.
pub open spec fn sequence_fits(
    coord: CoordModel,
    producer_id: i64,
    producer_epoch: i16,
    base_sequence: i32,
    topic: Seq<char>,
    partition: i32,
) -> bool {
    &&& producer_refusal(coord, producer_id, producer_epoch) is None
    &&& next_sequence(coord, producer_id, producer_epoch, topic, partition) == base_sequence
}

/// A produced range grown to reach an offset; a new one where there is none.
pub open spec fn extended(
    range: Option<Option<TxnProduceOffset>>,
    offset_start: i64,
    offset_end: i64,
) -> TxnProduceOffset {
    match range {
        Some(Some(range)) => TxnProduceOffset {
            offset_start: range.offset_start,
            offset_end: if offset_end > range.offset_end {
                offset_end
            } else {
                range.offset_end
            },
        },
        _ => TxnProduceOffset { offset_start, offset_end },
    }
}

/// The ranges of one topic, in partition order.
pub open spec fn topic_ranges(
    topic: Seq<char>,
    partitions: Seq<(i32, Option<TxnProduceOffset>)>,
) -> Seq<(Seq<char>, i32, TxnProduceOffset)>
    decreases partitions.len(),
{
    if partitions.len() == 0 {
        Seq::empty()
    } else {
        let before = topic_ranges(topic, partitions.drop_last());
        match partitions.last().1 {
            Some(range) => before.push((topic, partitions.last().0, range)),
            None => before,
        }
    }
}

/// The ranges of a list of topics.
pub open spec fn ranges_of(
    topics: Seq<(Seq<char>, Map<i32, Option<TxnProduceOffset>>)>,
) -> Seq<(Seq<char>, i32, TxnProduceOffset)>
    decreases topics.len(),
{
    if topics.len() == 0 {
        Seq::empty()
    } else {
        ranges_of(topics.drop_last()) + topic_ranges(
            topics.last().0,
            ordered::<i32, Option<TxnProduceOffset>>(topics.last().1),
        )
    }
}

/// What a transaction produced: its ranges in the order of topic and partition.
pub open spec fn produced_ranges(produces: ProducesModel) -> Seq<
    (Seq<char>, i32, TxnProduceOffset),
> {
    ranges_of(ordered::<String, Map<i32, Option<TxnProduceOffset>>>(produces))
}

/// The produced ranges of a transaction, listed in the order of topic and partition.
pub fn list_ranges(produces: &OrdMap<String, OrdMap<i32, Option<TxnProduceOffset>>>) -> (list: Vec<
    (String, i32, TxnProduceOffset),
>)
    requires
        produces.wf(),
    ensures
        list_model(list@) == produced_ranges(produces.model()),
{
    let mut list: Vec<(String, i32, TxnProduceOffset)> = Vec::new();
    let ghost rows = produces.seq();
    proof {
        produces.lemma_seq();
        assert(list_model(list@) =~= ranges_of(rows.take(0)));
    }
    let mut i: usize = 0;
    while i < produces.len()
        invariant
            produces.wf(),
            rows == produces.seq(),
            i <= rows.len(),
            list_model(list@) == ranges_of(rows.take(i as int)),
        decreases rows.len() - i,
    {
        let (topic, partitions) = produces.at(i);
        let ghost cells = partitions.seq();
        let ghost before = list_model(list@);
        proof {
            partitions.lemma_seq();
            assert(rows.take(i + 1).drop_last() =~= rows.take(i as int));
            assert(before =~= before + topic_ranges(topic@, cells.take(0)));
        }
        let mut j: usize = 0;
        while j < partitions.len()
            invariant
                partitions.wf(),
                cells == partitions.seq(),
                j <= cells.len(),
                list_model(list@) == before + topic_ranges(topic@, cells.take(j as int)),
            decreases cells.len() - j,
        {
            let (partition, range) = partitions.at(j);
            let ghost so_far = list_model(list@);
            proof {
                assert(cells.take(j + 1).drop_last() =~= cells.take(j as int));
            }
            if let Some(range) = range {
                list.push((topic.clone(), *partition, *range));
                assert(list_model(list@) =~= so_far.push((topic@, *partition, *range)));
            }
            j += 1;
            assert(list_model(list@) =~= before + topic_ranges(topic@, cells.take(j as int)));
        }
        assert(cells.take(j as int) =~= cells);
        i += 1;
    }
    assert(rows.take(i as int) =~= rows);
    list
}

/// What one incarnation of a transaction produced.
pub open spec fn produces_at(coord: CoordModel, transaction_id: Seq<char>, epoch: i16) -> ProducesModel {
    match txn_at(coord, transaction_id, epoch) {
        Some(detail) => detail.produces,
        None => Map::empty(),
    }
}

/// The first topic of a list with an id.
pub open spec fn with_id(topics: Seq<(Seq<char>, TopicModel)>, id: u128) -> Option<TopicModel>
    decreases topics.len(),
{
    if topics.len() == 0 {
        None
    } else {
        match with_id(topics.drop_last(), id) {
            Some(found) => Some(found),
            None => if topics.last().1.id == id {
                Some(topics.last().1)
            } else {
                None
            },
        }
    }
}

/// The topic that a reference names.
pub open spec fn topic_of(coord: CoordModel, topic: TopicRef) -> Option<TopicModel> {
    match topic {
        TopicRef::Name(name) => if coord.topics.dom().contains(name) {
            Some(coord.topics[name])
        } else {
            None
        },
        TopicRef::Id(id) => with_id(ordered::<String, TopicModel>(coord.topics), id),
    }
}

impl CoordState {
    pub fn new() -> (coord: Self)
        ensures
            coord.wf(),
            coord.model() == empty_coord(),
    {
        CoordState {
            producers: OrdMap::new(),
            transactions: OrdMap::new(),
            topics: OrdMap::new(),
            scram: OrdMap::new(),
        }
    }

    pub fn topic_metadata(&self, topic: &TopicId) -> (found: Option<&TopicMetadata>)
        requires
            self.wf(),
        ensures
            match found {
                Some(metadata) => topic_of(self.model(), topic@) == Some(metadata.model()),
                None => topic_of(self.model(), topic@) is None,
            },
    {
        match topic {
            TopicId::Name(name) => self.topics.get(name),
            TopicId::Id(id) => {
                let ghost rows = self.topics.seq();
                proof {
                    self.topics.lemma_seq();
                }
                let mut i: usize = 0;
                while i < self.topics.len()
                    invariant
                        self.wf(),
                        topic@ == TopicRef::Id(*id),
                        rows == self.topics.seq(),
                        rows == ordered::<String, TopicModel>(self.topics.model()),
                        i <= rows.len(),
                        with_id(rows.take(i as int), *id) is None,
                    decreases rows.len() - i,
                {
                    let (_, metadata) = self.topics.at(i);
                    proof {
                        assert(rows.take(i + 1).drop_last() =~= rows.take(i as int));
                        lemma_with_id_stable(rows, i + 1, *id);
                    }
                    if metadata.id == *id {
                        return Some(metadata);
                    }
                    i += 1;
                }
                assert(rows.take(i as int) =~= rows);
                None
            },
        }
    }

    /// Locate the transaction, validating producer id and (current) epoch.
    pub fn txn_detail_mut(
        &mut self,
        transaction_id: &str,
        producer_id: i64,
        producer_epoch: i16,
    ) -> (result: Result<&mut TxnDetail>)
        requires
            old(self).wf(),
        ensures
            match result {
                Ok(detail) => {
                    &&& txn_refusal(
                        old(self).model(),
                        transaction_id@,
                        producer_id,
                        producer_epoch,
                    ) is None
                    &&& detail.wf()
                    &&& txn_at(old(self).model(), transaction_id@, producer_epoch) == Some(
                        detail.model(),
                    )
                    &&& final(detail).wf() ==> final(self).wf()
                    &&& final(self).model() == with_txn(
                        old(self).model(),
                        transaction_id@,
                        producer_epoch,
                        final(detail).model(),
                    )
                },
                Err(error) => {
                    &&& *final(self) == *old(self)
                    &&& txn_refusal(
                        old(self).model(),
                        transaction_id@,
                        producer_id,
                        producer_epoch,
                    ) matches Some(code) && error@ == Fault::Api(code)
                },
            },
    {
        let id = transaction_id.to_owned();
        match self.transactions.get(&id) {
            None => {
                return Err(Error::Api(ErrorCode::TransactionalIdNotFound));
            },
            Some(transaction) => {
                if transaction.producer != producer_id {
                    return Err(Error::Api(ErrorCode::UnknownProducerId));
                }
                match transaction.epochs.last() {
                    None => {
                        return Err(Error::Api(ErrorCode::ProducerFenced));
                    },
                    Some((current_epoch, _)) => {
                        if *current_epoch != producer_epoch {
                            return Err(Error::Api(ErrorCode::ProducerFenced));
                        }
                    },
                }
            },
        }
        let transaction = self.transactions.get_mut(&id).unwrap();
        let detail = transaction.epochs.get_mut(&producer_epoch).unwrap();
        Ok(detail)
    }

    /// Idempotent-producer sequence validation, bumping the stored sequence by
    /// the batch's record count on success.
    pub fn validate_sequence(
        &mut self,
        producer_id: i64,
        producer_epoch: i16,
        base_sequence: i32,
        last_offset_delta: i32,
        topic: &str,
        partition: i32,
    ) -> (result: Result<()>)
        requires
            old(self).wf(),
            sequence_fits(
                old(self).model(),
                producer_id,
                producer_epoch,
                base_sequence,
                topic@,
                partition,
            ) ==> {
                &&& last_offset_delta < i32::MAX
                &&& i32::MIN <= base_sequence + last_offset_delta + 1 <= i32::MAX
            },
        ensures
            final(self).wf(),
            match producer_refusal(old(self).model(), producer_id, producer_epoch) {
                Some(code) => {
                    &&& refused(result, Fault::Api(code))
                    &&& final(self).model() == old(self).model()
                },
                None => {
                    let expected = next_sequence(
                        old(self).model(),
                        producer_id,
                        producer_epoch,
                        topic@,
                        partition,
                    );
                    let after = if expected == base_sequence {
                        (base_sequence + last_offset_delta + 1) as i32
                    } else {
                        expected
                    };
                    &&& final(self).model() == with_sequence(
                        old(self).model(),
                        producer_id,
                        producer_epoch,
                        topic@,
                        partition,
                        after,
                    )
                    &&& expected < base_sequence ==> refused(
                        result,
                        Fault::Api(ErrorCode::OutOfOrderSequenceNumber),
                    )
                    &&& expected > base_sequence ==> refused(
                        result,
                        Fault::Api(ErrorCode::DuplicateSequenceNumber),
                    )
                    &&& expected == base_sequence ==> result is Ok
                },
            },
    {
        match self.producers.get(&producer_id) {
            None => {
                return Err(Error::Api(ErrorCode::UnknownProducerId));
            },
            Some(pd) => {
                match pd.sequences.last() {
                    None => {
                        return Err(Error::Api(ErrorCode::UnknownServerError));
                    },
                    Some((current, _)) => {
                        if *current != producer_epoch {
                            assert(producer_refusal(self.model(), producer_id, producer_epoch)
                                == Some(ErrorCode::ProducerFenced));
                            return Err(Error::Api(ErrorCode::ProducerFenced));
                        }
                    },
                }
            },
        }
        let pd = self.producers.get_mut(&producer_id).unwrap();
        let current = pd.sequences.get_mut(&producer_epoch).unwrap();
        let partitions = current.entry(topic.to_owned(), OrdMap::new());
        let sequence = partitions.entry(partition, 0);
        if *sequence < base_sequence {
            Err(Error::Api(ErrorCode::OutOfOrderSequenceNumber))
        } else if *sequence > base_sequence {
            Err(Error::Api(ErrorCode::DuplicateSequenceNumber))
        } else {
            *sequence = *sequence + (last_offset_delta + 1);
            Ok(())
        }
    }

    /// Merge a transactional produce into the transaction's range on the
    /// partition. A data batch needs an open transaction: without this guard a
    /// concurrently swept (timed-out) one would leak ranges into its next
    /// incarnation. Control batches are produced while it is prepared, and
    /// extend the range so that committed readers skip past the marker.
    pub fn record_txn_produce(
        &mut self,
        transaction_id: &str,
        producer_epoch: i16,
        topic: &str,
        partition: i32,
        offset_start: i64,
        offset_end: i64,
        is_control: bool,
    ) -> (result: Result<()>)
        requires
            old(self).wf(),
        ensures
            final(self).wf(),
            match txn_at(old(self).model(), transaction_id@, producer_epoch) {
                None => result is Ok && final(self).model() == old(self).model(),
                Some(detail) => if !is_control && detail.state != Some(TxnState::Begin) {
                    &&& refused(result, Fault::Api(ErrorCode::InvalidTxnState))
                    &&& final(self).model() == old(self).model()
                } else {
                    &&& result is Ok
                    &&& final(self).model() == with_txn(
                        old(self).model(),
                        transaction_id@,
                        producer_epoch,
                        TxnDetailModel {
                            produces: with_cell(
                                detail.produces,
                                topic@,
                                partition,
                                Some(
                                    extended(
                                        cell(detail.produces, topic@, partition),
                                        offset_start,
                                        offset_end,
                                    ),
                                ),
                            ),
                            ..detail
                        },
                    )
                },
            },
    {
        let id = transaction_id.to_owned();
        match self.transactions.get(&id) {
            None => {
                return Ok(());
            },
            Some(transaction) => {
                match transaction.epochs.get(&producer_epoch) {
                    None => {
                        return Ok(());
                    },
                    Some(detail) => {
                        if !is_control && detail.state != Some(TxnState::Begin) {
                            return Err(Error::Api(ErrorCode::InvalidTxnState));
                        }
                    },
                }
            },
        }
        let transaction = self.transactions.get_mut(&id).unwrap();
        let detail = transaction.epochs.get_mut(&producer_epoch).unwrap();
        let partitions = detail.produces.entry(topic.to_owned(), OrdMap::new());
        let slot = partitions.entry(partition, None);
        let grown = match *slot {
            Some(range) => TxnProduceOffset {
                offset_start: range.offset_start,
                offset_end: if offset_end > range.offset_end {
                    offset_end
                } else {
                    range.offset_end
                },
            },
            None => TxnProduceOffset { offset_start, offset_end },
        };
        *slot = Some(grown);
        Ok(())
    }

    /// The produced offset ranges of one transaction incarnation.
    pub fn produced(&self, transaction_id: &str, producer_epoch: i16) -> (list: Vec<
        (String, i32, TxnProduceOffset),
    >)
        requires
            self.wf(),
        ensures
            list_model(list@) == produced_ranges(
                produces_at(self.model(), transaction_id@, producer_epoch),
            ),
    {
        if let Some(txn) = self.transactions.get(&transaction_id.to_owned()) {
            if let Some(detail) = txn.epochs.get(&producer_epoch) {
                return list_ranges(&detail.produces);
            }
        }
        list_ranges(&OrdMap::new())
    }
}

proof fn lemma_with_id_stable(rows: Seq<(Seq<char>, TopicModel)>, n: int, id: u128)
    requires
        0 <= n <= rows.len(),
    ensures
        with_id(rows.take(n), id) is Some ==> with_id(rows, id) == with_id(rows.take(n), id),
    decreases rows.len() - n,
{
    if n < rows.len() {
        assert(rows.take(n + 1).drop_last() =~= rows.take(n));
        lemma_with_id_stable(rows, n + 1, id);
    } else {
        assert(rows.take(n) =~= rows);
    }
}

} // verus!
