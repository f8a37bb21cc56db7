//! Replaying the metadata WAL: what each record does to the state that a boot
//! rebuilds.

use crate::model::Model;
use crate::ordmap::{chosen, OrdMap, Pick};
use crate::partition::AbortedRange;
use crate::settings::altered;
use crate::state::{
    fresh_txn, get_or, with_txn, CoordModel, CoordState, ProducerDetail, SequenceModel,
    TopicMetadata, TopicModel, Txn, TxnDetail, TxnDetailModel, TxnModel, TxnProduceOffset,
};
use crate::text::same;
use crate::txn::{begun, ended, prepared_state, ranges_map, terminal_state, with_offsets};
use crate::types::{
    Credential, GroupDetail, OffsetCommit, OffsetCommitRequest, ScramCredential, Topition, TxnState,
    Version,
};
use crate::wal::{Record, WalRecord};
use vstd::prelude::*;

verus! {

/// What a snapshot and the WAL know of a partition before its segments are
/// scanned.
pub struct Skeleton {
    pub log_start: i64,
    pub aborted: Vec<AbortedRange>,
}

/// What a [`Skeleton`] says.
#[verifier::ext_equal]
pub struct SkeletonModel {
    pub log_start: i64,
    pub aborted: Seq<AbortedRange>,
}

/// A partition of which nothing is known.
pub open spec fn empty_skeleton() -> SkeletonModel {
    SkeletonModel { log_start: 0, aborted: Seq::empty() }
}

impl Skeleton {
    pub fn new() -> (skeleton: Self)
        ensures
            skeleton.model() == empty_skeleton(),
    {
        Skeleton { log_start: 0, aborted: Vec::new() }
    }
}

impl Model for Skeleton {
    type V = SkeletonModel;

    open spec fn model(&self) -> SkeletonModel {
        SkeletonModel { log_start: self.log_start, aborted: self.aborted@ }
    }

    open spec fn wf(&self) -> bool {
        true
    }

    fn dup(&self) -> (copy: Self) {
        Skeleton { log_start: self.log_start, aborted: self.aborted.clone() }
    }
}

/// Consumer groups: each one's state and its version.
pub type Groups = OrdMap<String, (GroupDetail, Version)>;

/// Committed consumer offsets by group and partition.
pub type GroupOffsets = OrdMap<(String, Topition), OffsetCommitRequest>;

/// What [`Groups`] say.
pub type GroupsModel = Map<Seq<char>, (Seq<u8>, Version)>;

/// What [`GroupOffsets`] say.
pub type GroupOffsetsModel = Map<(Seq<char>, (Seq<char>, i32)), OffsetCommit>;

/// The state that a snapshot and the WAL carry.
pub struct Image {
    pub coord: CoordState,
    pub groups: Groups,
    pub group_offsets: GroupOffsets,
    pub skeletons: OrdMap<Topition, Skeleton>,
}

/// What an [`Image`] says.
#[verifier::ext_equal]
pub struct ImageModel {
    pub coord: CoordModel,
    pub groups: GroupsModel,
    pub group_offsets: GroupOffsetsModel,
    pub skeletons: Map<(Seq<char>, i32), SkeletonModel>,
}

impl Model for Image {
    type V = ImageModel;

    open spec fn model(&self) -> ImageModel {
        ImageModel {
            coord: self.coord.model(),
            groups: self.groups.model(),
            group_offsets: self.group_offsets.model(),
            skeletons: self.skeletons.model(),
        }
    }

    open spec fn wf(&self) -> bool {
        self.coord.wf() && self.groups.wf() && self.group_offsets.wf() && self.skeletons.wf()
    }

    fn dup(&self) -> (copy: Self) {
        Image {
            coord: self.coord.dup(),
            groups: self.groups.dup(),
            group_offsets: self.group_offsets.dup(),
            skeletons: self.skeletons.dup(),
        }
    }
}

/// The incarnation of a transaction that a record speaks of: that of the
/// producer that owns the transaction.
pub open spec fn txn_named(
    coord: CoordModel,
    transaction_id: Seq<char>,
    producer_id: i64,
    producer_epoch: i16,
) -> Option<TxnDetailModel> {
    if coord.transactions.dom().contains(transaction_id)
        && coord.transactions[transaction_id].producer == producer_id
        && coord.transactions[transaction_id].epochs.dom().contains(producer_epoch) {
        Some(coord.transactions[transaction_id].epochs[producer_epoch])
    } else {
        None
    }
}

/// The state with the incarnation that a record speaks of changed, where
/// there is one.
pub open spec fn with_named(
    coord: CoordModel,
    transaction_id: Seq<char>,
    producer_id: i64,
    producer_epoch: i16,
    change: spec_fn(TxnDetailModel) -> TxnDetailModel,
) -> CoordModel {
    match txn_named(coord, transaction_id, producer_id, producer_epoch) {
        Some(detail) => with_txn(coord, transaction_id, producer_epoch, change(detail)),
        None => coord,
    }
}

/// The state with a producer put in, and the transaction it was allocated
/// for.
pub open spec fn with_producer(
    coord: CoordModel,
    producer_id: i64,
    transaction_id: Option<Seq<char>>,
    transaction_timeout_ms: i32,
) -> CoordModel {
    CoordModel {
        producers: coord.producers.insert(
            producer_id,
            Map::<i16, SequenceModel>::empty().insert(0, Map::empty()),
        ),
        transactions: match transaction_id {
            Some(id) => coord.transactions.insert(
                id,
                TxnModel {
                    producer: producer_id,
                    epochs: Map::<i16, TxnDetailModel>::empty().insert(
                        0,
                        fresh_txn(transaction_timeout_ms),
                    ),
                },
            ),
            None => coord.transactions,
        },
        ..coord
    }
}

/// The state with a fresh epoch of a producer and of its transaction.
pub open spec fn with_epoch(
    coord: CoordModel,
    transaction_id: Seq<char>,
    producer_id: i64,
    producer_epoch: i16,
    transaction_timeout_ms: i32,
) -> CoordModel {
    CoordModel {
        producers: if coord.producers.dom().contains(producer_id) {
            coord.producers.insert(
                producer_id,
                coord.producers[producer_id].insert(producer_epoch, Map::empty()),
            )
        } else {
            coord.producers
        },
        transactions: if coord.transactions.dom().contains(transaction_id) {
            let txn = coord.transactions[transaction_id];
            coord.transactions.insert(
                transaction_id,
                TxnModel {
                    epochs: txn.epochs.insert(producer_epoch, fresh_txn(transaction_timeout_ms)),
                    ..txn
                },
            )
        } else {
            coord.transactions
        },
        ..coord
    }
}

/// A list of aborted ranges with one more, unless it is there.
pub open spec fn with_aborted(aborted: Seq<AbortedRange>, range: AbortedRange) -> Seq<AbortedRange> {
    if aborted.contains(range) {
        aborted
    } else {
        aborted.push(range)
    }
}

/// The skeletons with a transaction's aborted ranges.
pub open spec fn with_ranges(
    skeletons: Map<(Seq<char>, i32), SkeletonModel>,
    producer: i64,
    ranges: Seq<(Seq<char>, i32, TxnProduceOffset)>,
) -> Map<(Seq<char>, i32), SkeletonModel>
    decreases ranges.len(),
{
    if ranges.len() == 0 {
        skeletons
    } else {
        let before = with_ranges(skeletons, producer, ranges.drop_last());
        let (topic, partition, range) = ranges.last();
        let skeleton = get_or(before, (topic, partition), empty_skeleton());
        before.insert(
            (topic, partition),
            SkeletonModel {
                aborted: with_aborted(
                    skeleton.aborted,
                    AbortedRange {
                        producer,
                        offset_start: range.offset_start,
                        offset_end: range.offset_end,
                    },
                ),
                ..skeleton
            },
        )
    }
}

/// Committed offsets with a group's commits put in.
pub open spec fn with_commits(
    group_offsets: GroupOffsetsModel,
    group: Seq<char>,
    commits: Seq<(Seq<char>, i32, OffsetCommit)>,
) -> GroupOffsetsModel
    decreases commits.len(),
{
    if commits.len() == 0 {
        group_offsets
    } else {
        let (topic, partition, commit) = commits.last();
        with_commits(group_offsets, group, commits.drop_last()).insert(
            (group, (topic, partition)),
            commit,
        )
    }
}

/// Committed offsets without a topic's.
pub open spec fn without_topic(group_offsets: GroupOffsetsModel, name: Seq<char>) -> GroupOffsetsModel {
    chosen(
        group_offsets,
        |k: (Seq<char>, (Seq<char>, i32)), commit: OffsetCommit| k.1.0 != name,
    )
}

/// Committed offsets without a group's.
pub open spec fn without_group(group_offsets: GroupOffsetsModel, group: Seq<char>) -> GroupOffsetsModel {
    chosen(group_offsets, |k: (Seq<char>, (Seq<char>, i32)), commit: OffsetCommit| k.0 != group)
}

/// The state after a WAL record was replayed.
pub open spec fn applied(image: ImageModel, record: Record) -> ImageModel {
    match record {
        Record::TopicCreate { id, topic } => ImageModel {
            coord: CoordModel {
                topics: image.coord.topics.insert(topic.name, TopicModel { id, topic }),
                ..image.coord
            },
            ..image
        },
        Record::TopicDelete { name } => ImageModel {
            coord: CoordModel { topics: image.coord.topics.remove(name), ..image.coord },
            group_offsets: without_topic(image.group_offsets, name),
            skeletons: chosen(
                image.skeletons,
                |k: (Seq<char>, i32), skeleton: SkeletonModel| k.0 != name,
            ),
            ..image
        },
        Record::ConfigAlter { name, changes } => ImageModel {
            coord: altered(image.coord, name, changes),
            ..image
        },
        Record::PidAlloc { producer_id, transaction_id, transaction_timeout_ms } => ImageModel {
            coord: with_producer(
                image.coord,
                producer_id,
                transaction_id,
                transaction_timeout_ms,
            ),
            ..image
        },
        Record::EpochBump {
            transaction_id,
            producer_id,
            producer_epoch,
            transaction_timeout_ms,
        } => ImageModel {
            coord: with_epoch(
                image.coord,
                transaction_id,
                producer_id,
                producer_epoch,
                transaction_timeout_ms,
            ),
            ..image
        },
        Record::TxnBegin {
            transaction_id,
            producer_id,
            producer_epoch,
            started_at,
            partitions,
        } => ImageModel {
            coord: with_named(
                image.coord,
                transaction_id,
                producer_id,
                producer_epoch,
                |detail: TxnDetailModel| begun(detail, partitions, started_at),
            ),
            ..image
        },
        Record::TxnPrepare {
            transaction_id,
            producer_id,
            producer_epoch,
            committed,
            produced,
        } => ImageModel {
            coord: with_named(
                image.coord,
                transaction_id,
                producer_id,
                producer_epoch,
                |detail: TxnDetailModel|
                    TxnDetailModel {
                        state: Some(prepared_state(committed)),
                        produces: ranges_map(produced),
                        ..detail
                    },
            ),
            ..image
        },
        Record::TxnTerminal {
            transaction_id,
            producer_id,
            producer_epoch,
            committed,
            aborted,
        } => ImageModel {
            coord: with_named(
                image.coord,
                transaction_id,
                producer_id,
                producer_epoch,
                |detail: TxnDetailModel| ended(detail, terminal_state(committed)),
            ),
            skeletons: with_ranges(image.skeletons, producer_id, aborted),
            ..image
        },
        Record::TxnOffsets { transaction_id, producer_id, producer_epoch, group, offsets } =>
        ImageModel {
            coord: with_named(
                image.coord,
                transaction_id,
                producer_id,
                producer_epoch,
                |detail: TxnDetailModel|
                    TxnDetailModel {
                        offsets: with_offsets(detail.offsets, group, offsets),
                        ..detail
                    },
            ),
            ..image
        },
        Record::GroupOffsetCommit { group, offsets } => ImageModel {
            group_offsets: with_commits(image.group_offsets, group, offsets),
            ..image
        },
        Record::GroupUpdate { group, detail, version } => ImageModel {
            groups: image.groups.insert(group, (detail, version)),
            ..image
        },
        Record::GroupDelete { group } => ImageModel {
            groups: image.groups.remove(group),
            group_offsets: without_group(image.group_offsets, group),
            ..image
        },
        Record::ScramUpsert { user, mechanism, salt, iterations, stored_key, server_key } =>
        ImageModel {
            coord: CoordModel {
                scram: image.coord.scram.insert(
                    (user, mechanism),
                    Credential { salt, iterations, stored_key, server_key },
                ),
                ..image.coord
            },
            ..image
        },
        Record::ScramDelete { user, mechanism } => ImageModel {
            coord: CoordModel {
                scram: image.coord.scram.remove((user, mechanism)),
                ..image.coord
            },
            ..image
        },
        Record::LogStartAdvance { topic, partition, offset } => ImageModel {
            skeletons: image.skeletons.insert(
                (topic, partition),
                SkeletonModel {
                    log_start: offset,
                    ..get_or(image.skeletons, (topic, partition), empty_skeleton())
                },
            ),
            ..image
        },
    }
}

/// The state after a list of records was replayed.
pub open spec fn replayed(image: ImageModel, records: Seq<Record>) -> ImageModel
    decreases records.len(),
{
    if records.len() == 0 {
        image
    } else {
        applied(replayed(image, records.drop_last()), records.last())
    }
}

/// Picks the commits of other topics.
pub struct OtherTopic {
    pub name: String,
}

impl Pick<(String, Topition), OffsetCommitRequest> for OtherTopic {
    open spec fn picks(&self, k: (Seq<char>, (Seq<char>, i32)), v: OffsetCommit) -> bool {
        k.1.0 != self.name@
    }

    fn pick(&self, key: &(String, Topition), value: &OffsetCommitRequest) -> (b: bool) {
        !same(key.1.topic.as_str(), self.name.as_str())
    }
}

impl Pick<Topition, Skeleton> for OtherTopic {
    open spec fn picks(&self, k: (Seq<char>, i32), v: SkeletonModel) -> bool {
        k.0 != self.name@
    }

    fn pick(&self, key: &Topition, value: &Skeleton) -> (b: bool) {
        !same(key.topic.as_str(), self.name.as_str())
    }
}

/// Picks the commits of other groups.
pub struct OtherGroup {
    pub group: String,
}

impl Pick<(String, Topition), OffsetCommitRequest> for OtherGroup {
    open spec fn picks(&self, k: (Seq<char>, (Seq<char>, i32)), v: OffsetCommit) -> bool {
        k.0 != self.group@
    }

    fn pick(&self, key: &(String, Topition), value: &OffsetCommitRequest) -> (b: bool) {
        !same(key.0.as_str(), self.group.as_str())
    }
}

/// Drops a topic's committed offsets.
pub fn forget_topic(group_offsets: &mut GroupOffsets, name: &str)
    requires
        old(group_offsets).wf(),
    ensures
        final(group_offsets).wf(),
        final(group_offsets).model() == without_topic(old(group_offsets).model(), name@),
{
    let ghost before = group_offsets.model();
    group_offsets.retain(&OtherTopic { name: name.to_owned() });
    assert(group_offsets.model() =~= without_topic(before, name@));
}

/// Drops a group's committed offsets.
pub fn forget_group(group_offsets: &mut GroupOffsets, group: &str)
    requires
        old(group_offsets).wf(),
    ensures
        final(group_offsets).wf(),
        final(group_offsets).model() == without_group(old(group_offsets).model(), group@),
{
    let ghost before = group_offsets.model();
    group_offsets.retain(&OtherGroup { group: group.to_owned() });
    assert(group_offsets.model() =~= without_group(before, group@));
}

/// Adds an aborted range unless it is there: a snapshot that captured it can
/// stand beside the WAL record that names it.
pub fn push_aborted(aborted: &mut Vec<AbortedRange>, range: AbortedRange)
    ensures
        final(aborted)@ == with_aborted(old(aborted)@, range),
{
    let mut i: usize = 0;
    while i < aborted.len()
        invariant
            aborted@ == old(aborted)@,
            i <= aborted@.len(),
            forall|j: int| 0 <= j < i ==> #[trigger] aborted@[j] != range,
        decreases aborted@.len() - i,
    {
        if aborted[i] == range {
            assert(aborted@.contains(aborted@[i as int]));
            return ;
        }
        i += 1;
    }
    aborted.push(range);
}

impl CoordState {
    /// The incarnation that a record speaks of, to be changed.
    fn named_mut(&mut self, transaction_id: &String, producer_id: i64, producer_epoch: i16) -> (found:
        Option<&mut TxnDetail>)
        requires
            old(self).wf(),
        ensures
            match found {
                Some(detail) => {
                    &&& detail.wf()
                    &&& txn_named(
                        old(self).model(),
                        transaction_id@,
                        producer_id,
                        producer_epoch,
                    ) == Some(detail.model())
                    &&& final(detail).wf() ==> final(self).wf()
                    &&& final(self).model() == with_txn(
                        old(self).model(),
                        transaction_id@,
                        producer_epoch,
                        final(detail).model(),
                    )
                },
                None => {
                    &&& txn_named(
                        old(self).model(),
                        transaction_id@,
                        producer_id,
                        producer_epoch,
                    ) is None
                    &&& *final(self) == *old(self)
                },
            },
    {
        match self.transactions.get(transaction_id) {
            None => {
                return None;
            },
            Some(txn) => {
                if txn.producer != producer_id || !txn.epochs.contains(&producer_epoch) {
                    return None;
                }
            },
        }
        let txn = self.transactions.get_mut(transaction_id).unwrap();
        let detail = txn.epochs.get_mut(&producer_epoch).unwrap();
        Some(detail)
    }

    /// Puts a producer in, with its first epoch, and the transaction that it
    /// was allocated for.
    pub fn add_producer(
        &mut self,
        producer_id: i64,
        transaction_id: Option<String>,
        transaction_timeout_ms: i32,
    )
        requires
            old(self).wf(),
        ensures
            final(self).wf(),
            final(self).model() == with_producer(
                old(self).model(),
                producer_id,
                transaction_id.model(),
                transaction_timeout_ms,
            ),
    {
        let mut sequences = OrdMap::new();
        sequences.insert(0i16, OrdMap::new());
        self.producers.insert(producer_id, ProducerDetail { sequences });
        if let Some(transaction_id) = transaction_id {
            let mut epochs = OrdMap::new();
            epochs.insert(0i16, TxnDetail::fresh(transaction_timeout_ms));
            self.transactions.insert(transaction_id, Txn { producer: producer_id, epochs });
        }
    }

    /// Begins a fresh epoch of a producer and of its transaction.
    pub fn add_epoch(
        &mut self,
        transaction_id: &String,
        producer_id: i64,
        producer_epoch: i16,
        transaction_timeout_ms: i32,
    )
        requires
            old(self).wf(),
        ensures
            final(self).wf(),
            final(self).model() == with_epoch(
                old(self).model(),
                transaction_id@,
                producer_id,
                producer_epoch,
                transaction_timeout_ms,
            ),
    {
        if let Some(detail) = self.producers.get_mut(&producer_id) {
            detail.sequences.insert(producer_epoch, OrdMap::new());
        }
        if let Some(txn) = self.transactions.get_mut(transaction_id) {
            txn.epochs.insert(producer_epoch, TxnDetail::fresh(transaction_timeout_ms));
        }
    }
}

impl Image {
    pub fn new() -> (image: Self)
        ensures
            image.wf(),
            image.model() == (ImageModel {
                coord: crate::state::empty_coord(),
                groups: Map::empty(),
                group_offsets: Map::empty(),
                skeletons: Map::empty(),
            }),
    {
        Image {
            coord: CoordState::new(),
            groups: OrdMap::new(),
            group_offsets: OrdMap::new(),
            skeletons: OrdMap::new(),
        }
    }

    fn add_ranges(&mut self, producer: i64, ranges: &Vec<(String, i32, TxnProduceOffset)>)
        requires
            old(self).wf(),
        ensures
            final(self).wf(),
            final(self).model() == (ImageModel {
                skeletons: with_ranges(old(self).model().skeletons, producer, ranges.model()),
                ..old(self).model()
            }),
    {
        let ghost before = self.model();
        let ghost rows = ranges.model();
        let mut i: usize = 0;
        assert(rows.take(0) =~= Seq::<(Seq<char>, i32, TxnProduceOffset)>::empty());
        while i < ranges.len()
            invariant
                self.wf(),
                rows == ranges.model(),
                i <= rows.len(),
                self.model() == (ImageModel {
                    skeletons: with_ranges(before.skeletons, producer, rows.take(i as int)),
                    ..before
                }),
            decreases rows.len() - i,
        {
            proof {
                assert(rows.take(i + 1).drop_last() =~= rows.take(i as int));
                assert(rows.take(i + 1).last() == ranges@[i as int].model());
            }
            let range = ranges[i].2;
            let topition = Topition { topic: ranges[i].0.clone(), partition: ranges[i].1 };
            let skeleton = self.skeletons.entry(topition, Skeleton::new());
            push_aborted(
                &mut skeleton.aborted,
                AbortedRange {
                    producer,
                    offset_start: range.offset_start,
                    offset_end: range.offset_end,
                },
            );
            i += 1;
        }
        assert(rows.take(i as int) =~= rows);
    }

    fn add_commits(&mut self, group: &String, commits: &Vec<(String, i32, OffsetCommitRequest)>)
        requires
            old(self).wf(),
        ensures
            final(self).wf(),
            final(self).model() == (ImageModel {
                group_offsets: with_commits(
                    old(self).model().group_offsets,
                    group@,
                    commits.model(),
                ),
                ..old(self).model()
            }),
    {
        let ghost before = self.model();
        let ghost rows = commits.model();
        let mut i: usize = 0;
        assert(rows.take(0) =~= Seq::<(Seq<char>, i32, OffsetCommit)>::empty());
        while i < commits.len()
            invariant
                self.wf(),
                rows == commits.model(),
                i <= rows.len(),
                self.model() == (ImageModel {
                    group_offsets: with_commits(
                        before.group_offsets,
                        group@,
                        rows.take(i as int),
                    ),
                    ..before
                }),
            decreases rows.len() - i,
        {
            proof {
                assert(rows.take(i + 1).drop_last() =~= rows.take(i as int));
                assert(rows.take(i + 1).last() == commits@[i as int].model());
            }
            let topition = Topition { topic: commits[i].0.clone(), partition: commits[i].1 };
            self.group_offsets.insert((group.clone(), topition), commits[i].2.dup());
            i += 1;
        }
        assert(rows.take(i as int) =~= rows);
    }

    /// Replays one WAL record.
    pub fn apply(&mut self, record: WalRecord)
        requires
            old(self).wf(),
        ensures
            final(self).wf(),
            final(self).model() == applied(old(self).model(), record@),
    {
        match record {
            WalRecord::TopicCreate { id, topic } => {
                self.coord.topics.insert(topic.name.clone(), TopicMetadata { id, topic });
            },
            WalRecord::TopicDelete { name } => {
                let ghost before = self.model();
                self.coord.topics.remove(&name);
                forget_topic(&mut self.group_offsets, name.as_str());
                self.skeletons.retain(&OtherTopic { name });
                assert(self.model() =~= applied(before, record@));
            },
            WalRecord::ConfigAlter { name, changes } => {
                let _ = self.coord.alter_topic(name.as_str(), &changes);
            },
            WalRecord::PidAlloc { producer_id, transaction_id, transaction_timeout_ms } => {
                self.coord.add_producer(producer_id, transaction_id, transaction_timeout_ms);
            },
            WalRecord::EpochBump {
                transaction_id,
                producer_id,
                producer_epoch,
                transaction_timeout_ms,
            } => {
                self.coord.add_epoch(
                    &transaction_id,
                    producer_id,
                    producer_epoch,
                    transaction_timeout_ms,
                );
            },
            WalRecord::TxnBegin {
                transaction_id,
                producer_id,
                producer_epoch,
                started_at,
                partitions,
            } => {
                if let Some(detail) = self.coord.named_mut(
                    &transaction_id,
                    producer_id,
                    producer_epoch,
                ) {
                    detail.begin(&partitions, started_at);
                }
            },
            WalRecord::TxnPrepare {
                transaction_id,
                producer_id,
                producer_epoch,
                committed,
                produced,
            } => {
                if let Some(detail) = self.coord.named_mut(
                    &transaction_id,
                    producer_id,
                    producer_epoch,
                ) {
                    detail.prepare_with(committed, &produced);
                }
            },
            WalRecord::TxnTerminal {
                transaction_id,
                producer_id,
                producer_epoch,
                committed,
                aborted,
            } => {
                if let Some(detail) = self.coord.named_mut(
                    &transaction_id,
                    producer_id,
                    producer_epoch,
                ) {
                    detail.end(
                        if committed {
                            TxnState::Committed
                        } else {
                            TxnState::Aborted
                        },
                    );
                }
                self.add_ranges(producer_id, &aborted);
            },
            WalRecord::TxnOffsets {
                transaction_id,
                producer_id,
                producer_epoch,
                group,
                offsets,
            } => {
                if let Some(detail) = self.coord.named_mut(
                    &transaction_id,
                    producer_id,
                    producer_epoch,
                ) {
                    detail.stage(&group, &offsets);
                }
            },
            WalRecord::GroupOffsetCommit { group, offsets } => {
                self.add_commits(&group, &offsets);
            },
            WalRecord::GroupUpdate { group, detail, version } => {
                self.groups.insert(group, (detail, version));
            },
            WalRecord::GroupDelete { group } => {
                self.groups.remove(&group);
                forget_group(&mut self.group_offsets, group.as_str());
            },
            WalRecord::ScramUpsert {
                user,
                mechanism,
                salt,
                iterations,
                stored_key,
                server_key,
            } => {
                self.coord.scram.insert(
                    (user, mechanism),
                    ScramCredential { salt, iterations, stored_key, server_key },
                );
            },
            WalRecord::ScramDelete { user, mechanism } => {
                self.coord.scram.remove(&(user, mechanism));
            },
            WalRecord::LogStartAdvance { topic, partition, offset } => {
                let skeleton = self.skeletons.entry(
                    Topition { topic, partition },
                    Skeleton::new(),
                );
                skeleton.log_start = offset;
            },
        }
    }
}

} // verus!
