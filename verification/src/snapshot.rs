//! Coordination-state snapshots, `{wal_seq:020}.snap`: one framed document
//! that captures everything the WAL would replay, so that WAL files at or
//! below `wal_seq` can go. The newest valid snapshot wins at boot. What the
//! segment scan rebuilds is not in it: watermarks, producers' sequence numbers
//! and the ranges of open transactions (those of prepared ones are in the WAL,
//! and so in a snapshot).
//!
//! Nested maps are flattened to lists, which keeps the document's own encoding
//! free to key maps by text only.

use crate::error::{refused, Error, Fault, Result};
use crate::flat::{raised_pairs, Flat};
use crate::frame::{decode, encode, frame_at_start, framed, Decoded, FrameType};
use crate::model::{Key, Model};
use crate::ordmap::{ordered, to_map, OrdMap};
use crate::partition::{PartModel, PartitionInner};
use crate::replay::{
    GroupOffsets, GroupOffsetsModel, Groups, GroupsModel, Image, ImageModel, Skeleton,
    SkeletonModel,
};
use crate::revise::{lemma_listable_empty, lemma_listable_remapped};
use crate::sorting::{all_models, in_order, sort};
use crate::state::{
    CommitOffsetModel, CoordModel, CoordState, ProducerDetail, ProducesModel, SequenceModel,
    TopicMetadata, TopicModel, Txn, TxnCommitOffset, TxnDetail, TxnDetailModel, TxnModel,
    TxnProduceOffset,
};
use crate::text::{
    concat, decimal, decimal_text, join, lemma_padded_reads_back, lemma_stem, padded, padded_count,
    path_in, strip_prefix, strip_suffix,
};
use crate::time::SystemTime;
use crate::types::{
    Credential, GroupDetail, OffsetCommit, OffsetCommitRequest, ScramCredential, Topition, TxnState,
    Version,
};
use crate::unscanned::{
    no_range, no_ranges, no_sequences, unscanned, unscanned_detail, unscanned_produces,
    without_open_ranges, without_sequences,
};
use crate::wal::{parse_name, seq_of_name, seqs_of, sorted_seqs};
use vstd::prelude::*;

verus! {

/// The version of the document.
pub const FORMAT_VERSION: u32 = 1;

/// Sequence numbers by epoch, topic and partition.
pub type SnapSequences = Vec<(i16, Vec<(String, Vec<(i32, i32)>)>)>;

/// Produced ranges by topic and partition.
pub type SnapProduces = Vec<(String, Vec<(i32, Option<TxnProduceOffset>)>)>;

/// Staged offsets by group, topic and partition.
pub type SnapOffsets = Vec<(String, Vec<(String, Vec<(i32, TxnCommitOffset)>)>)>;

/// The maps that are flattened.
pub type Sequences = OrdMap<i16, OrdMap<String, OrdMap<i32, i32>>>;

pub type Produces = OrdMap<String, OrdMap<i32, Option<TxnProduceOffset>>>;

pub type Offsets = OrdMap<String, OrdMap<String, OrdMap<i32, TxnCommitOffset>>>;

/// One incarnation of a transaction in a document.
#[derive(Debug)]
pub struct SnapTxnDetail {
    pub transaction_timeout_ms: i32,
    pub started_at: Option<SystemTime>,
    pub state: Option<TxnState>,
    pub produces: SnapProduces,
    pub offsets: SnapOffsets,
}

/// What a [`SnapTxnDetail`] says.
pub struct SnapDetailModel {
    pub transaction_timeout_ms: i32,
    pub started_at: Option<SystemTime>,
    pub state: Option<TxnState>,
    pub produces: Seq<(Seq<char>, Seq<(i32, Option<TxnProduceOffset>)>)>,
    pub offsets: Seq<(Seq<char>, Seq<(Seq<char>, Seq<(i32, CommitOffsetModel)>)>)>,
}

impl Model for SnapTxnDetail {
    type V = SnapDetailModel;

    open spec fn model(&self) -> SnapDetailModel {
        SnapDetailModel {
            transaction_timeout_ms: self.transaction_timeout_ms,
            started_at: self.started_at,
            state: self.state,
            produces: self.produces.model(),
            offsets: self.offsets.model(),
        }
    }

    open spec fn wf(&self) -> bool {
        self.produces.wf() && self.offsets.wf()
    }

    fn dup(&self) -> (copy: Self) {
        SnapTxnDetail {
            transaction_timeout_ms: self.transaction_timeout_ms,
            started_at: self.started_at,
            state: self.state,
            produces: self.produces.dup(),
            offsets: self.offsets.dup(),
        }
    }
}

/// A transaction in a document.
#[derive(Debug)]
pub struct SnapTxn {
    pub producer: i64,
    pub epochs: Vec<(i16, SnapTxnDetail)>,
}

/// What a [`SnapTxn`] says.
pub struct SnapTxnModel {
    pub producer: i64,
    pub epochs: Seq<(i16, SnapDetailModel)>,
}

impl Model for SnapTxn {
    type V = SnapTxnModel;

    open spec fn model(&self) -> SnapTxnModel {
        SnapTxnModel { producer: self.producer, epochs: self.epochs.model() }
    }

    open spec fn wf(&self) -> bool {
        self.epochs.wf()
    }

    fn dup(&self) -> (copy: Self) {
        SnapTxn { producer: self.producer, epochs: self.epochs.dup() }
    }
}

impl Flat for ProducerDetail {
    type F = SnapSequences;

    open spec fn flat(v: Map<i16, SequenceModel>) -> Seq<
        (i16, Seq<(Seq<char>, Seq<(i32, i32)>)>),
    > {
        Sequences::flat(v)
    }

    open spec fn raised(f: Seq<(i16, Seq<(Seq<char>, Seq<(i32, i32)>)>)>) -> Map<
        i16,
        SequenceModel,
    > {
        Sequences::raised(f)
    }

    fn flatten(&self) -> (f: SnapSequences) {
        self.sequences.flatten()
    }

    fn raise(f: &SnapSequences) -> (value: ProducerDetail) {
        ProducerDetail { sequences: Sequences::raise(f) }
    }

    open spec fn sane(v: Map<i16, SequenceModel>) -> bool {
        Sequences::sane(v)
    }

    proof fn sane_model(&self) {
        self.sequences.sane_model();
    }

    proof fn raised_flat(v: Map<i16, SequenceModel>) {
        Sequences::raised_flat(v);
    }
}

impl Flat for TxnDetail {
    type F = SnapTxnDetail;

    open spec fn flat(v: TxnDetailModel) -> SnapDetailModel {
        SnapDetailModel {
            transaction_timeout_ms: v.transaction_timeout_ms,
            started_at: v.started_at,
            state: v.state,
            produces: Produces::flat(v.produces),
            offsets: Offsets::flat(v.offsets),
        }
    }

    open spec fn raised(f: SnapDetailModel) -> TxnDetailModel {
        TxnDetailModel {
            transaction_timeout_ms: f.transaction_timeout_ms,
            started_at: f.started_at,
            state: f.state,
            produces: Produces::raised(f.produces),
            offsets: Offsets::raised(f.offsets),
        }
    }

    fn flatten(&self) -> (f: SnapTxnDetail) {
        SnapTxnDetail {
            transaction_timeout_ms: self.transaction_timeout_ms,
            started_at: self.started_at,
            state: self.state,
            produces: self.produces.flatten(),
            offsets: self.offsets.flatten(),
        }
    }

    fn raise(f: &SnapTxnDetail) -> (value: TxnDetail) {
        TxnDetail {
            transaction_timeout_ms: f.transaction_timeout_ms,
            started_at: f.started_at,
            state: f.state,
            produces: Produces::raise(&f.produces),
            offsets: Offsets::raise(&f.offsets),
        }
    }

    open spec fn sane(v: TxnDetailModel) -> bool {
        Produces::sane(v.produces) && Offsets::sane(v.offsets)
    }

    proof fn sane_model(&self) {
        self.produces.sane_model();
        self.offsets.sane_model();
    }

    proof fn raised_flat(v: TxnDetailModel) {
        Produces::raised_flat(v.produces);
        Offsets::raised_flat(v.offsets);
    }
}

impl Flat for Txn {
    type F = SnapTxn;

    open spec fn flat(v: TxnModel) -> SnapTxnModel {
        SnapTxnModel {
            producer: v.producer,
            epochs: OrdMap::<i16, TxnDetail>::flat(v.epochs),
        }
    }

    open spec fn raised(f: SnapTxnModel) -> TxnModel {
        TxnModel { producer: f.producer, epochs: OrdMap::<i16, TxnDetail>::raised(f.epochs) }
    }

    fn flatten(&self) -> (f: SnapTxn) {
        SnapTxn { producer: self.producer, epochs: self.epochs.flatten() }
    }

    fn raise(f: &SnapTxn) -> (value: Txn) {
        Txn { producer: f.producer, epochs: OrdMap::<i16, TxnDetail>::raise(&f.epochs) }
    }

    open spec fn sane(v: TxnModel) -> bool {
        OrdMap::<i16, TxnDetail>::sane(v.epochs)
    }

    proof fn sane_model(&self) {
        self.epochs.sane_model();
    }

    proof fn raised_flat(v: TxnModel) {
        OrdMap::<i16, TxnDetail>::raised_flat(v.epochs);
    }
}

impl Flat for ScramCredential {
    type F = ScramCredential;

    open spec fn flat(v: Credential) -> Credential {
        v
    }

    open spec fn raised(f: Credential) -> Credential {
        f
    }

    fn flatten(&self) -> (f: ScramCredential) {
        self.dup()
    }

    fn raise(f: &ScramCredential) -> (value: ScramCredential) {
        f.dup()
    }

    open spec fn sane(v: Credential) -> bool {
        true
    }

    proof fn sane_model(&self) {
    }

    proof fn raised_flat(v: Credential) {
    }
}

impl Flat for (GroupDetail, Version) {
    type F = (GroupDetail, Version);

    open spec fn flat(v: (Seq<u8>, Version)) -> (Seq<u8>, Version) {
        v
    }

    open spec fn raised(f: (Seq<u8>, Version)) -> (Seq<u8>, Version) {
        f
    }

    fn flatten(&self) -> (f: (GroupDetail, Version)) {
        self.dup()
    }

    fn raise(f: &(GroupDetail, Version)) -> (value: (GroupDetail, Version)) {
        f.dup()
    }

    open spec fn sane(v: (Seq<u8>, Version)) -> bool {
        true
    }

    proof fn sane_model(&self) {
    }

    proof fn raised_flat(v: (Seq<u8>, Version)) {
    }
}

impl Flat for OffsetCommitRequest {
    type F = OffsetCommitRequest;

    open spec fn flat(v: OffsetCommit) -> OffsetCommit {
        v
    }

    open spec fn raised(f: OffsetCommit) -> OffsetCommit {
        f
    }

    fn flatten(&self) -> (f: OffsetCommitRequest) {
        self.dup()
    }

    fn raise(f: &OffsetCommitRequest) -> (value: OffsetCommitRequest) {
        f.dup()
    }

    open spec fn sane(v: OffsetCommit) -> bool {
        true
    }

    proof fn sane_model(&self) {
    }

    proof fn raised_flat(v: OffsetCommit) {
    }
}

impl Flat for Skeleton {
    type F = Skeleton;

    open spec fn flat(v: SkeletonModel) -> SkeletonModel {
        v
    }

    open spec fn raised(f: SkeletonModel) -> SkeletonModel {
        f
    }

    fn flatten(&self) -> (f: Skeleton) {
        self.dup()
    }

    fn raise(f: &Skeleton) -> (value: Skeleton) {
        f.dup()
    }

    open spec fn sane(v: SkeletonModel) -> bool {
        true
    }

    proof fn sane_model(&self) {
    }

    proof fn raised_flat(v: SkeletonModel) {
    }
}

/// A snapshot.
pub struct SnapshotDoc {
    pub format_version: u32,
    /// WAL files with a sequence up to this one are captured.
    pub wal_seq: u64,
    pub producers: Vec<(i64, SnapSequences)>,
    pub transactions: Vec<(String, SnapTxn)>,
    pub topics: Vec<TopicMetadata>,
    pub scram: Vec<((String, String), ScramCredential)>,
    pub groups: Vec<(String, (GroupDetail, Version))>,
    pub group_offsets: Vec<((String, Topition), OffsetCommitRequest)>,
    pub partitions: Vec<(Topition, Skeleton)>,
}

/// What a [`SnapshotDoc`] says.
#[verifier::ext_equal]
pub struct DocModel {
    pub format_version: u32,
    pub wal_seq: u64,
    pub producers: Seq<(i64, Seq<(i16, Seq<(Seq<char>, Seq<(i32, i32)>)>)>)>,
    pub transactions: Seq<(Seq<char>, SnapTxnModel)>,
    pub topics: Seq<TopicModel>,
    pub scram: Seq<((Seq<char>, Seq<char>), Credential)>,
    pub groups: Seq<(Seq<char>, (Seq<u8>, Version))>,
    pub group_offsets: Seq<((Seq<char>, (Seq<char>, i32)), OffsetCommit)>,
    pub partitions: Seq<((Seq<char>, i32), SkeletonModel)>,
}

impl Model for SnapshotDoc {
    type V = DocModel;

    open spec fn model(&self) -> DocModel {
        DocModel {
            format_version: self.format_version,
            wal_seq: self.wal_seq,
            producers: self.producers.model(),
            transactions: self.transactions.model(),
            topics: self.topics.model(),
            scram: self.scram.model(),
            groups: self.groups.model(),
            group_offsets: self.group_offsets.model(),
            partitions: self.partitions.model(),
        }
    }

    open spec fn wf(&self) -> bool {
        &&& self.producers.wf()
        &&& self.transactions.wf()
        &&& self.topics.wf()
        &&& self.scram.wf()
        &&& self.groups.wf()
        &&& self.group_offsets.wf()
        &&& self.partitions.wf()
    }

    fn dup(&self) -> (copy: Self) {
        SnapshotDoc {
            format_version: self.format_version,
            wal_seq: self.wal_seq,
            producers: self.producers.dup(),
            transactions: self.transactions.dup(),
            topics: self.topics.dup(),
            scram: self.scram.dup(),
            groups: self.groups.dup(),
            group_offsets: self.group_offsets.dup(),
            partitions: self.partitions.dup(),
        }
    }
}

/// The values of a map in key order.
pub open spec fn values_of<A, W>(pairs: Seq<(A, W)>) -> Seq<W> {
    Seq::new(pairs.len(), |i: int| pairs[i].1)
}

/// The topics of a list by their own names, a later one replacing an earlier.
pub open spec fn by_name(topics: Seq<TopicModel>) -> Map<Seq<char>, TopicModel>
    decreases topics.len(),
{
    if topics.len() == 0 {
        Map::empty()
    } else {
        by_name(topics.drop_last()).insert(topics.last().topic.name, topics.last())
    }
}

/// The document that captures a state, without what the segment scan rebuilds.
pub open spec fn document(
    wal_seq: u64,
    coord: CoordModel,
    groups: GroupsModel,
    group_offsets: GroupOffsetsModel,
    partitions: Seq<((Seq<char>, i32), SkeletonModel)>,
) -> DocModel {
    DocModel {
        format_version: FORMAT_VERSION,
        wal_seq,
        producers: OrdMap::<i64, ProducerDetail>::flat(unscanned(coord).producers),
        transactions: OrdMap::<String, Txn>::flat(unscanned(coord).transactions),
        topics: values_of(ordered::<String, TopicModel>(coord.topics)),
        scram: OrdMap::<(String, String), ScramCredential>::flat(coord.scram),
        groups: Groups::flat(groups),
        group_offsets: GroupOffsets::flat(group_offsets),
        partitions,
    }
}

/// The coordination state that a document captured.
pub open spec fn captured_coord(doc: DocModel) -> CoordModel {
    CoordModel {
        producers: OrdMap::<i64, ProducerDetail>::raised(doc.producers),
        transactions: OrdMap::<String, Txn>::raised(doc.transactions),
        topics: by_name(doc.topics),
        scram: OrdMap::<(String, String), ScramCredential>::raised(doc.scram),
    }
}

/// The state that a document captured.
pub open spec fn captured(doc: DocModel) -> ImageModel {
    ImageModel {
        coord: captured_coord(doc),
        groups: Groups::raised(doc.groups),
        group_offsets: GroupOffsets::raised(doc.group_offsets),
        skeletons: OrdMap::<Topition, Skeleton>::raised(doc.partitions),
    }
}

/// Whether every topic is kept under its own name.
pub open spec fn topics_named(coord: CoordModel) -> bool {
    forall|name: Seq<char>| #[trigger]
        coord.topics.dom().contains(name) ==> coord.topics[name].topic.name == name
}

/// What a snapshot says of a partition.
pub open spec fn skeleton_of(p: PartModel) -> SkeletonModel {
    SkeletonModel { log_start: p.log_start, aborted: p.aborted }
}

impl PartitionInner {
    /// What a snapshot says of this partition.
    pub fn skeleton(&self) -> (skeleton: Skeleton)
        ensures
            skeleton.model() == skeleton_of(self.model()),
    {
        Skeleton { log_start: self.log_start, aborted: self.aborted.clone() }
    }
}

impl SnapshotDoc {
    /// Captures a state, with what the caller gathered of the partitions and
    /// without what the segment scan rebuilds.
    pub fn from_state(
        wal_seq: u64,
        coord: &CoordState,
        groups: &Groups,
        group_offsets: &GroupOffsets,
        partitions: Vec<(Topition, Skeleton)>,
    ) -> (doc: Self)
        requires
            coord.wf(),
            groups.wf(),
            group_offsets.wf(),
        ensures
            doc.wf(),
            doc.model() == document(
                wal_seq,
                coord.model(),
                groups.model(),
                group_offsets.model(),
                partitions.model(),
            ),
    {
        let mut topics: Vec<TopicMetadata> = Vec::new();
        let ghost rows = coord.topics.seq();
        proof {
            coord.topics.lemma_seq();
        }
        let mut i: usize = 0;
        while i < coord.topics.len()
            invariant
                coord.wf(),
                rows == coord.topics.seq(),
                i <= rows.len(),
                topics@.len() == i,
                forall|j: int| 0 <= j < i ==> (#[trigger] topics@[j]).model() == rows[j].1,
            decreases rows.len() - i,
        {
            let (_, metadata) = coord.topics.at(i);
            topics.push(metadata.dup());
            i += 1;
        }
        assert(topics.model() =~= values_of(rows));
        SnapshotDoc {
            format_version: FORMAT_VERSION,
            wal_seq,
            producers: coord.unscanned_producers().flatten(),
            transactions: coord.unscanned_transactions().flatten(),
            topics,
            scram: coord.scram.flatten(),
            groups: groups.flatten(),
            group_offsets: group_offsets.flatten(),
            partitions,
        }
    }

    /// The coordination state that this document captured.
    pub fn coord_state(&self) -> (coord: CoordState)
        requires
            self.wf(),
        ensures
            coord.wf(),
            coord.model() == captured_coord(self.model()),
    {
        let mut topics: OrdMap<String, TopicMetadata> = OrdMap::new();
        let ghost rows = self.topics.model();
        let mut i: usize = 0;
        assert(rows.take(0) =~= Seq::<TopicModel>::empty());
        while i < self.topics.len()
            invariant
                topics.wf(),
                rows == self.topics.model(),
                i <= rows.len(),
                topics.model() == by_name(rows.take(i as int)),
            decreases rows.len() - i,
        {
            proof {
                assert(rows.take(i + 1).drop_last() =~= rows.take(i as int));
                assert(rows[i as int] == self.topics@[i as int].model());
            }
            topics.insert(self.topics[i].topic.name.clone(), self.topics[i].dup());
            i += 1;
        }
        assert(rows.take(i as int) =~= rows);
        CoordState {
            producers: OrdMap::<i64, ProducerDetail>::raise(&self.producers),
            transactions: OrdMap::<String, Txn>::raise(&self.transactions),
            topics,
            scram: OrdMap::<(String, String), ScramCredential>::raise(&self.scram),
        }
    }

    /// The state that this document captured.
    pub fn image(&self) -> (image: Image)
        requires
            self.wf(),
        ensures
            image.wf(),
            image.model() == captured(self.model()),
    {
        Image {
            coord: self.coord_state(),
            groups: Groups::raise(&self.groups),
            group_offsets: GroupOffsets::raise(&self.group_offsets),
            skeletons: OrdMap::<Topition, Skeleton>::raise(&self.partitions),
        }
    }
}

/// A state without what the segment scan rebuilds can be told from its
/// flattened form.
proof fn lemma_unscanned_sane(coord: &CoordState)
    requires
        coord.wf(),
    ensures
        OrdMap::<i64, ProducerDetail>::sane(unscanned(coord.model()).producers),
        OrdMap::<String, Txn>::sane(unscanned(coord.model()).transactions),
{
    let model = coord.model();
    let bare = unscanned(model);
    coord.producers.sane_model();
    coord.transactions.sane_model();
    lemma_listable_remapped::<i64, Map<i16, SequenceModel>>(
        model.producers,
        without_sequences(),
    );
    assert forall|id: i64| #[trigger] bare.producers.dom().contains(id) implies ProducerDetail::sane(
        bare.producers[id],
    ) by {
        assert(model.producers.dom().contains(id));
        let epochs = model.producers[id];
        lemma_listable_remapped::<i16, SequenceModel>(epochs, no_sequences());
        lemma_listable_empty::<String, Map<i32, i32>>();
    }
    lemma_listable_remapped::<String, TxnModel>(model.transactions, without_open_ranges());
    assert forall|id: Seq<char>| #[trigger] bare.transactions.dom().contains(id) implies Txn::sane(
        bare.transactions[id],
    ) by {
        assert(model.transactions.dom().contains(id));
        let epochs = model.transactions[id].epochs;
        lemma_listable_remapped::<i16, TxnDetailModel>(epochs, unscanned_detail());
        let after = bare.transactions[id].epochs;
        assert forall|epoch: i16| #[trigger] after.dom().contains(epoch) implies TxnDetail::sane(
            after[epoch],
        ) by {
            assert(epochs.dom().contains(epoch));
            lemma_unscanned_produces_sane(epochs[epoch].produces);
        }
    }
}

proof fn lemma_unscanned_produces_sane(produces: ProducesModel)
    requires
        Produces::sane(produces),
    ensures
        Produces::sane(unscanned_produces(produces)),
{
    lemma_listable_remapped::<String, Map<i32, Option<TxnProduceOffset>>>(
        produces,
        no_ranges(),
    );
    let after = unscanned_produces(produces);
    assert forall|topic: Seq<char>| #[trigger] after.dom().contains(topic) implies OrdMap::<
        i32,
        Option<TxnProduceOffset>,
    >::sane(after[topic]) by {
        assert(produces.dom().contains(topic));
        lemma_listable_remapped::<i32, Option<TxnProduceOffset>>(produces[topic], no_range());
    }
}

proof fn lemma_by_name(topics: Seq<(Seq<char>, TopicModel)>)
    requires
        forall|i: int|
            0 <= i < topics.len() ==> (#[trigger] topics[i]).1.topic.name == topics[i].0,
    ensures
        by_name(values_of(topics)) == to_map(topics),
    decreases topics.len(),
{
    if topics.len() > 0 {
        let init = topics.drop_last();
        assert forall|i: int| 0 <= i < init.len() implies (#[trigger] init[i]).1.topic.name
            == init[i].0 by {
            assert(init[i] == topics[i]);
        }
        lemma_by_name(init);
        assert(values_of(topics).drop_last() =~= values_of(init));
        assert(topics[topics.len() - 1].1.topic.name == topics.last().0);
    } else {
        assert(values_of(topics) =~= Seq::<TopicModel>::empty());
    }
}

/// A snapshot gives back the state that it captured, but for what the segment
/// scan rebuilds, with the partitions by their topic and number.
pub proof fn law_snapshot_round_trip(
    wal_seq: u64,
    coord: &CoordState,
    groups: &Groups,
    group_offsets: &GroupOffsets,
    partitions: Seq<((Seq<char>, i32), SkeletonModel)>,
)
    requires
        coord.wf(),
        groups.wf(),
        group_offsets.wf(),
        topics_named(coord.model()),
    ensures
        captured(
            document(
                wal_seq,
                coord.model(),
                groups.model(),
                group_offsets.model(),
                partitions,
            ),
        ) == (ImageModel {
            coord: unscanned(coord.model()),
            groups: groups.model(),
            group_offsets: group_offsets.model(),
            skeletons: to_map(partitions),
        }),
{
    let bare = unscanned(coord.model());
    lemma_unscanned_sane(coord);
    coord.scram.sane_model();
    groups.sane_model();
    group_offsets.sane_model();
    OrdMap::<i64, ProducerDetail>::raised_flat(bare.producers);
    OrdMap::<String, Txn>::raised_flat(bare.transactions);
    OrdMap::<(String, String), ScramCredential>::raised_flat(bare.scram);
    Groups::raised_flat(groups.model());
    GroupOffsets::raised_flat(group_offsets.model());
    coord.topics.lemma_seq();
    let rows = coord.topics.seq();
    assert forall|i: int| 0 <= i < rows.len() implies (#[trigger] rows[i]).1.topic.name == rows[i].0 by {
        crate::ordmap::lemma_ascending_at::<String, TopicModel>(rows, i);
        assert(coord.model().topics.dom().contains(rows[i].0));
    }
    lemma_by_name(rows);
    assert(raised_pairs::<Topition, Skeleton>(partitions) =~= partitions);
}

/// The name of the snapshot that captures up to a WAL sequence.
pub open spec fn snapshot_name(wal_seq: u64) -> Seq<char> {
    padded(wal_seq as int, 20) + ".snap"@
}

pub fn snapshot_path(dir: &str, wal_seq: u64) -> (path: String)
    ensures
        path@ == path_in(dir@, snapshot_name(wal_seq)),
{
    let name = concat(padded_count(wal_seq, 20).as_str(), ".snap");
    join(dir, name.as_str())
}

/// The name that a snapshot is written under before it is renamed.
pub open spec fn tmp_name(wal_seq: u64) -> Seq<char> {
    "."@ + padded(wal_seq as int, 20) + ".tmp"@
}

pub fn tmp_path(dir: &str, wal_seq: u64) -> (path: String)
    ensures
        path@ == path_in(dir@, tmp_name(wal_seq)),
{
    let name = concat(concat(".", padded_count(wal_seq, 20).as_str()).as_str(), ".tmp");
    join(dir, name.as_str())
}

/// The sequences of a directory's snapshots, ascending.
pub fn snapshot_seqs(names: &Vec<String>) -> (seqs: Vec<u64>)
    ensures
        in_order::<u64>(seqs@),
        seqs@.to_multiset() == seqs_of(names@, ".snap"@).to_multiset(),
{
    sorted_seqs(names, ".snap")
}

/// A snapshot file's name says its sequence.
pub proof fn law_snapshot_name_reads_back(wal_seq: u64)
    ensures
        seq_of_name(snapshot_name(wal_seq), ".snap"@) == Some(wal_seq),
{
    lemma_padded_reads_back(wal_seq as int, 20);
    lemma_stem(padded(wal_seq as int, 20), ".snap"@);
}

/// The bytes of a snapshot file.
pub fn frame_snapshot(payload: &[u8]) -> (bytes: Vec<u8>)
    ensures
        bytes@ == framed(FrameType::Snapshot, payload@),
{
    encode(FrameType::Snapshot, payload)
}

/// The document in a snapshot file's bytes; none where the file is corrupt.
pub open spec fn snapshot_in(bytes: Seq<u8>) -> Option<Seq<u8>> {
    match frame_at_start(bytes) {
        Some((FrameType::Snapshot, payload)) => Some(payload),
        _ => None,
    }
}

pub fn snapshot_payload(bytes: &[u8]) -> (payload: Option<Vec<u8>>)
    ensures
        match payload {
            Some(payload) => snapshot_in(bytes@) == Some(payload@),
            None => snapshot_in(bytes@) is None,
        },
{
    match decode(bytes) {
        Decoded::Frame(frame) => if frame.frame_type == FrameType::Snapshot {
            Some(frame.payload)
        } else {
            None
        },
        Decoded::Torn => None,
    }
}

/// Whether to boot from a snapshot: `None` stands for one whose file or
/// document is corrupt, else the version that it states. One of another version
/// refuses to boot rather than lose coordination state.
pub fn accept_snapshot(format_version: Option<u32>) -> (result: Result<bool>)
    ensures
        match format_version {
            None => result matches Ok(accepted) && !accepted,
            Some(version) => if version == FORMAT_VERSION {
                result matches Ok(accepted) && accepted
            } else {
                refused(
                    result,
                    Fault::Message(
                        "nvme snapshot format "@ + decimal(version as nat)
                            + " unsupported (want 1); refusing to boot rather than lose coordination state"@,
                    ),
                )
            },
        },
{
    match format_version {
        None => Ok(false),
        Some(version) => if version == FORMAT_VERSION {
            Ok(true)
        } else {
            let start = concat("nvme snapshot format ", decimal_text(version as u64).as_str());
            Err(
                Error::Message(
                    concat(
                        start.as_str(),
                        " unsupported (want 1); refusing to boot rather than lose coordination state",
                    ),
                ),
            )
        },
    }
}

/// A search for the snapshot to boot from: the sequences not looked at yet,
/// and the one that is being read.
pub struct Search {
    pub left: Seq<u64>,
    pub reading: Option<u64>,
}

/// What a search comes to next: to read a snapshot, to boot from the one that
/// was read, to boot from none, or to refuse the version that was read.
pub enum Found {
    Read(u64),
    Boot(u64),
    Nothing,
    Refused(u32),
}

/// A step of a search, after the snapshot being read, if any, has turned out
/// corrupt (`None`) or to state a version.
pub open spec fn searched(search: Search, format_version: Option<u32>) -> (Search, Found) {
    match (search.reading, format_version) {
        (Some(seq), Some(version)) => if version == FORMAT_VERSION {
            (search, Found::Boot(seq))
        } else {
            (search, Found::Refused(version))
        },
        _ => if search.left.len() == 0 {
            (Search { left: search.left, reading: None }, Found::Nothing)
        } else {
            let seq = search.left.last();
            (Search { left: search.left.drop_last(), reading: Some(seq) }, Found::Read(seq))
        },
    }
}

/// What a search comes to in the end, where `versions` says what is read of
/// each snapshot.
pub open spec fn search_result(search: Search, versions: spec_fn(u64) -> Option<u32>) -> Found
    decreases search.left.len(),
{
    let format_version = match search.reading {
        Some(seq) => versions(seq),
        None => None,
    };
    match searched(search, format_version) {
        (next, Found::Read(_)) => search_result(next, versions),
        (_, found) => found,
    }
}

/// Whether a sequence is that of a snapshot that is not corrupt, while every
/// newer one is.
pub open spec fn newest_valid(
    seqs: Seq<u64>,
    versions: spec_fn(u64) -> Option<u32>,
    seq: u64,
) -> bool {
    &&& seqs.contains(seq)
    &&& versions(seq) is Some
    &&& forall|newer: u64| #[trigger] seqs.contains(newer) && newer > seq ==> versions(
        newer,
    ) is None
}

/// The newest snapshot that is not corrupt is booted from, or refused where it
/// states another version; an older one is never looked at. Nothing is booted
/// from only where every snapshot is corrupt.
pub proof fn law_newest_valid_snapshot_wins(
    seqs: Seq<u64>,
    versions: spec_fn(u64) -> Option<u32>,
)
    requires
        in_order::<u64>(seqs),
    ensures
        match search_result(Search { left: seqs, reading: None }, versions) {
            Found::Boot(seq) => newest_valid(seqs, versions, seq) && versions(seq) == Some(
                FORMAT_VERSION,
            ),
            Found::Refused(version) => version != FORMAT_VERSION && exists|seq: u64| #[trigger]
                newest_valid(seqs, versions, seq) && versions(seq) == Some(version),
            Found::Nothing => forall|seq: u64| #[trigger]
                seqs.contains(seq) ==> versions(seq) is None,
            Found::Read(_) => false,
        },
{
    lemma_search(seqs, seqs.len() as int, None, versions);
    assert(seqs.take(seqs.len() as int) =~= seqs);
}

proof fn lemma_search(
    seqs: Seq<u64>,
    n: int,
    reading: Option<u64>,
    versions: spec_fn(u64) -> Option<u32>,
)
    requires
        in_order::<u64>(seqs),
        0 <= n <= seqs.len(),
        reading == (if n < seqs.len() {
            Some(seqs[n])
        } else {
            None
        }),
        forall|i: int| n < i < seqs.len() ==> versions(#[trigger] seqs[i]) is None,
    ensures
        match search_result(Search { left: seqs.take(n), reading }, versions) {
            Found::Boot(seq) => newest_valid(seqs, versions, seq) && versions(seq) == Some(
                FORMAT_VERSION,
            ),
            Found::Refused(version) => version != FORMAT_VERSION && exists|seq: u64| #[trigger]
                newest_valid(seqs, versions, seq) && versions(seq) == Some(version),
            Found::Nothing => forall|seq: u64| #[trigger]
                seqs.contains(seq) ==> versions(seq) is None,
            Found::Read(_) => false,
        },
    decreases n,
{
    if n < seqs.len() && versions(seqs[n]) is Some {
        assert forall|newer: u64| #[trigger] seqs.contains(newer) && newer > seqs[n] implies versions(
            newer,
        ) is None by {
            let i = choose|i: int| 0 <= i < seqs.len() && seqs[i] == newer;
            if i < n {
                assert(!u64::precedes(seqs[n], seqs[i]));
            }
            assert(versions(seqs[i]) is None);
        }
        assert(newest_valid(seqs, versions, seqs[n]));
    } else if n > 0 {
        assert(seqs.take(n).drop_last() =~= seqs.take(n - 1));
        lemma_search(seqs, n - 1, Some(seqs[n - 1]), versions);
    } else {
        assert forall|seq: u64| #[trigger] seqs.contains(seq) implies versions(seq) is None by {
            let i = choose|i: int| 0 <= i < seqs.len() && seqs[i] == seq;
            assert(versions(seqs[i]) is None);
        }
    }
}

/// What a snapshot search asks for next.
#[derive(Debug, PartialEq, Eq)]
pub enum SnapshotStep {
    /// The snapshot of this sequence is to be read.
    Read(u64),
    /// The snapshot that was read, of this sequence, is the one to boot from.
    Boot(u64),
    /// There is none to boot from.
    Nothing,
}

/// A search for the newest valid snapshot.
#[derive(Debug)]
pub struct SnapshotSearch {
    left: Vec<u64>,
    reading: Option<u64>,
}

impl View for SnapshotSearch {
    type V = Search;

    closed spec fn view(&self) -> Search {
        Search { left: self.left@, reading: self.reading }
    }
}

impl SnapshotSearch {
    /// A search among a directory's file names.
    pub fn new(names: &Vec<String>) -> (search: SnapshotSearch)
        ensures
            in_order::<u64>(search@.left),
            search@.left.to_multiset() == seqs_of(names@, ".snap"@).to_multiset(),
            search@.reading is None,
    {
        SnapshotSearch { left: snapshot_seqs(names), reading: None }
    }

    /// Goes on, after the snapshot that was to be read, if any, has turned out
    /// corrupt (`None`) or to state a version.
    pub fn step(&mut self, format_version: Option<u32>) -> (result: Result<SnapshotStep>)
        ensures
            final(self)@ == searched(old(self)@, format_version).0,
            match searched(old(self)@, format_version).1 {
                Found::Read(seq) => result == Ok::<_, Error>(SnapshotStep::Read(seq)),
                Found::Boot(seq) => result == Ok::<_, Error>(SnapshotStep::Boot(seq)),
                Found::Nothing => result == Ok::<_, Error>(SnapshotStep::Nothing),
                Found::Refused(version) => refused(
                    result,
                    Fault::Message(
                        "nvme snapshot format "@ + decimal(version as nat)
                            + " unsupported (want 1); refusing to boot rather than lose coordination state"@,
                    ),
                ),
            },
    {
        if let Some(seq) = self.reading {
            match accept_snapshot(format_version) {
                Ok(accepted) => if accepted {
                    return Ok(SnapshotStep::Boot(seq));
                },
                Err(error) => {
                    return Err(error);
                },
            }
        }
        self.reading = self.left.pop();
        match self.reading {
            Some(seq) => Ok(SnapshotStep::Read(seq)),
            None => Ok(SnapshotStep::Nothing),
        }
    }
}

/// Whether a file name is that of a snapshot being written.
pub open spec fn is_tmp(name: Seq<char>) -> bool {
    &&& name.len() >= 1
    &&& name[0] == '.'
    &&& crate::text::stem(name, ".tmp"@) is Some
}

/// The stale files among a directory's names.
pub open spec fn tmp_names(names: Seq<Seq<char>>) -> Seq<Seq<char>>
    decreases names.len(),
{
    if names.len() == 0 {
        names
    } else {
        let rest = tmp_names(names.drop_last());
        if is_tmp(names.last()) {
            rest.push(names.last())
        } else {
            rest
        }
    }
}

/// The snapshots among a directory's names, each with its sequence.
pub open spec fn named_snapshots(names: Seq<Seq<char>>) -> Seq<(u64, Seq<char>)>
    decreases names.len(),
{
    if names.len() == 0 {
        Seq::empty()
    } else {
        let rest = named_snapshots(names.drop_last());
        match seq_of_name(names.last(), ".snap"@) {
            Some(seq) => if is_tmp(names.last()) {
                rest
            } else {
                rest.push((seq, names.last()))
            },
            None => rest,
        }
    }
}

/// The snapshots that go: all but the newest two.
pub open spec fn outdated(sorted: Seq<(u64, Seq<char>)>) -> Seq<Seq<char>> {
    Seq::new((sorted.len() - 2) as nat, |i: int| sorted[i].1)
}

/// Which files of the snapshot directory go: stale ones, and all snapshots but
/// the newest two.
pub fn prune(names: &Vec<String>) -> (gone: Vec<String>)
    ensures
        exists|sorted: Seq<(u64, Seq<char>)>| #[trigger]
            in_order::<(u64, String)>(sorted) && sorted.to_multiset() == named_snapshots(
                names.model(),
            ).to_multiset() && gone.model() == tmp_names(names.model()) + (if sorted.len() > 2 {
                outdated(sorted)
            } else {
                Seq::empty()
            }),
{
    let mut gone: Vec<String> = Vec::new();
    let mut snapshots: Vec<(u64, String)> = Vec::new();
    let ghost rows = names.model();
    let mut i: usize = 0;
    assert(gone.model() =~= tmp_names(rows.take(0)));
    assert(snapshots.model() =~= named_snapshots(rows.take(0)));
    while i < names.len()
        invariant
            rows == names.model(),
            i <= rows.len(),
            gone.model() == tmp_names(rows.take(i as int)),
            snapshots.model() == named_snapshots(rows.take(i as int)),
        decreases rows.len() - i,
    {
        let ghost goners = gone.model();
        let ghost found = snapshots.model();
        proof {
            assert(rows.take(i + 1).drop_last() =~= rows.take(i as int));
            assert(rows.take(i + 1).last() == names@[i as int]@);
        }
        let name = names[i].as_str();
        let hidden = strip_prefix(name, ".").is_some();
        proof {
            reveal_strlit(".");
            assert(hidden <==> name@.len() >= 1 && name@[0] == '.') by {
                if name@.len() >= 1 {
                    assert(name@.take(1) =~= seq![name@[0]]);
                    assert("."@ =~= seq!['.']);
                    assert(seq![name@[0]][0] == name@[0]);
                }
            }
        }
        if hidden && strip_suffix(name, ".tmp").is_some() {
            gone.push(names[i].clone());
            assert(gone.model() =~= goners.push(name@));
        } else if let Some(seq) = parse_name(name, ".snap") {
            snapshots.push((seq, names[i].clone()));
            assert(snapshots.model() =~= found.push((seq, name@)));
        }
        i += 1;
    }
    proof {
        assert(rows.take(i as int) =~= rows);
        assert(all_models(snapshots@) =~= snapshots.model());
    }
    let ordered = sort(snapshots);
    let ghost sorted = all_models(ordered@);
    let ghost stale = gone.model();
    let mut k: usize = 0;
    while ordered.len() - k > 2
        invariant
            k == 0 || k + 2 <= ordered@.len(),
            sorted == all_models(ordered@),
            gone.model() == stale + Seq::new(k as nat, |j: int| sorted[j].1),
        decreases ordered@.len() - k,
    {
        let ghost before = gone.model();
        gone.push(ordered[k].1.clone());
        proof {
            assert(gone.model() =~= before.push(sorted[k as int].1));
            assert(gone.model() =~= stale + Seq::new((k + 1) as nat, |j: int| sorted[j].1));
        }
        k += 1;
    }
    proof {
        let tail = if sorted.len() > 2 {
            outdated(sorted)
        } else {
            Seq::empty()
        };
        assert(Seq::new(k as nat, |j: int| sorted[j].1) =~= tail);
        assert(in_order::<(u64, String)>(sorted));
    }
    gone
}

} // verus!
