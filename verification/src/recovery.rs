//! Boot: the state of the newest snapshot, the WAL records it does not
//! capture, and the partitions as their segments give them back.
//!
//! Everything acknowledged was durable, so replay and scan give back exactly
//! the acknowledged state, and perhaps some writes that no client saw
//! acknowledged. Prepared transactions are listed for the engine to finish.

use crate::error::{refused, Error, Fault, Result};
use crate::frame::{decode, frame_at_start, Decoded, FrameType};
use crate::model::Model;
use crate::ordmap::{ordered, to_map, OrdMap};
use crate::partition::{empty_part, PartModel, PartitionInner};
use crate::rebuild::{
    in_range, join_tier, joined, local_entry, rebuilt, remote_entry, scan_partition, sequenced,
    FoundBatch, SidecarEntry,
};
use crate::replay::{
    empty_skeleton, GroupOffsets, Groups, Image, ImageModel, Skeleton, SkeletonModel,
};
use crate::state::{
    get_or, list_ranges, produced_ranges, CoordModel, CoordState, TopicModel, TxnDetailModel,
    TxnModel, TxnProduceOffset,
};
use crate::text::{concat, decimal, decimal_text, same};
use crate::types::{Topition, TxnState};
use vstd::prelude::*;

verus! {

/// The version of a data directory's manifest.
pub const MANIFEST_FORMAT_VERSION: u32 = 1;

/// What a data directory's manifest says.
#[derive(Debug, PartialEq, Eq)]
pub struct Manifest {
    pub format_version: u32,
    pub cluster_id: String,
}

/// A text as a debugging print shows it: quoted, with escapes.
pub uninterp spec fn debug_text(s: Seq<char>) -> Seq<char>;

/// `<str as std::fmt::Debug>::fmt` through `std::format!`: the result depends
/// on the text alone. What the escapes look like is left unsaid.
#[verifier::external_body]
pub(crate) fn debug_str(s: &str) -> (text: String)
    ensures
        text@ == debug_text(s@),
{
    format!("{s:?}")
}

/// The document in a manifest's bytes.
pub fn manifest_payload(bytes: &[u8]) -> (result: Result<Vec<u8>>)
    ensures
        match frame_at_start(bytes@) {
            Some((FrameType::Manifest, payload)) => result matches Ok(found) && found@ == payload,
            _ => refused(result, Fault::Message("nvme MANIFEST corrupt"@)),
        },
{
    match decode(bytes) {
        Decoded::Frame(frame) => if frame.frame_type == FrameType::Manifest {
            Ok(frame.payload)
        } else {
            Err(Error::Message("nvme MANIFEST corrupt".to_owned()))
        },
        Decoded::Torn => Err(Error::Message("nvme MANIFEST corrupt".to_owned())),
    }
}

impl Manifest {
    /// The manifest of a new data directory.
    pub fn new(cluster: &str) -> (manifest: Self)
        ensures
            manifest.format_version == MANIFEST_FORMAT_VERSION,
            manifest.cluster_id@ == cluster@,
    {
        Manifest { format_version: MANIFEST_FORMAT_VERSION, cluster_id: cluster.to_owned() }
    }

    /// Refuses a directory of another format or of another cluster.
    pub fn check(&self, cluster: &str) -> (result: Result<()>)
        ensures
            if self.format_version != MANIFEST_FORMAT_VERSION {
                refused(
                    result,
                    Fault::Message(
                        "nvme MANIFEST format "@ + decimal(self.format_version as nat)
                            + ", want 1"@,
                    ),
                )
            } else if self.cluster_id@ != cluster@ {
                refused(
                    result,
                    Fault::Message(
                        "nvme data dir belongs to cluster "@ + debug_text(self.cluster_id@)
                            + ", not "@ + debug_text(cluster@),
                    ),
                )
            } else {
                result is Ok
            },
    {
        if self.format_version != MANIFEST_FORMAT_VERSION {
            let start = concat(
                "nvme MANIFEST format ",
                decimal_text(self.format_version as u64).as_str(),
            );
            return Err(Error::Message(concat(start.as_str(), ", want 1")));
        }
        if !same(self.cluster_id.as_str(), cluster) {
            let start = concat(
                "nvme data dir belongs to cluster ",
                debug_str(self.cluster_id.as_str()).as_str(),
            );
            let middle = concat(start.as_str(), ", not ");
            return Err(Error::Message(concat(middle.as_str(), debug_str(cluster).as_str())));
        }
        Ok(())
    }
}

/// The sequences of a list above one.
pub open spec fn above(seqs: Seq<u64>, seq: u64) -> Seq<u64>
    decreases seqs.len(),
{
    if seqs.len() == 0 {
        seqs
    } else {
        let rest = above(seqs.drop_last(), seq);
        if seqs.last() > seq {
            rest.push(seqs.last())
        } else {
            rest
        }
    }
}

/// The WAL files that a snapshot does not capture: those to be replayed, or,
/// where the snapshot came from the object store, to be downloaded.
pub fn uncaptured(seqs: &Vec<u64>, snapshot_seq: u64) -> (list: Vec<u64>)
    ensures
        list@ == above(seqs@, snapshot_seq),
{
    let mut list: Vec<u64> = Vec::new();
    let mut i: usize = 0;
    assert(seqs@.take(0) =~= Seq::<u64>::empty());
    while i < seqs.len()
        invariant
            i <= seqs@.len(),
            list@ == above(seqs@.take(i as int), snapshot_seq),
        decreases seqs@.len() - i,
    {
        assert(seqs@.take(i + 1).drop_last() =~= seqs@.take(i as int));
        if seqs[i] > snapshot_seq {
            list.push(seqs[i]);
        }
        i += 1;
    }
    assert(seqs@.take(i as int) =~= seqs@);
    list
}

/// The sequences of a list up to one.
pub open spec fn up_to(seqs: Seq<u64>, seq: u64) -> Seq<u64>
    decreases seqs.len(),
{
    if seqs.len() == 0 {
        seqs
    } else {
        let rest = up_to(seqs.drop_last(), seq);
        if seqs.last() <= seq {
            rest.push(seqs.last())
        } else {
            rest
        }
    }
}

/// The WAL files that a snapshot captures and that can go.
pub fn captured_wals(seqs: &Vec<u64>, snapshot_seq: u64) -> (list: Vec<u64>)
    ensures
        list@ == up_to(seqs@, snapshot_seq),
{
    let mut list: Vec<u64> = Vec::new();
    let mut i: usize = 0;
    assert(seqs@.take(0) =~= Seq::<u64>::empty());
    while i < seqs.len()
        invariant
            i <= seqs@.len(),
            list@ == up_to(seqs@.take(i as int), snapshot_seq),
        decreases seqs@.len() - i,
    {
        assert(seqs@.take(i + 1).drop_last() =~= seqs@.take(i as int));
        if seqs[i] <= snapshot_seq {
            list.push(seqs[i]);
        }
        i += 1;
    }
    assert(seqs@.take(i as int) =~= seqs@);
    list
}

/// The last WAL sequence that is taken: that of the last file (they are
/// listed ascending) or the one the snapshot captures up to.
pub open spec fn last_taken(existing: Seq<u64>, snapshot_seq: u64) -> u64 {
    if existing.len() > 0 && existing.last() > snapshot_seq {
        existing.last()
    } else {
        snapshot_seq
    }
}

/// The sequence of the WAL file that this boot writes.
pub fn next_wal_seq(existing: &Vec<u64>, snapshot_seq: u64) -> (seq: u64)
    requires
        last_taken(existing@, snapshot_seq) < u64::MAX,
    ensures
        seq == last_taken(existing@, snapshot_seq) + 1,
{
    if existing.len() > 0 && existing[existing.len() - 1] > snapshot_seq {
        existing[existing.len() - 1] + 1
    } else {
        snapshot_seq + 1
    }
}

/// A boot under way: what is known from the snapshot and the WAL, and the
/// partitions rebuilt so far.
pub struct Boot {
    pub image: Image,
    pub partitions: OrdMap<Topition, PartitionInner>,
}

/// Partitions by topic and number.
pub type PartsModel = Map<(Seq<char>, i32), PartModel>;

/// What a [`Boot`] says.
#[verifier::ext_equal]
pub struct BootModel {
    pub image: ImageModel,
    pub partitions: PartsModel,
}

/// The boot after a partition's segments were scanned.
pub open spec fn with_scan(
    boot: BootModel,
    topition: (Seq<char>, i32),
    found: Seq<FoundBatch>,
) -> BootModel {
    let skeleton = get_or(boot.image.skeletons, topition, empty_skeleton());
    let (part, coord) = rebuilt(boot.image.coord, topition, skeleton, found);
    BootModel {
        image: ImageModel {
            coord,
            skeletons: boot.image.skeletons.remove(topition),
            ..boot.image
        },
        partitions: boot.partitions.insert(topition, part),
    }
}

/// A partition without segments, at its log start.
pub open spec fn idle(skeleton: SkeletonModel) -> PartModel {
    PartModel {
        log_start: skeleton.log_start,
        next_offset: skeleton.log_start,
        durable_offset: skeleton.log_start,
        aborted: skeleton.aborted,
        ..empty_part()
    }
}

/// Partitions, and those that only the snapshot and the WAL know.
pub open spec fn with_idle(
    partitions: PartsModel,
    skeletons: Map<(Seq<char>, i32), SkeletonModel>,
) -> PartsModel {
    Map::new(
        |k: (Seq<char>, i32)| partitions.dom().contains(k) || skeletons.dom().contains(k),
        |k: (Seq<char>, i32)|
            if skeletons.dom().contains(k) {
                idle(skeletons[k])
            } else {
                partitions[k]
            },
    )
}

/// Whether a list of topics has a partition.
pub open spec fn has_partition(topics: Seq<(Seq<char>, TopicModel)>, k: (Seq<char>, i32)) -> bool {
    exists|i: int|
        0 <= i < topics.len() && (#[trigger] topics[i]).1.topic.name == k.0 && 0 <= k.1
            < topics[i].1.topic.num_partitions
}

/// Partitions, and an empty one for each that a list of topics has besides.
pub open spec fn with_topics(
    partitions: PartsModel,
    topics: Seq<(Seq<char>, TopicModel)>,
) -> PartsModel {
    Map::new(
        |k: (Seq<char>, i32)| partitions.dom().contains(k) || has_partition(topics, k),
        |k: (Seq<char>, i32)|
            if partitions.dom().contains(k) {
                partitions[k]
            } else {
                empty_part()
            },
    )
}

/// The boot after every segment directory was scanned: partitions without one
/// are at their log start, and those of a topic that nothing is known of are
/// empty.
pub open spec fn with_rest(boot: BootModel) -> BootModel {
    BootModel {
        image: ImageModel { skeletons: Map::empty(), ..boot.image },
        partitions: with_topics(
            with_idle(boot.partitions, boot.image.skeletons),
            ordered::<String, TopicModel>(boot.image.coord.topics),
        ),
    }
}

/// The boot after the object store was asked for a partition.
pub open spec fn with_tier(
    boot: BootModel,
    topition: (Seq<char>, i32),
    remote: Seq<i64>,
    entries: Seq<(i64, SidecarEntry)>,
) -> BootModel {
    if boot.partitions.dom().contains(topition) {
        let (part, coord) = joined(
            boot.partitions[topition],
            boot.image.coord,
            topition,
            remote,
            entries,
        );
        BootModel {
            image: ImageModel { coord, ..boot.image },
            partitions: boot.partitions.insert(topition, part),
        }
    } else {
        boot
    }
}

/// Whether an incarnation is open: begun, or prepared and not resolved.
pub open spec fn is_open(detail: TxnDetailModel) -> bool {
    detail.state matches Some(state) && !state.terminal()
}

/// A partition with an open transaction.
pub open spec fn pinned(p: PartModel, key: (Seq<char>, (i64, i16)), offset: i64) -> PartModel {
    PartModel { open_txns: p.open_txns.insert(key, offset), ..p }
}

/// Partitions with an open transaction on those that it produced to.
pub open spec fn pinned_ranges(
    partitions: PartsModel,
    key: (Seq<char>, (i64, i16)),
    ranges: Seq<(Seq<char>, i32, TxnProduceOffset)>,
) -> PartsModel
    decreases ranges.len(),
{
    if ranges.len() == 0 {
        partitions
    } else {
        let before = pinned_ranges(partitions, key, ranges.drop_last());
        let (topic, partition, range) = ranges.last();
        let k = (topic, partition);
        if before.dom().contains(k) {
            before.insert(k, pinned(before[k], key, range.offset_start))
        } else {
            before
        }
    }
}

pub open spec fn pinned_epochs(
    partitions: PartsModel,
    id: Seq<char>,
    producer: i64,
    epochs: Seq<(i16, TxnDetailModel)>,
) -> PartsModel
    decreases epochs.len(),
{
    if epochs.len() == 0 {
        partitions
    } else {
        let before = pinned_epochs(partitions, id, producer, epochs.drop_last());
        let (epoch, detail) = epochs.last();
        if is_open(detail) {
            pinned_ranges(before, (id, (producer, epoch)), produced_ranges(detail.produces))
        } else {
            before
        }
    }
}

pub open spec fn pinned_txns(
    partitions: PartsModel,
    txns: Seq<(Seq<char>, TxnModel)>,
) -> PartsModel
    decreases txns.len(),
{
    if txns.len() == 0 {
        partitions
    } else {
        pinned_epochs(
            pinned_txns(partitions, txns.drop_last()),
            txns.last().0,
            txns.last().1.producer,
            ordered::<i16, TxnDetailModel>(txns.last().1.epochs),
        )
    }
}

/// The prepared incarnations of one transaction, in epoch order.
pub open spec fn in_doubt_epochs(
    id: Seq<char>,
    producer: i64,
    epochs: Seq<(i16, TxnDetailModel)>,
) -> Seq<(Seq<char>, i64, i16, bool)>
    decreases epochs.len(),
{
    if epochs.len() == 0 {
        Seq::empty()
    } else {
        let before = in_doubt_epochs(id, producer, epochs.drop_last());
        let (epoch, detail) = epochs.last();
        match detail.state {
            Some(TxnState::PrepareCommit) => before.push((id, producer, epoch, true)),
            Some(TxnState::PrepareAbort) => before.push((id, producer, epoch, false)),
            _ => before,
        }
    }
}

pub open spec fn in_doubt_txns(txns: Seq<(Seq<char>, TxnModel)>) -> Seq<
    (Seq<char>, i64, i16, bool),
>
    decreases txns.len(),
{
    if txns.len() == 0 {
        Seq::empty()
    } else {
        in_doubt_txns(txns.drop_last()) + in_doubt_epochs(
            txns.last().0,
            txns.last().1.producer,
            ordered::<i16, TxnDetailModel>(txns.last().1.epochs),
        )
    }
}

/// The transactions that were prepared and not resolved: id, producer, epoch
/// and whether the end is a commit.
pub open spec fn in_doubt(coord: CoordModel) -> Seq<(Seq<char>, i64, i16, bool)> {
    in_doubt_txns(ordered::<String, TxnModel>(coord.transactions))
}

/// The partitions with every open transaction pinning those it produced to.
pub open spec fn pinned_all(partitions: PartsModel, coord: CoordModel) -> PartsModel {
    pinned_txns(partitions, ordered::<String, TxnModel>(coord.transactions))
}

/// What a list of transactions in doubt says.
pub open spec fn doubts(list: Seq<(String, i64, i16, bool)>) -> Seq<(Seq<char>, i64, i16, bool)> {
    Seq::new(list.len(), |i: int| (list[i].0@, list[i].1, list[i].2, list[i].3))
}

/// The rebuilt state.
pub struct Recovered {
    pub coord: CoordState,
    pub groups: Groups,
    pub group_offsets: GroupOffsets,
    pub partitions: OrdMap<Topition, PartitionInner>,
    /// Prepared transactions that await resolution: id, producer, epoch and
    /// whether the end is a commit.
    pub in_doubt: Vec<(String, i64, i16, bool)>,
}

impl Boot {
    pub open spec fn model(&self) -> BootModel {
        BootModel { image: self.image.model(), partitions: self.partitions.model() }
    }

    pub open spec fn wf(&self) -> bool {
        self.image.wf() && self.partitions.wf()
    }

    /// A boot with nothing scanned yet.
    pub fn new(image: Image) -> (boot: Self)
        requires
            image.wf(),
        ensures
            boot.wf(),
            boot.model() == (BootModel { image: image.model(), partitions: Map::empty() }),
    {
        Boot { image, partitions: OrdMap::new() }
    }

    /// Takes in the batches found in a partition's segments.
    pub fn scan(&mut self, topition: &Topition, found: &Vec<FoundBatch>)
        requires
            old(self).wf(),
            forall|i: int|
                0 <= i < found@.len() ==> in_range(
                    (#[trigger] found@[i]).offset,
                    local_entry(found@[i]),
                    found@[i].header.idempotent,
                ),
        ensures
            final(self).wf(),
            final(self).model() == with_scan(old(self).model(), topition.model(), found@),
    {
        let skeleton = match self.image.skeletons.remove(topition) {
            Some(skeleton) => skeleton,
            None => Skeleton::new(),
        };
        let inner = scan_partition(topition, skeleton, found, &mut self.image.coord);
        self.partitions.insert(topition.dup(), inner);
    }

    /// Adds the partitions that have no segment directory yet.
    pub fn add_rest(&mut self)
        requires
            old(self).wf(),
        ensures
            final(self).wf(),
            final(self).model() == with_rest(old(self).model()),
    {
        let ghost before = self.model();
        self.add_idle();
        self.add_topics();
        self.image.skeletons.clear();
        assert(self.model() =~= with_rest(before));
    }

    fn add_idle(&mut self)
        requires
            old(self).wf(),
        ensures
            final(self).wf(),
            final(self).image == old(self).image,
            final(self).partitions.model() == with_idle(
                old(self).partitions.model(),
                old(self).image.skeletons.model(),
            ),
    {
        let ghost parts = self.partitions.model();
        let ghost rows = self.image.skeletons.seq();
        let mut i: usize = 0;
        proof {
            assert(to_map(rows.take(0)) =~= Map::<(Seq<char>, i32), SkeletonModel>::empty());
            assert(with_idle(parts, to_map(rows.take(0))) =~= parts);
        }
        while i < self.image.skeletons.len()
            invariant
                self.wf(),
                self.image == old(self).image,
                rows == self.image.skeletons.seq(),
                i <= rows.len(),
                self.partitions.model() == with_idle(parts, to_map(rows.take(i as int))),
            decreases rows.len() - i,
        {
            let (topition, skeleton) = self.image.skeletons.at(i);
            let mut inner = PartitionInner::new();
            inner.log_start = skeleton.log_start;
            inner.next_offset = skeleton.log_start;
            inner.durable_offset = skeleton.log_start;
            inner.aborted = skeleton.aborted.clone();
            assert(inner.model() =~= idle(skeleton.model()));
            self.partitions.insert(topition.dup(), inner);
            proof {
                assert(rows.take(i + 1).drop_last() =~= rows.take(i as int));
                assert(self.partitions.model() =~= with_idle(parts, to_map(rows.take(i + 1))));
            }
            i += 1;
        }
        assert(rows.take(i as int) =~= rows);
    }

    fn add_topics(&mut self)
        requires
            old(self).wf(),
        ensures
            final(self).wf(),
            final(self).image == old(self).image,
            final(self).partitions.model() == with_topics(
                old(self).partitions.model(),
                ordered::<String, TopicModel>(old(self).image.coord.model().topics),
            ),
    {
        let ghost parts = self.partitions.model();
        let ghost rows = self.image.coord.topics.seq();
        proof {
            self.image.coord.topics.lemma_seq();
            assert(with_topics(parts, rows.take(0)) =~= parts);
        }
        let mut i: usize = 0;
        while i < self.image.coord.topics.len()
            invariant
                self.wf(),
                self.image == old(self).image,
                rows == self.image.coord.topics.seq(),
                i <= rows.len(),
                self.partitions.model() == with_topics(parts, rows.take(i as int)),
            decreases rows.len() - i,
        {
            let (_, metadata) = self.image.coord.topics.at(i);
            let name = metadata.topic.name.clone();
            let count: i32 = metadata.topic.num_partitions;
            let ghost so_far = self.partitions.model();
            let mut partition: i32 = 0;
            while partition < count
                invariant
                    self.wf(),
                    self.image == old(self).image,
                    0 <= partition,
                    partition <= count || partition == 0,
                    forall|k: (Seq<char>, i32)| #[trigger]
                        self.partitions.model().dom().contains(k) <==> so_far.dom().contains(k)
                            || (k.0 == name@ && 0 <= k.1 < partition),
                    forall|k: (Seq<char>, i32)| #[trigger]
                        self.partitions.model().dom().contains(k)
                            ==> self.partitions.model()[k] == (if so_far.dom().contains(k) {
                            so_far[k]
                        } else {
                            empty_part()
                        }),
                decreases count - partition,
            {
                let topition = Topition { topic: name.clone(), partition };
                if !self.partitions.contains(&topition) {
                    self.partitions.insert(topition, PartitionInner::new());
                }
                partition += 1;
            }
            proof {
                let init = rows.take(i as int);
                let next = rows.take(i + 1);
                assert(rows[i as int].1 == metadata.model());
                assert forall|k: (Seq<char>, i32)|
                    has_partition(next, k) <==> has_partition(init, k) || (k.0 == name@ && 0 <= k.1
                        < count) by {
                    if has_partition(next, k) {
                        let j = choose|j: int|
                            0 <= j < next.len() && (#[trigger] next[j]).1.topic.name == k.0 && 0
                                <= k.1 < next[j].1.topic.num_partitions;
                        if j < i {
                            assert(init[j] == next[j]);
                        }
                    }
                    if has_partition(init, k) {
                        let j = choose|j: int|
                            0 <= j < init.len() && (#[trigger] init[j]).1.topic.name == k.0 && 0
                                <= k.1 < init[j].1.topic.num_partitions;
                        assert(next[j] == init[j]);
                    }
                    if k.0 == name@ && 0 <= k.1 < count {
                        assert(next[i as int].1.topic.name == k.0);
                    }
                }
                assert(self.partitions.model() =~= with_topics(parts, next));
            }
            i += 1;
        }
        assert(rows.take(i as int) =~= rows);
    }

    /// Takes in what the object store holds of a partition.
    pub fn merge_tier(
        &mut self,
        topition: &Topition,
        remote: &Vec<i64>,
        entries: &Vec<(i64, SidecarEntry)>,
    )
        requires
            old(self).wf(),
            old(self).model().partitions.dom().contains(topition.model()) ==> 0 <= old(
                self,
            ).model().partitions[topition.model()].next_offset,
            forall|i: int|
                0 <= i < entries@.len() ==> in_range(
                    (#[trigger] entries@[i]).1.offset,
                    remote_entry(entries@[i].0, entries@[i].1),
                    sequenced(entries@[i].1),
                ),
        ensures
            final(self).wf(),
            final(self).model() == with_tier(
                old(self).model(),
                topition.model(),
                remote@,
                entries@,
            ),
    {
        if let Some(inner) = self.partitions.get_mut(topition) {
            join_tier(inner, &mut self.image.coord, topition, remote, entries);
        }
    }

    fn pin_ranges(
        &mut self,
        id: &String,
        producer: i64,
        epoch: i16,
        ranges: &Vec<(String, i32, TxnProduceOffset)>,
    )
        requires
            old(self).wf(),
        ensures
            final(self).wf(),
            final(self).image == old(self).image,
            final(self).partitions.model() == pinned_ranges(
                old(self).partitions.model(),
                (id@, (producer, epoch)),
                ranges.model(),
            ),
    {
        let ghost parts = self.partitions.model();
        let ghost rows = ranges.model();
        let ghost key = (id@, (producer, epoch));
        let mut i: usize = 0;
        assert(rows.take(0) =~= Seq::<(Seq<char>, i32, TxnProduceOffset)>::empty());
        while i < ranges.len()
            invariant
                self.wf(),
                self.image == old(self).image,
                rows == ranges.model(),
                key == (id@, (producer, epoch)),
                i <= rows.len(),
                self.partitions.model() == pinned_ranges(parts, key, rows.take(i as int)),
            decreases rows.len() - i,
        {
            proof {
                assert(rows.take(i + 1).drop_last() =~= rows.take(i as int));
                assert(rows.take(i + 1).last() == ranges@[i as int].model());
            }
            let topition = Topition { topic: ranges[i].0.clone(), partition: ranges[i].1 };
            if let Some(inner) = self.partitions.get_mut(&topition) {
                let ghost was = inner.model();
                inner.open_txns.insert((id.clone(), (producer, epoch)), ranges[i].2.offset_start);
                assert(inner.model() =~= pinned(was, key, ranges@[i as int].2.offset_start));
            }
            i += 1;
        }
        assert(rows.take(i as int) =~= rows);
    }

    /// The rebuilt state, with every open transaction pinning the last stable
    /// offset of the partitions it produced to.
    pub fn finish(self) -> (recovered: Recovered)
        requires
            self.wf(),
        ensures
            recovered.coord.wf(),
            recovered.groups.wf(),
            recovered.group_offsets.wf(),
            recovered.partitions.wf(),
            recovered.coord.model() == self.model().image.coord,
            recovered.groups.model() == self.model().image.groups,
            recovered.group_offsets.model() == self.model().image.group_offsets,
            recovered.partitions.model() == pinned_all(
                self.model().partitions,
                self.model().image.coord,
            ),
            doubts(recovered.in_doubt@) == in_doubt(self.model().image.coord),
    {
        let mut boot = self;
        let txns = boot.image.coord.transactions.dup();
        let ghost parts = boot.partitions.model();
        let ghost rows = txns.seq();
        proof {
            txns.lemma_seq();
        }
        let mut doubtful: Vec<(String, i64, i16, bool)> = Vec::new();
        let mut i: usize = 0;
        assert(rows.take(0) =~= Seq::<(Seq<char>, TxnModel)>::empty());
        assert(doubts(doubtful@) =~= in_doubt_txns(rows.take(0)));
        while i < txns.len()
            invariant
                boot.wf(),
                boot.image == self.image,
                txns.wf(),
                rows == txns.seq(),
                i <= rows.len(),
                boot.partitions.model() == pinned_txns(parts, rows.take(i as int)),
                doubts(doubtful@) == in_doubt_txns(rows.take(i as int)),
            decreases rows.len() - i,
        {
            let (id, txn) = txns.at(i);
            let ghost outer = boot.partitions.model();
            let ghost listed = doubts(doubtful@);
            let ghost epochs = txn.epochs.seq();
            proof {
                assert(rows.take(i + 1).drop_last() =~= rows.take(i as int));
                txn.epochs.lemma_seq();
                assert(epochs.take(0) =~= Seq::<(i16, TxnDetailModel)>::empty());
                assert(listed =~= listed + in_doubt_epochs(id@, txn.producer, epochs.take(0)));
            }
            let mut e: usize = 0;
            while e < txn.epochs.len()
                invariant
                    boot.wf(),
                    boot.image == self.image,
                    txn.wf(),
                    epochs == txn.epochs.seq(),
                    e <= epochs.len(),
                    boot.partitions.model() == pinned_epochs(
                        outer,
                        id@,
                        txn.producer,
                        epochs.take(e as int),
                    ),
                    doubts(doubtful@) == listed + in_doubt_epochs(
                        id@,
                        txn.producer,
                        epochs.take(e as int),
                    ),
                decreases epochs.len() - e,
            {
                let (epoch, detail) = txn.epochs.at(e);
                assert(epochs.take(e + 1).drop_last() =~= epochs.take(e as int));
                let open = match detail.state {
                    Some(state) => !state.is_terminal(),
                    None => false,
                };
                if open {
                    let ranges = list_ranges(&detail.produces);
                    boot.pin_ranges(id, txn.producer, *epoch, &ranges);
                }
                let ghost before = doubts(doubtful@);
                let committed: Option<bool> = match detail.state {
                    Some(TxnState::PrepareCommit) => Some(true),
                    Some(TxnState::PrepareAbort) => Some(false),
                    _ => None,
                };
                if let Some(committed) = committed {
                    doubtful.push((id.clone(), txn.producer, *epoch, committed));
                    assert(doubts(doubtful@) =~= before.push(
                        (id@, txn.producer, *epoch, committed),
                    ));
                }
                e += 1;
                assert(doubts(doubtful@) =~= listed + in_doubt_epochs(
                    id@,
                    txn.producer,
                    epochs.take(e as int),
                ));
            }
            assert(epochs.take(e as int) =~= epochs);
            i += 1;
        }
        assert(rows.take(i as int) =~= rows);
        Recovered {
            coord: boot.image.coord,
            groups: boot.image.groups,
            group_offsets: boot.image.group_offsets,
            partitions: boot.partitions,
            in_doubt: doubtful,
        }
    }
}

} // verus!
