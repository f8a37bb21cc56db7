//! Object-store tiering: sealed segments, as they are, with a small sidecar
//! that indexes each, and a mirror of snapshots and WAL files. With sidecars a
//! cold boot rebuilds every index without a byte of record data.
//!
//! ```text
//! {prefix}/topics/{topic}-{partition:010}/segments/{base:020}.seg
//! {prefix}/topics/{topic}-{partition:010}/segments/{base:020}.idx
//! {prefix}/snapshots/{wal_seq:020}.snap
//! {prefix}/wal/{wal_seq:020}.wal
//! ```

use crate::address::{url_of, Address};
use crate::error::{refused, Error, Fault, Result};
use crate::fetch::{source_of, Source};
use crate::frame::{decode, encode, frame_at_start, framed, Decoded, FrameType};
use crate::layout::dir_name;
use crate::log::{base_of_name, bases_of, batch_bytes, segment_name, sorted_bases, BatchRead};
use crate::model::Model;
use crate::ordmap::{lemma_ascending_at, lemma_ascending_position, ordered};
use crate::partition::{
    cache_weight, cached_total, end_offset, sound, EntryModel, PartModel, PartitionInner,
};
use crate::rebuild::SidecarEntry;
use crate::recovery::{debug_str, debug_text};
use crate::retention::active_segment;
use crate::snapshot::snapshot_name;
use crate::sorting::in_order;
use crate::text::{
    chars_of, concat, decimal, decimal_text, integer, integer_text, lemma_padded_reads_back,
    lemma_stem, padded, padded_count, padded_text, same,
};
use crate::time::Duration;
use crate::totals::{lemma_total_covers, lemma_total_put, listable};
use crate::types::Topition;
use crate::wal::{parse_name, seq_of_name, wal_name};
use vstd::prelude::*;

verus! {

/// Where the object store is: a bucket, and the prefix of every object's path.
#[derive(Debug, PartialEq, Eq)]
pub struct TierStore {
    pub bucket: String,
    pub prefix: String,
}

/// How many slashes a text begins with.
pub open spec fn leading_slashes(s: Seq<char>) -> nat
    decreases s.len(),
{
    if s.len() > 0 && s[0] == '/' {
        1 + leading_slashes(s.drop_first())
    } else {
        0
    }
}

/// A text without the slashes that it ends with.
pub open spec fn untailed(s: Seq<char>) -> Seq<char>
    decreases s.len(),
{
    if s.len() > 0 && s.last() == '/' {
        untailed(s.drop_last())
    } else {
        s
    }
}

/// A text without the slashes that it begins or ends with.
pub open spec fn trimmed(s: Seq<char>) -> Seq<char> {
    untailed(s.skip(leading_slashes(s) as int))
}

proof fn lemma_leading_slashes(s: Seq<char>)
    ensures
        leading_slashes(s) <= s.len(),
    decreases s.len(),
{
    if s.len() > 0 && s[0] == '/' {
        lemma_leading_slashes(s.drop_first());
    }
}

fn trim_slashes(s: &str) -> (trim: String)
    ensures
        trim@ == trimmed(s@),
{
    let chars = chars_of(s);
    let n = chars.len();
    let mut from: usize = 0;
    proof {
        assert(s@.skip(0) =~= s@);
        lemma_leading_slashes(s@);
    }
    while from < n && chars[from] == '/'
        invariant
            chars@ == s@,
            n == chars@.len(),
            from <= n,
            leading_slashes(s@) == from + leading_slashes(s@.skip(from as int)),
        decreases n - from,
    {
        assert(s@.skip(from as int).drop_first() =~= s@.skip(from + 1));
        assert(s@.skip(from as int)[0] == '/');
        from += 1;
    }
    let ghost body = s@.skip(from as int);
    proof {
        if from < n {
            assert(body[0] == s@[from as int]);
        }
        assert(leading_slashes(s@) == from);
    }
    let mut to: usize = n;
    assert(s@.subrange(from as int, to as int) =~= body);
    while to > from && chars[to - 1] == '/'
        invariant
            chars@ == s@,
            n == chars@.len(),
            from <= to <= n,
            untailed(body) == untailed(s@.subrange(from as int, to as int)),
        decreases to,
    {
        assert(s@.subrange(from as int, to as int).drop_last() =~= s@.subrange(
            from as int,
            to - 1,
        ));
        assert(s@.subrange(from as int, to as int).last() == '/');
        to -= 1;
    }
    proof {
        if to > from {
            assert(s@.subrange(from as int, to as int).last() == s@[to - 1]);
        }
    }
    s.substring_char(from, to).to_owned()
}

/// The prefix of a cluster's objects, under a base path or under none.
pub open spec fn prefix_of(path: Seq<char>, cluster: Seq<char>) -> Seq<char> {
    let base = trimmed(path);
    let own = "clusters/"@ + cluster + "/nvme"@;
    if base.len() == 0 {
        own
    } else {
        base + "/"@ + own
    }
}

impl TierStore {
    /// Where `s3://bucket[/prefix]` puts a cluster's objects. Another scheme is
    /// refused.
    pub fn open(tier: &str, cluster: &str) -> (result: Result<TierStore>)
        ensures
            match url_of(tier@) {
                Err(reason) => refused(result, Fault::Message("nvme tier: "@ + reason)),
                Ok((scheme, host, _, path, _)) => if scheme == "s3"@ {
                    result matches Ok(store) && store.prefix@ == prefix_of(path, cluster@)
                        && store.bucket@ == (match host {
                        Some(host) => host,
                        None => "tansu"@,
                    })
                } else {
                    refused(
                        result,
                        Fault::Message("nvme tier scheme unsupported: "@ + scheme),
                    )
                },
            },
    {
        match Address::parse(tier) {
            Err(reason) => Err(Error::Message(concat("nvme tier: ", reason.as_str()))),
            Ok(address) => {
                if !same(address.scheme.as_str(), "s3") {
                    return Err(
                        Error::Message(
                            concat("nvme tier scheme unsupported: ", address.scheme.as_str()),
                        ),
                    );
                }
                let bucket = match &address.host {
                    Some(host) => host.clone(),
                    None => "tansu".to_owned(),
                };
                let base = trim_slashes(address.path.as_str());
                let own = concat(concat("clusters/", cluster).as_str(), "/nvme");
                let prefix = if base.as_str().unicode_len() == 0 {
                    own
                } else {
                    concat(concat(base.as_str(), "/").as_str(), own.as_str())
                };
                Ok(TierStore { bucket, prefix })
            },
        }
    }

    /// Where a partition's segments are.
    pub fn segment_dir(&self, topition: &Topition) -> (path: String)
        ensures
            path@ == object_dir(self.prefix@, topition.model()),
    {
        let start = concat(self.prefix.as_str(), "/topics/");
        let middle = concat(start.as_str(), topition.dir_name().as_str());
        concat(middle.as_str(), "/segments")
    }

    /// Where a segment is.
    pub fn segment_path(&self, topition: &Topition, base: i64) -> (path: String)
        ensures
            path@ == object_dir(self.prefix@, topition.model()) + "/"@ + segment_name(base),
    {
        let dir = concat(self.segment_dir(topition).as_str(), "/");
        let name = concat(padded_text(base, 20).as_str(), ".seg");
        concat(dir.as_str(), name.as_str())
    }

    /// Where a segment's sidecar is.
    pub fn sidecar_path(&self, topition: &Topition, base: i64) -> (path: String)
        ensures
            path@ == object_dir(self.prefix@, topition.model()) + "/"@ + sidecar_name(base),
    {
        let dir = concat(self.segment_dir(topition).as_str(), "/");
        let name = concat(padded_text(base, 20).as_str(), ".idx");
        concat(dir.as_str(), name.as_str())
    }

    /// Where the snapshots are.
    pub fn snapshot_dir(&self) -> (path: String)
        ensures
            path@ == self.prefix@ + "/snapshots"@,
    {
        concat(self.prefix.as_str(), "/snapshots")
    }

    /// Where a snapshot is.
    pub fn snapshot_path(&self, wal_seq: u64) -> (path: String)
        ensures
            path@ == self.prefix@ + "/snapshots"@ + "/"@ + snapshot_name(wal_seq),
    {
        let dir = concat(self.snapshot_dir().as_str(), "/");
        let name = concat(padded_count(wal_seq, 20).as_str(), ".snap");
        concat(dir.as_str(), name.as_str())
    }

    /// Where the mirrored WAL files are.
    pub fn wal_dir(&self) -> (path: String)
        ensures
            path@ == self.prefix@ + "/wal"@,
    {
        concat(self.prefix.as_str(), "/wal")
    }

    /// Where a mirrored WAL file is.
    pub fn wal_path(&self, wal_seq: u64) -> (path: String)
        ensures
            path@ == self.prefix@ + "/wal"@ + "/"@ + wal_name(wal_seq),
    {
        let dir = concat(self.wal_dir().as_str(), "/");
        let name = concat(padded_count(wal_seq, 20).as_str(), ".wal");
        concat(dir.as_str(), name.as_str())
    }
}

/// Where a partition's segments are in the object store.
pub open spec fn object_dir(prefix: Seq<char>, topition: (Seq<char>, i32)) -> Seq<char> {
    prefix + "/topics/"@ + dir_name(topition) + "/segments"@
}

/// The name of a segment's sidecar.
pub open spec fn sidecar_name(base: i64) -> Seq<char> {
    padded(base as int, 20) + ".idx"@
}

/// A sidecar's name says its segment's base offset.
pub proof fn law_sidecar_name_reads_back(base: i64)
    ensures
        base_of_name(sidecar_name(base), ".idx"@) == Some(base),
{
    lemma_stem(padded(base as int, 20), ".idx"@);
    lemma_padded_reads_back(base as int, 20);
}

/// The segments among object names whose upload is complete, ascending: a
/// sidecar is uploaded behind its segment, and marks the pair complete.
pub fn complete_segments(names: &Vec<String>) -> (bases: Vec<i64>)
    ensures
        in_order::<i64>(bases@),
        bases@.to_multiset() == bases_of(names@, ".idx"@).to_multiset(),
{
    sorted_bases(names, ".idx")
}

/// A partition as an error message shows it.
pub open spec fn topition_text(topition: (Seq<char>, i32)) -> Seq<char> {
    "Topition { topic: "@ + debug_text(topition.0) + ", partition: "@ + integer(
        topition.1 as int,
    ) + " }"@
}

fn show_topition(topition: &Topition) -> (text: String)
    ensures
        text@ == topition_text(topition.model()),
{
    let start = concat("Topition { topic: ", debug_str(topition.topic.as_str()).as_str());
    let middle = concat(start.as_str(), ", partition: ");
    let number = concat(middle.as_str(), integer_text(topition.partition as i64).as_str());
    concat(number.as_str(), " }")
}

/// The bytes of a sidecar that holds a document.
pub fn frame_sidecar(payload: &[u8]) -> (bytes: Vec<u8>)
    ensures
        bytes@ == framed(FrameType::Manifest, payload@),
{
    encode(FrameType::Manifest, payload)
}

/// The document in a sidecar's bytes.
pub fn sidecar_payload(bytes: &[u8], topition: &Topition, base: i64) -> (result: Result<Vec<u8>>)
    ensures
        match frame_at_start(bytes@) {
            Some((FrameType::Manifest, payload)) => result matches Ok(found) && found@ == payload,
            _ => refused(
                result,
                Fault::Message(
                    "nvme tier sidecar corrupt: "@ + topition_text(topition.model()) + " "@
                        + integer(base as int),
                ),
            ),
        },
{
    if let Decoded::Frame(frame) = decode(bytes) {
        if frame.frame_type == FrameType::Manifest {
            return Ok(frame.payload);
        }
    }
    let start = concat("nvme tier sidecar corrupt: ", show_topition(topition).as_str());
    let middle = concat(start.as_str(), " ");
    Err(Error::Message(concat(middle.as_str(), integer_text(base).as_str())))
}

/// The bytes of a segment that hold a batch's frame.
pub fn batch_range(position: u64, len: u32) -> (range: (u64, u64))
    requires
        position + len <= u64::MAX,
    ensures
        range == (position, (position + len) as u64),
{
    (position, position + len as u64)
}

/// The batch in a frame read from a segment of the object store.
pub fn read_batch(bytes: &[u8], topition: &Topition, base: i64, position: u64) -> (result: Result<
    Vec<u8>,
>)
    ensures
        match frame_at_start(bytes@) {
            Some((FrameType::Batch, payload)) => if payload.len() < 8 {
                refused(result, Fault::Message("nvme tier: short batch payload"@))
            } else {
                result matches Ok(batch) && batch@ == payload.skip(8)
            },
            _ => refused(
                result,
                Fault::Message(
                    "nvme tier: bad frame "@ + topition_text(topition.model()) + " "@ + integer(
                        base as int,
                    ) + "@"@ + decimal(position as nat),
                ),
            ),
        },
{
    match batch_bytes(bytes) {
        BatchRead::Batch(batch) => Ok(batch),
        BatchRead::ShortPayload => Err(
            Error::Message("nvme tier: short batch payload".to_owned()),
        ),
        BatchRead::BadFrame => {
            let start = concat("nvme tier: bad frame ", show_topition(topition).as_str());
            let middle = concat(concat(start.as_str(), " ").as_str(), integer_text(base).as_str());
            let end = concat(middle.as_str(), "@");
            Err(Error::Message(concat(end.as_str(), decimal_text(position).as_str())))
        },
    }
}

/// The greatest sequence among file names with a suffix.
pub open spec fn newest_of(names: Seq<String>, suffix: Seq<char>) -> Option<u64>
    decreases names.len(),
{
    if names.len() == 0 {
        None
    } else {
        let before = newest_of(names.drop_last(), suffix);
        match (before, seq_of_name(names.last()@, suffix)) {
            (Some(newest), Some(seq)) => Some(
                if seq > newest {
                    seq
                } else {
                    newest
                },
            ),
            (None, Some(seq)) => Some(seq),
            (before, None) => before,
        }
    }
}

/// The newest mirrored snapshot among object names.
pub fn latest_snapshot(names: &Vec<String>) -> (newest: Option<u64>)
    ensures
        newest == newest_of(names@, ".snap"@),
{
    let mut newest: Option<u64> = None;
    let mut i: usize = 0;
    assert(names@.take(0) =~= Seq::<String>::empty());
    while i < names.len()
        invariant
            i <= names@.len(),
            newest == newest_of(names@.take(i as int), ".snap"@),
        decreases names@.len() - i,
    {
        assert(names@.take(i + 1).drop_last() =~= names@.take(i as int));
        if let Some(seq) = parse_name(names[i].as_str(), ".snap") {
            newest = match newest {
                Some(newest) => Some(
                    if seq > newest {
                        seq
                    } else {
                        newest
                    },
                ),
                None => Some(seq),
            };
        }
        i += 1;
    }
    assert(names@.take(i as int) =~= names@);
    newest
}

/// How many of a list of segments are wholly below a log start: one goes when
/// the next one starts at or below it.
pub open spec fn wholly_below(bases: Seq<i64>, log_start: i64) -> nat
    decreases bases.len(),
{
    if bases.len() > 1 && bases[1] <= log_start {
        1 + wholly_below(bases.drop_first(), log_start)
    } else {
        0
    }
}

/// The segments that the object store need not hold any more: those wholly
/// below the log start. A segment that straddles it stays.
pub fn segments_below(bases: &Vec<i64>, log_start: i64) -> (gone: Vec<i64>)
    ensures
        gone@ == bases@.take(wholly_below(bases@, log_start) as int),
{
    let mut gone: Vec<i64> = Vec::new();
    let mut i: usize = 0;
    proof {
        lemma_wholly_below(bases@, log_start);
        assert(bases@.skip(0) =~= bases@);
    }
    while bases.len() - i > 1 && bases[i + 1] <= log_start
        invariant
            i <= bases@.len(),
            gone@ == bases@.take(i as int),
            wholly_below(bases@, log_start) == i + wholly_below(bases@.skip(i as int), log_start),
        decreases bases@.len() - i,
    {
        assert(bases@.skip(i as int)[1] == bases@[i + 1]);
        assert(bases@.skip(i as int).drop_first() =~= bases@.skip(i + 1));
        gone.push(bases[i]);
        i += 1;
    }
    proof {
        if i + 1 < bases@.len() {
            assert(bases@.skip(i as int)[1] == bases@[i + 1]);
        }
    }
    gone
}

proof fn lemma_wholly_below(bases: Seq<i64>, log_start: i64)
    ensures
        wholly_below(bases, log_start) <= bases.len(),
    decreases bases.len(),
{
    if bases.len() > 1 && bases[1] <= log_start {
        lemma_wholly_below(bases.drop_first(), log_start);
    }
}

/// A segment that reaches the log start is never deleted: behind each that is,
/// another starts at or below the log start.
pub proof fn law_straddling_segment_stays(bases: Seq<i64>, log_start: i64, i: int)
    requires
        0 <= i < wholly_below(bases, log_start),
    ensures
        i + 1 < bases.len(),
        bases[i + 1] <= log_start,
    decreases bases.len(),
{
    if i > 0 {
        law_straddling_segment_stays(bases.drop_first(), log_start, i - 1);
        assert(bases.drop_first()[i] == bases[i + 1]);
    }
}

/// What a sidecar says of a batch.
pub open spec fn sidecar_of(offset: i64, entry: EntryModel) -> SidecarEntry {
    SidecarEntry {
        offset,
        position: entry.position,
        len: entry.len,
        last_offset_delta: entry.last_offset_delta,
        max_timestamp: entry.max_timestamp,
        is_control: entry.is_control,
        is_transactional: entry.is_transactional,
        producer_id: entry.producer_id,
        producer_epoch: entry.producer_epoch,
        base_sequence: entry.base_sequence,
    }
}

/// What the sidecar of a segment says: its batches that are still local, in
/// offset order.
pub open spec fn sidecar_entries(batches: Seq<(i64, EntryModel)>, base: i64) -> Seq<SidecarEntry>
    decreases batches.len(),
{
    if batches.len() == 0 {
        Seq::empty()
    } else {
        let before = sidecar_entries(batches.drop_last(), base);
        let (offset, entry) = batches.last();
        if entry.segment_base == base && !entry.tiered {
            before.push(sidecar_of(offset, entry))
        } else {
            before
        }
    }
}

/// Whether a local segment is to be uploaded: it is sealed, and was not.
pub open spec fn to_upload(p: PartModel, base: i64) -> bool {
    active_segment(p) != Some(base) && !p.uploaded.dom().contains(base)
}

/// The segments of a directory that are to be uploaded, each with what its
/// sidecar says.
pub open spec fn uploads(p: PartModel, bases: Seq<i64>) -> Seq<(i64, Seq<SidecarEntry>)>
    decreases bases.len(),
{
    if bases.len() == 0 {
        Seq::empty()
    } else {
        let before = uploads(p, bases.drop_last());
        let base = bases.last();
        if to_upload(p, base) {
            before.push(
                (base, sidecar_entries(ordered::<i64, EntryModel>(p.batches), base)),
            )
        } else {
            before
        }
    }
}

/// What a list of uploads says.
pub open spec fn uploads_view(jobs: Seq<(i64, Vec<SidecarEntry>)>) -> Seq<
    (i64, Seq<SidecarEntry>),
> {
    Seq::new(jobs.len(), |i: int| (jobs[i].0, jobs[i].1@))
}

/// An entry that only the object store holds.
pub open spec fn remote(entry: EntryModel) -> EntryModel {
    EntryModel { tiered: true, cached: None, ..entry }
}

/// The index once a segment is gone from the local disk.
pub open spec fn without_local(batches: Map<i64, EntryModel>, base: i64) -> Map<i64, EntryModel> {
    Map::new(
        |o: i64| batches.dom().contains(o),
        |o: i64|
            if batches[o].segment_base == base {
                remote(batches[o])
            } else {
                batches[o]
            },
    )
}

/// The partition once a segment is gone from the local disk.
pub open spec fn evicted_to_tier(p: PartModel, base: i64) -> PartModel {
    let batches = without_local(p.batches, base);
    PartModel {
        batches,
        cached_bytes: p.cached_bytes - (cached_total(p.batches) - cached_total(batches)),
        ..p
    }
}

/// The first uploaded segment that can go: not the active one, and one of
/// those on the local disk.
pub open spec fn first_evictable(
    uploaded: Seq<(i64, ())>,
    active: Option<i64>,
    local: Seq<i64>,
) -> Option<i64>
    decreases uploaded.len(),
{
    if uploaded.len() == 0 {
        None
    } else {
        let base = uploaded[0].0;
        if active != Some(base) && local.contains(base) {
            Some(base)
        } else {
            first_evictable(uploaded.drop_first(), active, local)
        }
    }
}

impl PartitionInner {
    fn sidecar(&self, base: i64) -> (entries: Vec<SidecarEntry>)
        requires
            self.wf(),
        ensures
            entries@ == sidecar_entries(
                ordered::<i64, EntryModel>(self.model().batches),
                base,
            ),
    {
        let mut entries: Vec<SidecarEntry> = Vec::new();
        let ghost rows = self.batches.seq();
        proof {
            self.batches.lemma_seq();
            assert(rows.take(0) =~= Seq::<(i64, EntryModel)>::empty());
        }
        let mut i: usize = 0;
        while i < self.batches.len()
            invariant
                self.wf(),
                rows == self.batches.seq(),
                i <= rows.len(),
                entries@ == sidecar_entries(rows.take(i as int), base),
            decreases rows.len() - i,
        {
            let (offset, entry) = self.batches.at(i);
            assert(rows.take(i + 1).drop_last() =~= rows.take(i as int));
            if entry.segment_base == base && !entry.tiered {
                entries.push(
                    SidecarEntry {
                        offset: *offset,
                        position: entry.position,
                        len: entry.len,
                        last_offset_delta: entry.last_offset_delta,
                        max_timestamp: entry.max_timestamp,
                        is_control: entry.is_control,
                        is_transactional: entry.is_transactional,
                        producer_id: entry.producer_id,
                        producer_epoch: entry.producer_epoch,
                        base_sequence: entry.base_sequence,
                    },
                );
            }
            i += 1;
        }
        assert(rows.take(i as int) =~= rows);
        entries
    }

    /// The segments of a directory that are to be uploaded: sealed, and not
    /// uploaded yet.
    pub fn uploads(&self, bases: &Vec<i64>) -> (jobs: Vec<(i64, Vec<SidecarEntry>)>)
        requires
            self.wf(),
        ensures
            uploads_view(jobs@) == uploads(self.model(), bases@),
    {
        let mut jobs: Vec<(i64, Vec<SidecarEntry>)> = Vec::new();
        let mut i: usize = 0;
        assert(uploads_view(jobs@) =~= uploads(self.model(), bases@.take(0)));
        while i < bases.len()
            invariant
                self.wf(),
                i <= bases@.len(),
                uploads_view(jobs@) == uploads(self.model(), bases@.take(i as int)),
            decreases bases@.len() - i,
        {
            let base = bases[i];
            assert(bases@.take(i + 1).drop_last() =~= bases@.take(i as int));
            let is_active = match self.writer {
                Some(writer) => writer.base_offset == base,
                None => false,
            };
            let ghost before = uploads_view(jobs@);
            if !is_active && !self.uploaded.contains(&base) {
                let entries = self.sidecar(base);
                jobs.push((base, entries));
                assert(uploads_view(jobs@) =~= before.push((base, entries@)));
            }
            i += 1;
        }
        assert(bases@.take(i as int) =~= bases@);
        jobs
    }

    /// Notes that a segment and its sidecar are uploaded.
    pub fn mark_uploaded(&mut self, base: i64)
        requires
            old(self).wf(),
        ensures
            final(self).wf(),
            final(self).model() == (PartModel {
                uploaded: old(self).model().uploaded.insert(base, ()),
                ..old(self).model()
            }),
    {
        self.uploaded.insert(base, ());
    }

    /// The oldest uploaded segment that can go from the local disk.
    pub fn evictable(&self, local: &Vec<i64>) -> (base: Option<i64>)
        requires
            self.wf(),
        ensures
            base == first_evictable(
                ordered::<i64, ()>(self.model().uploaded),
                active_segment(self.model()),
                local@,
            ),
    {
        let ghost rows = self.uploaded.seq();
        let ghost active = active_segment(self.model());
        proof {
            self.uploaded.lemma_seq();
            assert(rows.skip(0) =~= rows);
        }
        let mut i: usize = 0;
        while i < self.uploaded.len()
            invariant
                self.wf(),
                rows == self.uploaded.seq(),
                active == active_segment(self.model()),
                i <= rows.len(),
                first_evictable(rows, active, local@) == first_evictable(
                    rows.skip(i as int),
                    active,
                    local@,
                ),
                rows == ordered::<i64, ()>(self.model().uploaded),
            decreases rows.len() - i,
        {
            let (base, _) = self.uploaded.at(i);
            let ghost rest = rows.skip(i as int);
            assert(rest[0] == rows[i as int]);
            assert(rest.drop_first() =~= rows.skip(i + 1));
            let is_active = match self.writer {
                Some(writer) => writer.base_offset == *base,
                None => false,
            };
            if !is_active {
                let mut j: usize = 0;
                while j < local.len()
                    invariant
                        self.wf(),
                        rows == self.uploaded.seq(),
                        rows == ordered::<i64, ()>(self.model().uploaded),
                        active == active_segment(self.model()),
                        active != Some(*base),
                        i < rows.len(),
                        rest == rows.skip(i as int),
                        rest[0].0 == *base,
                        first_evictable(rows, active, local@) == first_evictable(
                            rest,
                            active,
                            local@,
                        ),
                        j <= local@.len(),
                        forall|k: int| 0 <= k < j ==> #[trigger] local@[k] != *base,
                    decreases local@.len() - j,
                {
                    if local[j] == *base {
                        assert(local@.contains(local@[j as int]));
                        return Some(*base);
                    }
                    j += 1;
                }
            }
            i += 1;
        }
        None
    }

    /// Turns a segment's batches into ones that only the object store holds.
    pub fn evict(&mut self, base: i64)
        requires
            old(self).wf(),
        ensures
            final(self).wf(),
            final(self).model() == evicted_to_tier(old(self).model(), base),
    {
        let ghost p = self.model();
        let ghost rows = self.batches.seq();
        proof {
            self.batches.lemma_seq();
        }
        let cached: u64 = self.cached_bytes;
        let mut freed: u64 = 0;
        let mut i: usize = 0;
        while i < self.batches.len()
            invariant
                self.batches.wf(),
                self.open_txns.wf(),
                self.uploaded.wf(),
                sound(p),
                listable::<i64, EntryModel>(self.batches.model()),
                rows == ordered::<i64, EntryModel>(p.batches),
                i <= rows.len() == self.batches.seq().len(),
                cached == self.cached_bytes == p.cached_bytes,
                cached_total(self.batches.model()) + freed == cached_total(p.batches),
                forall|j: int|
                    0 <= j < rows.len() ==> (#[trigger] self.batches.seq()[j]) == (
                        rows[j].0,
                        if j < i && rows[j].1.segment_base == base {
                            remote(rows[j].1)
                        } else {
                            rows[j].1
                        },
                    ),
                (PartModel { batches: p.batches, ..self.model() }) == p,
            decreases rows.len() - i,
        {
            let ghost before = self.batches.model();
            let ghost listed = self.batches.seq();
            let ghost (key, was) = rows[i as int];
            proof {
                self.batches.lemma_seq();
                lemma_ascending_at::<i64, EntryModel>(listed, i as int);
                assert(listed[i as int] == rows[i as int]);
                lemma_total_put::<i64, EntryModel>(before, key, remote(was), cache_weight());
                lemma_total_put::<i64, EntryModel>(before, key, was, cache_weight());
                lemma_total_covers::<i64, EntryModel>(before, key, cache_weight());
            }
            let entry = self.batches.value_mut(i);
            if entry.segment_base == base {
                entry.tiered = true;
                if let Some(bytes) = entry.cached.take() {
                    freed = freed + bytes.len() as u64;
                }
                assert(entry.model() == remote(was));
            } else {
                assert(entry.model() == was);
            }
            i += 1;
        }
        proof {
            self.batches.lemma_seq();
            let after = self.batches.model();
            let listed = self.batches.seq();
            let wanted = without_local(p.batches, base);
            assert forall|o: i64| after.dom().contains(o) <==> wanted.dom().contains(o) by {
                if after.dom().contains(o) {
                    let j = lemma_ascending_position::<i64, EntryModel>(listed, o);
                    assert(listed[j].0 == rows[j].0);
                    lemma_ascending_at::<i64, EntryModel>(rows, j);
                }
                if wanted.dom().contains(o) {
                    let j = lemma_ascending_position::<i64, EntryModel>(rows, o);
                    assert(listed[j].0 == rows[j].0);
                    lemma_ascending_at::<i64, EntryModel>(listed, j);
                }
            }
            assert forall|o: i64| after.dom().contains(o) implies #[trigger] after[o] == wanted[o] by {
                let j = lemma_ascending_position::<i64, EntryModel>(listed, o);
                assert(listed[j].0 == rows[j].0);
                lemma_ascending_at::<i64, EntryModel>(listed, j);
                lemma_ascending_at::<i64, EntryModel>(rows, j);
            }
            assert(after =~= wanted);
        }
        self.cached_bytes = cached - freed;
        proof {
            assert(self.model() =~= evicted_to_tier(p, base));
            assert forall|o: i64| #[trigger]
                self.model().batches.dom().contains(o) && self.model().batches[o].cached is Some implies self.model().cache_queue.contains(
                o,
            ) by {
                assert(p.batches.dom().contains(o));
            }
            assert forall|o: i64| #[trigger] self.model().batches.dom().contains(o) implies i64::MIN
                <= end_offset(o, self.model().batches[o]) <= i64::MAX by {
                assert(p.batches.dom().contains(o));
            }
        }
    }

    /// Seals an active segment that holds something and is past an age, so
    /// that a quiet partition is uploaded too; gives the segment it sealed.
    pub fn seal_aged(&mut self, age: Duration, segment_age: Duration) -> (sealed: Option<i64>)
        requires
            old(self).wf(),
        ensures
            final(self).wf(),
            match old(self).writer {
                Some(writer) if writer.position > 0 && age.nanos > segment_age.nanos => {
                    &&& sealed == Some(writer.base_offset)
                    &&& final(self).model() == (PartModel { writer: None, ..old(self).model() })
                },
                _ => sealed is None && final(self).model() == old(self).model(),
            },
    {
        if let Some(writer) = self.writer {
            if writer.position > 0 && age.nanos > segment_age.nanos {
                self.writer = None;
                return Some(writer.base_offset);
            }
        }
        None
    }
}

/// Whether local usage is high enough for uploaded segments to go: over eight
/// tenths of the disk budget, where there is one.
pub fn over_high_water(disk_usage: u64, disk_budget: u64) -> (b: bool)
    requires
        disk_budget * 8 <= u64::MAX,
    ensures
        b == (disk_budget > 0 && disk_usage > disk_budget * 8 / 10),
{
    disk_budget > 0 && disk_usage > disk_budget * 8 / 10
}

/// Whether local usage is low enough for the rest to stay: at most six tenths
/// of the disk budget.
pub fn under_low_water(disk_usage: u64, disk_budget: u64) -> (b: bool)
    requires
        disk_budget * 6 <= u64::MAX,
    ensures
        b == (disk_usage <= disk_budget * 6 / 10),
{
    disk_usage <= disk_budget * 6 / 10
}

/// Whether segments go on being evicted, where `usages` is the local usage at
/// the start and then after each eviction.
pub open spec fn evicting(disk_budget: u64, usages: Seq<u64>) -> bool
    decreases usages.len(),
{
    if usages.len() <= 1 {
        disk_budget > 0 && usages.len() == 1 && usages[0] > disk_budget * 8 / 10
    } else {
        evicting(disk_budget, usages.drop_last()) && usages.last() > disk_budget * 6 / 10
    }
}

/// Eviction starts above eight tenths of the disk budget, where there is one,
/// and goes on until usage is at most six tenths.
pub proof fn law_eviction_runs_between_the_marks(disk_budget: u64, usages: Seq<u64>)
    requires
        usages.len() > 0,
    ensures
        evicting(disk_budget, usages) <==> disk_budget > 0 && usages[0] > disk_budget * 8 / 10
            && forall|i: int|
            0 < i < usages.len() ==> #[trigger] usages[i] > disk_budget * 6 / 10,
    decreases usages.len(),
{
    if usages.len() > 1 {
        let init = usages.drop_last();
        law_eviction_runs_between_the_marks(disk_budget, init);
        if evicting(disk_budget, usages) {
            assert forall|i: int| 0 < i < usages.len() implies #[trigger] usages[i] > disk_budget
                * 6 / 10 by {
                if i < init.len() {
                    assert(init[i] == usages[i]);
                }
            }
        }
        if forall|i: int| 0 < i < usages.len() ==> #[trigger] usages[i] > disk_budget * 6 / 10 {
            assert forall|i: int| 0 < i < init.len() implies #[trigger] init[i] > disk_budget * 6
                / 10 by {
                assert(init[i] == usages[i]);
            }
            assert(usages[usages.len() - 1] > disk_budget * 6 / 10);
        }
    }
}

/// What an eviction does next.
#[derive(Debug, PartialEq, Eq)]
pub enum EvictStep {
    /// The segment at this base offset goes.
    Evict(i64),
    /// The partition has no more segments to give.
    NextPartition,
    /// The rest stays.
    Stop,
}

/// An eviction of uploaded segments, over all partitions.
pub struct Eviction {
    disk_budget: u64,
    running: bool,
    usages: Ghost<Seq<u64>>,
}

impl Eviction {
    #[verifier::type_invariant]
    spec fn inv(self) -> bool {
        &&& self.disk_budget * 8 <= u64::MAX
        &&& self.usages@.len() > 0
        &&& self.running == evicting(self.disk_budget, self.usages@)
    }

    pub closed spec fn budget(&self) -> u64 {
        self.disk_budget
    }

    /// Local usage at the start and after each eviction.
    pub closed spec fn usages(&self) -> Seq<u64> {
        self.usages@
    }

    pub fn start(disk_usage: u64, disk_budget: u64) -> (eviction: Eviction)
        requires
            disk_budget * 8 <= u64::MAX,
        ensures
            eviction.budget() == disk_budget,
            eviction.usages() == seq![disk_usage],
    {
        let running = over_high_water(disk_usage, disk_budget);
        let ghost usages = seq![disk_usage];
        Eviction { disk_budget, running, usages: Ghost(usages) }
    }

    /// Decides on the segment that a partition would give, if any.
    pub fn step(&self, candidate: Option<i64>) -> (step: EvictStep)
        ensures
            step == if evicting(self.budget(), self.usages()) {
                match candidate {
                    Some(base_offset) => EvictStep::Evict(base_offset),
                    None => EvictStep::NextPartition,
                }
            } else {
                EvictStep::Stop
            },
    {
        proof {
            use_type_invariant(self);
        }
        if !self.running {
            return EvictStep::Stop;
        }
        match candidate {
            Some(base_offset) => EvictStep::Evict(base_offset),
            None => EvictStep::NextPartition,
        }
    }

    /// Takes note of local usage after a segment has gone.
    pub fn evicted(&mut self, disk_usage: u64)
        ensures
            final(self).budget() == old(self).budget(),
            final(self).usages() == old(self).usages().push(disk_usage),
    {
        proof {
            use_type_invariant(&*self);
        }
        let ghost before = self.usages@;
        let running = self.running && !under_low_water(disk_usage, self.disk_budget);
        assert(before.push(disk_usage).drop_last() =~= before);
        *self = Eviction {
            disk_budget: self.disk_budget,
            running,
            usages: Ghost(before.push(disk_usage)),
        };
    }
}

/// What is used once a segment is gone.
pub fn usage_after(disk_usage: u64, reclaimed: u64) -> (left: u64)
    ensures
        left == (if disk_usage >= reclaimed {
            (disk_usage - reclaimed) as u64
        } else {
            0
        }),
{
    if disk_usage >= reclaimed {
        disk_usage - reclaimed
    } else {
        0
    }
}

/// The active segment is never uploaded, nor one that was uploaded before.
pub proof fn law_uploads_sealed_only(p: PartModel, bases: Seq<i64>, i: int)
    requires
        0 <= i < uploads(p, bases).len(),
    ensures
        active_segment(p) != Some(uploads(p, bases)[i].0),
        !p.uploaded.dom().contains(uploads(p, bases)[i].0),
        bases.contains(uploads(p, bases)[i].0),
    decreases bases.len(),
{
    let init = bases.drop_last();
    let before = uploads(p, init);
    if i < before.len() {
        law_uploads_sealed_only(p, init, i);
        let j = choose|j: int| 0 <= j < init.len() && init[j] == before[i].0;
        assert(bases[j] == before[i].0);
    } else {
        assert(bases[bases.len() - 1] == bases.last());
    }
}

/// Evicting a segment loses no batch: each is still indexed where it was, and
/// those of the segment are read from the object store from now on.
pub proof fn law_evicted_still_readable(p: PartModel, base: i64, offset: i64)
    requires
        p.batches.dom().contains(offset),
    ensures
        ({
            let after = evicted_to_tier(p, base);
            &&& after.batches.dom().contains(offset)
            &&& if p.batches[offset].segment_base == base {
                source_of((offset, after.batches[offset])) == (Source::Remote {
                    base: offset,
                    segment_base: base,
                    position: p.batches[offset].position,
                    len: p.batches[offset].len,
                })
            } else {
                after.batches[offset] == p.batches[offset]
            }
            &&& after.durable_offset == p.durable_offset
            &&& after.log_start == p.log_start
        }),
{
}

/// A sidecar gives back the batches of its segment as a cold boot needs them:
/// the same locations, headers and producers, held by the object store only.
pub proof fn law_sidecar_round_trip(base: i64, offset: i64, entry: EntryModel)
    requires
        entry.segment_base == base,
    ensures
        crate::rebuild::remote_entry(base, sidecar_of(offset, entry)) == remote(entry),
        sidecar_of(offset, entry).offset == offset,
{
}

} // verus!
