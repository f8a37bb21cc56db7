//! Deletion retention: whole sealed segments go once their newest record is
//! older than `retention.ms`, or oldest first while the partition exceeds
//! `retention.bytes`; the log then starts where the next segment does. The
//! active segment never goes.

use crate::model::Model;
use crate::ordmap::{ordered, OrdMap};
use crate::partition::{advanced, EntryModel, PartModel, PartitionInner};
use crate::state::{get_or, CoordState};
use crate::text::{integer_value, parse_integer, same};
use crate::time::SystemTime;
use crate::topics::{frame_bytes, frame_weight, lemma_total_prefix};
use crate::totals::{lemma_total_covers, lemma_total_put, listable, total};
use crate::types::{CreatableTopicConfig, Topition};
use crate::wal::{Record, WalRecord};
use vstd::prelude::*;

verus! {

/// How long records are kept where a topic does not say: seven days.
pub const DEFAULT_RETENTION_MS: i64 = 604_800_000;

/// How long, in milliseconds, and up to how many bytes a topic's records are
/// kept, a negative number meaning for ever and any. Of two settings of one
/// name the later counts; one that is no number leaves things as they were.
pub open spec fn retention(configs: Seq<(Seq<char>, Option<Seq<char>>)>) -> (i64, i64)
    decreases configs.len(),
{
    if configs.len() == 0 {
        (DEFAULT_RETENTION_MS, -1 as i64)
    } else {
        let (ms, bytes) = retention(configs.drop_last());
        match configs.last() {
            (name, Some(value)) => if name == "retention.ms"@ {
                (
                    match integer_value(value) {
                        Some(ms) => ms,
                        None => ms,
                    },
                    bytes,
                )
            } else if name == "retention.bytes"@ {
                (
                    ms,
                    match integer_value(value) {
                        Some(bytes) => bytes,
                        None => bytes,
                    },
                )
            } else {
                (ms, bytes)
            },
            (name, None) => (ms, bytes),
        }
    }
}

/// How long and up to how many bytes records are kept.
fn read_retention(configs: &Vec<CreatableTopicConfig>) -> (kept: (i64, i64))
    ensures
        kept == retention(configs.model()),
{
    let mut ms: i64 = DEFAULT_RETENTION_MS;
    let mut bytes: i64 = -1;
    let ghost rows = configs.model();
    proof {
        assert(rows.take(0) =~= Seq::<(Seq<char>, Option<Seq<char>>)>::empty());
        reveal_strlit("retention.ms");
        reveal_strlit("retention.bytes");
        assert("retention.ms"@.len() != "retention.bytes"@.len());
    }
    let mut i: usize = 0;
    while i < configs.len()
        invariant
            rows == configs.model(),
            i <= rows.len(),
            "retention.ms"@ != "retention.bytes"@,
            (ms, bytes) == retention(rows.take(i as int)),
        decreases rows.len() - i,
    {
        proof {
            assert(rows.take(i + 1).drop_last() =~= rows.take(i as int));
            assert(rows.take(i + 1).last() == configs@[i as int].model());
        }
        if let Some(value) = &configs[i].value {
            if same(configs[i].name.as_str(), "retention.ms") {
                if let Some(parsed) = parse_integer(value.as_str()) {
                    ms = parsed;
                }
            } else if same(configs[i].name.as_str(), "retention.bytes") {
                if let Some(parsed) = parse_integer(value.as_str()) {
                    bytes = parsed;
                }
            }
        }
        i += 1;
    }
    assert(rows.take(i as int) =~= rows);
    (ms, bytes)
}

impl CoordState {
    /// How long and up to how many bytes a topic's records are kept; nothing
    /// for a topic that is not known, which retention leaves alone.
    pub fn topic_retention(&self, topic: &str) -> (kept: Option<(i64, i64)>)
        requires
            self.wf(),
        ensures
            kept == (if self.model().topics.dom().contains(topic@) {
                Some(
                    retention(crate::txn::or_none(self.model().topics[topic@].topic.configs)),
                )
            } else {
                None
            }),
    {
        match self.topics.get(&topic.to_owned()) {
            Some(metadata) => match &metadata.topic.configs {
                Some(configs) => Some(read_retention(configs)),
                None => Some((DEFAULT_RETENTION_MS, -1)),
            },
            None => None,
        }
    }
}

/// A point of time as a batch's timestamp would say it; 0 before the epoch.
pub open spec fn timestamp_of(now: SystemTime) -> i64 {
    if now.nanos < 0 {
        0
    } else {
        (now.nanos as int / 1_000_000) as i64
    }
}

/// A point of time as a batch's timestamp would say it.
pub fn now_ms(now: SystemTime) -> (ms: i64)
    ensures
        ms == timestamp_of(now),
{
    let millis = now.millis_since_epoch();
    #[verifier::truncate]
    let ms: i64 = millis as i64;
    ms
}

/// The active segment.
pub open spec fn active_segment(p: PartModel) -> Option<i64> {
    match p.writer {
        Some(writer) => Some(writer.base_offset),
        None => None,
    }
}

/// The newest timestamp and the bytes of each sealed segment.
pub open spec fn sealed_of(batches: Seq<(i64, EntryModel)>, active: Option<i64>) -> Map<
    i64,
    (i64, u64),
>
    decreases batches.len(),
{
    if batches.len() == 0 {
        Map::empty()
    } else {
        let before = sealed_of(batches.drop_last(), active);
        let entry = batches.last().1;
        if active == Some(entry.segment_base) {
            before
        } else {
            let (newest, bytes) = get_or(before, entry.segment_base, (i64::MIN, 0));
            before.insert(
                entry.segment_base,
                (
                    if entry.max_timestamp > newest {
                        entry.max_timestamp
                    } else {
                        newest
                    },
                    (bytes + entry.len) as u64,
                ),
            )
        }
    }
}

/// The sealed segments in the order of their bases, each with its newest
/// timestamp and its bytes.
pub open spec fn sealed(p: PartModel) -> Seq<(i64, (i64, u64))> {
    ordered::<i64, (i64, u64)>(
        sealed_of(ordered::<i64, EntryModel>(p.batches), active_segment(p)),
    )
}

/// The bytes of a segment.
pub open spec fn segment_weight() -> spec_fn((i64, u64)) -> nat {
    |segment: (i64, u64)| segment.1 as nat
}

/// The bytes of a partition's segments.
pub open spec fn partition_bytes(p: PartModel) -> nat {
    total(sealed(p), segment_weight()) + (match p.writer {
        Some(writer) => writer.position as nat,
        None => 0,
    })
}

/// Where the log starts once a sealed segment is gone: where the next one
/// does, sealed or active, or at the next offset.
pub open spec fn boundary(p: PartModel, segments: Seq<(i64, (i64, u64))>, i: int) -> i64 {
    if i + 1 < segments.len() {
        segments[i + 1].0
    } else {
        match active_segment(p) {
            Some(base) => base,
            None => p.next_offset,
        }
    }
}

/// Whether a segment's newest record is older than the retention. One without
/// a timestamp never is.
pub open spec fn expired(newest: i64, ms: i64, now_ms: i64) -> bool {
    ms >= 0 && newest >= 0 && newest < now_ms - ms
}

/// Whether a partition exceeds the retention.
pub open spec fn oversize(left: int, bytes: i64) -> bool {
    bytes >= 0 && left > bytes
}

/// Where the log starts after retention looked at the segments from one on,
/// with so many bytes left. It stops at the first that stays.
pub open spec fn start_from(
    p: PartModel,
    segments: Seq<(i64, (i64, u64))>,
    i: int,
    left: int,
    start: i64,
    kept: (i64, i64),
    now_ms: i64,
) -> i64
    decreases segments.len() - i,
{
    if i < 0 || i >= segments.len() {
        start
    } else {
        let (newest, size) = segments[i].1;
        if expired(newest, kept.0, now_ms) || oversize(left, kept.1) {
            let next = boundary(p, segments, i);
            start_from(
                p,
                segments,
                i + 1,
                left - size,
                if next > start {
                    next
                } else {
                    start
                },
                kept,
                now_ms,
            )
        } else {
            start
        }
    }
}

/// Where the log starts after retention.
pub open spec fn retained_start(p: PartModel, kept: (i64, i64), now_ms: i64) -> i64 {
    start_from(p, sealed(p), 0, partition_bytes(p) as int, p.log_start, kept, now_ms)
}

/// Retention moves the log start to where a segment starts (or to the next
/// offset, where no segment is left), or leaves it where it is.
pub proof fn law_starts_at_boundary(p: PartModel, kept: (i64, i64), now_ms: i64)
    ensures
        ({
            let start = retained_start(p, kept, now_ms);
            ||| start == p.log_start
            ||| start == p.next_offset
            ||| active_segment(p) == Some(start)
            ||| exists|i: int| 0 <= i < sealed(p).len() && (#[trigger] sealed(p)[i]).0 == start
        }),
{
    lemma_boundaries(p, sealed(p), 0, partition_bytes(p) as int, p.log_start, kept, now_ms);
}

proof fn lemma_boundaries(
    p: PartModel,
    segments: Seq<(i64, (i64, u64))>,
    i: int,
    left: int,
    start: i64,
    kept: (i64, i64),
    now_ms: i64,
)
    ensures
        ({
            let after = start_from(p, segments, i, left, start, kept, now_ms);
            ||| after == start
            ||| after == p.next_offset
            ||| active_segment(p) == Some(after)
            ||| exists|j: int| 0 <= j < segments.len() && (#[trigger] segments[j]).0 == after
        }),
    decreases segments.len() - i,
{
    if 0 <= i < segments.len() {
        let next = boundary(p, segments, i);
        let moved = if next > start {
            next
        } else {
            start
        };
        lemma_boundaries(p, segments, i + 1, left - segments[i].1.1, moved, kept, now_ms);
        if i + 1 < segments.len() {
            assert(segments[i + 1].0 == next);
        }
    }
}

/// A topic that keeps its records for ever and any bytes of them loses none.
pub proof fn law_unlimited_keeps_everything(p: PartModel, kept: (i64, i64), now_ms: i64)
    requires
        kept.0 < 0,
        kept.1 < 0,
    ensures
        retained_start(p, kept, now_ms) == p.log_start,
{
}

/// The segments of a directory that retention deletes: those before the new
/// start, the active one excepted.
pub open spec fn deletable(bases: Seq<i64>, new_start: i64, active: Option<i64>) -> Seq<i64>
    decreases bases.len(),
{
    if bases.len() == 0 {
        bases
    } else {
        let rest = deletable(bases.drop_last(), new_start, active);
        if bases.last() < new_start && active != Some(bases.last()) {
            rest.push(bases.last())
        } else {
            rest
        }
    }
}

/// Retention never deletes the active segment, nor one that starts at or
/// after the new start.
pub proof fn law_active_never_deleted(bases: Seq<i64>, new_start: i64, active: Option<i64>, i: int)
    requires
        0 <= i < deletable(bases, new_start, active).len(),
    ensures
        deletable(bases, new_start, active)[i] < new_start,
        active != Some(deletable(bases, new_start, active)[i]),
    decreases bases.len(),
{
    if bases.len() > 0 {
        let rest = deletable(bases.drop_last(), new_start, active);
        if i < rest.len() {
            law_active_never_deleted(bases.drop_last(), new_start, active, i);
        }
    }
}

impl PartitionInner {
    /// Moves the log start past the segments that retention lets go; gives
    /// where the log was to start (which the high watermark may have held
    /// back) and what is to be logged of it, or nothing where all stay. That is
    /// logged whether or not a local file goes with it: the segments may be in
    /// the object store.
    pub fn apply_retention(&mut self, topition: &Topition, kept: (i64, i64), now_ms: i64) -> (moved:
        Option<(i64, WalRecord)>)
        requires
            old(self).wf(),
            frame_bytes(old(self).model()) + (match old(self).writer {
                Some(writer) => writer.position as nat,
                None => 0,
            }) <= u64::MAX,
            kept.0 >= 0 ==> i64::MIN <= now_ms - kept.0,
        ensures
            final(self).wf(),
            ({
                let start = retained_start(old(self).model(), kept, now_ms);
                if start > old(self).model().log_start {
                    &&& final(self).model() == advanced(old(self).model(), start)
                    &&& moved matches Some((new_start, record)) && new_start == start && record@
                        == (Record::LogStartAdvance {
                        topic: topition.topic@,
                        partition: topition.partition,
                        offset: final(self).model().log_start,
                    })
                } else {
                    &&& final(self).model() == old(self).model()
                    &&& moved is None
                }
            }),
    {
        let ghost p = self.model();
        let ghost rows = self.batches.seq();
        proof {
            self.batches.lemma_seq();
        }
        let active: Option<i64> = match self.writer {
            Some(writer) => Some(writer.base_offset),
            None => None,
        };
        let mut segments: OrdMap<i64, (i64, u64)> = OrdMap::new();
        let mut left: u64 = 0;
        let mut i: usize = 0;
        proof {
            segments.lemma_seq();
            assert(rows.take(0) =~= Seq::<(i64, EntryModel)>::empty());
        }
        while i < self.batches.len()
            invariant
                *self == *old(self),
                self.wf(),
                rows == self.batches.seq(),
                i <= rows.len(),
                segments.wf(),
                segments.model() == sealed_of(rows.take(i as int), active),
                listable::<i64, (i64, u64)>(segments.model()),
                left == total(
                    ordered::<i64, (i64, u64)>(segments.model()),
                    segment_weight(),
                ),
                left <= total(rows.take(i as int), frame_weight()),
                total(rows, frame_weight()) <= u64::MAX,
            decreases rows.len() - i,
        {
            let (_, entry) = self.batches.at(i);
            proof {
                assert(rows.take(i + 1).drop_last() =~= rows.take(i as int));
                lemma_total_prefix(rows, i + 1, frame_weight());
            }
            let is_active = match active {
                Some(base) => base == entry.segment_base,
                None => false,
            };
            if !is_active {
                let ghost before = segments.model();
                let (newest, bytes) = match segments.get(&entry.segment_base) {
                    Some(segment) => *segment,
                    None => (i64::MIN, 0u64),
                };
                proof {
                    lemma_total_covers::<i64, (i64, u64)>(
                        before,
                        entry.segment_base,
                        segment_weight(),
                    );
                }
                let latest: i64 = if entry.max_timestamp > newest {
                    entry.max_timestamp
                } else {
                    newest
                };
                let grown: u64 = bytes + entry.len as u64;
                proof {
                    lemma_total_put::<i64, (i64, u64)>(
                        before,
                        entry.segment_base,
                        (latest, grown),
                        segment_weight(),
                    );
                }
                segments.insert(entry.segment_base, (latest, grown));
                left = left + entry.len as u64;
            }
            i += 1;
        }
        proof {
            assert(rows.take(i as int) =~= rows);
            segments.lemma_seq();
        }
        if let Some(writer) = self.writer {
            left = left + writer.position;
        }
        let ghost list = segments.seq();
        assert(list == sealed(p));
        let mut start: i64 = self.log_start;
        let mut stays: bool = false;
        let mut k: usize = 0;
        assert(list.take(0) =~= Seq::<(i64, (i64, u64))>::empty());
        assert(total(list.take(0), segment_weight()) == 0);
        assert(list.skip(0) =~= list);
        while k < segments.len() && !stays
            invariant
                *self == *old(self),
                self.wf(),
                p == self.model(),
                segments.wf(),
                list == segments.seq(),
                list == sealed(p),
                active == active_segment(p),
                k <= list.len(),
                kept.0 >= 0 ==> i64::MIN <= now_ms - kept.0,
                left >= total(list, segment_weight()) - total(
                    list.take(k as int),
                    segment_weight(),
                ),
                stays ==> retained_start(p, kept, now_ms) == start,
                !stays ==> retained_start(p, kept, now_ms) == start_from(
                    p,
                    list,
                    k as int,
                    left as int,
                    start,
                    kept,
                    now_ms,
                ),
            decreases
                    list.len() - k,
                    (if stays {
                        0int
                    } else {
                        1
                    }),
        {
            let (_, segment) = segments.at(k);
            let (newest, size) = *segment;
            let next: i64 = if k + 1 < segments.len() {
                *segments.at(k + 1).0
            } else {
                match active {
                    Some(base) => base,
                    None => self.next_offset,
                }
            };
            let old_enough = kept.0 >= 0 && newest >= 0 && newest < now_ms - kept.0;
            let too_much = kept.1 >= 0 && left > kept.1 as u64;
            proof {
                assert(list.take(k + 1).drop_last() =~= list.take(k as int));
                lemma_total_prefix(list, k + 1, segment_weight());
            }
            if old_enough || too_much {
                if next > start {
                    start = next;
                }
                left = left - size;
                k += 1;
            } else {
                stays = true;
            }
        }
        if start <= self.log_start {
            return None;
        }
        let offset = self.advance_log_start(start);
        let record = WalRecord::LogStartAdvance {
            topic: topition.topic.clone(),
            partition: topition.partition,
            offset,
        };
        Some((start, record))
    }

    /// The segment files that are to be deleted once the log start moved.
    pub fn deletable_segments(&self, bases: &Vec<i64>, new_start: i64) -> (files: Vec<i64>)
        ensures
            files@ == deletable(bases@, new_start, active_segment(self.model())),
    {
        let mut files: Vec<i64> = Vec::new();
        let mut i: usize = 0;
        assert(bases@.take(0) =~= Seq::<i64>::empty());
        while i < bases.len()
            invariant
                i <= bases@.len(),
                files@ == deletable(bases@.take(i as int), new_start, active_segment(self.model())),
            decreases bases@.len() - i,
        {
            assert(bases@.take(i + 1).drop_last() =~= bases@.take(i as int));
            let is_active = match self.writer {
                Some(writer) => writer.base_offset == bases[i],
                None => false,
            };
            if bases[i] < new_start && !is_active {
                files.push(bases[i]);
            }
            i += 1;
        }
        assert(bases@.take(i as int) =~= bases@);
        files
    }
}

} // verus!
