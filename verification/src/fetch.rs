//! Reading: which batches a fetch returns, what a partition's offsets are, and
//! which transactions a reader must skip.

use crate::error::{refused, Error, ErrorCode, Fault, Result};
use crate::model::{Key, Model};
use crate::ordmap::{chosen, lemma_ascending_at, lemma_stretch, ordered};
use crate::partition::{
    end_offset, law_stable_offset, sound, stable, AbortedRange, BatchEntry, EntryModel, PartModel,
    PartitionInner,
};
use crate::time::{time_of_timestamp, timestamp_to_system_time, SystemTime};
use crate::totals::{lemma_listable_chosen, listable};
use crate::types::IsolationLevel;
use vstd::prelude::*;

verus! {

/// Where a batch that was asked for is to be read from.
#[derive(Debug, PartialEq, Eq)]
pub enum Pending {
    /// The tail cache holds it.
    Cached { base: i64, batch: Vec<u8> },
    /// A local segment file holds it.
    Disk { base: i64, segment_base: i64, position: u64, len: u32 },
    /// Only the object store holds it.
    Remote { base: i64, segment_base: i64, position: u64, len: u32 },
}

/// What a [`Pending`] says.
pub enum Source {
    Cached { base: i64, batch: Seq<u8> },
    Disk { base: i64, segment_base: i64, position: u64, len: u32 },
    Remote { base: i64, segment_base: i64, position: u64, len: u32 },
}

impl View for Pending {
    type V = Source;

    open spec fn view(&self) -> Source {
        match *self {
            Pending::Cached { base, batch } => Source::Cached { base, batch: batch@ },
            Pending::Disk { base, segment_base, position, len } => Source::Disk {
                base,
                segment_base,
                position,
                len,
            },
            Pending::Remote { base, segment_base, position, len } => Source::Remote {
                base,
                segment_base,
                position,
                len,
            },
        }
    }
}

/// What a list of [`Pending`] says.
pub open spec fn sources(pending: Seq<Pending>) -> Seq<Source> {
    Seq::new(pending.len(), |i: int| pending[i]@)
}

/// Where an indexed batch is read from.
pub open spec fn source_of(pair: (i64, EntryModel)) -> Source {
    let (base, entry) = pair;
    match entry.cached {
        Some(batch) => Source::Cached { base, batch },
        None => if entry.tiered {
            Source::Remote {
                base,
                segment_base: entry.segment_base,
                position: entry.position,
                len: entry.len,
            }
        } else {
            Source::Disk {
                base,
                segment_base: entry.segment_base,
                position: entry.position,
                len: entry.len,
            }
        },
    }
}

/// The first offset that a reader may not see.
pub open spec fn limit(p: PartModel, isolation: IsolationLevel) -> i64 {
    match isolation {
        IsolationLevel::ReadCommitted => stable(p),
        IsolationLevel::ReadUncommitted => p.durable_offset,
    }
}

/// Batches that begin below an offset.
pub open spec fn below(offset: i64) -> spec_fn(i64, EntryModel) -> bool {
    |base: i64, entry: EntryModel| base < offset
}

/// Batches that begin at or after an offset.
pub open spec fn from(offset: i64) -> spec_fn(i64, EntryModel) -> bool {
    |base: i64, entry: EntryModel| base >= offset
}

/// Batches that begin between two offsets.
pub open spec fn between(start: i64, end: i64) -> spec_fn(i64, EntryModel) -> bool {
    |base: i64, entry: EntryModel| start <= base < end
}

/// The batches of a partition that satisfy a condition, in offset order.
pub open spec fn batches_where(p: PartModel, keep: spec_fn(i64, EntryModel) -> bool) -> Seq<
    (i64, EntryModel),
> {
    ordered::<i64, EntryModel>(chosen(p.batches, keep))
}

/// The batch that begins before an offset and reaches it, be it one that the
/// log start lies inside of. It is returned whole: the reader skips what lies
/// below the offset.
pub open spec fn straddling(p: PartModel, offset: i64) -> Seq<(i64, EntryModel)> {
    let earlier = batches_where(p, below(offset));
    if earlier.len() > 0 && !p.batches.dom().contains(offset) && end_offset(
        earlier.last().0,
        earlier.last().1,
    ) >= offset {
        seq![earlier.last()]
    } else {
        Seq::empty()
    }
}

/// How many of a list of batches fit a size budget, the one that exceeds it
/// included.
pub open spec fn affordable(batches: Seq<(i64, EntryModel)>, budget: int) -> nat
    decreases batches.len(),
{
    if batches.len() == 0 {
        0
    } else if batches[0].1.len > budget {
        1
    } else {
        1 + affordable(batches.drop_first(), budget - batches[0].1.len)
    }
}

/// The batches that a fetch returns.
pub open spec fn wanted(p: PartModel, offset: i64, max_bytes: u32, isolation: IsolationLevel) -> Seq<
    (i64, EntryModel),
> {
    let end = limit(p, isolation);
    if offset < end {
        let readable = batches_where(p, between(offset, end));
        straddling(p, offset) + readable.take(affordable(readable, max_bytes as int) as int)
    } else {
        Seq::empty()
    }
}

proof fn lemma_affordable(batches: Seq<(i64, EntryModel)>, budget: int)
    ensures
        affordable(batches, budget) <= batches.len(),
        batches.len() > 0 ==> affordable(batches, budget) > 0,
    decreases batches.len(),
{
    if batches.len() > 0 {
        lemma_affordable(batches.drop_first(), budget - batches[0].1.len);
    }
}

/// A stretch of a listable map's list is what a condition on offsets chooses.
proof fn lemma_where(
    p: PartModel,
    rows: Seq<(i64, EntryModel)>,
    from: int,
    to: int,
    keep: spec_fn(i64, EntryModel) -> bool,
)
    requires
        listable::<i64, EntryModel>(p.batches),
        rows == ordered::<i64, EntryModel>(p.batches),
        0 <= from <= to <= rows.len(),
        forall|i: int|
            0 <= i < rows.len() ==> (keep((#[trigger] rows[i]).0, rows[i].1) <==> from <= i < to),
    ensures
        batches_where(p, keep) == rows.subrange(from, to),
{
    lemma_listable_chosen::<i64, EntryModel>(p.batches, keep);
    lemma_stretch(rows, from, to, keep);
}

/// Every batch that a fetch returns is indexed and begins below the limit of
/// its isolation level: what is not durable, or not stable for a committed
/// reader, is never returned.
pub proof fn law_fetch_below_limit(
    p: PartModel,
    offset: i64,
    max_bytes: u32,
    isolation: IsolationLevel,
    i: int,
)
    requires
        sound(p),
        0 <= i < wanted(p, offset, max_bytes, isolation).len(),
    ensures
        ({
            let (base, entry) = wanted(p, offset, max_bytes, isolation)[i];
            &&& base < limit(p, isolation)
            &&& p.batches.dom().contains(base)
            &&& p.batches[base] == entry
        }),
{
    let end = limit(p, isolation);
    let readable = batches_where(p, between(offset, end));
    let earlier = batches_where(p, below(offset));
    lemma_listable_chosen::<i64, EntryModel>(p.batches, between(offset, end));
    lemma_listable_chosen::<i64, EntryModel>(p.batches, below(offset));
    lemma_affordable(readable, max_bytes as int);
    let first = straddling(p, offset).len();
    if i < first {
        lemma_ascending_at::<i64, EntryModel>(earlier, earlier.len() - 1);
        assert(chosen(p.batches, below(offset)).dom().contains(earlier.last().0));
    } else {
        lemma_ascending_at::<i64, EntryModel>(readable, i - first);
        assert(chosen(p.batches, between(offset, end)).dom().contains(readable[i - first].0));
    }
}

/// No reader is given a batch that is not durable, and no committed reader one
/// at or after the first offset of a transaction that is open.
pub proof fn law_fetch_sees_stable_only(
    inner: &PartitionInner,
    offset: i64,
    max_bytes: u32,
    isolation: IsolationLevel,
    i: int,
    key: (Seq<char>, (i64, i16)),
)
    requires
        inner.wf(),
        0 <= i < wanted(inner.model(), offset, max_bytes, isolation).len(),
    ensures
        ({
            let base = wanted(inner.model(), offset, max_bytes, isolation)[i].0;
            &&& base < inner.model().durable_offset
            &&& isolation == IsolationLevel::ReadCommitted
                && inner.model().open_txns.dom().contains(key) ==> base
                < inner.model().open_txns[key]
        }),
{
    let p = inner.model();
    law_fetch_below_limit(p, offset, max_bytes, isolation, i);
    inner.open_txns.lemma_seq();
    law_stable_offset(p);
}

/// A fetch below the limit returns the batch at its offset wherever there is
/// one, however small the size budget is.
pub proof fn law_fetch_makes_progress(
    p: PartModel,
    offset: i64,
    max_bytes: u32,
    isolation: IsolationLevel,
)
    requires
        sound(p),
        offset < limit(p, isolation),
        p.batches.dom().contains(offset),
    ensures
        wanted(p, offset, max_bytes, isolation).len() > 0,
        wanted(p, offset, max_bytes, isolation)[0] == (offset, p.batches[offset]),
{
    let end = limit(p, isolation);
    let keep = between(offset, end);
    let readable = batches_where(p, keep);
    lemma_listable_chosen::<i64, EntryModel>(p.batches, keep);
    lemma_affordable(readable, max_bytes as int);
    let part = chosen(p.batches, keep);
    assert(part.dom().contains(offset));
    let i = crate::ordmap::lemma_ascending_position::<i64, EntryModel>(readable, offset);
    if i > 0 {
        lemma_ascending_at::<i64, EntryModel>(readable, 0);
        assert(part.dom().contains(readable[0].0));
        assert(i64::precedes(readable[0].0, readable[i].0));
    }
    lemma_ascending_at::<i64, EntryModel>(readable, i);
}

/// Where the fetch offset lies inside a batch, that batch comes first.
pub proof fn law_fetch_returns_straddling_batch(
    p: PartModel,
    offset: i64,
    max_bytes: u32,
    isolation: IsolationLevel,
    base: i64,
)
    requires
        sound(p),
        offset < limit(p, isolation),
        !p.batches.dom().contains(offset),
        p.batches.dom().contains(base),
        base < offset <= end_offset(base, p.batches[base]),
        forall|o: i64| #[trigger] p.batches.dom().contains(o) && o < offset ==> o <= base,
    ensures
        wanted(p, offset, max_bytes, isolation).len() > 0,
        wanted(p, offset, max_bytes, isolation)[0] == (base, p.batches[base]),
{
    let keep = below(offset);
    let earlier = batches_where(p, keep);
    lemma_listable_chosen::<i64, EntryModel>(p.batches, keep);
    let part = chosen(p.batches, keep);
    assert(part.dom().contains(base));
    let i = crate::ordmap::lemma_ascending_position::<i64, EntryModel>(earlier, base);
    let last = earlier.len() - 1;
    lemma_ascending_at::<i64, EntryModel>(earlier, last);
    assert(part.dom().contains(earlier[last].0));
    if i < last {
        assert(i64::precedes(earlier[i].0, earlier[last].0));
    }
    lemma_ascending_at::<i64, EntryModel>(earlier, i);
}

impl PartitionInner {
    /// The first offset that a reader may not see.
    pub fn limit(&self, isolation: IsolationLevel) -> (offset: i64)
        requires
            self.wf(),
        ensures
            offset == limit(self.model(), isolation),
    {
        match isolation {
            IsolationLevel::ReadCommitted => self.last_stable(),
            IsolationLevel::ReadUncommitted => self.high_watermark(),
        }
    }

    /// Which batches a fetch at `offset` returns, and where each is to be
    /// read from. At least one is returned where there is one to read; the
    /// size budget ends the list behind the batch that exceeds it. Nothing to
    /// read means that the fetch waits.
    pub fn fetch(&self, offset: i64, max_bytes: u32, isolation: IsolationLevel) -> (pending: Vec<
        Pending,
    >)
        requires
            self.wf(),
        ensures
            sources(pending@) == wanted(self.model(), offset, max_bytes, isolation).map_values(
                |pair: (i64, EntryModel)| source_of(pair),
            ),
    {
        let end: i64 = self.limit(isolation);
        let mut pending: Vec<Pending> = Vec::new();
        let ghost all = wanted(self.model(), offset, max_bytes, isolation);
        let ghost read = |pair: (i64, EntryModel)| source_of(pair);
        if offset >= end {
            assert(sources(pending@) =~= all.map_values(read));
            return pending;
        }
        let ghost p = self.model();
        let ghost rows = self.batches.seq();
        proof {
            self.batches.lemma_seq();
        }
        let first: usize = self.batches.lower_bound(&offset);
        let stop: usize = self.batches.lower_bound(&end);
        let ghost readable = rows.subrange(first as int, stop as int);
        proof {
            if first > stop {
                assert(i64::precedes(rows[stop as int].0, offset));
                assert(!i64::precedes(rows[stop as int].0, end));
            }
            lemma_where(p, rows, 0, first as int, below(offset));
            lemma_where(p, rows, first as int, stop as int, between(offset, end));
        }
        let exact = self.batches.contains(&offset);
        if first > 0 && !exact {
            let (base, entry) = self.batches.at(first - 1);
            proof {
                assert(rows.subrange(0, first as int).last() == rows[first - 1]);
                lemma_ascending_at::<i64, EntryModel>(rows, first - 1);
                assert(p.batches.dom().contains(*base));
            }
            if *base + entry.last_offset_delta as i64 >= offset {
                pending.push(source(*base, entry));
            }
        }
        let ghost head = straddling(p, offset);
        let ghost count = affordable(readable, max_bytes as int);
        proof {
            lemma_affordable(readable, max_bytes as int);
            assert(all == head + readable.take(count as int));
            assert(sources(pending@) =~= head.map_values(read));
        }
        let mut budget: u64 = max_bytes as u64;
        let mut i: usize = first;
        let mut over: bool = false;
        assert(readable.skip(0) =~= readable);
        assert(head + readable.take(0) =~= head);
        while i < stop && !over
            invariant
                self.wf(),
                rows == self.batches.seq(),
                first <= i <= stop <= rows.len(),
                readable == rows.subrange(first as int, stop as int),
                read == (|pair: (i64, EntryModel)| source_of(pair)),
                count == affordable(readable, max_bytes as int),
                over ==> count == i - first,
                !over ==> count == (i - first) + affordable(
                    readable.skip(i - first),
                    budget as int,
                ),
                sources(pending@) == (head + readable.take(i - first)).map_values(read),
            decreases stop - i,
        {
            let (base, entry) = self.batches.at(i);
            let size: u64 = entry.len as u64;
            let ghost before = sources(pending@);
            let ghost rest = readable.skip(i - first);
            proof {
                assert(rest[0] == readable[i - first]);
                assert(rest.drop_first() =~= readable.skip(i + 1 - first));
            }
            pending.push(source(*base, entry));
            proof {
                assert(sources(pending@) =~= before.push(source_of(readable[i - first])));
                assert(head + readable.take(i + 1 - first) =~= (head + readable.take(
                    i - first,
                )).push(readable[i - first]));
                assert((head + readable.take(i + 1 - first)).map_values(read) =~= before.push(
                    source_of(readable[i - first]),
                ));
            }
            if size > budget {
                over = true;
                budget = 0;
            } else {
                budget = budget - size;
            }
            i += 1;
        }
        proof {
            if !over {
                assert(readable.skip(i - first).len() == 0);
            }
        }
        pending
    }
}

/// Where an indexed batch is read from.
fn source(base: i64, entry: &BatchEntry) -> (pending: Pending)
    ensures
        pending@ == source_of((base, entry.model())),
{
    match &entry.cached {
        Some(batch) => Pending::Cached { base, batch: batch.clone() },
        None => if entry.tiered {
            Pending::Remote {
                base,
                segment_base: entry.segment_base,
                position: entry.position,
                len: entry.len,
            }
        } else {
            Pending::Disk {
                base,
                segment_base: entry.segment_base,
                position: entry.position,
                len: entry.len,
            }
        },
    }
}

impl Pending {
    /// Refuses a batch that only the object store holds where there is none.
    pub fn check_tier(&self, has_tier: bool) -> (result: Result<()>)
        ensures
            if self@ is Remote && !has_tier {
                refused(result, Fault::Message("nvme: tiered batch without a tier"@))
            } else {
                result is Ok
            },
    {
        match self {
            Pending::Remote { .. } => if has_tier {
                Ok(())
            } else {
                Err(Error::Message("nvme: tiered batch without a tier".to_owned()))
            },
            _ => Ok(()),
        }
    }
}

/// A partition's watermarks.
#[derive(Clone, Copy, Debug, PartialEq, Eq, Structural)]
pub struct OffsetStage {
    pub last_stable: i64,
    pub high_watermark: i64,
    pub log_start: i64,
}

/// A partition's watermarks; all zero where there is no such partition.
pub fn offset_stage(partition: Option<&PartitionInner>) -> (stage: OffsetStage)
    requires
        partition matches Some(inner) ==> inner.wf(),
    ensures
        stage == (match partition {
            Some(inner) => OffsetStage {
                last_stable: stable(inner.model()),
                high_watermark: inner.model().durable_offset,
                log_start: inner.model().log_start,
            },
            None => OffsetStage { last_stable: 0, high_watermark: 0, log_start: 0 },
        }),
{
    match partition {
        Some(inner) => OffsetStage {
            last_stable: inner.last_stable(),
            high_watermark: inner.high_watermark(),
            log_start: inner.log_start,
        },
        None => OffsetStage { last_stable: 0, high_watermark: 0, log_start: 0 },
    }
}

/// Which offset is asked for.
#[derive(Clone, Copy, Debug, PartialEq, Eq, Structural)]
pub enum ListOffset {
    Earliest,
    Latest,
    Timestamp(SystemTime),
}

/// An offset, and the timestamp of the batch it was found by.
#[derive(Clone, Copy, Debug, PartialEq, Eq, Structural)]
pub struct ListOffsetResponse {
    pub error_code: ErrorCode,
    pub timestamp: Option<SystemTime>,
    pub offset: Option<i64>,
}

/// Whether a batch's newest record reaches a point of time.
pub open spec fn reaches(entry: EntryModel, want: SystemTime) -> bool {
    time_of_timestamp(entry.max_timestamp) matches Some(time) && time.nanos >= want.nanos
}

/// The first of a list of batches that reaches a point of time.
pub open spec fn first_reaching(batches: Seq<(i64, EntryModel)>, want: SystemTime) -> Option<
    (i64, EntryModel),
>
    decreases batches.len(),
{
    if batches.len() == 0 {
        None
    } else if reaches(batches[0].1, want) {
        Some(batches[0])
    } else {
        first_reaching(batches.drop_first(), want)
    }
}

/// The answer to a question for an offset.
pub open spec fn listed_offset(
    p: PartModel,
    isolation: IsolationLevel,
    request: ListOffset,
) -> ListOffsetResponse {
    let end = limit(p, isolation);
    match request {
        ListOffset::Earliest => {
            let later = batches_where(p, from(p.log_start));
            ListOffsetResponse {
                error_code: ErrorCode::NoError,
                timestamp: if later.len() > 0 {
                    time_of_timestamp(later[0].1.max_timestamp)
                } else {
                    None
                },
                offset: Some(p.log_start),
            }
        },
        ListOffset::Latest => {
            let earlier = batches_where(p, below(end));
            ListOffsetResponse {
                error_code: ErrorCode::NoError,
                timestamp: if earlier.len() > 0 {
                    time_of_timestamp(earlier.last().1.max_timestamp)
                } else {
                    None
                },
                offset: Some(end),
            }
        },
        ListOffset::Timestamp(want) => match first_reaching(
            batches_where(p, between(p.log_start, end)),
            want,
        ) {
            Some((base, entry)) => ListOffsetResponse {
                error_code: ErrorCode::NoError,
                timestamp: time_of_timestamp(entry.max_timestamp),
                offset: Some(base),
            },
            None => ListOffsetResponse {
                error_code: ErrorCode::NoError,
                timestamp: None,
                offset: Some(0),
            },
        },
    }
}

/// Answers a question for an offset of a partition; a partition that does not
/// exist answers 0.
pub fn list_offset(
    partition: Option<&PartitionInner>,
    isolation: IsolationLevel,
    request: ListOffset,
) -> (response: ListOffsetResponse)
    requires
        partition matches Some(inner) ==> inner.wf() && (request is Timestamp
            ==> inner.model().log_start <= limit(inner.model(), isolation)),
    ensures
        response == (match partition {
            Some(inner) => listed_offset(inner.model(), isolation, request),
            None => ListOffsetResponse {
                error_code: ErrorCode::NoError,
                timestamp: None,
                offset: Some(0),
            },
        }),
{
    let inner = match partition {
        Some(inner) => inner,
        None => {
            return ListOffsetResponse {
                error_code: ErrorCode::NoError,
                timestamp: None,
                offset: Some(0),
            };
        },
    };
    let end: i64 = inner.limit(isolation);
    let ghost p = inner.model();
    let ghost rows = inner.batches.seq();
    proof {
        inner.batches.lemma_seq();
    }
    let first: usize = inner.batches.lower_bound(&inner.log_start);
    let stop: usize = inner.batches.lower_bound(&end);
    proof {
        lemma_where(p, rows, first as int, rows.len() as int, from(p.log_start));
        lemma_where(p, rows, 0, stop as int, below(end));
    }
    match request {
        ListOffset::Earliest => ListOffsetResponse {
            error_code: ErrorCode::NoError,
            timestamp: if first < inner.batches.len() {
                timestamp_to_system_time(inner.batches.at(first).1.max_timestamp)
            } else {
                None
            },
            offset: Some(inner.log_start),
        },
        ListOffset::Latest => ListOffsetResponse {
            error_code: ErrorCode::NoError,
            timestamp: if stop > 0 {
                timestamp_to_system_time(inner.batches.at(stop - 1).1.max_timestamp)
            } else {
                None
            },
            offset: Some(end),
        },
        ListOffset::Timestamp(want) => {
            proof {
                if first > stop {
                    assert(i64::precedes(rows[stop as int].0, p.log_start));
                    assert(!i64::precedes(rows[stop as int].0, end));
                }
                lemma_where(p, rows, first as int, stop as int, between(p.log_start, end));
            }
            let ghost readable = rows.subrange(first as int, stop as int);
            let mut i: usize = first;
            assert(readable.skip(0) =~= readable);
            while i < stop
                invariant
                    inner.wf(),
                    p == inner.model(),
                    rows == inner.batches.seq(),
                    end == limit(p, isolation),
                    request == ListOffset::Timestamp(want),
                    partition == Some(inner),
                    first <= i <= stop <= rows.len(),
                    readable == rows.subrange(first as int, stop as int),
                    readable == batches_where(p, between(p.log_start, end)),
                    first_reaching(readable, want) == first_reaching(
                        readable.skip(i - first),
                        want,
                    ),
                decreases stop - i,
            {
                let (base, entry) = inner.batches.at(i);
                let ghost rest = readable.skip(i - first);
                assert(rest[0] == readable[i - first]);
                assert(rest.drop_first() =~= readable.skip(i + 1 - first));
                if let Some(time) = timestamp_to_system_time(entry.max_timestamp) {
                    if time.nanos >= want.nanos {
                        return ListOffsetResponse {
                            error_code: ErrorCode::NoError,
                            timestamp: Some(time),
                            offset: Some(*base),
                        };
                    }
                }
                i += 1;
            }
            ListOffsetResponse {
                error_code: ErrorCode::NoError,
                timestamp: None,
                offset: Some(0),
            }
        },
    }
}

/// A transaction that a committed reader skips.
#[derive(Clone, Copy, Debug, PartialEq, Eq, Structural)]
pub struct AbortedTransaction {
    pub producer_id: i64,
    pub first_offset: i64,
}

/// The aborted transactions that reach an offset, as they were recorded.
pub open spec fn aborted_from(aborted: Seq<AbortedRange>, fetch_offset: i64) -> Seq<
    AbortedTransaction,
> {
    crate::partition::reaching(aborted, fetch_offset).map_values(
        |range: AbortedRange|
            AbortedTransaction { producer_id: range.producer, first_offset: range.offset_start },
    )
}

/// Those that begin at an offset, in their order.
pub open spec fn beginning_at(list: Seq<AbortedTransaction>, first_offset: i64) -> Seq<
    AbortedTransaction,
>
    decreases list.len(),
{
    if list.len() == 0 {
        list
    } else {
        let rest = beginning_at(list.drop_last(), first_offset);
        if list.last().first_offset == first_offset {
            rest.push(list.last())
        } else {
            rest
        }
    }
}

/// Whether `list` holds what `given` holds, by ascending first offset, those
/// that begin at one offset in the order they were given.
pub open spec fn sorted_from(list: Seq<AbortedTransaction>, given: Seq<AbortedTransaction>) -> bool {
    &&& forall|i: int, j: int|
        0 <= i < j < list.len() ==> (#[trigger] list[i]).first_offset <= (
        #[trigger] list[j]).first_offset
    &&& forall|first_offset: i64| #[trigger]
        beginning_at(list, first_offset) == beginning_at(given, first_offset)
}

proof fn lemma_insert_sorted(
    list: Seq<AbortedTransaction>,
    i: int,
    txn: AbortedTransaction,
    first_offset: i64,
)
    requires
        0 <= i <= list.len(),
        forall|j: int| i <= j < list.len() ==> (#[trigger] list[j]).first_offset > txn.first_offset,
    ensures
        beginning_at(list.insert(i, txn), first_offset) == (if txn.first_offset == first_offset {
            beginning_at(list, first_offset).push(txn)
        } else {
            beginning_at(list, first_offset)
        }),
    decreases list.len(),
{
    let after = list.insert(i, txn);
    if i == list.len() {
        assert(after.drop_last() =~= list);
    } else {
        let init = list.drop_last();
        assert(after.drop_last() =~= init.insert(i, txn));
        assert(after.last() == list.last());
        assert(list[list.len() - 1].first_offset > txn.first_offset);
        assert forall|j: int| i <= j < init.len() implies (#[trigger] init[j]).first_offset
            > txn.first_offset by {
            assert(init[j] == list[j]);
        }
        lemma_insert_sorted(init, i, txn, first_offset);
    }
}

/// The aborted transactions that a committed reader of a partition must skip
/// from an offset on, by ascending first offset; none where there is no such
/// partition.
pub fn aborted_transactions(partition: Option<&PartitionInner>, fetch_offset: i64) -> (list: Vec<
    AbortedTransaction,
>)
    ensures
        match partition {
            Some(inner) => sorted_from(
                list@,
                aborted_from(inner.model().aborted, fetch_offset),
            ),
            None => list@.len() == 0,
        },
{
    let mut list: Vec<AbortedTransaction> = Vec::new();
    let inner = match partition {
        Some(inner) => inner,
        None => {
            return list;
        },
    };
    let ghost ranges = inner.aborted@;
    let mut i: usize = 0;
    assert(aborted_from(ranges.take(0), fetch_offset) =~= list@);
    while i < inner.aborted.len()
        invariant
            ranges == inner.aborted@,
            i <= ranges.len(),
            sorted_from(list@, aborted_from(ranges.take(i as int), fetch_offset)),
        decreases ranges.len() - i,
    {
        let range = inner.aborted[i];
        let ghost given = aborted_from(ranges.take(i as int), fetch_offset);
        let ghost next = aborted_from(ranges.take(i + 1), fetch_offset);
        assert(ranges.take(i + 1).drop_last() =~= ranges.take(i as int));
        if range.offset_end >= fetch_offset {
            let txn = AbortedTransaction {
                producer_id: range.producer,
                first_offset: range.offset_start,
            };
            let mut at: usize = list.len();
            while at > 0 && list[at - 1].first_offset > txn.first_offset
                invariant
                    at <= list@.len(),
                    forall|j: int|
                        at <= j < list@.len() ==> (#[trigger] list@[j]).first_offset
                            > txn.first_offset,
                decreases at,
            {
                at -= 1;
            }
            let ghost before = list@;
            list.insert(at, txn);
            proof {
                assert(next =~= given.push(txn));
                assert(next.drop_last() =~= given);
                assert forall|first_offset: i64| #[trigger]
                    beginning_at(list@, first_offset) == beginning_at(next, first_offset) by {
                    lemma_insert_sorted(before, at as int, txn, first_offset);
                    assert(beginning_at(before, first_offset) == beginning_at(given, first_offset));
                }
                assert forall|a: int, b: int| 0 <= a < b < list@.len() implies (
                #[trigger] list@[a]).first_offset <= (#[trigger] list@[b]).first_offset by {
                    let a2 = if a < at { a } else { a - 1 };
                    let b2 = if b < at { b } else { b - 1 };
                    if a < at && at < b {
                        assert(before[a2].first_offset <= before[b2].first_offset);
                    } else if a == at {
                        assert(before[b2].first_offset > txn.first_offset);
                    } else if b == at {
                        if a < at - 1 {
                            assert(before[a2].first_offset <= before[at - 1].first_offset);
                        }
                    } else {
                        assert(before[a2].first_offset <= before[b2].first_offset);
                    }
                }
            }
        } else {
            assert(next =~= given);
        }
        i += 1;
    }
    assert(ranges.take(i as int) =~= ranges);
    list
}

} // verus!
