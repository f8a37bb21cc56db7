//! What holds of every read of a partition, said of its batches, its
//! watermarks and its open transactions alone.

use crate::error::ErrorCode;
use crate::fetch::{
    aborted_from, affordable, batches_where, below, between, beginning_at, first_reaching, from,
    limit, listed_offset, sorted_from, source_of, straddling, wanted, AbortedTransaction,
    ListOffset, Source,
};
use crate::model::{Key, Model};
use crate::ordmap::{chosen, lemma_ascending_at, lemma_ascending_position};
use crate::partition::{
    law_stable_offset, reaching, AbortedRange, EntryModel, PartModel, PartitionInner,
};
use crate::time::SystemTime;
use crate::totals::{lemma_listable_chosen, listable};
use crate::types::IsolationLevel;
use vstd::prelude::*;

verus! {

/// Whether a reader may see an offset: it is durable and, for a committed
/// reader, below the first offset of every open transaction.
pub open spec fn visible(p: PartModel, isolation: IsolationLevel, offset: i64) -> bool {
    &&& offset < p.durable_offset
    &&& isolation == IsolationLevel::ReadCommitted ==> forall|key: (Seq<char>, (i64, i16))|
        #[trigger] p.open_txns.dom().contains(key) ==> offset < p.open_txns[key]
}

/// The sizes of the batches of a list that begin at an offset or later, added
/// up.
pub open spec fn bytes_from(batches: Seq<(i64, EntryModel)>, offset: i64) -> int
    decreases batches.len(),
{
    if batches.len() == 0 {
        0
    } else {
        bytes_from(batches.drop_last(), offset) + if batches.last().0 >= offset {
            batches.last().1.len as int
        } else {
            0
        }
    }
}

/// What a reader may see is what lies below its limit.
pub proof fn lemma_visible(inner: &PartitionInner, isolation: IsolationLevel, offset: i64)
    requires
        inner.wf(),
    ensures
        visible(inner.model(), isolation, offset) <==> offset < limit(inner.model(), isolation),
{
    let p = inner.model();
    inner.open_txns.lemma_seq();
    law_stable_offset(p);
    if visible(p, isolation, offset) && isolation == IsolationLevel::ReadCommitted && stable_below(
        p,
        offset,
    ) {
        let key = choose|key: (Seq<char>, (i64, i16))| #[trigger]
            p.open_txns.dom().contains(key) && p.open_txns[key] == limit(p, isolation);
        assert(p.open_txns.dom().contains(key));
    }
}

spec fn stable_below(p: PartModel, offset: i64) -> bool {
    limit(p, IsolationLevel::ReadCommitted) <= offset
}

/// The batches that a condition chooses are listed by ascending offset, each
/// of them and no other.
pub proof fn lemma_batches_where(p: PartModel, keep: spec_fn(i64, EntryModel) -> bool)
    requires
        listable::<i64, EntryModel>(p.batches),
    ensures
        ({
            let rows = batches_where(p, keep);
            &&& forall|i: int, j: int|
                0 <= i < j < rows.len() ==> (#[trigger] rows[i]).0 < (#[trigger] rows[j]).0
            &&& forall|i: int|
                0 <= i < rows.len() ==> p.batches.dom().contains((#[trigger] rows[i]).0)
                    && p.batches[rows[i].0] == rows[i].1 && keep(rows[i].0, rows[i].1)
            &&& forall|base: i64| #[trigger]
                p.batches.dom().contains(base) && keep(base, p.batches[base]) ==> rows.contains(
                    (base, p.batches[base]),
                )
        }),
{
    lemma_listable_chosen::<i64, EntryModel>(p.batches, keep);
    let rows = batches_where(p, keep);
    let part = chosen(p.batches, keep);
    assert forall|i: int, j: int| 0 <= i < j < rows.len() implies (#[trigger] rows[i]).0 < (
    #[trigger] rows[j]).0 by {
        assert(i64::precedes(rows[i].0, rows[j].0));
    }
    assert forall|i: int| 0 <= i < rows.len() implies p.batches.dom().contains(
        (#[trigger] rows[i]).0,
    ) && p.batches[rows[i].0] == rows[i].1 && keep(rows[i].0, rows[i].1) by {
        lemma_ascending_at::<i64, EntryModel>(rows, i);
        assert(part.dom().contains(rows[i].0));
    }
    assert forall|base: i64| #[trigger]
        p.batches.dom().contains(base) && keep(base, p.batches[base]) implies rows.contains(
        (base, p.batches[base]),
    ) by {
        assert(part.dom().contains(base));
        let i = lemma_ascending_position::<i64, EntryModel>(rows, base);
        assert(rows[i] == (base, p.batches[base]));
    }
}

proof fn lemma_bytes_first(batches: Seq<(i64, EntryModel)>, offset: i64)
    requires
        batches.len() > 0,
    ensures
        bytes_from(batches, offset) == bytes_from(batches.drop_first(), offset) + if batches[0].0
            >= offset {
            batches[0].1.len as int
        } else {
            0
        },
    decreases batches.len(),
{
    let rest = batches.drop_first();
    if batches.len() > 1 {
        lemma_bytes_first(batches.drop_last(), offset);
        assert(rest.drop_last() =~= batches.drop_last().drop_first());
    } else {
        assert(batches.drop_last() =~= Seq::<(i64, EntryModel)>::empty());
        assert(rest =~= Seq::<(i64, EntryModel)>::empty());
    }
}

/// The affordable batches of a list are the shortest stretch that exceeds the
/// budget, or all of them.
proof fn lemma_affordable_exactly(batches: Seq<(i64, EntryModel)>, budget: int, offset: i64)
    requires
        budget >= 0,
        forall|i: int| 0 <= i < batches.len() ==> (#[trigger] batches[i]).0 >= offset,
    ensures
        affordable(batches, budget) <= batches.len(),
        batches.len() > 0 ==> affordable(batches, budget) > 0,
        affordable(batches, budget) < batches.len() ==> bytes_from(
            batches.take(affordable(batches, budget) as int),
            offset,
        ) > budget,
        batches.len() > 0 ==> bytes_from(
            batches.take(affordable(batches, budget) - 1),
            offset,
        ) <= budget,
    decreases batches.len(),
{
    if batches.len() > 0 {
        let rest = batches.drop_first();
        let n = affordable(batches, budget);
        if batches[0].1.len > budget {
            let one = batches.take(1);
            lemma_bytes_first(one, offset);
            assert(one.drop_first() =~= Seq::<(i64, EntryModel)>::empty());
            assert(batches.take(0) =~= Seq::<(i64, EntryModel)>::empty());
        } else {
            assert forall|i: int| 0 <= i < rest.len() implies (#[trigger] rest[i]).0 >= offset by {
                assert(rest[i] == batches[i + 1]);
            }
            let left = budget - batches[0].1.len;
            lemma_affordable_exactly(rest, left, offset);
            let m = affordable(rest, left);
            let given = batches.take(n as int);
            lemma_bytes_first(given, offset);
            assert(given.drop_first() =~= rest.take(m as int));
            if m > 0 {
                let but_last = batches.take(n - 1);
                lemma_bytes_first(but_last, offset);
                assert(but_last.drop_first() =~= rest.take(m - 1));
            } else {
                assert(batches.take(0) =~= Seq::<(i64, EntryModel)>::empty());
            }
        }
    }
}

/// Adding up leaves out what begins before the offset.
proof fn lemma_bytes_behind(head: Seq<(i64, EntryModel)>, tail: Seq<(i64, EntryModel)>, offset: i64)
    requires
        forall|i: int| 0 <= i < head.len() ==> (#[trigger] head[i]).0 < offset,
    ensures
        bytes_from(head + tail, offset) == bytes_from(tail, offset),
    decreases head.len(),
{
    if head.len() > 0 {
        lemma_bytes_first(head + tail, offset);
        assert((head + tail).drop_first() =~= head.drop_first() + tail);
        assert((head + tail)[0] == head[0]);
        assert forall|i: int| 0 <= i < head.drop_first().len() implies (
        #[trigger] head.drop_first()[i]).0 < offset by {
            assert(head.drop_first()[i] == head[i + 1]);
        }
        lemma_bytes_behind(head.drop_first(), tail, offset);
    } else {
        assert(head + tail =~= tail);
    }
}

/// What a fetch returns, by the limit of its isolation level.
proof fn lemma_given(p: PartModel, offset: i64, max_bytes: u32, isolation: IsolationLevel)
    requires
        listable::<i64, EntryModel>(p.batches),
    ensures
        ({
            let end = limit(p, isolation);
            let given = wanted(p, offset, max_bytes, isolation);
            &&& forall|i: int, j: int|
                0 <= i < j < given.len() ==> (#[trigger] given[i]).0 < (#[trigger] given[j]).0
            &&& forall|i: int|
                0 <= i < given.len() ==> {
                    let (base, entry) = #[trigger] given[i];
                    &&& p.batches.dom().contains(base)
                    &&& p.batches[base] == entry
                    &&& base < end
                    &&& base >= offset || (i == 0 && base + entry.last_offset_delta >= offset)
                }
            &&& forall|base: i64| #[trigger]
                p.batches.dom().contains(base) && given.len() > 0 && offset <= base
                    <= given.last().0 ==> given.contains((base, p.batches[base]))
            &&& forall|base: i64| #[trigger]
                p.batches.dom().contains(base) && offset <= base < end && !given.contains(
                    (base, p.batches[base]),
                ) ==> bytes_from(given, offset) > max_bytes
            &&& given.len() > 0 ==> bytes_from(given.drop_last(), offset) <= max_bytes
        }),
{
    let end = limit(p, isolation);
    let given = wanted(p, offset, max_bytes, isolation);
    let earlier = batches_where(p, below(offset));
    let readable = batches_where(p, between(offset, end));
    lemma_batches_where(p, below(offset));
    lemma_batches_where(p, between(offset, end));
    if offset < end {
        let head = straddling(p, offset);
        let count = affordable(readable, max_bytes as int);
        lemma_affordable_exactly(readable, max_bytes as int, offset);
        let tail = readable.take(count as int);
        assert(given == head + tail);
        lemma_bytes_behind(head, tail, offset);
        assert forall|i: int| 0 <= i < given.len() implies {
            let (base, entry) = #[trigger] given[i];
            &&& p.batches.dom().contains(base)
            &&& p.batches[base] == entry
            &&& base < end
            &&& base >= offset || (i == 0 && base + entry.last_offset_delta >= offset)
        } by {
            if i < head.len() {
                assert(given[i] == earlier[earlier.len() - 1]);
            } else {
                assert(given[i] == readable[i - head.len()]);
            }
        }
        assert forall|i: int, j: int| 0 <= i < j < given.len() implies (#[trigger] given[i]).0 < (
        #[trigger] given[j]).0 by {
            if i < head.len() {
                assert(given[i] == earlier[earlier.len() - 1]);
                assert(given[j] == readable[j - head.len()]);
            } else {
                assert(given[i] == readable[i - head.len()]);
                assert(given[j] == readable[j - head.len()]);
            }
        }
        assert forall|base: i64| #[trigger]
            p.batches.dom().contains(base) && offset <= base < end implies given.contains(
            (base, p.batches[base]),
        ) || (count < readable.len() && base > given.last().0) by {
            assert(readable.contains((base, p.batches[base])));
            let i = choose|i: int|
                0 <= i < readable.len() && readable[i] == (base, p.batches[base]);
            if i < count {
                assert(given[head.len() + i] == readable[i]);
            } else {
                assert(given.last() == readable[count - 1]);
                assert(readable[count - 1].0 < readable[i].0);
            }
        }
        if given.len() > 0 {
            if tail.len() > 0 {
                assert(given.drop_last() =~= head + tail.drop_last());
                assert(tail.drop_last() =~= readable.take(count - 1));
                lemma_bytes_behind(head, tail.drop_last(), offset);
            } else {
                assert(given =~= head);
                assert(given.drop_last() =~= Seq::<(i64, EntryModel)>::empty());
            }
            assert(given[given.len() - 1].0 < end);
        }
    }
}

/// What a fetch returns has no gap. The batches come by ascending offset, each
/// as it is indexed and visible to the reader; all but the first begin at the
/// fetch offset or later, and the first at least reaches it. Every batch from
/// the fetch offset to the last one returned is returned; one that is visible
/// is left out only where those returned, from the fetch offset on, exceed the
/// size budget, and without the last of them they do not.
pub proof fn law_fetch_has_no_gap(
    inner: &PartitionInner,
    offset: i64,
    max_bytes: u32,
    isolation: IsolationLevel,
)
    requires
        inner.wf(),
    ensures
        ({
            let p = inner.model();
            let given = wanted(p, offset, max_bytes, isolation);
            &&& forall|i: int, j: int|
                0 <= i < j < given.len() ==> (#[trigger] given[i]).0 < (#[trigger] given[j]).0
            &&& forall|i: int|
                0 <= i < given.len() ==> {
                    let (base, entry) = #[trigger] given[i];
                    &&& p.batches.dom().contains(base)
                    &&& p.batches[base] == entry
                    &&& visible(p, isolation, base)
                    &&& base >= offset || (i == 0 && base + entry.last_offset_delta >= offset)
                }
            &&& forall|base: i64| #[trigger]
                p.batches.dom().contains(base) && given.len() > 0 && offset <= base
                    <= given.last().0 ==> given.contains((base, p.batches[base]))
            &&& forall|base: i64| #[trigger]
                p.batches.dom().contains(base) && base >= offset && visible(p, isolation, base)
                    && !given.contains((base, p.batches[base])) ==> bytes_from(given, offset)
                    > max_bytes
            &&& given.len() > 0 ==> bytes_from(given.drop_last(), offset) <= max_bytes
        }),
{
    let p = inner.model();
    let end = limit(p, isolation);
    let given = wanted(p, offset, max_bytes, isolation);
    lemma_given(p, offset, max_bytes, isolation);
    assert forall|i: int| 0 <= i < given.len() implies {
        let (base, entry) = #[trigger] given[i];
        &&& p.batches.dom().contains(base)
        &&& p.batches[base] == entry
        &&& visible(p, isolation, base)
        &&& base >= offset || (i == 0 && base + entry.last_offset_delta >= offset)
    } by {
        lemma_visible(inner, isolation, given[i].0);
    }
    assert forall|base: i64| #[trigger]
        p.batches.dom().contains(base) && base >= offset && visible(p, isolation, base)
            && !given.contains((base, p.batches[base])) implies bytes_from(given, offset)
        > max_bytes by {
        lemma_visible(inner, isolation, base);
    }
}

/// A fetch inside a batch, at an offset that the reader may see, returns that
/// batch first.
pub proof fn law_fetch_inside_a_batch(
    inner: &PartitionInner,
    offset: i64,
    max_bytes: u32,
    isolation: IsolationLevel,
    base: i64,
)
    requires
        inner.wf(),
        visible(inner.model(), isolation, offset),
        inner.model().batches.dom().contains(base),
        base < offset <= base + inner.model().batches[base].last_offset_delta,
        forall|other: i64| #[trigger]
            inner.model().batches.dom().contains(other) && other <= offset ==> other <= base,
    ensures
        wanted(inner.model(), offset, max_bytes, isolation).len() > 0,
        wanted(inner.model(), offset, max_bytes, isolation)[0] == (
            base,
            inner.model().batches[base],
        ),
{
    lemma_visible(inner, isolation, offset);
    crate::fetch::law_fetch_returns_straddling_batch(
        inner.model(),
        offset,
        max_bytes,
        isolation,
        base,
    );
}

/// A batch is read from where it is: its cached bytes where it has any, and
/// else the place in its segment that the index names, in the object store if
/// and only if it is tiered.
pub proof fn law_batch_is_read_from_where_it_is(base: i64, entry: EntryModel)
    ensures
        match source_of((base, entry)) {
            Source::Cached { base: at, batch } => at == base && entry.cached == Some(batch),
            Source::Disk { base: at, segment_base, position, len } => entry.cached is None
                && !entry.tiered && (at, segment_base, position, len) == (
                base,
                entry.segment_base,
                entry.position,
                entry.len,
            ),
            Source::Remote { base: at, segment_base, position, len } => entry.cached is None
                && entry.tiered && (at, segment_base, position, len) == (
                base,
                entry.segment_base,
                entry.position,
                entry.len,
            ),
        },
{
}

/// The latest offset is the least that the reader may not see. For an
/// uncommitted reader that is the high watermark; for a committed one it is at
/// most the first offset of every open transaction, and the high watermark
/// where none is open. It comes with the time of the last batch below it, and
/// a fetch there returns nothing.
pub proof fn law_latest_offset(inner: &PartitionInner, isolation: IsolationLevel, max_bytes: u32)
    requires
        inner.wf(),
    ensures
        ({
            let p = inner.model();
            let answer = listed_offset(p, isolation, ListOffset::Latest);
            &&& answer.error_code == ErrorCode::NoError
            &&& answer.offset matches Some(latest)
            &&& latest <= p.durable_offset
            &&& forall|offset: i64| visible(p, isolation, offset) <==> offset < latest
            &&& isolation == IsolationLevel::ReadUncommitted ==> latest == p.durable_offset
            &&& isolation == IsolationLevel::ReadCommitted ==> {
                &&& forall|key: (Seq<char>, (i64, i16))| #[trigger]
                    p.open_txns.dom().contains(key) ==> latest <= p.open_txns[key]
                &&& latest == p.durable_offset || exists|key: (Seq<char>, (i64, i16))| #[trigger]
                    p.open_txns.dom().contains(key) && latest == p.open_txns[key]
            }
            &&& wanted(p, latest, max_bytes, isolation).len() == 0
            &&& answer.timestamp matches Some(time) ==> exists|base: i64| #[trigger]
                last_below(p, latest, base) && p.batches[base].max_timestamp >= 0 && time.nanos
                    == p.batches[base].max_timestamp * 1_000_000
            &&& answer.timestamp is None ==> forall|base: i64| #[trigger]
                last_below(p, latest, base) ==> p.batches[base].max_timestamp < 0
        }),
{
    let p = inner.model();
    let end = limit(p, isolation);
    inner.open_txns.lemma_seq();
    law_stable_offset(p);
    assert forall|offset: i64| visible(p, isolation, offset) <==> offset < end by {
        lemma_visible(inner, isolation, offset);
    }
    let earlier = batches_where(p, below(end));
    lemma_batches_where(p, below(end));
    if earlier.len() > 0 {
        let last = earlier[earlier.len() - 1].0;
        assert forall|other: i64| #[trigger] p.batches.dom().contains(other) && other
            < end implies other <= last by {
            assert(earlier.contains((other, p.batches[other])));
            let i = choose|i: int|
                0 <= i < earlier.len() && earlier[i] == (other, p.batches[other]);
            if i < earlier.len() - 1 {
                assert(earlier[i].0 < earlier[earlier.len() - 1].0);
            }
        }
        assert(last_below(p, end, last));
        assert forall|base: i64| #[trigger] last_below(p, end, base) implies base == last by {
            assert(p.batches.dom().contains(base));
            assert(p.batches.dom().contains(last));
        }
    } else {
        assert forall|base: i64| #[trigger] last_below(p, end, base) implies false by {
            assert(earlier.contains((base, p.batches[base])));
        }
    }
}

/// Whether a batch is the last that begins below an offset.
pub open spec fn last_below(p: PartModel, offset: i64, base: i64) -> bool {
    &&& p.batches.dom().contains(base)
    &&& base < offset
    &&& forall|other: i64| #[trigger]
        p.batches.dom().contains(other) && other < offset ==> other <= base
}

/// Whether a batch is the first that begins at an offset or later.
pub open spec fn first_at(p: PartModel, offset: i64, base: i64) -> bool {
    &&& p.batches.dom().contains(base)
    &&& base >= offset
    &&& forall|other: i64| #[trigger]
        p.batches.dom().contains(other) && other >= offset ==> other >= base
}

/// The earliest offset is where the log starts, with the time of the first
/// batch from there on.
pub proof fn law_earliest_offset(inner: &PartitionInner, isolation: IsolationLevel)
    requires
        inner.wf(),
    ensures
        ({
            let p = inner.model();
            let answer = listed_offset(p, isolation, ListOffset::Earliest);
            &&& answer.error_code == ErrorCode::NoError
            &&& answer.offset == Some(p.log_start)
            &&& answer.timestamp matches Some(time) ==> exists|base: i64| #[trigger]
                first_at(p, p.log_start, base) && p.batches[base].max_timestamp >= 0 && time.nanos
                    == p.batches[base].max_timestamp * 1_000_000
            &&& answer.timestamp is None ==> forall|base: i64| #[trigger]
                first_at(p, p.log_start, base) ==> p.batches[base].max_timestamp < 0
        }),
{
    let p = inner.model();
    let later = batches_where(p, from(p.log_start));
    lemma_batches_where(p, from(p.log_start));
    if later.len() > 0 {
        let first = later[0].0;
        assert forall|other: i64| #[trigger] p.batches.dom().contains(other) && other
            >= p.log_start implies other >= first by {
            assert(later.contains((other, p.batches[other])));
            let i = choose|i: int| 0 <= i < later.len() && later[i] == (other, p.batches[other]);
            if i > 0 {
                assert(later[0].0 < later[i].0);
            }
        }
        assert(first_at(p, p.log_start, first));
        assert forall|base: i64| #[trigger] first_at(p, p.log_start, base) implies base
            == first by {
            assert(p.batches.dom().contains(base));
            assert(p.batches.dom().contains(first));
        }
    } else {
        assert forall|base: i64| #[trigger] first_at(p, p.log_start, base) implies false by {
            assert(later.contains((base, p.batches[base])));
        }
    }
}

/// Whether a batch's newest record is of a point of time or later.
pub open spec fn not_before(entry: EntryModel, want: SystemTime) -> bool {
    entry.max_timestamp >= 0 && entry.max_timestamp * 1_000_000 >= want.nanos
}

/// The offset at a time is that of the first batch, among those from the log
/// start on that the reader may see, whose newest record is not before it, and
/// 0 without a time where there is none.
pub proof fn law_offset_at_a_time(
    inner: &PartitionInner,
    isolation: IsolationLevel,
    want: SystemTime,
)
    requires
        inner.wf(),
    ensures
        ({
            let p = inner.model();
            let answer = listed_offset(p, isolation, ListOffset::Timestamp(want));
            let none = forall|base: i64| #[trigger]
                p.batches.dom().contains(base) && base >= p.log_start && visible(
                    p,
                    isolation,
                    base,
                ) ==> !not_before(p.batches[base], want);
            &&& answer.error_code == ErrorCode::NoError
            &&& answer.timestamp is None <==> none
            &&& none ==> answer.offset == Some(0i64)
            &&& answer.timestamp matches Some(time) ==> {
                &&& answer.offset matches Some(base)
                &&& p.batches.dom().contains(base)
                &&& base >= p.log_start
                &&& visible(p, isolation, base)
                &&& not_before(p.batches[base], want)
                &&& time.nanos == p.batches[base].max_timestamp * 1_000_000
                &&& forall|other: i64| #[trigger]
                    p.batches.dom().contains(other) && p.log_start <= other < base ==> !not_before(
                        p.batches[other],
                        want,
                    )
            }
        }),
{
    let p = inner.model();
    let end = limit(p, isolation);
    let keep = between(p.log_start, end);
    let readable = batches_where(p, keep);
    lemma_batches_where(p, keep);
    lemma_first_reaching(readable, want);
    assert forall|offset: i64| visible(p, isolation, offset) <==> offset < end by {
        lemma_visible(inner, isolation, offset);
    }
    assert forall|base: i64| #[trigger] p.batches.dom().contains(base) && p.log_start <= base
        < end implies readable.contains((base, p.batches[base])) by {}
    match first_reaching(readable, want) {
        Some((base, entry)) => {
            let i = choose|i: int|
                0 <= i < readable.len() && readable[i] == (base, entry) && not_before(entry, want)
                    && forall|j: int| 0 <= j < i ==> !not_before((#[trigger] readable[j]).1, want);
            assert(p.batches.dom().contains(readable[i].0));
            assert forall|other: i64| #[trigger] p.batches.dom().contains(other) && p.log_start
                <= other < base implies !not_before(p.batches[other], want) by {
                assert(readable.contains((other, p.batches[other])));
                let j = choose|j: int|
                    0 <= j < readable.len() && readable[j] == (other, p.batches[other]);
                if j > i {
                    assert(readable[i].0 < readable[j].0);
                }
            }
        },
        None => {
            assert forall|base: i64| #[trigger] p.batches.dom().contains(base) && base
                >= p.log_start && visible(p, isolation, base) implies !not_before(
                p.batches[base],
                want,
            ) by {
                assert(readable.contains((base, p.batches[base])));
                let j = choose|j: int|
                    0 <= j < readable.len() && readable[j] == (base, p.batches[base]);
                assert(!not_before(readable[j].1, want));
            }
        },
    }
}

proof fn lemma_first_reaching(batches: Seq<(i64, EntryModel)>, want: SystemTime)
    ensures
        match first_reaching(batches, want) {
            Some((base, entry)) => exists|i: int|
                0 <= i < batches.len() && #[trigger] batches[i] == (base, entry) && not_before(
                    entry,
                    want,
                ) && forall|j: int| 0 <= j < i ==> !not_before((#[trigger] batches[j]).1, want),
            None => forall|i: int|
                0 <= i < batches.len() ==> !not_before((#[trigger] batches[i]).1, want),
        },
    decreases batches.len(),
{
    if batches.len() > 0 {
        let rest = batches.drop_first();
        lemma_first_reaching(rest, want);
        if not_before(batches[0].1, want) {
            assert(batches[0] == (batches[0].0, batches[0].1));
        } else {
            match first_reaching(rest, want) {
                Some((base, entry)) => {
                    let i = choose|i: int|
                        0 <= i < rest.len() && #[trigger] rest[i] == (base, entry) && not_before(
                            entry,
                            want,
                        ) && forall|j: int|
                            0 <= j < i ==> !not_before((#[trigger] rest[j]).1, want);
                    assert(batches[i + 1] == (base, entry));
                    assert forall|j: int| 0 <= j < i + 1 implies !not_before(
                        (#[trigger] batches[j]).1,
                        want,
                    ) by {
                        if j > 0 {
                            assert(rest[j - 1] == batches[j]);
                        }
                    }
                },
                None => {
                    assert forall|i: int| 0 <= i < batches.len() implies !not_before(
                        (#[trigger] batches[i]).1,
                        want,
                    ) by {
                        if i > 0 {
                            assert(rest[i - 1] == batches[i]);
                        }
                    }
                },
            }
        }
    }
}

/// The transactions that a committed reader is told to skip are those of the
/// aborted ranges that reach its offset, each named by its producer and where
/// it begins; one aborted range is told of once.
pub proof fn law_reader_is_told_of_aborts(
    aborted: Seq<AbortedRange>,
    fetch_offset: i64,
    list: Seq<AbortedTransaction>,
)
    requires
        sorted_from(list, aborted_from(aborted, fetch_offset)),
    ensures
        forall|txn: AbortedTransaction| #[trigger]
            list.contains(txn) <==> exists|range: AbortedRange| #[trigger]
                aborted.contains(range) && range.offset_end >= fetch_offset && range.producer
                    == txn.producer_id && range.offset_start == txn.first_offset,
        list.len() == aborted.filter(|range: AbortedRange| range.offset_end >= fetch_offset).len(),
        forall|i: int, j: int|
            0 <= i < j < list.len() ==> (#[trigger] list[i]).first_offset <= (
            #[trigger] list[j]).first_offset,
{
    let given = aborted_from(aborted, fetch_offset);
    let kept = reaching(aborted, fetch_offset);
    lemma_reaching(aborted, fetch_offset);
    assert forall|txn: AbortedTransaction| #[trigger] list.contains(txn) <==> given.contains(
        txn,
    ) by {
        assert(beginning_at(list, txn.first_offset) == beginning_at(given, txn.first_offset));
        lemma_beginning_at(list, txn);
        lemma_beginning_at(given, txn);
    }
    assert forall|txn: AbortedTransaction| #[trigger] list.contains(txn) <==> exists|
        range: AbortedRange,
    | #[trigger]
        aborted.contains(range) && range.offset_end >= fetch_offset && range.producer
            == txn.producer_id && range.offset_start == txn.first_offset by {
        if given.contains(txn) {
            let i = choose|i: int| 0 <= i < given.len() && given[i] == txn;
            assert(kept.contains(kept[i]));
            assert(aborted.contains(kept[i]));
        }
        if exists|range: AbortedRange| #[trigger]
            aborted.contains(range) && range.offset_end >= fetch_offset && range.producer
                == txn.producer_id && range.offset_start == txn.first_offset {
            let range = choose|range: AbortedRange| #[trigger]
                aborted.contains(range) && range.offset_end >= fetch_offset && range.producer
                    == txn.producer_id && range.offset_start == txn.first_offset;
            assert(kept.contains(range));
            let i = choose|i: int| 0 <= i < kept.len() && kept[i] == range;
            assert(given[i] == txn);
        }
    }
    lemma_same_length(list, given);
}

/// The ranges that reach an offset are those that a filter keeps.
proof fn lemma_reaching(aborted: Seq<AbortedRange>, at: i64)
    ensures
        reaching(aborted, at) == aborted.filter(|range: AbortedRange| range.offset_end >= at),
        forall|range: AbortedRange| #[trigger]
            reaching(aborted, at).contains(range) <==> aborted.contains(range) && range.offset_end
                >= at,
    decreases aborted.len(),
{
    reveal(Seq::filter);
    if aborted.len() > 0 {
        let init = aborted.drop_last();
        lemma_reaching(init, at);
        let rest = reaching(init, at);
        let all = reaching(aborted, at);
        let last = aborted.last();
        assert forall|range: AbortedRange| #[trigger] all.contains(range) <==> aborted.contains(
            range,
        ) && range.offset_end >= at by {
            if rest.contains(range) {
                let i = choose|i: int| 0 <= i < rest.len() && rest[i] == range;
                assert(all[i] == range);
                let j = choose|j: int| 0 <= j < init.len() && init[j] == range;
                assert(aborted[j] == range);
            }
            if all.contains(range) && !rest.contains(range) {
                let i = choose|i: int| 0 <= i < all.len() && all[i] == range;
                if i < rest.len() {
                    assert(rest[i] == range);
                }
                assert(aborted[aborted.len() - 1] == range);
            }
            if aborted.contains(range) && range.offset_end >= at {
                if range == last {
                    assert(all[all.len() - 1] == range);
                } else {
                    let j = choose|j: int| 0 <= j < aborted.len() && aborted[j] == range;
                    assert(init[j] == range);
                    assert(rest.contains(range));
                }
            }
        }
    }
}

proof fn lemma_beginning_at(list: Seq<AbortedTransaction>, txn: AbortedTransaction)
    ensures
        beginning_at(list, txn.first_offset).contains(txn) <==> list.contains(txn),
    decreases list.len(),
{
    if list.len() > 0 {
        let init = list.drop_last();
        lemma_beginning_at(init, txn);
        let rest = beginning_at(init, txn.first_offset);
        let all = beginning_at(list, txn.first_offset);
        if rest.contains(txn) {
            let i = choose|i: int| 0 <= i < rest.len() && rest[i] == txn;
            assert(all[i] == txn);
            let j = choose|j: int| 0 <= j < init.len() && init[j] == txn;
            assert(list[j] == txn);
        }
        if list.last() == txn {
            assert(all[all.len() - 1] == txn);
            assert(list[list.len() - 1] == txn);
        } else {
            if list.contains(txn) {
                let j = choose|j: int| 0 <= j < list.len() && list[j] == txn;
                assert(init[j] == txn);
            }
            if all.contains(txn) {
                let i = choose|i: int| 0 <= i < all.len() && all[i] == txn;
                if i < rest.len() {
                    assert(rest[i] == txn);
                }
            }
        }
    }
}

/// Two lists that agree on what begins at each offset are of one length.
proof fn lemma_same_length(list: Seq<AbortedTransaction>, given: Seq<AbortedTransaction>)
    requires
        forall|first_offset: i64| #[trigger]
            beginning_at(list, first_offset) == beginning_at(given, first_offset),
    ensures
        list.len() == given.len(),
    decreases list.len(),
{
    if list.len() == 0 {
        if given.len() > 0 {
            lemma_beginning_at(given, given.last());
            assert(given[given.len() - 1] == given.last());
            assert(beginning_at(list, given.last().first_offset).len() == 0);
        }
    } else {
        let last = list.last();
        let of_last = beginning_at(list, last.first_offset);
        assert(of_last.last() == last);
        assert(beginning_at(given, last.first_offset) == of_last);
        let k = lemma_last_beginning(given, last.first_offset);
        let shorter = given.remove(k);
        assert forall|first_offset: i64| #[trigger]
            beginning_at(list.drop_last(), first_offset) == beginning_at(shorter, first_offset) by {
            assert(beginning_at(list, first_offset) == beginning_at(given, first_offset));
            lemma_beginning_without(given, k, first_offset);
            if first_offset == last.first_offset {
                assert(beginning_at(list.drop_last(), first_offset) =~= of_last.drop_last());
            }
        }
        lemma_same_length(list.drop_last(), shorter);
    }
}

/// Where the last one that begins at an offset stands.
proof fn lemma_last_beginning(list: Seq<AbortedTransaction>, first_offset: i64) -> (k: int)
    requires
        beginning_at(list, first_offset).len() > 0,
    ensures
        0 <= k < list.len(),
        list[k].first_offset == first_offset,
        forall|i: int| k < i < list.len() ==> (#[trigger] list[i]).first_offset != first_offset,
    decreases list.len(),
{
    let last = list.len() - 1;
    if list[last].first_offset == first_offset {
        last
    } else {
        let init = list.drop_last();
        let k = lemma_last_beginning(init, first_offset);
        assert forall|i: int| k < i < list.len() implies (#[trigger] list[i]).first_offset
            != first_offset by {
            if i < last {
                assert(init[i] == list[i]);
            }
        }
        k
    }
}

/// Without the last one that begins at its offset, the others that begin there
/// are left.
proof fn lemma_beginning_without(list: Seq<AbortedTransaction>, k: int, first_offset: i64)
    requires
        0 <= k < list.len(),
        forall|i: int|
            k < i < list.len() ==> (#[trigger] list[i]).first_offset != list[k].first_offset,
    ensures
        beginning_at(list.remove(k), first_offset) == (if list[k].first_offset == first_offset {
            beginning_at(list, first_offset).drop_last()
        } else {
            beginning_at(list, first_offset)
        }),
    decreases list.len(),
{
    let init = list.drop_last();
    if k == list.len() - 1 {
        assert(list.remove(k) =~= init);
        if list[k].first_offset == first_offset {
            assert(beginning_at(list, first_offset).drop_last() =~= beginning_at(
                init,
                first_offset,
            ));
        }
    } else {
        let last = list.len() - 1;
        assert(list.remove(k).drop_last() =~= init.remove(k));
        assert(list.remove(k).last() == list[last]);
        assert forall|i: int| k < i < init.len() implies (#[trigger] init[i]).first_offset
            != init[k].first_offset by {
            assert(init[i] == list[i]);
        }
        lemma_beginning_without(init, k, first_offset);
        assert(list[last].first_offset != list[k].first_offset);
    }
}

} // verus!
