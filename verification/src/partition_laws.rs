//! What holds of a partition when its log start moves, a transaction ends on
//! it, or its segments are uploaded and go from the local disk.

use crate::model::{Key, Model};
use crate::ordmap::{lemma_ascending_at, lemma_ascending_position, ordered};
use crate::partition::{
    accounted, added, advanced, cache_weight, evicted_times, indexed, law_index_accounts_exactly,
    reaching, sound, without_cached, AbortedRange, EntryModel, PartModel, PartitionInner,
};
use crate::produce_laws::same_batch;
use crate::rebuild::SidecarEntry;
use crate::replay::with_aborted;
use crate::resolution::{marker_at, released};
use crate::retention::active_segment;
use crate::state::TxnProduceOffset;
use crate::tier::{
    evicted_to_tier, first_evictable, newest_of, sidecar_entries, uploads, wholly_below,
};
use crate::totals::{lemma_total_put, total};
use crate::wal::seq_of_name;
use vstd::prelude::*;

verus! {

/// Moving the log start: it goes where it is asked to go, but never back nor
/// past the high watermark. Of the batches those stay that reach it, as they
/// were, and of the aborted ranges those that do, in their order. The offsets,
/// the open transactions and the segments stay as they are.
pub proof fn law_log_start_moves(p: PartModel, offset: i64)
    requires
        p.log_start <= p.durable_offset,
    ensures
        ({
            let after = advanced(p, offset);
            &&& p.log_start <= offset <= p.durable_offset ==> after.log_start == offset
            &&& offset < p.log_start ==> after.log_start == p.log_start
            &&& offset > p.durable_offset ==> after.log_start == p.durable_offset
            &&& forall|base: i64| #[trigger]
                after.batches.dom().contains(base) <==> p.batches.dom().contains(base) && (base
                    >= after.log_start || base + p.batches[base].last_offset_delta
                    >= after.log_start)
            &&& forall|base: i64| #[trigger]
                after.batches.dom().contains(base) ==> after.batches[base] == p.batches[base]
            &&& after.aborted == p.aborted.filter(
                |range: AbortedRange| range.offset_end >= after.log_start,
            )
            &&& after.next_offset == p.next_offset
            &&& after.durable_offset == p.durable_offset
            &&& after.open_txns == p.open_txns
            &&& after.writer == p.writer
            &&& after.uploaded == p.uploaded
        }),
{
    lemma_kept_ranges(p.aborted, advanced(p, offset).log_start);
}

proof fn lemma_kept_ranges(aborted: Seq<AbortedRange>, at: i64)
    ensures
        reaching(aborted, at) == aborted.filter(|range: AbortedRange| range.offset_end >= at),
    decreases aborted.len(),
{
    reveal(Seq::filter);
    if aborted.len() > 0 {
        lemma_kept_ranges(aborted.drop_last(), at);
    }
}

/// The end of a transaction on a partition closes that one and no other. Where
/// it aborted, its range is among the aborted ones afterwards, once, and those
/// that were still are; where it committed, none is added. Nothing else
/// changes.
pub proof fn law_end_closes_one_transaction(
    p: PartModel,
    key: (Seq<char>, (i64, i16)),
    aborting: bool,
    range: TxnProduceOffset,
    other: (Seq<char>, (i64, i16)),
)
    ensures
        ({
            let after = released(p, key, aborting, range);
            let own = AbortedRange {
                producer: key.1.0,
                offset_start: range.offset_start,
                offset_end: range.offset_end,
            };
            &&& !after.open_txns.dom().contains(key)
            &&& other != key ==> {
                &&& after.open_txns.dom().contains(other) <==> p.open_txns.dom().contains(other)
                &&& p.open_txns.dom().contains(other) ==> after.open_txns[other]
                    == p.open_txns[other]
            }
            &&& !aborting || p.aborted.contains(own) ==> after.aborted == p.aborted
            &&& aborting && !p.aborted.contains(own) ==> after.aborted == p.aborted.push(own)
            &&& after == (PartModel {
                open_txns: after.open_txns,
                aborted: after.aborted,
                ..p
            })
        }),
{
}

/// A range that is put among the aborted ones is there, once.
pub proof fn law_aborted_range_is_added_once(aborted: Seq<AbortedRange>, range: AbortedRange)
    ensures
        with_aborted(aborted, range).contains(range),
        with_aborted(with_aborted(aborted, range), range) == with_aborted(aborted, range),
        aborted.no_duplicates() ==> with_aborted(aborted, range).no_duplicates(),
        forall|other: AbortedRange| #[trigger]
            aborted.contains(other) ==> with_aborted(aborted, range).contains(other),
{
    let after = with_aborted(aborted, range);
    if !aborted.contains(range) {
        assert(after[after.len() - 1] == range);
        assert forall|other: AbortedRange| #[trigger] aborted.contains(other) implies after.contains(
            other,
        ) by {
            let i = choose|i: int| 0 <= i < aborted.len() && aborted[i] == other;
            assert(after[i] == other);
        }
        if aborted.no_duplicates() {
            assert forall|i: int, j: int| 0 <= i < after.len() && 0 <= j < after.len() && i
                != j implies after[i] != after[j] by {
                if i == aborted.len() {
                    assert(aborted.contains(aborted[j]));
                } else if j == aborted.len() {
                    assert(aborted.contains(aborted[i]));
                }
            }
        }
    }
}

/// Whether a segment of the local disk is one to be uploaded: it is not the
/// active one, and the object store does not hold it.
pub open spec fn wants_upload(p: PartModel, base: i64) -> bool {
    !(p.writer matches Some(writer) && writer.base_offset == base) && !p.uploaded.dom().contains(
        base,
    )
}

/// Every segment of the directory that is sealed and not uploaded is uploaded,
/// in its order, with a sidecar that tells of all its local batches, by
/// ascending offset and each as it is indexed.
pub proof fn law_every_sealed_segment_is_uploaded(inner: &PartitionInner, bases: Seq<i64>)
    requires
        inner.wf(),
    ensures
        ({
            let p = inner.model();
            let jobs = uploads(p, bases);
            &&& jobs.map_values(|job: (i64, Seq<SidecarEntry>)| job.0) == bases.filter(
                |base: i64| wants_upload(p, base),
            )
            &&& forall|i: int| 0 <= i < jobs.len() ==> tells_of((#[trigger] jobs[i]).1, p, jobs[i].0)
        }),
    decreases bases.len(),
{
    reveal(Seq::filter);
    let p = inner.model();
    let jobs = uploads(p, bases);
    if bases.len() > 0 {
        let init = bases.drop_last();
        law_every_sealed_segment_is_uploaded(inner, init);
        let before = uploads(p, init);
        inner.batches.lemma_seq();
        lemma_sidecar_tells(p, inner.batches.seq(), bases.last());
        assert forall|i: int| 0 <= i < jobs.len() implies tells_of(
            (#[trigger] jobs[i]).1,
            p,
            jobs[i].0,
        ) by {
            if i < before.len() {
                assert(jobs[i] == before[i]);
            }
        }
        let of = |job: (i64, Seq<SidecarEntry>)| job.0;
        if wants_upload(p, bases.last()) {
            assert(jobs.map_values(of) =~= before.map_values(of).push(bases.last()));
        }
    } else {
        assert(jobs.map_values(|job: (i64, Seq<SidecarEntry>)| job.0) =~= bases);
    }
}

/// Whether a sidecar's entry says what the index says of a batch.
pub open spec fn tells_batch(told: SidecarEntry, offset: i64, entry: EntryModel) -> bool {
    &&& told.offset == offset
    &&& told.position == entry.position
    &&& told.len == entry.len
    &&& told.last_offset_delta == entry.last_offset_delta
    &&& told.max_timestamp == entry.max_timestamp
    &&& told.is_control == entry.is_control
    &&& told.is_transactional == entry.is_transactional
    &&& told.producer_id == entry.producer_id
    &&& told.producer_epoch == entry.producer_epoch
    &&& told.base_sequence == entry.base_sequence
}

/// Whether a batch of a partition lies in a segment of the local disk.
pub open spec fn local_in(p: PartModel, offset: i64, base: i64) -> bool {
    &&& p.batches.dom().contains(offset)
    &&& p.batches[offset].segment_base == base
    &&& !p.batches[offset].tiered
}

/// Whether a sidecar tells of all local batches of a segment and of no other,
/// by ascending offset.
pub open spec fn tells_of(told: Seq<SidecarEntry>, p: PartModel, base: i64) -> bool {
    &&& forall|i: int, j: int|
        0 <= i < j < told.len() ==> (#[trigger] told[i]).offset < (#[trigger] told[j]).offset
    &&& forall|i: int|
        0 <= i < told.len() ==> local_in(p, (#[trigger] told[i]).offset, base) && tells_batch(
            told[i],
            told[i].offset,
            p.batches[told[i].offset],
        )
    &&& forall|offset: i64| #[trigger]
        local_in(p, offset, base) ==> exists|i: int|
            0 <= i < told.len() && (#[trigger] told[i]).offset == offset
}

proof fn lemma_sidecar_rows(rows: Seq<(i64, EntryModel)>, base: i64)
    requires
        forall|i: int, j: int| 0 <= i < j < rows.len() ==> (#[trigger] rows[i]).0 < (#[trigger] rows[j]).0,
    ensures
        ({
            let told = sidecar_entries(rows, base);
            &&& forall|i: int, j: int|
                0 <= i < j < told.len() ==> (#[trigger] told[i]).offset < (
                #[trigger] told[j]).offset
            &&& forall|i: int|
                0 <= i < told.len() ==> exists|k: int|
                    0 <= k < rows.len() && tells_batch(
                        #[trigger] told[i],
                        (#[trigger] rows[k]).0,
                        rows[k].1,
                    ) && rows[k].1.segment_base == base && !rows[k].1.tiered
            &&& forall|k: int|
                0 <= k < rows.len() && (#[trigger] rows[k]).1.segment_base == base
                    && !rows[k].1.tiered ==> exists|i: int|
                    0 <= i < told.len() && (#[trigger] told[i]).offset == rows[k].0
        }),
    decreases rows.len(),
{
    if rows.len() > 0 {
        let init = rows.drop_last();
        let n = rows.len() - 1;
        assert forall|i: int| 0 <= i < n implies #[trigger] init[i] == rows[i] by {}
        lemma_sidecar_rows(init, base);
        let before = sidecar_entries(init, base);
        let told = sidecar_entries(rows, base);
        assert forall|i: int| 0 <= i < told.len() implies exists|k: int|
            0 <= k < rows.len() && tells_batch(
                #[trigger] told[i],
                (#[trigger] rows[k]).0,
                rows[k].1,
            ) && rows[k].1.segment_base == base && !rows[k].1.tiered by {
            if i < before.len() {
                assert(told[i] == before[i]);
                let k = choose|k: int|
                    0 <= k < init.len() && tells_batch(
                        before[i],
                        (#[trigger] init[k]).0,
                        init[k].1,
                    ) && init[k].1.segment_base == base && !init[k].1.tiered;
                assert(rows[k] == init[k]);
            } else {
                assert(tells_batch(told[i], rows[n].0, rows[n].1));
            }
        }
        assert forall|k: int|
            0 <= k < rows.len() && (#[trigger] rows[k]).1.segment_base == base
                && !rows[k].1.tiered implies exists|i: int|
            0 <= i < told.len() && (#[trigger] told[i]).offset == rows[k].0 by {
            if k < n {
                assert(init[k] == rows[k]);
                let i = choose|i: int|
                    0 <= i < before.len() && (#[trigger] before[i]).offset == init[k].0;
                assert(told[i] == before[i]);
            } else {
                assert(told[told.len() - 1].offset == rows[n].0);
            }
        }
        assert forall|i: int, j: int| 0 <= i < j < told.len() implies (#[trigger] told[i]).offset
            < (#[trigger] told[j]).offset by {
            assert(told[i] == before[i]);
            if j < before.len() {
                assert(told[j] == before[j]);
            } else {
                let k = choose|k: int|
                    0 <= k < init.len() && tells_batch(
                        before[i],
                        (#[trigger] init[k]).0,
                        init[k].1,
                    );
                assert(rows[k].0 < rows[n].0);
            }
        }
    }
}

proof fn lemma_sidecar_tells(p: PartModel, rows: Seq<(i64, EntryModel)>, base: i64)
    requires
        crate::ordmap::ascending::<i64, EntryModel>(rows),
        crate::ordmap::to_map(rows) == p.batches,
    ensures
        tells_of(sidecar_entries(rows, base), p, base),
{
    assert forall|i: int, j: int| 0 <= i < j < rows.len() implies (#[trigger] rows[i]).0 < (
    #[trigger] rows[j]).0 by {
        assert(i64::precedes(rows[i].0, rows[j].0));
    }
    lemma_sidecar_rows(rows, base);
    let told = sidecar_entries(rows, base);
    assert forall|i: int| 0 <= i < told.len() implies local_in(
        p,
        (#[trigger] told[i]).offset,
        base,
    ) && tells_batch(told[i], told[i].offset, p.batches[told[i].offset]) by {
        let k = choose|k: int|
            0 <= k < rows.len() && tells_batch(told[i], (#[trigger] rows[k]).0, rows[k].1)
                && rows[k].1.segment_base == base && !rows[k].1.tiered;
        lemma_ascending_at::<i64, EntryModel>(rows, k);
    }
    assert forall|offset: i64| #[trigger] local_in(p, offset, base) implies exists|i: int|
        0 <= i < told.len() && (#[trigger] told[i]).offset == offset by {
        let k = lemma_ascending_position::<i64, EntryModel>(rows, offset);
        assert(rows[k].1.segment_base == base);
    }
}

/// Whether a segment can go from the local disk: the object store holds it, it
/// is there, and it is not the active one.
pub open spec fn can_go(p: PartModel, local: Seq<i64>, base: i64) -> bool {
    &&& p.uploaded.dom().contains(base)
    &&& local.contains(base)
    &&& !(p.writer matches Some(writer) && writer.base_offset == base)
}

/// The segment that goes from the local disk first is the oldest that can; none
/// goes only where none can.
pub proof fn law_oldest_segment_goes_first(inner: &PartitionInner, local: Seq<i64>)
    requires
        inner.wf(),
    ensures
        ({
            let p = inner.model();
            match first_evictable(ordered::<i64, ()>(p.uploaded), active_segment(p), local) {
                Some(base) => can_go(p, local, base) && forall|other: i64| #[trigger]
                    can_go(p, local, other) ==> base <= other,
                None => forall|base: i64| !#[trigger] can_go(p, local, base),
            }
        }),
{
    let p = inner.model();
    let rows = inner.uploaded.seq();
    inner.uploaded.lemma_seq();
    let active = active_segment(p);
    let at = lemma_first_evictable(rows, active, local);
    match first_evictable(rows, active, local) {
        Some(base) => {
            lemma_ascending_at::<i64, ()>(rows, at);
            assert forall|other: i64| #[trigger] can_go(p, local, other) implies base <= other by {
                let k = lemma_ascending_position::<i64, ()>(rows, other);
                if k > at {
                    assert(i64::precedes(rows[at].0, rows[k].0));
                } else if k < at {
                    assert(!(active != Some(rows[k].0) && local.contains(rows[k].0)));
                }
            }
        },
        None => {
            assert forall|base: i64| !#[trigger] can_go(p, local, base) by {
                if can_go(p, local, base) {
                    let k = lemma_ascending_position::<i64, ()>(rows, base);
                    assert(!(active != Some(rows[k].0) && local.contains(rows[k].0)));
                }
            }
        },
    }
}

proof fn lemma_first_evictable(
    uploaded: Seq<(i64, ())>,
    active: Option<i64>,
    local: Seq<i64>,
) -> (at: int)
    ensures
        match first_evictable(uploaded, active, local) {
            Some(base) => 0 <= at < uploaded.len() && uploaded[at].0 == base && active != Some(base)
                && local.contains(base) && forall|k: int|
                0 <= k < at ==> !(active != Some((#[trigger] uploaded[k]).0) && local.contains(
                    uploaded[k].0,
                )),
            None => forall|k: int|
                0 <= k < uploaded.len() ==> !(active != Some((#[trigger] uploaded[k]).0)
                    && local.contains(uploaded[k].0)),
        },
    decreases uploaded.len(),
{
    if uploaded.len() == 0 {
        0
    } else if active != Some(uploaded[0].0) && local.contains(uploaded[0].0) {
        0
    } else {
        let rest = uploaded.drop_first();
        let at = lemma_first_evictable(rest, active, local);
        assert forall|k: int| 0 < k < uploaded.len() implies #[trigger] uploaded[k] == rest[k - 1] by {}
        at + 1
    }
}

/// A segment that goes from the local disk: its batches are held by the object
/// store only, uncached, and are else what they were, as all other batches are.
/// Nothing else changes but the count of cached bytes, which stays exact.
pub proof fn law_gone_segment_is_remote(p: PartModel, base: i64, offset: i64)
    ensures
        ({
            let after = evicted_to_tier(p, base);
            let (was, is) = (p.batches[offset], after.batches[offset]);
            &&& after.batches.dom().contains(offset) <==> p.batches.dom().contains(offset)
            &&& p.batches.dom().contains(offset) && was.segment_base != base ==> is == was
            &&& p.batches.dom().contains(offset) && was.segment_base == base ==> {
                &&& is.tiered
                &&& is.cached is None
                &&& same_batch(is, EntryModel { tiered: true, ..was })
            }
            &&& accounted(p) ==> accounted(after)
            &&& after == (PartModel {
                batches: after.batches,
                cached_bytes: after.cached_bytes,
                ..p
            })
        }),
{
}

/// The segments that the object store need not hold are the first so many: each
/// of them is followed by one that starts at or below the log start, and the
/// first that is kept is not, or is the last.
pub proof fn law_segments_below_the_start_go(bases: Seq<i64>, log_start: i64)
    ensures
        ({
            let gone = wholly_below(bases, log_start) as int;
            &&& 0 <= gone <= bases.len()
            &&& bases.len() > 0 ==> gone < bases.len()
            &&& forall|i: int| 0 < i <= gone ==> #[trigger] bases[i] <= log_start
            &&& gone + 1 < bases.len() ==> bases[gone + 1] > log_start
        }),
    decreases bases.len(),
{
    if bases.len() > 1 && bases[1] <= log_start {
        let rest = bases.drop_first();
        law_segments_below_the_start_go(rest, log_start);
        let gone = wholly_below(bases, log_start) as int;
        assert forall|i: int| 0 < i <= gone implies #[trigger] bases[i] <= log_start by {
            if i > 1 {
                assert(rest[i - 1] == bases[i]);
            }
        }
    }
}

/// The newest of the names that have a suffix is one of them, and none is
/// newer; there is none only where no name has it.
pub proof fn law_newest_name(names: Seq<String>, suffix: Seq<char>)
    ensures
        match newest_of(names, suffix) {
            Some(newest) => (exists|i: int|
                0 <= i < names.len() && seq_of_name((#[trigger] names[i])@, suffix) == Some(newest))
                && forall|i: int|
                0 <= i < names.len() ==> (seq_of_name((#[trigger] names[i])@, suffix) matches Some(seq) ==> seq
                    <= newest),
            None => forall|i: int|
                0 <= i < names.len() ==> seq_of_name((#[trigger] names[i])@, suffix) is None,
        },
    decreases names.len(),
{
    if names.len() > 0 {
        let init = names.drop_last();
        let n = names.len() - 1;
        law_newest_name(init, suffix);
        assert forall|i: int| 0 <= i < n implies #[trigger] names[i] == init[i] by {}
        if newest_of(names, suffix) is Some {
            let newest = newest_of(names, suffix).unwrap();
            if seq_of_name(names[n]@, suffix) != Some(newest) {
                let i = choose|i: int|
                    0 <= i < init.len() && seq_of_name((#[trigger] init[i])@, suffix) == Some(newest);
                assert(names[i] == init[i]);
            }
        }
    }
}

/// A partition holds a producer's end marker from an offset on if and only if
/// a control batch of that producer begins there or later; no data batch and no
/// other producer's batch is taken for one.
pub proof fn law_marker_is_a_control_batch(p: PartModel, from: i64, producer_id: i64)
    ensures
        marker_at(p, from, producer_id) ==> exists|offset: i64| #[trigger]
            p.batches.dom().contains(offset) && from <= offset && p.batches[offset].is_control
                && p.batches[offset].producer_id == producer_id,
        forall|offset: i64| #[trigger]
            p.batches.dom().contains(offset) && from <= offset && p.batches[offset].is_control
                && p.batches[offset].producer_id == producer_id ==> marker_at(p, from, producer_id),
{
}

/// An index with the cached bytes of some offsets dropped.
pub open spec fn dropping(batches: Map<i64, EntryModel>, gone: Seq<i64>) -> Map<i64, EntryModel> {
    Map::new(
        |offset: i64| batches.dom().contains(offset),
        |offset: i64|
            if gone.contains(offset) {
                EntryModel { cached: None, ..batches[offset] }
            } else {
                batches[offset]
            },
    )
}

/// The bytes that an index caches.
pub open spec fn bytes_cached(batches: Seq<(i64, EntryModel)>) -> int
    decreases batches.len(),
{
    if batches.len() == 0 {
        0
    } else {
        bytes_cached(batches.drop_last()) + match batches.last().1.cached {
            Some(bytes) => bytes.len() as int,
            None => 0,
        }
    }
}

proof fn lemma_bytes_cached(batches: Seq<(i64, EntryModel)>)
    ensures
        bytes_cached(batches) == total(batches, cache_weight()),
    decreases batches.len(),
{
    if batches.len() > 0 {
        lemma_bytes_cached(batches.drop_last());
    }
}

/// The tail cache keeps the batches that were cached last: the new one is last
/// in line, and of the line the first `gone` lose their cached bytes, no more
/// than it takes for the rest to be within the budget.
pub proof fn law_oldest_are_evicted_from_the_cache(
    p: PartModel,
    offset: i64,
    entry: EntryModel,
    cache_budget: u64,
) -> (gone: nat)
    requires
        sound(p),
        accounted(p),
        !p.batches.dom().contains(offset),
        i64::MIN <= offset + entry.last_offset_delta <= i64::MAX,
        entry.cached is Some,
    ensures
        ({
            let after = indexed(p, offset, entry, cache_budget);
            let line = p.cache_queue.push(offset);
            let all = p.batches.insert(offset, entry);
            &&& gone <= line.len()
            &&& after.cache_queue == line.skip(gone as int)
            &&& after.batches == dropping(all, line.take(gone as int))
            &&& bytes_cached(ordered::<i64, EntryModel>(after.batches)) <= cache_budget
            &&& after.cached_bytes == bytes_cached(ordered::<i64, EntryModel>(after.batches))
            &&& forall|fewer: nat|
                fewer < gone ==> bytes_cached(
                    ordered::<i64, EntryModel>(#[trigger] dropping(all, line.take(fewer as int))),
                ) > cache_budget
        }),
{
    let after = indexed(p, offset, entry, cache_budget);
    let line = p.cache_queue.push(offset);
    let all = p.batches.insert(offset, entry);
    let start = added(p, offset, entry);
    let gone = law_index_accounts_exactly(p, offset, entry, cache_budget);
    assert(start.cache_queue == line);
    assert(without_cached(all, line.take(gone as int)) =~= dropping(all, line.take(gone as int)));
    lemma_bytes_cached(ordered::<i64, EntryModel>(after.batches));
    lemma_total_put::<i64, EntryModel>(p.batches, offset, entry, cache_weight());
    crate::partition::lemma_added(p, offset, entry);
    assert forall|fewer: nat| fewer < gone implies bytes_cached(
        ordered::<i64, EntryModel>(#[trigger] dropping(all, line.take(fewer as int))),
    ) > cache_budget by {
        lemma_evicted_so_far(start, fewer);
        assert(evicted_times(start, fewer).cached_bytes > cache_budget);
        assert(evicted_times(start, fewer).batches =~= dropping(all, line.take(fewer as int)));
        lemma_bytes_cached(ordered::<i64, EntryModel>(evicted_times(start, fewer).batches));
    }
    gone
}

proof fn lemma_evicted_so_far(start: PartModel, n: nat)
    requires
        sound(start),
        accounted(start),
        n <= start.cache_queue.len(),
    ensures
        sound(evicted_times(start, n)),
        accounted(evicted_times(start, n)),
        evicted_times(start, n).cache_queue == start.cache_queue.skip(n as int),
        evicted_times(start, n).batches == dropping(
            start.batches,
            start.cache_queue.take(n as int),
        ),
    decreases n,
{
    let line = start.cache_queue;
    if n == 0 {
        assert(line.skip(0) =~= line);
        assert(dropping(start.batches, line.take(0)) =~= start.batches);
    } else {
        let m = (n - 1) as nat;
        lemma_evicted_so_far(start, m);
        let before = evicted_times(start, m);
        let next = evicted_times(start, n);
        assert(before.cache_queue.len() > 0);
        crate::partition::lemma_evict_oldest(before);
        crate::partition::lemma_evict_accounts(before);
        let oldest = line[m as int];
        assert(before.cache_queue[0] == oldest);
        assert(line.skip(m as int).drop_first() =~= line.skip(n as int));
        let gone = line.take(n as int);
        let earlier = line.take(m as int);
        assert(gone =~= earlier.push(oldest));
        assert forall|o: i64| gone.contains(o) <==> earlier.contains(o) || o == oldest by {
            if earlier.contains(o) {
                let i = choose|i: int| 0 <= i < earlier.len() && earlier[i] == o;
                assert(gone[i] == o);
            }
            if gone.contains(o) && o != oldest {
                let i = choose|i: int| 0 <= i < gone.len() && gone[i] == o;
                assert(earlier[i] == o);
            }
            assert(gone[m as int] == oldest);
        }
        assert(next.batches =~= dropping(start.batches, gone)) by {
            assert forall|o: i64| next.batches.dom().contains(o) implies #[trigger] next.batches[o]
                == dropping(start.batches, gone)[o] by {
                assert(before.batches.dom().contains(o));
            }
        }
    }
}

} // verus!
