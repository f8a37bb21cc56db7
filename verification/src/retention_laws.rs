//! What retention lets go and what it keeps, said of a partition's batches, its
//! active segment and the topic's settings alone.

use crate::model::{Key, Model};
use crate::ordmap::{
    ascending, lemma_ascending_at, lemma_ascending_position, ordered, to_map,
};
use crate::partition::{EntryModel, PartModel, PartitionInner};
use crate::retention::{
    active_segment, boundary, deletable, partition_bytes, retained_start, retention, sealed,
    sealed_of, segment_weight, start_from, timestamp_of,
};
use crate::revise::lemma_listable_empty;
use crate::state::get_or;
use crate::text::integer_value;
use crate::time::{time_of_timestamp, SystemTime};
use crate::topics::{frame_bytes, frame_weight};
use crate::totals::{lemma_total_put, listable, total};
use vstd::prelude::*;

verus! {

/// Whether a batch lies in a segment that is sealed.
pub open spec fn in_sealed(p: PartModel, offset: i64, base: i64) -> bool {
    &&& p.batches.dom().contains(offset)
    &&& p.batches[offset].segment_base == base
    &&& !(p.writer matches Some(writer) && writer.base_offset == base)
}

/// The sizes of a list's batches that lie in a segment, added up.
pub open spec fn size_in(batches: Seq<(i64, EntryModel)>, base: i64) -> int
    decreases batches.len(),
{
    if batches.len() == 0 {
        0
    } else {
        size_in(batches.drop_last(), base) + if batches.last().1.segment_base == base {
            batches.last().1.len as int
        } else {
            0
        }
    }
}

/// The sizes of the segments of a list from one on, added up.
pub open spec fn sizes_from(segments: Seq<(i64, (i64, u64))>, i: int) -> int
    decreases segments.len() - i,
{
    if i < 0 || i >= segments.len() {
        0
    } else {
        segments[i].1.1 + sizes_from(segments, i + 1)
    }
}

/// The bytes left in a partition once the first so many sealed segments are
/// gone, those of the active segment among them.
pub open spec fn bytes_left(p: PartModel, segments: Seq<(i64, (i64, u64))>, gone: int) -> int {
    sizes_from(segments, gone) + match p.writer {
        Some(writer) => writer.position as int,
        None => 0,
    }
}

/// Where what is left begins once the first so many sealed segments are gone.
pub open spec fn begins_at(p: PartModel, segments: Seq<(i64, (i64, u64))>, gone: int) -> i64 {
    if gone < segments.len() {
        segments[gone].0
    } else {
        match p.writer {
            Some(writer) => writer.base_offset,
            None => p.next_offset,
        }
    }
}

/// Whether the newest record of a segment is older than a number of
/// milliseconds, none being meant by a negative one.
pub open spec fn too_old(newest: i64, ms: i64, now_ms: i64) -> bool {
    ms >= 0 && newest >= 0 && now_ms - newest > ms
}

/// Whether so many bytes are too many, no limit being meant by a negative one.
pub open spec fn too_many(left: int, bytes: i64) -> bool {
    bytes >= 0 && left > bytes
}

proof fn lemma_sealed_of(batches: Seq<(i64, EntryModel)>, active: Option<i64>)
    requires
        total(batches, frame_weight()) <= u64::MAX,
    ensures
        listable::<i64, (i64, u64)>(sealed_of(batches, active)),
        forall|base: i64| #[trigger]
            sealed_of(batches, active).dom().contains(base) <==> active != Some(base) && exists|
                i: int,
            |
                0 <= i < batches.len() && (#[trigger] batches[i]).1.segment_base == base,
        forall|base: i64| #[trigger]
            sealed_of(batches, active).dom().contains(base) ==> {
                let (newest, bytes) = sealed_of(batches, active)[base];
                &&& bytes == size_in(batches, base)
                &&& exists|i: int|
                    0 <= i < batches.len() && (#[trigger] batches[i]).1.segment_base == base
                        && batches[i].1.max_timestamp == newest
                &&& forall|i: int|
                    0 <= i < batches.len() && (#[trigger] batches[i]).1.segment_base == base
                        ==> batches[i].1.max_timestamp <= newest
            },
        forall|base: i64|
            #![trigger size_in(batches, base)]
            0 <= size_in(batches, base) <= total(batches, frame_weight()),
        forall|base: i64|
            #![trigger size_in(batches, base)]
            (forall|i: int|
                0 <= i < batches.len() ==> (#[trigger] batches[i]).1.segment_base != base)
                ==> size_in(batches, base) == 0,
    decreases batches.len(),
{
    if batches.len() == 0 {
        lemma_listable_empty::<i64, (i64, u64)>();
    } else {
        let init = batches.drop_last();
        let n = batches.len() - 1;
        let entry = batches[n].1;
        lemma_sealed_of(init, active);
        let before = sealed_of(init, active);
        let after = sealed_of(batches, active);
        assert forall|i: int| 0 <= i < n implies #[trigger] init[i] == batches[i] by {}
        let own = entry.segment_base;
        if active != Some(own) {
            let (newest, bytes) = get_or(before, own, (i64::MIN, 0));
            let latest = if entry.max_timestamp > newest {
                entry.max_timestamp
            } else {
                newest
            };
            lemma_total_put::<i64, (i64, u64)>(
                before,
                own,
                (latest, (bytes + entry.len) as u64),
                segment_weight(),
            );
            if before.dom().contains(own) {
                assert(bytes == size_in(init, own));
            } else {
                assert forall|i: int| 0 <= i < init.len() implies (
                #[trigger] init[i]).1.segment_base != own by {}
                assert(size_in(init, own) == 0);
            }
        }
        assert forall|base: i64| #[trigger] after.dom().contains(base) <==> active != Some(base)
            && exists|i: int|
            0 <= i < batches.len() && (#[trigger] batches[i]).1.segment_base == base by {
            if before.dom().contains(base) {
                let i = choose|i: int|
                    0 <= i < init.len() && (#[trigger] init[i]).1.segment_base == base;
                assert(batches[i].1.segment_base == base);
            }
            if base == own {
                assert(batches[n].1.segment_base == base);
            }
            if active != Some(base) && base != own && exists|i: int|
                0 <= i < batches.len() && (#[trigger] batches[i]).1.segment_base == base {
                let i = choose|i: int|
                    0 <= i < batches.len() && (#[trigger] batches[i]).1.segment_base == base;
                assert(init[i].1.segment_base == base);
                assert(before.dom().contains(base));
            }
        }
        assert forall|base: i64| #[trigger] after.dom().contains(base) implies {
            let (newest, bytes) = after[base];
            &&& bytes == size_in(batches, base)
            &&& exists|i: int|
                0 <= i < batches.len() && (#[trigger] batches[i]).1.segment_base == base
                    && batches[i].1.max_timestamp == newest
            &&& forall|i: int|
                0 <= i < batches.len() && (#[trigger] batches[i]).1.segment_base == base
                    ==> batches[i].1.max_timestamp <= newest
        } by {
            let (newest, bytes) = after[base];
            if before.dom().contains(base) {
                let (old_newest, old_bytes) = before[base];
                let i = choose|i: int|
                    0 <= i < init.len() && (#[trigger] init[i]).1.segment_base == base
                        && init[i].1.max_timestamp == old_newest;
                assert(batches[i].1.segment_base == base);
                assert(old_bytes == size_in(init, base));
            }
            if base == own {
                assert(batches[n].1.segment_base == base);
            }
            assert forall|i: int|
                0 <= i < batches.len() && (#[trigger] batches[i]).1.segment_base
                    == base implies batches[i].1.max_timestamp <= newest by {
                if i < n {
                    assert(init[i].1.segment_base == base);
                    assert(active != Some(base));
                    assert(before.dom().contains(base));
                }
            }
        }
        assert forall|base: i64|
            #![trigger size_in(batches, base)]
            (forall|i: int|
                0 <= i < batches.len() ==> (#[trigger] batches[i]).1.segment_base
                    != base) implies size_in(batches, base) == 0 by {
            assert forall|i: int| 0 <= i < init.len() implies (
            #[trigger] init[i]).1.segment_base != base by {
                assert(batches[i].1.segment_base != base);
            }
            assert(batches[n].1.segment_base != base);
            assert(size_in(init, base) == 0);
        }
        assert forall|base: i64|
            #![trigger size_in(batches, base)]
            0 <= size_in(batches, base) <= total(batches, frame_weight()) by {
            assert(0 <= size_in(init, base) <= total(init, frame_weight()));
        }
    }
}

/// The sealed segments are those that batches lie in, but for the active one,
/// by ascending base, each with the newest timestamp and the size of all its
/// batches.
pub proof fn law_sealed_segments(inner: &PartitionInner)
    requires
        inner.wf(),
        frame_bytes(inner.model()) <= u64::MAX,
    ensures
        ({
            let p = inner.model();
            let segments = sealed(p);
            &&& forall|i: int, j: int|
                0 <= i < j < segments.len() ==> (#[trigger] segments[i]).0 < (
                #[trigger] segments[j]).0
            &&& forall|base: i64, offset: i64| #[trigger]
                in_sealed(p, offset, base) ==> exists|i: int|
                    0 <= i < segments.len() && (#[trigger] segments[i]).0 == base
            &&& forall|i: int|
                0 <= i < segments.len() ==> {
                    let (base, (newest, bytes)) = #[trigger] segments[i];
                    &&& bytes == size_in(ordered::<i64, EntryModel>(p.batches), base)
                    &&& exists|offset: i64| #[trigger]
                        in_sealed(p, offset, base) && p.batches[offset].max_timestamp == newest
                    &&& forall|offset: i64| #[trigger]
                        in_sealed(p, offset, base) ==> p.batches[offset].max_timestamp <= newest
                }
        }),
{
    let p = inner.model();
    let rows = inner.batches.seq();
    inner.batches.lemma_seq();
    let active = active_segment(p);
    lemma_sealed_of(rows, active);
    let map = sealed_of(rows, active);
    let segments = sealed(p);
    assert(ascending::<i64, (i64, u64)>(segments) && to_map(segments) == map);
    assert forall|i: int, j: int| 0 <= i < j < segments.len() implies (#[trigger] segments[i]).0 < (
    #[trigger] segments[j]).0 by {
        assert(i64::precedes(segments[i].0, segments[j].0));
    }
    assert forall|base: i64, offset: i64| #[trigger] in_sealed(p, offset, base) implies exists|
        i: int,
    |
        0 <= i < segments.len() && (#[trigger] segments[i]).0 == base by {
        let k = lemma_ascending_position::<i64, EntryModel>(rows, offset);
        assert(rows[k].1.segment_base == base);
        assert(map.dom().contains(base));
        let i = lemma_ascending_position::<i64, (i64, u64)>(segments, base);
    }
    assert forall|i: int| 0 <= i < segments.len() implies {
        let (base, (newest, bytes)) = #[trigger] segments[i];
        &&& bytes == size_in(ordered::<i64, EntryModel>(p.batches), base)
        &&& exists|offset: i64| #[trigger]
            in_sealed(p, offset, base) && p.batches[offset].max_timestamp == newest
        &&& forall|offset: i64| #[trigger]
            in_sealed(p, offset, base) ==> p.batches[offset].max_timestamp <= newest
    } by {
        let (base, (newest, bytes)) = segments[i];
        lemma_ascending_at::<i64, (i64, u64)>(segments, i);
        assert(map.dom().contains(base));
        let k = choose|k: int|
            0 <= k < rows.len() && (#[trigger] rows[k]).1.segment_base == base
                && rows[k].1.max_timestamp == newest;
        lemma_ascending_at::<i64, EntryModel>(rows, k);
        assert(in_sealed(p, rows[k].0, base));
        assert forall|offset: i64| #[trigger] in_sealed(p, offset, base) implies p.batches[offset].max_timestamp
            <= newest by {
            let m = lemma_ascending_position::<i64, EntryModel>(rows, offset);
            assert(rows[m].1.segment_base == base);
        }
    }
}

proof fn lemma_sizes_total(segments: Seq<(i64, (i64, u64))>, i: int)
    requires
        0 <= i <= segments.len(),
    ensures
        total(segments.take(i), segment_weight()) + sizes_from(segments, i) == total(
            segments,
            segment_weight(),
        ),
    decreases segments.len() - i,
{
    if i < segments.len() {
        lemma_sizes_total(segments, i + 1);
        assert(segments.take(i + 1).drop_last() =~= segments.take(i));
    } else {
        assert(segments.take(i) =~= segments);
    }
}

/// Where the log starts: at the greatest of where it started and where what
/// was left began as each of the first `gone` sealed segments went.
pub open spec fn starts_after(
    p: PartModel,
    segments: Seq<(i64, (i64, u64))>,
    from: int,
    gone: int,
    start: i64,
    after: i64,
) -> bool {
    &&& after >= start
    &&& forall|k: int| from < k <= gone ==> after >= #[trigger] begins_at(p, segments, k)
    &&& after == start || exists|k: int|
        from < k <= gone && after == #[trigger] begins_at(p, segments, k)
}

proof fn lemma_start_from(
    p: PartModel,
    segments: Seq<(i64, (i64, u64))>,
    i: int,
    start: i64,
    kept: (i64, i64),
    now_ms: i64,
) -> (gone: int)
    requires
        0 <= i <= segments.len(),
    ensures
        i <= gone <= segments.len(),
        forall|k: int|
            i <= k < gone ==> too_old((#[trigger] segments[k]).1.0, kept.0, now_ms) || too_many(
                bytes_left(p, segments, k),
                kept.1,
            ),
        gone < segments.len() ==> !too_old(segments[gone].1.0, kept.0, now_ms) && !too_many(
            bytes_left(p, segments, gone),
            kept.1,
        ),
        starts_after(
            p,
            segments,
            i,
            gone,
            start,
            start_from(p, segments, i, bytes_left(p, segments, i), start, kept, now_ms),
        ),
    decreases segments.len() - i,
{
    if i >= segments.len() {
        i
    } else {
        let left = bytes_left(p, segments, i);
        let newest = segments[i].1.0;
        if too_old(newest, kept.0, now_ms) || too_many(left, kept.1) {
            let next = boundary(p, segments, i);
            assert(next == begins_at(p, segments, i + 1));
            let moved = if next > start {
                next
            } else {
                start
            };
            let gone = lemma_start_from(p, segments, i + 1, moved, kept, now_ms);
            let after = start_from(p, segments, i, left, start, kept, now_ms);
            assert(bytes_left(p, segments, i + 1) == left - segments[i].1.1);
            assert forall|k: int| i < k <= gone implies after >= #[trigger] begins_at(
                p,
                segments,
                k,
            ) by {}
            if after != start {
                if after == moved {
                    assert(after == begins_at(p, segments, i + 1));
                } else {
                    let k = choose|k: int|
                        i + 1 < k <= gone && after == #[trigger] begins_at(p, segments, k);
                    assert(i < k <= gone);
                }
            }
            gone
        } else {
            i
        }
    }
}

/// Retention lets the oldest sealed segments go, so many as are due: each that
/// goes is too old, or finds too many bytes left, either limit being enough.
/// The first that stays is not too old, whatever the limit of bytes is, and
/// finds no more bytes left than that limit, whatever the limit of age is. The
/// log then starts where what is left begins.
pub proof fn law_retention_lets_go_what_is_due(
    inner: &PartitionInner,
    kept: (i64, i64),
    now_ms: i64,
) -> (gone: int)
    requires
        inner.wf(),
        frame_bytes(inner.model()) <= u64::MAX,
    ensures
        ({
            let p = inner.model();
            let segments = sealed(p);
            let (ms, bytes) = kept;
            &&& 0 <= gone <= segments.len()
            &&& forall|i: int|
                0 <= i < gone ==> too_old((#[trigger] segments[i]).1.0, ms, now_ms) || too_many(
                    bytes_left(p, segments, i),
                    bytes,
                )
            &&& ms >= 0 && gone < segments.len() ==> !too_old(segments[gone].1.0, ms, now_ms)
            &&& bytes >= 0 ==> gone == segments.len() || bytes_left(p, segments, gone) <= bytes
            &&& starts_after(
                p,
                segments,
                0,
                gone,
                p.log_start,
                retained_start(p, kept, now_ms),
            )
        }),
{
    let p = inner.model();
    let segments = sealed(p);
    lemma_sizes_total(segments, 0);
    assert(segments.take(0) =~= Seq::<(i64, (i64, u64))>::empty());
    assert(partition_bytes(p) as int == bytes_left(p, segments, 0));
    lemma_start_from(p, segments, 0, p.log_start, kept, now_ms)
}

/// The segment files that go are those of the directory that begin before the
/// new start, but for the active one.
pub proof fn law_files_before_the_start_go(bases: Seq<i64>, new_start: i64, active: Option<i64>)
    ensures
        deletable(bases, new_start, active) == bases.filter(
            |base: i64| base < new_start && active != Some(base),
        ),
        forall|base: i64| #[trigger]
            deletable(bases, new_start, active).contains(base) <==> bases.contains(base) && base
                < new_start && active != Some(base),
    decreases bases.len(),
{
    reveal(Seq::filter);
    if bases.len() > 0 {
        let init = bases.drop_last();
        law_files_before_the_start_go(init, new_start, active);
        let rest = deletable(init, new_start, active);
        let all = deletable(bases, new_start, active);
        assert forall|base: i64| #[trigger] all.contains(base) <==> bases.contains(base) && base
            < new_start && active != Some(base) by {
            if rest.contains(base) {
                let i = choose|i: int| 0 <= i < rest.len() && rest[i] == base;
                assert(all[i] == base);
            }
            if all.contains(base) {
                let i = choose|i: int| 0 <= i < all.len() && all[i] == base;
                if i < rest.len() {
                    assert(rest[i] == base);
                    let j = choose|j: int| 0 <= j < init.len() && init[j] == base;
                    assert(bases[j] == base);
                } else {
                    assert(bases[bases.len() - 1] == base);
                }
            }
            if bases.contains(base) && base < new_start && active != Some(base) {
                if bases.last() == base {
                    assert(all[all.len() - 1] == base);
                } else {
                    let j = choose|j: int| 0 <= j < bases.len() && bases[j] == base;
                    assert(init[j] == base);
                    assert(rest.contains(base));
                }
            }
        }
    }
}

/// The number that a setting of a name says, if it is of that name and says
/// one.
pub open spec fn says(config: (Seq<char>, Option<Seq<char>>), name: Seq<char>) -> Option<i64> {
    match config.1 {
        Some(value) => if config.0 == name {
            integer_value(value)
        } else {
            None
        },
        None => None,
    }
}

/// Whether a number is what the last setting of a name says that says one, or
/// a default where there is none.
pub open spec fn last_said(
    configs: Seq<(Seq<char>, Option<Seq<char>>)>,
    name: Seq<char>,
    number: i64,
    default: int,
) -> bool {
    ||| exists|i: int|
        0 <= i < configs.len() && says(#[trigger] configs[i], name) == Some(number) && forall|
            j: int,
        |
            i < j < configs.len() ==> says(#[trigger] configs[j], name) is None
    ||| number == default && forall|i: int|
        0 <= i < configs.len() ==> says(#[trigger] configs[i], name) is None
}

proof fn lemma_last_said(
    configs: Seq<(Seq<char>, Option<Seq<char>>)>,
    name: Seq<char>,
    number: i64,
    default: int,
)
    requires
        configs.len() > 0,
        says(configs.last(), name) == Some(number) || (says(configs.last(), name) is None
            && last_said(configs.drop_last(), name, number, default)),
    ensures
        last_said(configs, name, number, default),
{
    let init = configs.drop_last();
    let n = configs.len() - 1;
    assert(configs.last() == configs[n]);
    assert forall|i: int| 0 <= i < n implies #[trigger] init[i] == configs[i] by {}
    if says(configs.last(), name) is None {
        if exists|i: int|
            0 <= i < init.len() && says(#[trigger] init[i], name) == Some(number) && forall|j: int|
                i < j < init.len() ==> says(#[trigger] init[j], name) is None {
            let i = choose|i: int|
                0 <= i < init.len() && says(#[trigger] init[i], name) == Some(number) && forall|
                    j: int,
                |
                    i < j < init.len() ==> says(#[trigger] init[j], name) is None;
            assert(says(configs[i], name) == Some(number));
            assert forall|j: int| i < j < configs.len() implies says(
                #[trigger] configs[j],
                name,
            ) is None by {
                if j < n {
                    assert(says(init[j], name) is None);
                }
            }
        } else {
            assert forall|i: int| 0 <= i < configs.len() implies says(
                #[trigger] configs[i],
                name,
            ) is None by {
                if i < n {
                    assert(says(init[i], name) is None);
                }
            }
        }
    }
}

/// A topic's retention is what the last of its settings says that is a number,
/// for `retention.ms` and for `retention.bytes` each: seven days and any number
/// of bytes where none does.
pub proof fn law_last_setting_counts(configs: Seq<(Seq<char>, Option<Seq<char>>)>)
    ensures
        last_said(configs, "retention.ms"@, retention(configs).0, 7int * 24 * 60 * 60 * 1000),
        last_said(configs, "retention.bytes"@, retention(configs).1, -1int),
    decreases configs.len(),
{
    if configs.len() > 0 {
        reveal_strlit("retention.ms");
        reveal_strlit("retention.bytes");
        assert("retention.ms"@.len() != "retention.bytes"@.len());
        law_last_setting_counts(configs.drop_last());
        let (ms, bytes) = retention(configs);
        lemma_last_said(configs, "retention.ms"@, ms, 7int * 24 * 60 * 60 * 1000);
        lemma_last_said(configs, "retention.bytes"@, bytes, -1int);
    }
}

/// A point of time counts as the whole milliseconds since the epoch, and as 0
/// before it: the last of a batch's timestamps that is not after it.
pub proof fn law_now_in_milliseconds(now: SystemTime, ms: i64)
    requires
        now.nanos <= i64::MAX,
    ensures
        now.nanos < 0 ==> timestamp_of(now) == 0,
        now.nanos >= 0 ==> timestamp_of(now) * 1_000_000 <= now.nanos < timestamp_of(now)
            * 1_000_000 + 1_000_000,
        now.nanos >= 0 && ms >= 0 ==> (ms <= timestamp_of(now) <==> time_of_timestamp(
            ms,
        ).unwrap().nanos <= now.nanos),
{
}

} // verus!
