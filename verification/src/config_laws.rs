//! What the pairs of a URL's query set.

use crate::config::{
    default_knobs, knobs_of, size_in, span_in, turned, FsyncMode, Knobs,
};
use crate::text::rest;
use vstd::prelude::*;

verus! {

/// The value that the last pair of a key has.
pub open spec fn last_value(pairs: Seq<(Seq<char>, Seq<char>)>, key: Seq<char>) -> Option<Seq<char>>
    decreases pairs.len(),
{
    if pairs.len() == 0 {
        None
    } else if pairs.last().0 == key {
        Some(pairs.last().1)
    } else {
        last_value(pairs.drop_last(), key)
    }
}

/// Whether a number of bytes is what a size says, or a default without one.
pub open spec fn says_size(value: Option<Seq<char>>, bytes: u64, default: u64) -> bool {
    match value {
        Some(text) => size_in(text) == Some(bytes),
        None => bytes == default,
    }
}

/// Whether a number of nanoseconds is what a span says, or a default without
/// one.
pub open spec fn says_span(value: Option<Seq<char>>, nanos: u128, default: u128) -> bool {
    match value {
        Some(text) => span_in(text) == Some(nanos),
        None => nanos == default,
    }
}

/// Whether a sync mode is what a text says: `always`, or an interval.
pub open spec fn says_fsync(value: Option<Seq<char>>, mode: FsyncMode) -> bool {
    match value {
        Some(text) => match mode {
            FsyncMode::Always => text == "always"@,
            FsyncMode::Interval(span) => text != "always"@ && exists|behind: Seq<char>|
                text == "interval:"@ + behind && #[trigger] span_in(behind) == Some(span.nanos),
        },
        None => mode == FsyncMode::Always,
    }
}

proof fn lemma_keys()
    ensures
        "fsync"@.len() == 5,
        "fetch_max_block"@.len() == 15,
        "segment_bytes"@.len() == 13,
        "segment_bytes"@[0] == 's',
        "snapshot_wal_bytes"@.len() == 18,
        "tail_cache_bytes"@.len() == 16,
        "disk_budget"@.len() == 11,
        "disk_budget"@[0] == 'd',
        "tier"@.len() == 4,
        "tier_interval"@.len() == 13,
        "tier_interval"@[0] == 't',
        "segment_age"@.len() == 11,
        "segment_age"@[0] == 's',
{
    reveal_strlit("fsync");
    reveal_strlit("fetch_max_block");
    reveal_strlit("segment_bytes");
    reveal_strlit("snapshot_wal_bytes");
    reveal_strlit("tail_cache_bytes");
    reveal_strlit("disk_budget");
    reveal_strlit("tier");
    reveal_strlit("tier_interval");
    reveal_strlit("segment_age");
}

/// Whether knobs are what the last pair of each key says, and the defaults
/// where there is none: a sync for every batch, fetches that wait a quarter of
/// a second, segments of 256 MiB, a snapshot for 64 MiB of WAL, a cache of
/// 8 MiB, no disk budget, no object store, uploads every 5 seconds and segments
/// sealed after 5 minutes.
pub open spec fn set_by(knobs: Knobs, pairs: Seq<(Seq<char>, Seq<char>)>) -> bool {
    let mib: u64 = 1_048_576;
    &&& says_fsync(last_value(pairs, "fsync"@), knobs.fsync)
    &&& says_span(
        last_value(pairs, "fetch_max_block"@),
        knobs.fetch_max_block.nanos,
        250_000_000,
    )
    &&& says_size(last_value(pairs, "segment_bytes"@), knobs.segment_bytes, (256 * mib) as u64)
    &&& says_size(
        last_value(pairs, "snapshot_wal_bytes"@),
        knobs.snapshot_wal_bytes,
        (64 * mib) as u64,
    )
    &&& says_size(
        last_value(pairs, "tail_cache_bytes"@),
        knobs.tail_cache_bytes,
        (8 * mib) as u64,
    )
    &&& says_size(last_value(pairs, "disk_budget"@), knobs.disk_budget_bytes, 0)
    &&& knobs.tier == last_value(pairs, "tier"@)
    &&& says_span(last_value(pairs, "tier_interval"@), knobs.tier_interval.nanos, 5_000_000_000)
    &&& says_span(last_value(pairs, "segment_age"@), knobs.segment_age.nanos, 300_000_000_000)
}

/// The last pair of each key sets its knob, and a knob without one has its
/// default; pairs of other keys set none.
pub proof fn law_last_pair_sets_the_knob(pairs: Seq<(Seq<char>, Seq<char>)>)
    ensures
        knobs_of(pairs) matches Ok(knobs) ==> set_by(knobs, pairs),
    decreases pairs.len(),
{
    if pairs.len() > 0 && knobs_of(pairs) is Ok {
        law_last_pair_sets_the_knob(pairs.drop_last());
        lemma_keys();
        let (key, value) = pairs.last();
        if key == "fsync"@ && value != "always"@ {
            let behind = rest(value, "interval:"@).unwrap();
            assert(value =~= "interval:"@ + behind);
            assert(span_in(behind) is Some);
        }
    }
}

/// Whether a pair cannot be read: a size or a span that is none, or a sync mode
/// that is neither `always` nor an interval.
pub open spec fn is_wrong(key: Seq<char>, value: Seq<char>) -> bool {
    ||| (key == "segment_bytes"@ || key == "snapshot_wal_bytes"@ || key == "tail_cache_bytes"@
        || key == "disk_budget"@) && size_in(value) is None
    ||| (key == "fetch_max_block"@ || key == "tier_interval"@ || key == "segment_age"@) && span_in(
        value,
    ) is None
    ||| key == "fsync"@ && value != "always"@ && !exists|behind: Seq<char>|
        value == "interval:"@ + behind && #[trigger] span_in(behind) is Some
}

/// Knobs cannot be read if and only if some pair cannot be; what is said is
/// said of the first.
pub proof fn law_first_wrong_pair_is_told(pairs: Seq<(Seq<char>, Seq<char>)>)
    ensures
        knobs_of(pairs) is Err <==> exists|i: int|
            0 <= i < pairs.len() && is_wrong((#[trigger] pairs[i]).0, pairs[i].1),
        knobs_of(pairs) matches Err(reason) ==> exists|i: int|
            0 <= i < pairs.len() && is_wrong((#[trigger] pairs[i]).0, pairs[i].1) && (forall|j: int|
                0 <= j < i ==> !is_wrong((#[trigger] pairs[j]).0, pairs[j].1)) && turned(
                default_knobs(),
                pairs[i].0,
                pairs[i].1,
            ) == Err::<Knobs, Seq<char>>(reason),
    decreases pairs.len(),
{
    if pairs.len() > 0 {
        let init = pairs.drop_last();
        let n = pairs.len() - 1;
        assert forall|i: int| 0 <= i < n implies #[trigger] pairs[i] == init[i] by {}
        law_first_wrong_pair_is_told(init);
        let (key, value) = pairs[n];
        lemma_keys();
        match knobs_of(init) {
            Err(reason) => {
                let i = choose|i: int|
                    0 <= i < init.len() && is_wrong((#[trigger] init[i]).0, init[i].1) && (forall|
                        j: int,
                    |
                        0 <= j < i ==> !is_wrong((#[trigger] init[j]).0, init[j].1)) && turned(
                        default_knobs(),
                        init[i].0,
                        init[i].1,
                    ) == Err::<Knobs, Seq<char>>(reason);
                assert(is_wrong(pairs[i].0, pairs[i].1));
                assert forall|j: int| 0 <= j < i implies !is_wrong(
                    (#[trigger] pairs[j]).0,
                    pairs[j].1,
                ) by {
                    assert(!is_wrong(init[j].0, init[j].1));
                }
            },
            Ok(knobs) => {
                assert forall|j: int| 0 <= j < n implies !is_wrong(
                    (#[trigger] pairs[j]).0,
                    pairs[j].1,
                ) by {
                    assert(!is_wrong(init[j].0, init[j].1));
                }
                lemma_turned(knobs, key, value);
                assert(pairs.last() == pairs[n]);
            },
        }
    }
}

proof fn lemma_turned(knobs: Knobs, key: Seq<char>, value: Seq<char>)
    ensures
        turned(knobs, key, value) is Err <==> is_wrong(key, value),
        turned(knobs, key, value) matches Err(reason) ==> turned(default_knobs(), key, value)
            == Err::<Knobs, Seq<char>>(reason),
{
    lemma_keys();
    if key == "fsync"@ && value != "always"@ {
        let prefix = "interval:"@;
        if rest(value, prefix) is Some {
            assert(value =~= prefix + rest(value, prefix).unwrap());
        }
        assert forall|behind: Seq<char>| value == prefix + behind implies rest(value, prefix)
            == Some(behind) by {
            assert(value.take(prefix.len() as int) =~= prefix);
            assert(value.skip(prefix.len() as int) =~= behind);
        }
        if rest(value, prefix) is Some && span_in(rest(value, prefix).unwrap()) is Some {
            let behind = rest(value, prefix).unwrap();
            assert(span_in(behind) is Some);
        }
        if exists|behind: Seq<char>|
            value == prefix + behind && #[trigger] span_in(behind) is Some {
            let behind = choose|behind: Seq<char>|
                value == prefix + behind && #[trigger] span_in(behind) is Some;
            assert(rest(value, prefix) == Some(behind));
        }
    }
}

} // verus!
