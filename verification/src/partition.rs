//! Per-partition log state: the batch index with a bounded tail cache, the
//! watermarks, the open transactions that pin the last stable offset, and the
//! index of aborted transactions.
//!
//! Batch bytes live in segment files; the index holds their locations. The
//! high watermark advances only once a batch's sync is acknowledged, so that
//! readers never see what a crash would lose.

use crate::log::SegmentWriter;
use crate::model::Model;
use crate::ordmap::{chosen, chosen_of, lemma_ascending_position, ordered, OrdMap, Pick};
use crate::totals::{
    lemma_listable_chosen, lemma_total_covers, lemma_total_nothing, lemma_total_put,
    lemma_total_split, listable, total,
};
use std::collections::VecDeque;
use vstd::prelude::*;

verus! {

/// Where a batch stands and what its header says.
#[derive(Debug, PartialEq, Eq)]
pub struct BatchEntry {
    /// The segment that holds the frame, and where in it.
    pub segment_base: i64,
    pub position: u64,
    pub len: u32,
    /// Whether only the object store holds the segment.
    pub tiered: bool,
    /// The batch's bytes while within the tail-cache budget.
    pub cached: Option<Vec<u8>>,
    pub last_offset_delta: i32,
    pub max_timestamp: i64,
    pub is_control: bool,
    pub is_transactional: bool,
    pub producer_id: i64,
    pub producer_epoch: i16,
    pub base_sequence: i32,
}

/// What a [`BatchEntry`] says.
pub struct EntryModel {
    pub segment_base: i64,
    pub position: u64,
    pub len: u32,
    pub tiered: bool,
    pub cached: Option<Seq<u8>>,
    pub last_offset_delta: i32,
    pub max_timestamp: i64,
    pub is_control: bool,
    pub is_transactional: bool,
    pub producer_id: i64,
    pub producer_epoch: i16,
    pub base_sequence: i32,
}

impl Model for BatchEntry {
    type V = EntryModel;

    open spec fn model(&self) -> EntryModel {
        EntryModel {
            segment_base: self.segment_base,
            position: self.position,
            len: self.len,
            tiered: self.tiered,
            cached: match self.cached {
                Some(bytes) => Some(bytes@),
                None => None,
            },
            last_offset_delta: self.last_offset_delta,
            max_timestamp: self.max_timestamp,
            is_control: self.is_control,
            is_transactional: self.is_transactional,
            producer_id: self.producer_id,
            producer_epoch: self.producer_epoch,
            base_sequence: self.base_sequence,
        }
    }

    open spec fn wf(&self) -> bool {
        true
    }

    fn dup(&self) -> (copy: Self) {
        BatchEntry {
            segment_base: self.segment_base,
            position: self.position,
            len: self.len,
            tiered: self.tiered,
            cached: match &self.cached {
                Some(bytes) => Some(bytes.clone()),
                None => None,
            },
            last_offset_delta: self.last_offset_delta,
            max_timestamp: self.max_timestamp,
            is_control: self.is_control,
            is_transactional: self.is_transactional,
            producer_id: self.producer_id,
            producer_epoch: self.producer_epoch,
            base_sequence: self.base_sequence,
        }
    }
}

/// The offsets that an aborted transaction produced.
#[derive(Clone, Copy, Debug, PartialEq, Eq, Structural)]
pub struct AbortedRange {
    pub producer: i64,
    pub offset_start: i64,
    pub offset_end: i64,
}

/// A transaction incarnation on a partition: its id, producer and epoch.
pub type OpenTxnKey = (String, (i64, i16));

/// The log state of one partition.
pub struct PartitionInner {
    pub log_start: i64,
    /// The next offset to assign (appended, not necessarily durable).
    pub next_offset: i64,
    /// The first offset not yet durable: the high watermark that readers see.
    pub durable_offset: i64,
    pub batches: OrdMap<i64, BatchEntry>,
    /// Open transactions and the first offset each produced here.
    pub open_txns: OrdMap<OpenTxnKey, i64>,
    pub aborted: Vec<AbortedRange>,
    /// The active segment, created on first produce.
    pub writer: Option<SegmentWriter>,
    /// Offsets whose entries may hold cached bytes, oldest first.
    pub cache_queue: VecDeque<i64>,
    pub cached_bytes: u64,
    /// The segments that the object store holds in full.
    pub uploaded: OrdMap<i64, ()>,
}

/// What a [`PartitionInner`] says.
#[verifier::ext_equal]
pub struct PartModel {
    pub log_start: i64,
    pub next_offset: i64,
    pub durable_offset: i64,
    pub batches: Map<i64, EntryModel>,
    pub open_txns: Map<(Seq<char>, (i64, i16)), i64>,
    pub aborted: Seq<AbortedRange>,
    pub writer: Option<SegmentWriter>,
    pub cache_queue: Seq<i64>,
    pub cached_bytes: int,
    pub uploaded: Map<i64, ()>,
}

/// The bytes that an entry caches.
pub open spec fn cache_weight() -> spec_fn(EntryModel) -> nat {
    |entry: EntryModel|
        match entry.cached {
            Some(bytes) => bytes.len(),
            None => 0,
        }
}

/// The bytes that are cached.
pub open spec fn cached_total(batches: Map<i64, EntryModel>) -> nat {
    total(ordered::<i64, EntryModel>(batches), cache_weight())
}

/// The last offset of a batch.
pub open spec fn end_offset(base: i64, entry: EntryModel) -> int {
    base + entry.last_offset_delta
}

/// What holds of every partition: readers start at or below the high
/// watermark, every batch ends at an offset, cached bytes are accounted for
/// and in line to be evicted.
pub open spec fn sound(p: PartModel) -> bool {
    &&& p.log_start <= p.durable_offset
    &&& listable::<i64, EntryModel>(p.batches)
    &&& forall|o: i64|
        #[trigger] p.batches.dom().contains(o) ==> i64::MIN <= end_offset(o, p.batches[o])
            <= i64::MAX
    &&& cached_total(p.batches) <= p.cached_bytes
    &&& forall|o: i64|
        #[trigger] p.batches.dom().contains(o) && p.batches[o].cached is Some
            ==> p.cache_queue.contains(o)
}

impl Model for PartitionInner {
    type V = PartModel;

    open spec fn model(&self) -> PartModel {
        PartModel {
            log_start: self.log_start,
            next_offset: self.next_offset,
            durable_offset: self.durable_offset,
            batches: self.batches.model(),
            open_txns: self.open_txns.model(),
            aborted: self.aborted@,
            writer: self.writer,
            cache_queue: self.cache_queue@,
            cached_bytes: self.cached_bytes as int,
            uploaded: self.uploaded.model(),
        }
    }

    open spec fn wf(&self) -> bool {
        &&& self.batches.wf()
        &&& self.open_txns.wf()
        &&& self.uploaded.wf()
        &&& sound(self.model())
    }

    fn dup(&self) -> (copy: Self) {
        PartitionInner {
            log_start: self.log_start,
            next_offset: self.next_offset,
            durable_offset: self.durable_offset,
            batches: self.batches.dup(),
            open_txns: self.open_txns.dup(),
            aborted: self.aborted.clone(),
            writer: self.writer,
            cache_queue: self.cache_queue.clone(),
            cached_bytes: self.cached_bytes,
            uploaded: self.uploaded.dup(),
        }
    }
}

/// A partition that holds nothing.
pub open spec fn empty_part() -> PartModel {
    PartModel {
        log_start: 0,
        next_offset: 0,
        durable_offset: 0,
        batches: Map::empty(),
        open_txns: Map::empty(),
        aborted: Seq::empty(),
        writer: None,
        cache_queue: Seq::empty(),
        cached_bytes: 0,
        uploaded: Map::empty(),
    }
}

/// The least of a list of offsets and a bound.
pub open spec fn lowest<A>(s: Seq<(A, i64)>, bound: i64) -> i64
    decreases s.len(),
{
    if s.len() == 0 {
        bound
    } else {
        let rest = lowest(s.drop_last(), bound);
        if s.last().1 < rest {
            s.last().1
        } else {
            rest
        }
    }
}

/// The last stable offset: where the first open transaction begins, and the
/// high watermark at most.
pub open spec fn stable(p: PartModel) -> i64 {
    lowest(ordered::<OpenTxnKey, i64>(p.open_txns), p.durable_offset)
}

/// The partition with a batch in its index and cache.
pub open spec fn added(p: PartModel, offset: i64, entry: EntryModel) -> PartModel {
    PartModel {
        batches: p.batches.insert(offset, entry),
        cache_queue: if entry.cached is Some {
            p.cache_queue.push(offset)
        } else {
            p.cache_queue
        },
        cached_bytes: p.cached_bytes + cache_weight()(entry),
        ..p
    }
}

/// An entry without its cached bytes.
pub open spec fn uncached(entry: EntryModel) -> EntryModel {
    EntryModel { cached: None, ..entry }
}

/// The partition with the oldest cached batch evicted.
pub open spec fn evict_oldest(p: PartModel) -> PartModel {
    let oldest = p.cache_queue[0];
    if p.batches.dom().contains(oldest) && p.batches[oldest].cached is Some {
        PartModel {
            batches: p.batches.insert(oldest, uncached(p.batches[oldest])),
            cache_queue: p.cache_queue.drop_first(),
            cached_bytes: p.cached_bytes - cache_weight()(p.batches[oldest]),
            ..p
        }
    } else {
        PartModel { cache_queue: p.cache_queue.drop_first(), ..p }
    }
}

/// The partition with cached batches evicted, oldest first, until the rest is
/// within the budget.
pub open spec fn evicted(p: PartModel, cache_budget: u64) -> PartModel
    decreases p.cache_queue.len(),
{
    if p.cached_bytes <= cache_budget || p.cache_queue.len() == 0 {
        p
    } else {
        evicted(evict_oldest(p), cache_budget)
    }
}

/// The partition after a batch was recorded.
pub open spec fn indexed(p: PartModel, offset: i64, entry: EntryModel, cache_budget: u64) -> PartModel {
    evicted(added(p, offset, entry), cache_budget)
}

/// An offset kept between the log start and the high watermark.
pub open spec fn clamped(p: PartModel, offset: i64) -> i64 {
    if offset < p.log_start {
        p.log_start
    } else if offset > p.durable_offset {
        p.durable_offset
    } else {
        offset
    }
}

/// The batches that stay when the log starts at an offset: those that begin
/// there or later, and those that straddle it.
pub open spec fn stays(at: i64) -> spec_fn(i64, EntryModel) -> bool {
    |base: i64, entry: EntryModel| base >= at || end_offset(base, entry) >= at
}

/// The batches that go.
pub open spec fn goes(at: i64) -> spec_fn(i64, EntryModel) -> bool {
    |base: i64, entry: EntryModel| !(base >= at || end_offset(base, entry) >= at)
}

/// The aborted ranges that reach an offset.
pub open spec fn reaching(aborted: Seq<AbortedRange>, at: i64) -> Seq<AbortedRange>
    decreases aborted.len(),
{
    if aborted.len() == 0 {
        aborted
    } else {
        let rest = reaching(aborted.drop_last(), at);
        if aborted.last().offset_end >= at {
            rest.push(aborted.last())
        } else {
            rest
        }
    }
}

/// The partition after its log start moved to an offset.
pub open spec fn advanced(p: PartModel, offset: i64) -> PartModel {
    let at = clamped(p, offset);
    PartModel {
        log_start: at,
        batches: chosen(p.batches, stays(at)),
        aborted: reaching(p.aborted, at),
        cached_bytes: p.cached_bytes - cached_total(chosen(p.batches, goes(at))),
        ..p
    }
}

/// Picks what stays when the log starts at an offset.
struct Staying {
    at: i64,
}

impl Pick<i64, BatchEntry> for Staying {
    closed spec fn picks(&self, k: i64, v: EntryModel) -> bool {
        stays(self.at)(k, v)
    }

    fn pick(&self, key: &i64, value: &BatchEntry) -> (b: bool) {
        *key >= self.at || *key as i128 + value.last_offset_delta as i128 >= self.at as i128
    }
}

/// Evicting keeps a partition sound and never leaves more cached than before.
pub proof fn lemma_evict_oldest(p: PartModel)
    requires
        sound(p),
        p.cache_queue.len() > 0,
    ensures
        sound(evict_oldest(p)),
{
    let oldest = p.cache_queue[0];
    let after = evict_oldest(p);
    if p.batches.dom().contains(oldest) && p.batches[oldest].cached is Some {
        lemma_total_put::<i64, EntryModel>(
            p.batches,
            oldest,
            uncached(p.batches[oldest]),
            cache_weight(),
        );
    }
    assert forall|o: i64| #[trigger]
        after.batches.dom().contains(o) && after.batches[o].cached is Some implies after.cache_queue.contains(
        o,
    ) by {
        assert(p.batches.dom().contains(o));
        let i = choose|i: int| 0 <= i < p.cache_queue.len() && p.cache_queue[i] == o;
        assert(o != oldest);
        assert(after.cache_queue[i - 1] == o);
    }
    assert forall|o: i64| #[trigger] after.batches.dom().contains(o) implies i64::MIN
        <= end_offset(o, after.batches[o]) <= i64::MAX by {
        assert(p.batches.dom().contains(o));
    }
}

/// Recording a batch keeps a partition sound before anything is evicted.
pub proof fn lemma_added(p: PartModel, offset: i64, entry: EntryModel)
    requires
        sound(p),
        i64::MIN <= end_offset(offset, entry) <= i64::MAX,
    ensures
        sound(added(p, offset, entry)),
{
    let after = added(p, offset, entry);
    lemma_total_put::<i64, EntryModel>(p.batches, offset, entry, cache_weight());
    assert forall|o: i64| #[trigger]
        after.batches.dom().contains(o) && after.batches[o].cached is Some implies after.cache_queue.contains(
        o,
    ) by {
        if o == offset {
            assert(after.cache_queue[after.cache_queue.len() - 1] == o);
        } else {
            assert(p.batches.dom().contains(o));
            let i = choose|i: int| 0 <= i < p.cache_queue.len() && p.cache_queue[i] == o;
            assert(after.cache_queue[i] == o);
        }
    }
    assert forall|o: i64| #[trigger] after.batches.dom().contains(o) implies i64::MIN
        <= end_offset(o, after.batches[o]) <= i64::MAX by {
        if o != offset {
            assert(p.batches.dom().contains(o));
        }
    }
}

/// Whatever was recorded, the tail cache ends up within its budget.
pub proof fn law_cache_within_budget(
    p: PartModel,
    offset: i64,
    entry: EntryModel,
    cache_budget: u64,
)
    requires
        sound(p),
        i64::MIN <= end_offset(offset, entry) <= i64::MAX,
    ensures
        cached_total(indexed(p, offset, entry, cache_budget).batches) <= cache_budget,
{
    lemma_added(p, offset, entry);
    lemma_evicted_within(added(p, offset, entry), cache_budget);
}

/// Whether exactly what is cached is counted.
pub open spec fn accounted(p: PartModel) -> bool {
    p.cached_bytes == cached_total(p.batches)
}

/// The partition with the oldest cached batches evicted, so many times.
pub open spec fn evicted_times(p: PartModel, n: nat) -> PartModel
    decreases n,
{
    if n == 0 {
        p
    } else {
        evict_oldest(evicted_times(p, (n - 1) as nat))
    }
}

/// The index with the cached bytes of a list of offsets dropped.
pub open spec fn without_cached(batches: Map<i64, EntryModel>, gone: Seq<i64>) -> Map<
    i64,
    EntryModel,
> {
    Map::new(
        |o: i64| batches.dom().contains(o),
        |o: i64|
            if gone.contains(o) {
                uncached(batches[o])
            } else {
                batches[o]
            },
    )
}

/// Where exactly what is cached is counted, recording a batch at a new offset
/// keeps it so, within the budget. The index has the batch besides what it had,
/// and of the offsets in line, the new one among them, the first so many have
/// lost their cached bytes: no more than the budget asks for, since before each
/// of them went the counter was over it.
pub proof fn law_index_accounts_exactly(
    p: PartModel,
    offset: i64,
    entry: EntryModel,
    cache_budget: u64,
) -> (n: nat)
    requires
        sound(p),
        accounted(p),
        !p.batches.dom().contains(offset),
        i64::MIN <= end_offset(offset, entry) <= i64::MAX,
    ensures
        ({
            let start = added(p, offset, entry);
            let after = indexed(p, offset, entry, cache_budget);
            &&& sound(after)
            &&& accounted(after)
            &&& after.cached_bytes <= cache_budget
            &&& n <= start.cache_queue.len()
            &&& after.cache_queue == start.cache_queue.skip(n as int)
            &&& after.batches == without_cached(
                p.batches.insert(offset, entry),
                start.cache_queue.take(n as int),
            )
            &&& forall|m: nat|
                m < n ==> (#[trigger] evicted_times(start, m)).cached_bytes > cache_budget
        }),
{
    let start = added(p, offset, entry);
    lemma_added(p, offset, entry);
    lemma_total_put::<i64, EntryModel>(p.batches, offset, entry, cache_weight());
    assert(start.cache_queue.skip(0) =~= start.cache_queue);
    assert(without_cached(start.batches, start.cache_queue.take(0)) =~= start.batches);
    let n = lemma_evicted_exactly(start, start, 0, cache_budget);
    lemma_evicted_within(start, cache_budget);
    n
}

/// Evicting keeps the account exact.
pub proof fn lemma_evict_accounts(p: PartModel)
    requires
        sound(p),
        accounted(p),
        p.cache_queue.len() > 0,
    ensures
        accounted(evict_oldest(p)),
{
    let oldest = p.cache_queue[0];
    if p.batches.dom().contains(oldest) && p.batches[oldest].cached is Some {
        lemma_total_put::<i64, EntryModel>(
            p.batches,
            oldest,
            uncached(p.batches[oldest]),
            cache_weight(),
        );
    }
}

proof fn lemma_evicted_exactly(start: PartModel, p: PartModel, k: nat, cache_budget: u64) -> (n: nat)
    requires
        sound(p),
        accounted(p),
        p == evicted_times(start, k),
        k <= start.cache_queue.len(),
        p.cache_queue == start.cache_queue.skip(k as int),
        p.batches == without_cached(start.batches, start.cache_queue.take(k as int)),
        forall|m: nat| m < k ==> (#[trigger] evicted_times(start, m)).cached_bytes > cache_budget,
    ensures
        ({
            let after = evicted(p, cache_budget);
            &&& accounted(after)
            &&& after.cached_bytes <= cache_budget
            &&& n <= start.cache_queue.len()
            &&& after.cache_queue == start.cache_queue.skip(n as int)
            &&& after.batches == without_cached(
                start.batches,
                start.cache_queue.take(n as int),
            )
            &&& forall|m: nat|
                m < n ==> (#[trigger] evicted_times(start, m)).cached_bytes > cache_budget
        }),
    decreases p.cache_queue.len(),
{
    if p.cached_bytes <= cache_budget {
        k
    } else if p.cache_queue.len() == 0 {
        lemma_evicted_within(p, cache_budget);
        k
    } else {
        let next = evict_oldest(p);
        let oldest = p.cache_queue[0];
        lemma_evict_oldest(p);
        lemma_evict_accounts(p);
        assert(start.cache_queue.skip(k as int).drop_first() =~= start.cache_queue.skip((k + 1) as int));
        let gone = start.cache_queue.take((k + 1) as int);
        let before = start.cache_queue.take(k as int);
        assert(gone =~= before.push(oldest));
        assert forall|o: i64| gone.contains(o) <==> before.contains(o) || o == oldest by {
            if before.contains(o) {
                let i = choose|i: int| 0 <= i < before.len() && before[i] == o;
                assert(gone[i] == o);
            }
            if gone.contains(o) && o != oldest {
                let i = choose|i: int| 0 <= i < gone.len() && gone[i] == o;
                assert(before[i] == o);
            }
            assert(gone[k as int] == oldest);
        }
        assert(next.batches =~= without_cached(start.batches, gone)) by {
            assert forall|o: i64| next.batches.dom().contains(o) implies #[trigger] next.batches[o]
                == without_cached(start.batches, gone)[o] by {
                assert(p.batches.dom().contains(o));
                if o == oldest && p.batches[o].cached is None {
                    assert(uncached(start.batches[o]) == p.batches[o]);
                }
            }
        }
        assert(next == evicted_times(start, k + 1));
        assert forall|m: nat| m < k + 1 implies (#[trigger] evicted_times(start, m)).cached_bytes
            > cache_budget by {
            if m == k {
                assert(evicted_times(start, m) == p);
            }
        }
        lemma_evicted_exactly(start, next, k + 1, cache_budget)
    }
}

/// Recording a batch keeps a partition sound.
pub proof fn law_index_keeps_sound(
    p: PartModel,
    offset: i64,
    entry: EntryModel,
    cache_budget: u64,
)
    requires
        sound(p),
        i64::MIN <= end_offset(offset, entry) <= i64::MAX,
    ensures
        sound(indexed(p, offset, entry, cache_budget)),
{
    lemma_added(p, offset, entry);
    lemma_evicted_within(added(p, offset, entry), cache_budget);
}

proof fn lemma_evicted_within(p: PartModel, cache_budget: u64)
    requires
        sound(p),
    ensures
        sound(evicted(p, cache_budget)),
        cached_total(evicted(p, cache_budget).batches) <= cache_budget,
    decreases p.cache_queue.len(),
{
    if p.cached_bytes <= cache_budget {
    } else if p.cache_queue.len() == 0 {
        let s = ordered::<i64, EntryModel>(p.batches);
        assert forall|i: int| 0 <= i < s.len() implies cache_weight()((#[trigger] s[i]).1) == 0 by {
            crate::ordmap::lemma_ascending_at::<i64, EntryModel>(s, i);
            assert(p.batches.dom().contains(s[i].0));
        }
        lemma_total_nothing(s, cache_weight());
    } else {
        lemma_evict_oldest(p);
        lemma_evicted_within(evict_oldest(p), cache_budget);
    }
}

/// Recording a batch changes nothing but the index and the cache, and no entry
/// of the index but for its cached bytes and the one recorded.
pub proof fn law_index_keeps_entries(
    p: PartModel,
    offset: i64,
    entry: EntryModel,
    cache_budget: u64,
)
    ensures
        ({
            let after = indexed(p, offset, entry, cache_budget);
            &&& after.log_start == p.log_start
            &&& after.next_offset == p.next_offset
            &&& after.durable_offset == p.durable_offset
            &&& after.open_txns == p.open_txns
            &&& after.aborted == p.aborted
            &&& after.writer == p.writer
            &&& after.uploaded == p.uploaded
            &&& after.batches.dom() == p.batches.dom().insert(offset)
            &&& forall|o: i64| #[trigger]
                after.batches.dom().contains(o) ==> {
                    let given = if o == offset {
                        entry
                    } else {
                        p.batches[o]
                    };
                    after.batches[o] == given || after.batches[o] == uncached(given)
                }
        }),
{
    let start = added(p, offset, entry);
    lemma_evicted_keeps(start, cache_budget);
    assert(start.batches.dom() =~= p.batches.dom().insert(offset));
}

proof fn lemma_evicted_keeps(p: PartModel, cache_budget: u64)
    ensures
        ({
            let after = evicted(p, cache_budget);
            &&& after.log_start == p.log_start
            &&& after.next_offset == p.next_offset
            &&& after.durable_offset == p.durable_offset
            &&& after.open_txns == p.open_txns
            &&& after.aborted == p.aborted
            &&& after.writer == p.writer
            &&& after.uploaded == p.uploaded
            &&& after.batches.dom() == p.batches.dom()
            &&& forall|o: i64| #[trigger]
                after.batches.dom().contains(o) ==> after.batches[o] == p.batches[o]
                    || after.batches[o] == uncached(p.batches[o])
        }),
    decreases p.cache_queue.len(),
{
    if p.cached_bytes <= cache_budget || p.cache_queue.len() == 0 {
    } else {
        lemma_evicted_keeps(evict_oldest(p), cache_budget);
        assert(evict_oldest(p).batches.dom() =~= p.batches.dom());
    }
}

/// The last stable offset is at most the high watermark, no open transaction
/// begins below it, and it is one of these.
pub proof fn law_stable_offset(p: PartModel)
    requires
        listable::<OpenTxnKey, i64>(p.open_txns),
    ensures
        stable(p) <= p.durable_offset,
        forall|k: (Seq<char>, (i64, i16))| #[trigger]
            p.open_txns.dom().contains(k) ==> stable(p) <= p.open_txns[k],
        stable(p) == p.durable_offset || exists|k: (Seq<char>, (i64, i16))| #[trigger]
            p.open_txns.dom().contains(k) && p.open_txns[k] == stable(p),
{
    let s = ordered::<OpenTxnKey, i64>(p.open_txns);
    lemma_lowest(s, p.durable_offset);
    assert forall|k: (Seq<char>, (i64, i16))| #[trigger] p.open_txns.dom().contains(k) implies stable(
        p,
    ) <= p.open_txns[k] by {
        let i = lemma_ascending_position::<OpenTxnKey, i64>(s, k);
    }
    if stable(p) != p.durable_offset {
        let i = choose|i: int| 0 <= i < s.len() && (#[trigger] s[i]).1 == stable(p);
        crate::ordmap::lemma_ascending_at::<OpenTxnKey, i64>(s, i);
        assert(p.open_txns.dom().contains(s[i].0));
    }
}

proof fn lemma_lowest<A>(s: Seq<(A, i64)>, bound: i64)
    ensures
        lowest(s, bound) <= bound,
        forall|i: int| 0 <= i < s.len() ==> lowest(s, bound) <= (#[trigger] s[i]).1,
        lowest(s, bound) == bound || exists|i: int|
            0 <= i < s.len() && (#[trigger] s[i]).1 == lowest(s, bound),
    decreases s.len(),
{
    if s.len() > 0 {
        let init = s.drop_last();
        lemma_lowest(init, bound);
        assert forall|i: int| 0 <= i < s.len() implies lowest(s, bound) <= (#[trigger] s[i]).1 by {
            if i < init.len() {
                assert(init[i] == s[i]);
            }
        }
        if lowest(s, bound) == lowest(init, bound) && lowest(init, bound) != bound {
            let i = choose|i: int| 0 <= i < init.len() && (#[trigger] init[i]).1 == lowest(init, bound);
            assert(s[i] == init[i]);
        } else if lowest(s, bound) != lowest(init, bound) {
            assert(s[s.len() - 1].1 == lowest(s, bound));
        }
    }
}

/// Moving the log start keeps a partition sound, and the cache's account exact:
/// the start never moves back, nor past the high watermark.
pub proof fn law_log_start_advances(p: PartModel, offset: i64)
    requires
        sound(p),
    ensures
        sound(advanced(p, offset)),
        accounted(p) ==> accounted(advanced(p, offset)),
        p.log_start <= advanced(p, offset).log_start <= p.durable_offset,
{
    let at = clamped(p, offset);
    let after = advanced(p, offset);
    let s = ordered::<i64, EntryModel>(p.batches);
    lemma_listable_chosen::<i64, EntryModel>(p.batches, stays(at));
    lemma_listable_chosen::<i64, EntryModel>(p.batches, goes(at));
    lemma_total_split(s, stays(at), goes(at), cache_weight());
    assert forall|o: i64| #[trigger] after.batches.dom().contains(o) implies p.batches.dom().contains(o)
        && after.batches[o] == p.batches[o] by {}
}

/// A batch is readable after the log start moved if and only if it was
/// indexed and reaches the new start; one that straddles it is kept whole.
pub proof fn law_straddling_kept(p: PartModel, offset: i64, base: i64)
    ensures
        ({
            let after = advanced(p, offset);
            let at = after.log_start;
            &&& after.batches.dom().contains(base) <==> p.batches.dom().contains(base) && (base
                >= at || end_offset(base, p.batches[base]) >= at)
            &&& after.batches.dom().contains(base) ==> after.batches[base] == p.batches[base]
        }),
{
}

impl PartitionInner {
    pub fn new() -> (inner: Self)
        ensures
            inner.wf(),
            inner.model() == empty_part(),
    {
        let inner = PartitionInner {
            log_start: 0,
            next_offset: 0,
            durable_offset: 0,
            batches: OrdMap::new(),
            open_txns: OrdMap::new(),
            aborted: Vec::new(),
            writer: None,
            cache_queue: VecDeque::new(),
            cached_bytes: 0,
            uploaded: OrdMap::new(),
        };
        proof {
            inner.batches.lemma_seq();
        }
        inner
    }

    pub fn high_watermark(&self) -> (offset: i64)
        ensures
            offset == self.model().durable_offset,
    {
        self.durable_offset
    }

    pub fn last_stable(&self) -> (offset: i64)
        requires
            self.wf(),
        ensures
            offset == stable(self.model()),
    {
        proof {
            self.open_txns.lemma_seq();
        }
        let ghost rows = self.open_txns.seq();
        let mut least: i64 = self.durable_offset;
        let mut i: usize = 0;
        while i < self.open_txns.len()
            invariant
                self.wf(),
                rows == self.open_txns.seq(),
                i <= rows.len(),
                least == lowest(rows.take(i as int), self.durable_offset),
            decreases rows.len() - i,
        {
            let (_, start) = self.open_txns.at(i);
            assert(rows.take(i + 1).drop_last() =~= rows.take(i as int));
            if *start < least {
                least = *start;
            }
            i += 1;
        }
        assert(rows.take(i as int) =~= rows);
        least
    }

    /// Records a batch in the index and the tail cache, evicting the oldest
    /// cached batches over the budget.
    pub fn index(&mut self, offset: i64, entry: BatchEntry, cache_budget: u64)
        requires
            old(self).wf(),
            i64::MIN <= end_offset(offset, entry.model()) <= i64::MAX,
            old(self).model().cached_bytes + cache_weight()(entry.model()) <= u64::MAX,
        ensures
            final(self).wf(),
            final(self).model() == indexed(
                old(self).model(),
                offset,
                entry.model(),
                cache_budget,
            ),
    {
        let ghost start = added(self.model(), offset, entry.model());
        proof {
            lemma_added(self.model(), offset, entry.model());
        }
        if let Some(bytes) = &entry.cached {
            self.cached_bytes = self.cached_bytes + bytes.len() as u64;
            self.cache_queue.push_back(offset);
        }
        self.batches.insert(offset, entry);
        assert(self.model() =~= start);
        while self.cached_bytes > cache_budget && self.cache_queue.len() > 0
            invariant
                self.wf(),
                evicted(self.model(), cache_budget) == evicted(start, cache_budget),
            decreases self.cache_queue@.len(),
        {
            let ghost before = self.model();
            let oldest: i64 = self.cache_queue.pop_front().unwrap();
            proof {
                lemma_evict_oldest(before);
                lemma_total_covers::<i64, EntryModel>(before.batches, oldest, cache_weight());
            }
            if let Some(entry) = self.batches.get_mut(&oldest) {
                let ghost was = entry.model();
                if let Some(bytes) = entry.cached.take() {
                    assert(entry.model() == uncached(was));
                    self.cached_bytes = self.cached_bytes - bytes.len() as u64;
                } else {
                    assert(entry.model() == was);
                    assert(before.batches.insert(oldest, was) =~= before.batches);
                }
            }
            assert(self.cache_queue@ =~= before.cache_queue.drop_first());
            assert(self.model() =~= evict_oldest(before));
        }
    }

    /// Moves the log start forward, dropping the batches and the aborted
    /// ranges that end below it; returns where the log starts now. A batch
    /// that straddles the new start is kept whole.
    pub fn advance_log_start(&mut self, offset: i64) -> (log_start: i64)
        requires
            old(self).wf(),
        ensures
            final(self).wf(),
            final(self).model() == advanced(old(self).model(), offset),
            log_start == final(self).model().log_start,
    {
        let at: i64 = if offset < self.log_start {
            self.log_start
        } else if offset > self.durable_offset {
            self.durable_offset
        } else {
            offset
        };
        let ghost before = self.model();
        let ghost rows = self.batches.seq();
        proof {
            law_log_start_advances(before, offset);
            self.batches.lemma_seq();
            lemma_listable_chosen::<i64, EntryModel>(before.batches, goes(at));
            assert(rows == ordered::<i64, EntryModel>(before.batches));
            lemma_total_split(rows, stays(at), goes(at), cache_weight());
        }
        let cached: u64 = self.cached_bytes;
        let mut freed: u64 = 0;
        let mut i: usize = 0;
        while i < self.batches.len()
            invariant
                *self == *old(self),
                self.wf(),
                rows == self.batches.seq(),
                i <= rows.len(),
                freed == total(chosen_of(rows.take(i as int), goes(at)), cache_weight()),
                total(chosen_of(rows, goes(at)), cache_weight()) <= cached,
            decreases rows.len() - i,
        {
            let (base, entry) = self.batches.at(i);
            proof {
                let part = rows.take(i + 1);
                assert(part.drop_last() =~= rows.take(i as int));
                if goes(at)(*base, entry.model()) {
                    assert(chosen_of(part, goes(at)).drop_last() =~= chosen_of(
                        rows.take(i as int),
                        goes(at),
                    ));
                }
                lemma_chosen_prefix(rows, i + 1, goes(at));
            }
            if !(*base >= at || *base as i128 + entry.last_offset_delta as i128 >= at as i128) {
                if let Some(bytes) = &entry.cached {
                    freed = freed + bytes.len() as u64;
                }
            }
            i += 1;
        }
        assert(rows.take(i as int) =~= rows);
        self.log_start = at;
        self.cached_bytes = cached - freed;
        let staying = Staying { at };
        self.batches.retain(&staying);
        let mut aborted: Vec<AbortedRange> = Vec::new();
        let mut k: usize = 0;
        let ghost ranges = self.aborted@;
        assert(ranges.take(0) =~= Seq::<AbortedRange>::empty());
        while k < self.aborted.len()
            invariant
                ranges == self.aborted@,
                k <= ranges.len(),
                aborted@ == reaching(ranges.take(k as int), at),
            decreases ranges.len() - k,
        {
            assert(ranges.take(k + 1).drop_last() =~= ranges.take(k as int));
            if self.aborted[k].offset_end >= at {
                aborted.push(self.aborted[k]);
            }
            k += 1;
        }
        assert(ranges.take(k as int) =~= ranges);
        self.aborted = aborted;
        assert(self.batches.model() =~= chosen(before.batches, stays(at)));
        self.log_start
    }
}

/// What is chosen of a part weighs no more than what is chosen of the whole.
proof fn lemma_chosen_prefix(
    s: Seq<(i64, EntryModel)>,
    n: int,
    keep: spec_fn(i64, EntryModel) -> bool,
)
    requires
        0 <= n <= s.len(),
    ensures
        total(chosen_of(s.take(n), keep), cache_weight()) <= total(
            chosen_of(s, keep),
            cache_weight(),
        ),
    decreases s.len() - n,
{
    if n == s.len() {
        assert(s.take(n) =~= s);
    } else {
        lemma_chosen_prefix(s, n + 1, keep);
        let part = s.take(n + 1);
        assert(part.drop_last() =~= s.take(n));
        if keep(part.last().0, part.last().1) {
            assert(chosen_of(part, keep).drop_last() =~= chosen_of(s.take(n), keep));
        }
    }
}

} // verus!
