use tansu_nvme::error::{Error, ErrorCode};
use tansu_nvme::fetch::{
    aborted_transactions, list_offset, offset_stage, AbortedTransaction, ListOffset,
    ListOffsetResponse, OffsetStage, Pending,
};
use tansu_nvme::model::Model;
use tansu_nvme::partition::{AbortedRange, BatchEntry, PartitionInner};
use tansu_nvme::produce::{admit_batch, BatchHeader};
use tansu_nvme::retention::now_ms;
use tansu_nvme::state::CoordState;
use tansu_nvme::tier::{
    over_high_water, segments_below, under_low_water, usage_after, EvictStep, Eviction,
};
use tansu_nvme::time::{timestamp_to_system_time, Duration, SystemTime};
use tansu_nvme::topics::{delete_records, DeleteRecordsResult};
use tansu_nvme::types::{IsolationLevel, Topition};
use tansu_nvme::wal::WalRecord;

fn header(last_offset_delta: i32, max_timestamp: i64) -> BatchHeader {
    BatchHeader {
        last_offset_delta,
        max_timestamp,
        control: false,
        transaction: false,
        idempotent: false,
        producer_id: -1,
        producer_epoch: -1,
        base_sequence: -1,
    }
}

/// Appends a batch of `delta + 1` records that takes ten bytes of cache and a
/// hundred of its segment.
fn append(inner: &mut PartitionInner, delta: i32, timestamp: i64, segment_bytes: u64) -> i64 {
    let append = inner.begin_append(delta, segment_bytes);
    if append.create {
        inner.open_segment(append.offset);
    }
    let (base, position) = inner.written(100);
    inner.record_batch(
        None,
        &header(delta, timestamp),
        append.offset,
        base,
        position,
        100,
        vec![7; 10],
        25,
    );
    inner.acknowledge(append.offset_end);
    append.offset
}

fn bases(pending: &[Pending]) -> Vec<i64> {
    pending
        .iter()
        .map(|pending| match pending {
            Pending::Cached { base, .. } => *base,
            Pending::Disk { base, .. } => *base,
            Pending::Remote { base, .. } => *base,
        })
        .collect()
}

#[test]
fn cache_stays_within_its_budget() {
    let mut inner = PartitionInner::new();
    for _ in 0..5 {
        append(&mut inner, 0, 1, 1 << 20);
    }
    let cached: Vec<bool> = (0..5)
        .map(|i| inner.batches.at(i).1.cached.is_some())
        .collect();
    assert_eq!(vec![false, false, false, true, true], cached);
    assert_eq!(20, inner.cached_bytes);
}

#[test]
fn batch_over_the_whole_budget_is_not_cached() {
    let mut inner = PartitionInner::new();
    let entry = BatchEntry {
        segment_base: 0,
        position: 0,
        len: 9,
        tiered: false,
        cached: Some(vec![1; 9]),
        last_offset_delta: 0,
        max_timestamp: 0,
        is_control: false,
        is_transactional: false,
        producer_id: -1,
        producer_epoch: -1,
        base_sequence: -1,
    };
    inner.index(0, entry, 8);
    assert_eq!(None, inner.batches.get(&0).expect("entry").cached);
    assert_eq!(0, inner.cached_bytes);
}

#[test]
fn log_start_never_moves_back_nor_past_the_watermark() {
    let mut inner = PartitionInner::new();
    for _ in 0..4 {
        append(&mut inner, 0, 1, 1 << 20);
    }
    assert_eq!(2, inner.advance_log_start(2));
    assert_eq!(2, inner.advance_log_start(1));
    assert_eq!(4, inner.advance_log_start(9));
    assert_eq!(0, inner.batches.len());
    assert_eq!(0, inner.cached_bytes);
}

#[test]
fn straddling_batch_is_kept_whole() {
    let mut inner = PartitionInner::new();
    append(&mut inner, 2, 1, 1 << 20); // 0..=2
    append(&mut inner, 2, 1, 1 << 20); // 3..=5
    inner.aborted = vec![
        AbortedRange {
            producer: 1,
            offset_start: 0,
            offset_end: 3,
        },
        AbortedRange {
            producer: 2,
            offset_start: 3,
            offset_end: 4,
        },
    ];
    assert_eq!(4, inner.advance_log_start(4));
    assert_eq!(1, inner.batches.len());
    assert_eq!(3, *inner.batches.at(0).0);
    assert_eq!(1, inner.aborted.len());
    assert_eq!(2, inner.aborted[0].producer);
    // A fetch at the log start gets it whole, and skips what lies below.
    assert_eq!(
        vec![3],
        bases(&inner.fetch(4, 1, IsolationLevel::ReadUncommitted))
    );
}

#[test]
fn batch_that_the_log_start_lies_inside_of_is_fetched() {
    let mut inner = PartitionInner::new();
    append(&mut inner, 2, 1, 1 << 20); // 0..=2
    let topition = Topition::new("t", 0);
    let (deleted, _) = delete_records(true, Some(&mut inner), &topition, 1);
    assert_eq!(1, deleted.low_watermark);
    let pending = inner.fetch(1, 1024 * 1024, IsolationLevel::ReadUncommitted);
    assert_eq!(vec![0], bases(&pending));
}

#[test]
fn cache_counts_what_it_holds() {
    let mut inner = PartitionInner::new();
    let cached = |inner: &PartitionInner| -> u64 {
        (0..inner.batches.len())
            .filter_map(|i| inner.batches.at(i).1.cached.as_ref())
            .map(|bytes| bytes.len() as u64)
            .sum()
    };
    for _ in 0..7 {
        append(&mut inner, 1, 1, 100);
        assert_eq!(cached(&inner), inner.cached_bytes);
    }
    inner.advance_log_start(12);
    assert_eq!(cached(&inner), inner.cached_bytes);
    inner.evict(12);
    assert_eq!(cached(&inner), inner.cached_bytes);
}

#[test]
fn fetch_inside_a_batch_returns_it_first() {
    let mut inner = PartitionInner::new();
    append(&mut inner, 2, 1, 1 << 20); // 0..=2
    append(&mut inner, 0, 1, 1 << 20); // 3
    let pending = inner.fetch(1, 1 << 20, IsolationLevel::ReadUncommitted);
    assert_eq!(vec![0, 3], bases(&pending));
    let pending = inner.fetch(3, 1 << 20, IsolationLevel::ReadUncommitted);
    assert_eq!(vec![3], bases(&pending));
}

#[test]
fn fetch_stops_behind_the_batch_that_exceeds_the_budget() {
    let mut inner = PartitionInner::new();
    for _ in 0..5 {
        append(&mut inner, 0, 1, 1 << 20);
    }
    let all = IsolationLevel::ReadUncommitted;
    assert_eq!(vec![0], bases(&inner.fetch(0, 0, all)));
    assert_eq!(vec![0], bases(&inner.fetch(0, 99, all)));
    assert_eq!(vec![0, 1], bases(&inner.fetch(0, 100, all)));
    assert_eq!(vec![0, 1, 2], bases(&inner.fetch(0, 250, all)));
    assert!(inner.fetch(5, 100, all).is_empty());
}

#[test]
fn unsynced_batch_is_not_fetched() {
    let mut inner = PartitionInner::new();
    let append = inner.begin_append(0, 1 << 20);
    inner.open_segment(append.offset);
    let (base, position) = inner.written(100);
    inner.record_batch(
        None,
        &header(0, 1),
        append.offset,
        base,
        position,
        100,
        vec![1],
        25,
    );
    assert_eq!(0, inner.high_watermark());
    assert!(inner
        .fetch(0, 1 << 20, IsolationLevel::ReadUncommitted)
        .is_empty());
    inner.acknowledge(append.offset_end);
    assert_eq!(
        vec![Pending::Cached {
            base: 0,
            batch: vec![1]
        }],
        inner.fetch(0, 1 << 20, IsolationLevel::ReadUncommitted)
    );
}

#[test]
fn open_transaction_pins_the_last_stable_offset() {
    let mut inner = PartitionInner::new();
    append(&mut inner, 0, 1, 1 << 20);
    let begun = inner.begin_append(0, 1 << 20);
    let (base, position) = inner.written(100);
    let data = BatchHeader {
        transaction: true,
        producer_id: 5,
        producer_epoch: 0,
        ..header(0, 1)
    };
    inner.record_batch(
        Some("txn"),
        &data,
        begun.offset,
        base,
        position,
        100,
        vec![1],
        25,
    );
    inner.acknowledge(begun.offset_end);
    append(&mut inner, 0, 1, 1 << 20);
    assert_eq!(3, inner.high_watermark());
    assert_eq!(1, inner.last_stable());
    assert_eq!(
        vec![0],
        bases(&inner.fetch(0, 1 << 20, IsolationLevel::ReadCommitted))
    );
    assert_eq!(
        OffsetStage {
            last_stable: 1,
            high_watermark: 3,
            log_start: 0
        },
        offset_stage(Some(&inner))
    );
}

#[test]
fn segments_rotate_at_their_size() {
    let mut inner = PartitionInner::new();
    append(&mut inner, 0, 1, 200);
    append(&mut inner, 0, 1, 200);
    let third = inner.begin_append(0, 200);
    assert_eq!(2, third.offset);
    assert_eq!(Some(0), third.sealed);
    assert!(third.create);
    assert!(inner.writer.is_none());
}

#[test]
fn remote_batch_needs_a_tier() {
    let remote = Pending::Remote {
        base: 0,
        segment_base: 0,
        position: 0,
        len: 1,
    };
    assert_eq!(
        Err(Error::Message(
            "nvme: tiered batch without a tier".to_owned()
        )),
        remote.check_tier(false)
    );
    assert_eq!(Ok(()), remote.check_tier(true));
    let cached = Pending::Cached {
        base: 0,
        batch: vec![],
    };
    assert_eq!(Ok(()), cached.check_tier(false));
}

fn answer(offset: i64, millis: Option<i64>) -> ListOffsetResponse {
    ListOffsetResponse {
        error_code: ErrorCode::NoError,
        timestamp: millis.and_then(timestamp_to_system_time),
        offset: Some(offset),
    }
}

#[test]
fn offsets_are_listed_by_place_and_time() {
    let mut inner = PartitionInner::new();
    append(&mut inner, 0, 1_000, 1 << 20);
    append(&mut inner, 1, 3_000, 1 << 20);
    append(&mut inner, 0, 2_000, 1 << 20);
    let all = IsolationLevel::ReadUncommitted;
    let at = |millis: i64| ListOffset::Timestamp(timestamp_to_system_time(millis).unwrap());
    let list = |inner: &PartitionInner, request: ListOffset| list_offset(Some(inner), all, request);

    assert_eq!(answer(0, Some(1_000)), list(&inner, ListOffset::Earliest));
    assert_eq!(answer(4, Some(2_000)), list(&inner, ListOffset::Latest));
    assert_eq!(answer(0, Some(1_000)), list(&inner, at(1_000)));
    assert_eq!(answer(1, Some(3_000)), list(&inner, at(1_001)));
    assert_eq!(answer(0, None), list(&inner, at(3_001)));

    inner.advance_log_start(3);
    assert_eq!(answer(3, Some(2_000)), list(&inner, ListOffset::Earliest));
    assert_eq!(answer(3, Some(2_000)), list(&inner, at(0)));

    assert_eq!(
        answer(0, None),
        list_offset(None, all, ListOffset::Latest)
    );
    assert_eq!(
        answer(0, None),
        list_offset(Some(&PartitionInner::new()), all, ListOffset::Earliest)
    );
}

#[test]
fn negative_timestamps_name_no_time() {
    assert_eq!(None, timestamp_to_system_time(-1));
    assert_eq!(
        Some(SystemTime {
            nanos: 5_000_000
        }),
        timestamp_to_system_time(5)
    );
}

#[test]
fn aborted_transactions_come_by_first_offset() {
    let mut inner = PartitionInner::new();
    let range = |producer: i64, offset_start: i64, offset_end: i64| AbortedRange {
        producer,
        offset_start,
        offset_end,
    };
    inner.aborted = vec![
        range(1, 9, 12),
        range(2, 3, 4),
        range(3, 5, 20),
        range(4, 5, 10),
    ];
    let txn = |producer_id: i64, first_offset: i64| AbortedTransaction {
        producer_id,
        first_offset,
    };
    assert_eq!(
        vec![txn(3, 5), txn(4, 5), txn(1, 9)],
        aborted_transactions(Some(&inner), 5)
    );
    assert_eq!(4, aborted_transactions(Some(&inner), 4).len());
    assert!(aborted_transactions(None, 0).is_empty());
}

#[test]
fn records_are_deleted_up_to_the_watermark() {
    let topition = Topition::new("t", 3);
    let mut inner = PartitionInner::new();
    for _ in 0..3 {
        append(&mut inner, 0, 1, 1 << 20);
    }
    let result = |low_watermark: i64, error_code: ErrorCode| DeleteRecordsResult {
        partition_index: 3,
        low_watermark,
        error_code,
    };

    let (refused, record) = delete_records(true, Some(&mut inner), &topition, 4);
    assert_eq!(result(-1, ErrorCode::OffsetOutOfRange), refused);
    assert!(record.is_none());

    let (done, record) = delete_records(true, Some(&mut inner), &topition, 1);
    assert_eq!(result(1, ErrorCode::NoError), done);
    assert!(record.is_some());

    let (done, _) = delete_records(true, Some(&mut inner), &topition, -1);
    assert_eq!(result(3, ErrorCode::NoError), done);

    let (unknown, record) = delete_records(false, Some(&mut inner), &topition, 0);
    assert_eq!(result(-1, ErrorCode::UnknownTopicOrPartition), unknown);
    assert!(record.is_none());
    let (unknown, _) = delete_records(true, None, &topition, 0);
    assert_eq!(result(-1, ErrorCode::UnknownTopicOrPartition), unknown);
}

#[test]
fn budget_refusal_leaves_the_sequence_alone() {
    let mut coord = CoordState::new();
    coord.init_producer(None, 0, Some(-1), Some(-1));
    let topition = Topition::new("t", 0);
    let first = BatchHeader {
        idempotent: true,
        producer_id: 1,
        producer_epoch: 0,
        base_sequence: 0,
        ..header(4, 0)
    };
    assert_eq!(
        Err(Error::Api(ErrorCode::KafkaStorageError)),
        admit_batch(&mut coord, 11, 10, None, &topition, &first)
    );
    assert_eq!(
        Ok(()),
        admit_batch(&mut coord, 10, 10, None, &topition, &first)
    );
    assert_eq!(
        Err(Error::Api(ErrorCode::DuplicateSequenceNumber)),
        admit_batch(&mut coord, 0, 0, None, &topition, &first)
    );
    let skipping = BatchHeader {
        base_sequence: 6,
        ..first
    };
    assert_eq!(
        Err(Error::Api(ErrorCode::OutOfOrderSequenceNumber)),
        admit_batch(&mut coord, 0, 0, None, &topition, &skipping)
    );
    let next = BatchHeader {
        base_sequence: 5,
        ..first
    };
    assert_eq!(Ok(()), admit_batch(&mut coord, 0, 0, None, &topition, &next));
    let stranger = BatchHeader {
        producer_id: 99,
        ..first
    };
    assert_eq!(
        Err(Error::Api(ErrorCode::UnknownProducerId)),
        admit_batch(&mut coord, 0, 0, None, &topition, &stranger)
    );
    let fenced = BatchHeader {
        producer_epoch: 3,
        ..first
    };
    assert_eq!(
        Err(Error::Api(ErrorCode::ProducerFenced)),
        admit_batch(&mut coord, 0, 0, None, &topition, &fenced)
    );
}

/// Where retention has the log start, having logged where it does.
fn retain(inner: &mut PartitionInner, kept: (i64, i64), now_ms: i64) -> Option<i64> {
    let (start, record) = inner.apply_retention(&Topition::new("t", 6), kept, now_ms)?;
    match record {
        WalRecord::LogStartAdvance {
            topic,
            partition,
            offset,
        } => assert_eq!(("t".to_owned(), 6, inner.log_start), (topic, partition, offset)),
        otherwise => panic!("{otherwise:?}"),
    }
    Some(start)
}

#[test]
fn tiered_segments_expire_without_a_local_file() {
    let mut inner = PartitionInner::new();
    append(&mut inner, 0, 1_000, 100);
    append(&mut inner, 0, 1_000, 100);
    inner.mark_uploaded(0);
    inner.evict(0);
    assert_eq!(Some(1), retain(&mut inner, (5, -1), 9_000));
    assert!(inner.deletable_segments(&vec![1], 1).is_empty());
    assert_eq!(1, inner.log_start);
}

#[test]
fn retention_by_bytes_goes_oldest_first() {
    let mut inner = PartitionInner::new();
    for _ in 0..4 {
        append(&mut inner, 0, 1, 100); // one segment each
    }
    // 400 bytes in all, 150 allowed: the oldest three go.
    assert_eq!(Some(3), retain(&mut inner, (-1, 150), 0));
    assert_eq!(3, inner.log_start);
    assert_eq!(vec![0, 1], inner.deletable_segments(&vec![0, 1, 3], 3));
    assert_eq!(None, retain(&mut inner, (-1, 150), 0));
}

#[test]
fn retention_by_time_stops_at_the_first_that_stays() {
    let mut inner = PartitionInner::new();
    for timestamp in [1_000, 9_000, 1_000, 1_000] {
        append(&mut inner, 0, timestamp, 100);
    }
    assert_eq!(None, retain(&mut inner, (-1, -1), 100_000));
    assert_eq!(None, retain(&mut inner, (5_000, -1), 6_000));
    assert_eq!(Some(1), retain(&mut inner, (5_000, -1), 6_001));
    assert_eq!(None, retain(&mut inner, (5_000, -1), 14_000));
    assert_eq!(Some(3), retain(&mut inner, (5_000, -1), 14_001));
}

#[test]
fn time_of_day_in_milliseconds() {
    assert_eq!(
        1,
        now_ms(SystemTime {
            nanos: 1_999_999
        })
    );
    assert_eq!(0, now_ms(SystemTime { nanos: -5 }));
}

#[test]
fn evicted_segment_is_read_from_the_store() {
    let mut inner = PartitionInner::new();
    for _ in 0..3 {
        append(&mut inner, 0, 1, 100);
    }
    assert_eq!(300, inner.frame_bytes());
    let jobs = inner.uploads(&vec![0, 1, 2]);
    assert_eq!(
        vec![0, 1],
        jobs.iter().map(|(base, _)| *base).collect::<Vec<_>>()
    );
    assert_eq!(1, jobs[1].1[0].offset);
    inner.mark_uploaded(0);
    inner.mark_uploaded(1);
    assert!(inner.uploads(&vec![0, 1, 2]).is_empty());

    assert_eq!(Some(1), inner.evictable(&vec![1, 2]));
    assert_eq!(Some(0), inner.evictable(&vec![0, 1, 2]));
    inner.evict(0);
    assert_eq!(200, inner.local_bytes());
    assert_eq!(300, inner.frame_bytes());
    assert_eq!(
        Pending::Remote {
            base: 0,
            segment_base: 0,
            position: 0,
            len: 100
        },
        inner.fetch(0, 0, IsolationLevel::ReadUncommitted)[0]
    );
    inner.mark_uploaded(2);
    assert_eq!(None, inner.evictable(&vec![2]), "the active segment stays");
}

#[test]
fn old_segment_is_sealed_for_upload() {
    let mut inner = PartitionInner::new();
    let age = Duration::from_secs(300);
    assert_eq!(None, inner.seal_aged(Duration::from_secs(301), age));
    append(&mut inner, 0, 1, 1 << 20);
    assert_eq!(None, inner.seal_aged(age, age));
    assert_eq!(Some(0), inner.seal_aged(Duration::from_secs(301), age));
    assert!(inner.writer.is_none());
    assert_eq!(1, inner.uploads(&vec![0]).len());
}

#[test]
fn water_marks_of_the_disk_budget() {
    assert!(!over_high_water(800, 1000));
    assert!(over_high_water(801, 1000));
    assert!(!over_high_water(1, 0));
    assert!(under_low_water(600, 1000));
    assert!(!under_low_water(601, 1000));
    assert_eq!(0, usage_after(5, 9));
    assert_eq!(4, usage_after(9, 5));
}

#[test]
fn eviction_runs_between_the_water_marks() {
    let mut idle = Eviction::start(800, 1000);
    assert_eq!(EvictStep::Stop, idle.step(Some(0)));
    idle.evicted(900);
    assert_eq!(EvictStep::Stop, idle.step(Some(0)));
    assert_eq!(EvictStep::Stop, Eviction::start(9, 0).step(Some(0)));

    let mut eviction = Eviction::start(801, 1000);
    assert_eq!(EvictStep::Evict(4), eviction.step(Some(4)));
    eviction.evicted(601);
    assert_eq!(EvictStep::NextPartition, eviction.step(None));
    assert_eq!(EvictStep::Evict(8), eviction.step(Some(8)));
    eviction.evicted(600);
    assert_eq!(EvictStep::Stop, eviction.step(Some(12)));
    assert_eq!(EvictStep::Stop, eviction.step(None));
}

#[test]
fn straddling_segment_stays_in_the_store() {
    assert_eq!(vec![0, 10], segments_below(&vec![0, 10, 20, 30], 20));
    assert_eq!(vec![0], segments_below(&vec![0, 10, 20, 30], 19));
    assert!(segments_below(&vec![0], 100).is_empty());
}

#[test]
fn copies_are_equal() {
    let mut inner = PartitionInner::new();
    append(&mut inner, 0, 1, 100);
    let copy = inner.dup();
    assert_eq!(inner.batches.at(0), copy.batches.at(0));
    assert_eq!(inner.next_offset, copy.next_offset);
}
