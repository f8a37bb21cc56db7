use tansu_nvme::config::FsyncMode;
use tansu_nvme::error::Error;
use tansu_nvme::frame::{encode, FrameType};
use tansu_nvme::groupcommit::{outcome, sync_error, Action, Event, GroupCommit, Job};
use tansu_nvme::layout::parse_dir_name;
use tansu_nvme::log::{encode_batch, read_batch_at, scan_segment, segment_bases, segment_path};
use tansu_nvme::rebuild::absent_segments;
use tansu_nvme::recovery::{
    captured_wals, manifest_payload, next_wal_seq, uncaptured, Manifest,
};
use tansu_nvme::snapshot::{
    accept_snapshot, frame_snapshot, prune, snapshot_path, snapshot_payload, snapshot_seqs,
    tmp_path, SnapshotSearch, SnapshotStep,
};
use tansu_nvme::tier::{
    batch_range, complete_segments, frame_sidecar, latest_snapshot, read_batch, sidecar_payload,
    TierStore,
};
use tansu_nvme::time::{Duration, SystemTime};
use tansu_nvme::types::Topition;
use tansu_nvme::wal::{replay, wal_path, wal_seqs, Wal};

fn names(list: &[&str]) -> Vec<String> {
    list.iter().map(|name| name.to_string()).collect()
}

fn message<T: std::fmt::Debug>(result: Result<T, Error>) -> String {
    match result {
        Err(Error::Message(message)) => message,
        otherwise => panic!("{otherwise:?}"),
    }
}

#[test]
fn file_names_say_their_numbers() {
    assert_eq!("dir/00000000000000000042.seg", segment_path("dir", 42));
    assert_eq!("dir/-0000000000000000042.seg", segment_path("dir/", -42));
    assert_eq!("00000000000000000007.wal", wal_path("", 7));
    assert_eq!("d/00000000000000000007.snap", snapshot_path("d", 7));
    assert_eq!("d/.00000000000000000007.tmp", tmp_path("d", 7));

    let listing = names(&[
        "00000000000000000010.seg",
        "00000000000000000002.seg",
        "00000000000000000002.idx",
        "x.seg",
        "00000000000000000009.wal",
        "00000000000000000003.wal",
        "00000000000000000005.snap",
    ]);
    assert_eq!(vec![2, 10], segment_bases(&listing));
    assert_eq!(vec![3, 9], wal_seqs(&listing));
    assert_eq!(vec![5], snapshot_seqs(&listing));
    assert_eq!(vec![2], complete_segments(&listing));
    assert_eq!(Some(5), latest_snapshot(&listing));
    assert_eq!(None, latest_snapshot(&names(&["a.snap"])));
}

#[test]
fn partition_directories_say_their_partition() {
    let topition = Topition::new("a-b", 12);
    assert_eq!("a-b-0000000012", topition.dir_name());
    assert_eq!(Some(topition), parse_dir_name("a-b-0000000012"));
    assert_eq!(None, parse_dir_name("-0000000012"));
    assert_eq!(None, parse_dir_name("a-000000012"));
    assert_eq!(None, parse_dir_name("a-9999999999"));
    assert_eq!(None, parse_dir_name("LOCK"));
}

#[test]
fn segment_scans_up_to_its_torn_tail() {
    let mut bytes = encode_batch(5, b"first");
    let second = bytes.len();
    bytes.extend_from_slice(&encode_batch(6, b"second"));
    let end = bytes.len();
    bytes.extend_from_slice(&encode_batch(7, b"torn")[..9]);

    let (batches, valid) = scan_segment(&bytes);
    assert_eq!(end as u64, valid);
    assert_eq!(2, batches.len());
    assert_eq!(6, batches[1].base_offset);
    assert_eq!(second as u64, batches[1].file_position);
    assert_eq!((end - second) as u32, batches[1].len);
    assert_eq!(b"second".to_vec(), batches[1].batch);

    let (again, _) = scan_segment(&bytes[..end]);
    assert_eq!(2, again.len());
}

#[test]
fn batches_read_back_or_say_why_not() {
    let framed = encode_batch(5, b"batch");
    assert_eq!(Ok(b"batch".to_vec()), read_batch_at(&framed, 77));
    assert_eq!(
        "nvme segment pread: bad frame at 77",
        message(read_batch_at(&framed[1..], 77))
    );
    assert_eq!(
        "nvme segment pread: short payload",
        message(read_batch_at(&encode(FrameType::Batch, b"short"), 77))
    );
    let t = Topition::new("t\"", 3);
    assert_eq!(Ok(b"batch".to_vec()), read_batch(&framed, &t, 9, 77));
    assert_eq!(
        "nvme tier: bad frame Topition { topic: \"t\\\"\", partition: 3 } 9@77",
        message(read_batch(&framed[1..], &t, 9, 77))
    );
    assert_eq!(
        "nvme tier: short batch payload",
        message(read_batch(&encode(FrameType::Batch, b"short"), &t, 9, 77))
    );
    assert_eq!((7, 12), batch_range(7, 5));
}

#[test]
fn wal_replays_up_to_its_torn_tail() {
    let mut bytes = Wal::frame(b"one");
    bytes.extend_from_slice(&Wal::frame(b"two"));
    bytes.extend_from_slice(b"torn");
    assert_eq!(vec![b"one".to_vec(), b"two".to_vec()], replay(&bytes));

    let mut wal = Wal::create(4);
    assert!(!wal.grown());
    wal.append(15);
    assert!(wal.grown());
    assert_eq!(Wal::create(5), wal.next());
}

#[test]
fn wal_files_are_replayed_or_retired() {
    let seqs = vec![2, 3, 5, 8];
    assert_eq!(vec![5, 8], uncaptured(&seqs, 3));
    assert_eq!(vec![2, 3], captured_wals(&seqs, 3));
    assert_eq!(9, next_wal_seq(&seqs, 3));
    assert_eq!(12, next_wal_seq(&seqs, 11));
    assert_eq!(1, next_wal_seq(&vec![], 0));
}

#[test]
fn snapshots_are_accepted_by_their_version() {
    let framed = frame_snapshot(b"{}");
    assert_eq!(Some(b"{}".to_vec()), snapshot_payload(&framed));
    assert_eq!(None, snapshot_payload(&framed[..5]));
    assert_eq!(None, snapshot_payload(&encode(FrameType::Wal, b"{}")));
    assert_eq!(Ok(true), accept_snapshot(Some(1)));
    assert_eq!(Ok(false), accept_snapshot(None));
    assert_eq!(
        "nvme snapshot format 2 unsupported (want 1); refusing to boot rather than lose \
         coordination state",
        message(accept_snapshot(Some(2)))
    );
}

#[test]
fn newest_valid_snapshot_is_searched_for() {
    let listing = names(&[
        "00000000000000000007.snap",
        "00000000000000000010.snap",
        "other",
        "00000000000000000009.snap",
    ]);

    // The newest is corrupt, the next one is not, the oldest is never read.
    let mut search = SnapshotSearch::new(&listing);
    assert_eq!(Ok(SnapshotStep::Read(10)), search.step(None));
    assert_eq!(Ok(SnapshotStep::Read(9)), search.step(None));
    assert_eq!(Ok(SnapshotStep::Boot(9)), search.step(Some(1)));

    // Another version refuses, though an older snapshot would do.
    let mut search = SnapshotSearch::new(&listing);
    assert_eq!(Ok(SnapshotStep::Read(10)), search.step(None));
    assert_eq!(
        "nvme snapshot format 2 unsupported (want 1); refusing to boot rather than lose \
         coordination state",
        message(search.step(Some(2)))
    );

    // All are corrupt.
    let mut search = SnapshotSearch::new(&listing);
    for seq in [10, 9, 7] {
        assert_eq!(Ok(SnapshotStep::Read(seq)), search.step(None));
    }
    assert_eq!(Ok(SnapshotStep::Nothing), search.step(None));
    assert_eq!(
        Ok(SnapshotStep::Nothing),
        SnapshotSearch::new(&names(&[])).step(None)
    );
}

#[test]
fn newest_two_snapshots_stay() {
    let listing = names(&[
        "00000000000000000009.snap",
        ".00000000000000000009.tmp",
        "00000000000000000002.snap",
        "00000000000000000007.snap",
        "other",
        "00000000000000000001.snap",
    ]);
    assert_eq!(
        names(&[
            ".00000000000000000009.tmp",
            "00000000000000000001.snap",
            "00000000000000000002.snap",
        ]),
        prune(&listing)
    );
    assert!(prune(&names(&["00000000000000000001.snap"])).is_empty());
}

#[test]
fn manifest_belongs_to_one_cluster() {
    let manifest = Manifest::new("mine");
    assert_eq!(Ok(()), manifest.check("mine"));
    assert_eq!(
        "nvme data dir belongs to cluster \"mine\", not \"yours\"",
        message(manifest.check("yours"))
    );
    let other = Manifest {
        format_version: 3,
        cluster_id: "mine".to_owned(),
    };
    assert_eq!("nvme MANIFEST format 3, want 1", message(other.check("mine")));
    assert_eq!(
        Ok(b"{}".to_vec()),
        manifest_payload(&encode(FrameType::Manifest, b"{}"))
    );
    assert_eq!(
        "nvme MANIFEST corrupt",
        message(manifest_payload(&encode(FrameType::Wal, b"{}")))
    );
    assert_eq!("nvme MANIFEST corrupt", message(manifest_payload(b"")));
}

#[test]
fn objects_have_their_places() {
    let store = TierStore::open("s3://bucket/a/b/", "c").expect("store");
    assert_eq!("bucket", store.bucket);
    assert_eq!("a/b/clusters/c/nvme", store.prefix);
    let t = Topition::new("t", 1);
    assert_eq!(
        "a/b/clusters/c/nvme/topics/t-0000000001/segments/00000000000000000005.seg",
        store.segment_path(&t, 5)
    );
    assert_eq!(
        "a/b/clusters/c/nvme/topics/t-0000000001/segments/00000000000000000005.idx",
        store.sidecar_path(&t, 5)
    );
    assert_eq!(
        "a/b/clusters/c/nvme/snapshots/00000000000000000006.snap",
        store.snapshot_path(6)
    );
    assert_eq!(
        "a/b/clusters/c/nvme/wal/00000000000000000006.wal",
        store.wal_path(6)
    );
    let bare = TierStore::open("s3://bucket", "c").expect("store");
    assert_eq!("clusters/c/nvme", bare.prefix);
    assert_eq!(
        "nvme tier scheme unsupported: http",
        message(TierStore::open("http://bucket", "c"))
    );
    assert_eq!(
        "nvme tier: relative URL without a base",
        message(TierStore::open("bucket", "c"))
    );
}

#[test]
fn sidecars_are_framed() {
    let t = Topition::new("t", 1);
    let framed = frame_sidecar(b"[]");
    assert_eq!(Ok(b"[]".to_vec()), sidecar_payload(&framed, &t, 4));
    assert_eq!(
        "nvme tier sidecar corrupt: Topition { topic: \"t\", partition: 1 } 4",
        message(sidecar_payload(&framed[2..], &t, 4))
    );
    assert_eq!(
        vec![0, 5],
        absent_segments(&vec![0, 3, 5], &vec![3, 9])
    );
}

#[test]
fn every_request_is_synced_without_an_interval() {
    let mut flusher = GroupCommit::new(FsyncMode::Always);
    assert_eq!(
        Action {
            sync: true,
            exit: false
        },
        flusher.run(&Event::Jobs(vec![Job::Sync, Job::Sync]))
    );
    assert!(!flusher.dirty);
    assert_eq!(
        Action {
            sync: false,
            exit: true
        },
        flusher.run(&Event::Disconnected)
    );
}

#[test]
fn interval_syncs_later_and_for_seals() {
    let mut flusher = GroupCommit::new(FsyncMode::Interval(Duration::from_millis(5)));
    assert_eq!(Some(Duration::from_millis(5)), flusher.interval);
    assert!(!flusher.run(&Event::Jobs(vec![Job::Sync])).sync);
    assert!(flusher.dirty);
    assert_eq!(
        Action {
            sync: true,
            exit: false
        },
        flusher.run(&Event::Timeout)
    );
    assert_eq!(
        Action {
            sync: false,
            exit: false
        },
        flusher.run(&Event::Timeout)
    );
    flusher.run(&Event::Jobs(vec![Job::Sync]));
    assert_eq!(
        Action {
            sync: true,
            exit: true
        },
        flusher.run(&Event::Jobs(vec![Job::Sync, Job::Seal]))
    );
    assert!(!flusher.dirty);
}

#[test]
fn failed_sync_is_answered_with_its_reason() {
    assert_eq!(
        Error::Message("nvme fdatasync: disk on fire".to_owned()),
        sync_error("disk on fire")
    );
    assert_eq!(Ok(()), outcome(None));
    assert_eq!(Ok(()), outcome(Some(Ok(()))));
    assert_eq!(
        "nvme fdatasync: full",
        message(outcome(Some(Err("full".to_owned()))))
    );
}

#[test]
fn shorter_wait_counts() {
    let block = Duration::from_millis(250);
    assert_eq!(block, Duration::from_secs(1).min(block));
    assert_eq!(Duration::from_millis(1), Duration::from_millis(1).min(block));
}

#[test]
fn elapsed_time_is_strict() {
    let start = SystemTime { nanos: -1 };
    let span = Duration::from_nanos(2);
    assert!(!SystemTime { nanos: 1 }.past(start, span));
    assert!(SystemTime { nanos: 2 }.past(start, span));
    assert!(!SystemTime { nanos: -2 }.past(start, span));
}
