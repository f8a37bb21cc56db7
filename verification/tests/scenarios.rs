use std::collections::BTreeMap;
use std::sync::{Arc, Mutex};

use tansu_nvme::config::Config;
use tansu_nvme::ending::Ending;
use tansu_nvme::error::{Error, ErrorCode, Result};
use tansu_nvme::fetch::{
    aborted_transactions, offset_stage, AbortedTransaction, OffsetStage, Pending,
};
use tansu_nvme::groups::{offset_commit, offset_fetch};
use tansu_nvme::log::{read_batch_at, scan_segment};
use tansu_nvme::model::Model;
use tansu_nvme::ordmap::OrdMap;
use tansu_nvme::partition::PartitionInner;
use tansu_nvme::produce::BatchHeader;
use tansu_nvme::producer::{InitProducer, ProducerIdResponse};
use tansu_nvme::producing::{Admitted, Synced, Unsynced};
use tansu_nvme::rebuild::{absent_segments, FoundBatch, SidecarEntry};
use tansu_nvme::recovery::Boot;
use tansu_nvme::replay::{GroupOffsets, Groups, Image};
use tansu_nvme::retention::now_ms;
use tansu_nvme::snapshot::SnapshotDoc;
use tansu_nvme::state::CoordState;
use tansu_nvme::tier::{usage_after, EvictStep, Eviction};
use tansu_nvme::time::SystemTime;
use tansu_nvme::txn::{AddPartitionsToTxnTopic, TxnAddPartitionsRequest};
use tansu_nvme::types::{
    CreatableTopic, CreatableTopicConfig, IsolationLevel, OffsetCommitRequest, Topition, TxnState,
};
use tansu_nvme::wal::{replay, Wal, WalRecord};

/// A WAL file in memory: each frame holds the number of its record, and the
/// record as text.
#[derive(Default)]
struct Log {
    records: Vec<Option<WalRecord>>,
    bytes: Vec<u8>,
}

impl Log {
    fn push(&mut self, record: WalRecord) {
        let mut payload = (self.records.len() as u32).to_le_bytes().to_vec();
        payload.extend_from_slice(format!("{record:?}").as_bytes());
        self.bytes.extend_from_slice(&Wal::frame(&payload));
        self.records.push(Some(record));
    }

    fn extend(&mut self, records: impl IntoIterator<Item = WalRecord>) {
        for record in records {
            self.push(record);
        }
    }

    /// The records up to the torn tail.
    fn replay(&mut self) -> Vec<WalRecord> {
        replay(&self.bytes)
            .into_iter()
            .map(|payload| {
                let number = u32::from_le_bytes(payload[..4].try_into().unwrap());
                self.records[number as usize].take().expect("record")
            })
            .collect()
    }
}

/// An engine whose files are in memory.
struct Engine {
    config: Config,
    coord: CoordState,
    groups: Groups,
    group_offsets: GroupOffsets,
    partitions: BTreeMap<(String, i32), PartitionInner>,
    segments: BTreeMap<(String, i32), BTreeMap<i64, Vec<u8>>>,
    wal: Log,
    snapshot: Option<SnapshotDoc>,
    usage: u64,
    store: BTreeMap<i64, (Vec<u8>, Vec<SidecarEntry>)>,
    now: SystemTime,
}

/// Where a batch's value starts.
const VALUE: usize = 61 + 7;

fn batch(
    producer_id: i64,
    producer_epoch: i16,
    base_sequence: i32,
    transaction: bool,
    value: &str,
) -> (BatchHeader, Vec<u8>) {
    control_batch(producer_id, producer_epoch, base_sequence, transaction, false, value)
}

fn control_batch(
    producer_id: i64,
    producer_epoch: i16,
    base_sequence: i32,
    transaction: bool,
    control: bool,
    value: &str,
) -> (BatchHeader, Vec<u8>) {
    // As long as a batch of one record: its header, and its record's fields.
    let mut bytes = vec![transaction as u8, control as u8];
    bytes.extend_from_slice(&producer_id.to_le_bytes());
    bytes.extend_from_slice(&producer_epoch.to_le_bytes());
    bytes.extend_from_slice(&base_sequence.to_le_bytes());
    bytes.resize(VALUE, 0);
    bytes.extend_from_slice(value.as_bytes());
    (header_of(&bytes), bytes)
}

fn header_of(bytes: &[u8]) -> BatchHeader {
    let producer_id = i64::from_le_bytes(bytes[2..10].try_into().unwrap());
    let producer_epoch = i16::from_le_bytes(bytes[10..12].try_into().unwrap());
    let base_sequence = i32::from_le_bytes(bytes[12..16].try_into().unwrap());
    BatchHeader {
        last_offset_delta: 0,
        max_timestamp: 0,
        control: bytes[1] == 1,
        transaction: bytes[0] == 1,
        idempotent: producer_id != -1 && producer_epoch != -1 && base_sequence != -1,
        producer_id,
        producer_epoch,
        base_sequence,
    }
}

fn topic(name: &str, num_partitions: i32) -> CreatableTopic {
    CreatableTopic {
        name: name.to_owned(),
        num_partitions,
        replication_factor: 0,
        assignments: Some(vec![]),
        configs: Some(vec![]),
    }
}

fn retained_topic(name: &str) -> CreatableTopic {
    CreatableTopic {
        configs: Some(vec![CreatableTopicConfig {
            name: "retention.ms".to_owned(),
            value: Some("1000".to_owned()),
        }]),
        ..topic(name, 1)
    }
}

fn key(topition: &Topition) -> (String, i32) {
    (topition.topic.clone(), topition.partition)
}

impl Engine {
    fn open(config: Config) -> Engine {
        Engine {
            config,
            coord: CoordState::new(),
            groups: OrdMap::new(),
            group_offsets: OrdMap::new(),
            partitions: BTreeMap::new(),
            segments: BTreeMap::new(),
            wal: Log::default(),
            snapshot: None,
            usage: 0,
            store: BTreeMap::new(),
            now: SystemTime {
                nanos: 1_700_000_000_000_000_000,
            },
        }
    }

    fn create_topic(&mut self, topic: CreatableTopic) -> Result<()> {
        let record = self.coord.create_topic(7, &topic)?;
        for topition in tansu_nvme::topics::topic_partitions(&topic) {
            self.partitions.insert(key(&topition), PartitionInner::new());
        }
        self.wal.push(record);
        Ok(())
    }

    fn init_producer(&mut self, transaction_id: Option<&str>, timeout: i32) -> ProducerIdResponse {
        match self
            .coord
            .init_producer(transaction_id, timeout, Some(-1), Some(-1))
        {
            InitProducer::Completed { response, record } => {
                self.wal.extend(record);
                response
            }
            InitProducer::NeedToRollback {
                producer_id,
                producer_epoch,
            } => {
                self.txn_end(transaction_id.unwrap(), producer_id, producer_epoch, false)
                    .expect("rollback");
                self.init_producer(transaction_id, timeout)
            }
        }
    }

    fn admission(
        &mut self,
        transaction_id: Option<&str>,
        topition: &Topition,
        header: &BatchHeader,
    ) -> Result<Admitted> {
        let disk_usage = self.disk_usage();
        Admitted::admission(
            &mut self.coord,
            disk_usage,
            self.config.disk_budget_bytes,
            transaction_id,
            topition,
            header,
        )
    }

    fn append(&mut self, topition: &Topition, admitted: Admitted, bytes: Vec<u8>) -> Unsynced {
        let inner = self
            .partitions
            .entry(key(topition))
            .or_insert_with(PartitionInner::new);
        let files = self.segments.entry(key(topition)).or_default();

        let assigned = admitted.assign(inner, bytes, self.config.segment_bytes);
        if let Some(base) = assigned.created() {
            files.insert(base, vec![]);
            assigned.open_segment(inner);
        }

        let writer = inner.writer.expect("active segment");
        let file = files.get_mut(&writer.base_offset).expect("file");
        assert_eq!(writer.position as usize, file.len());
        file.extend_from_slice(assigned.bytes());
        let written = assigned.written(inner);
        self.usage += written.len();

        let watermark = inner.high_watermark();
        let unsynced = written.record(inner, self.config.tail_cache_bytes);
        assert_eq!(watermark, inner.high_watermark());
        unsynced
    }

    fn acknowledge(&mut self, topition: &Topition, unsynced: Unsynced) -> Synced {
        let inner = self.partitions.get_mut(&key(topition)).expect("partition");
        unsynced.acknowledge(inner)
    }

    fn produce(
        &mut self,
        transaction_id: Option<&str>,
        topition: &Topition,
        (header, bytes): (BatchHeader, Vec<u8>),
    ) -> Result<i64> {
        let admitted = self.admission(transaction_id, topition, &header)?;
        let unsynced = self.append(topition, admitted, bytes);
        let synced = self.acknowledge(topition, unsynced);
        synced.settle(&mut self.coord)
    }

    fn txn_begin(&mut self, id: &str, txn: ProducerIdResponse, topic: &str) {
        let request = TxnAddPartitionsRequest::VersionZeroToThree {
            transaction_id: id.to_owned(),
            producer_id: txn.id,
            producer_epoch: txn.epoch,
            topics: vec![AddPartitionsToTxnTopic {
                name: topic.to_owned(),
                partitions: Some(vec![0]),
            }],
        };
        let now = self.now;
        let (results, record) = self
            .coord
            .txn_add_partitions(&request, now)
            .expect("add partitions");
        assert_eq!(vec![(0, ErrorCode::NoError)], results[0].partitions);
        self.wal.extend(record);
    }

    fn txn_end(&mut self, id: &str, producer_id: i64, epoch: i16, committed: bool) -> Result<()> {
        let (ending, prepared) =
            Ending::prepare(&mut self.coord, id, producer_id, epoch, committed)?;
        if let Some((record, markers)) = prepared {
            self.wal.push(record);
            for topition in markers {
                let marker = control_batch(producer_id, epoch, -1, true, true, "end");
                self.produce(Some(id), &topition, marker)?;
            }
        }

        let resolution = ending.resolve(&mut self.coord)?;
        self.wal.extend(resolution.records());
        for effect in resolution.effects() {
            for (topic, partition, range) in &effect.ranges {
                self.partitions
                    .get_mut(&(topic.clone(), *partition))
                    .expect("partition")
                    .release(effect, *range);
            }
        }

        let commits = resolution.commits();
        for i in 0..commits.len() {
            let (group, offsets) = commits.at(i);
            let (_, record) =
                offset_commit(&self.coord, &mut self.group_offsets, group, offsets);
            self.wal.extend(record);
        }
        Ok(())
    }

    fn txn_state(&self, id: &str) -> Option<TxnState> {
        let txn = self.coord.transactions.get(&id.to_owned())?;
        txn.epochs.last()?.1.state
    }

    /// The bytes in segments and WAL.
    fn disk_usage(&self) -> u64 {
        self.usage + self.wal.bytes.len() as u64
    }

    fn stage(&self, topition: &Topition) -> OffsetStage {
        offset_stage(self.partitions.get(&key(topition)))
    }

    fn fetch(&self, topition: &Topition, offset: i64) -> Vec<(i64, Vec<u8>)> {
        self.partitions[&key(topition)]
            .fetch(offset, 1024 * 1024, IsolationLevel::ReadUncommitted)
            .into_iter()
            .map(|pending| match pending {
                Pending::Cached { base, batch } => (base, batch),
                Pending::Disk {
                    base,
                    segment_base,
                    position,
                    len,
                } => {
                    let file = &self.segments[&key(topition)][&segment_base];
                    let from = position as usize;
                    let frame = &file[from..from + len as usize];
                    (base, read_batch_at(frame, position).expect("frame"))
                }
                Pending::Remote {
                    base,
                    segment_base,
                    position,
                    len,
                } => {
                    let (from, to) = tansu_nvme::tier::batch_range(position, len);
                    let frame = &self.store[&segment_base].0[from as usize..to as usize];
                    (
                        base,
                        tansu_nvme::tier::read_batch(frame, topition, segment_base, position)
                            .expect("frame"),
                    )
                }
            })
            .collect()
    }

    fn maintain(&mut self, now: SystemTime) {
        for ((topic, partition), inner) in &mut self.partitions {
            let Some(kept) = self.coord.topic_retention(topic) else {
                continue;
            };
            let topition = Topition::new(topic, *partition);
            let Some((new_start, record)) = inner.apply_retention(&topition, kept, now_ms(now))
            else {
                continue;
            };
            let files = self
                .segments
                .get_mut(&(topic.clone(), *partition))
                .expect("segments");
            let bases: Vec<i64> = files.keys().copied().collect();
            let gone = inner.deletable_segments(&bases, new_start);
            for base in &gone {
                self.usage -= files.remove(base).expect("file").len() as u64;
            }
            self.wal.push(record);
        }
    }

    fn snapshot_now(&mut self) {
        let partitions = self
            .partitions
            .iter()
            .map(|((topic, partition), inner)| (Topition::new(topic, *partition), inner.skeleton()))
            .collect();
        self.snapshot = Some(SnapshotDoc::from_state(
            1,
            &self.coord,
            &self.groups,
            &self.group_offsets,
            partitions,
        ));
        self.wal = Log::default();
    }

    fn reopen(mut self) -> (Engine, Vec<(String, i64, i16, bool)>) {
        let mut image = match &self.snapshot {
            Some(doc) => doc.image(),
            None => Image::new(),
        };
        for record in self.wal.replay() {
            image.apply(record);
        }

        let mut boot = Boot::new(image);
        for ((topic, partition), files) in &mut self.segments {
            let mut found = vec![];
            for (base, bytes) in files {
                let (batches, valid) = scan_segment(bytes);
                bytes.truncate(valid as usize);
                for scanned in batches {
                    found.push(FoundBatch {
                        segment_base: *base,
                        offset: scanned.base_offset,
                        position: scanned.file_position,
                        len: scanned.len,
                        header: header_of(&scanned.batch),
                    });
                }
            }
            boot.scan(&Topition::new(topic, *partition), &found);
        }
        boot.add_rest();

        if !self.store.is_empty() {
            let remote: Vec<i64> = self.store.keys().copied().collect();
            let topitions: Vec<Topition> = (0..boot.partitions.len())
                .map(|i| boot.partitions.at(i).0.dup())
                .collect();
            for topition in topitions {
                let local: Vec<i64> = self
                    .segments
                    .get(&key(&topition))
                    .map(|files| files.keys().copied().collect())
                    .unwrap_or_default();
                let mut entries = vec![];
                for base in absent_segments(&remote, &local) {
                    for entry in &self.store[&base].1 {
                        entries.push((base, *entry));
                    }
                }
                boot.merge_tier(&topition, &remote, &entries);
            }
        }

        let recovered = boot.finish();
        let mut partitions = BTreeMap::new();
        for i in 0..recovered.partitions.len() {
            let (topition, inner) = recovered.partitions.at(i);
            partitions.insert(key(topition), inner.dup());
        }
        let usage = partitions.values().map(|inner| inner.local_bytes()).sum();
        (
            Engine {
                coord: recovered.coord,
                groups: recovered.groups,
                group_offsets: recovered.group_offsets,
                partitions,
                usage,
                ..self
            },
            recovered.in_doubt,
        )
    }

    fn tick(&mut self, topition: &Topition) {
        let inner = self.partitions.get_mut(&key(topition)).expect("partition");
        let files = self.segments.get_mut(&key(topition)).expect("segments");
        let bases: Vec<i64> = files.keys().copied().collect();
        for (base, entries) in inner.uploads(&bases) {
            self.store.insert(base, (files[&base].clone(), entries));
            inner.mark_uploaded(base);
        }

        let budget = self.config.disk_budget_bytes;
        let wal = self.wal.bytes.len() as u64;
        let mut eviction = Eviction::start(self.usage + wal, budget);
        loop {
            let local: Vec<i64> = files.keys().copied().collect();
            match eviction.step(inner.evictable(&local)) {
                EvictStep::Evict(base) => {
                    let size = files.remove(&base).expect("file").len() as u64;
                    inner.evict(base);
                    self.usage = usage_after(self.usage, size);
                    eviction.evicted(self.usage + wal);
                }
                EvictStep::NextPartition | EvictStep::Stop => break,
            }
        }
    }
}

#[test]
fn recovery_round_trip() {
    let topition = Topition::new("recovered", 0);
    let mut engine = Engine::open(Config::default());
    engine.create_topic(topic("recovered", 1)).expect("topic");

    // Plain idempotent producer.
    let pid = engine.init_producer(None, 0);
    for sequence in 0..3 {
        engine
            .produce(None, &topition, batch(pid.id, pid.epoch, sequence, false, "plain"))
            .expect("produce");
    }

    // A committed transaction, then an aborted one at the same epoch.
    let txn = engine.init_producer(Some("txn-a"), 10_000);
    for (committed, base_sequence) in [(true, 0), (false, 1)] {
        engine.txn_begin("txn-a", txn, "recovered");
        engine
            .produce(
                Some("txn-a"),
                &topition,
                batch(txn.id, txn.epoch, base_sequence, true, "txn"),
            )
            .expect("produce");
        assert_eq!(
            Ok(()),
            engine.txn_end("txn-a", txn.id, txn.epoch, committed)
        );
    }

    // Consumer offsets survive too.
    let (_, record) = offset_commit(
        &engine.coord,
        &mut engine.group_offsets,
        "group-a",
        &vec![(topition.dup(), OffsetCommitRequest::of(2))],
    );
    engine.wal.extend(record);

    let stage = engine.stage(&topition);
    assert_eq!(7, stage.high_watermark); // 3 plain + (1+marker) x 2
    assert_eq!(stage.high_watermark, stage.last_stable);

    // Reopen: WAL + segment scan must reproduce everything.
    let (mut engine, in_doubt) = engine.reopen();
    assert!(in_doubt.is_empty());

    let stage = engine.stage(&topition);
    assert_eq!(7, stage.high_watermark);
    assert_eq!(stage.high_watermark, stage.last_stable);
    assert_eq!(0, stage.log_start);

    let batches = engine.fetch(&topition, 0);
    assert_eq!(7, batches.len());
    assert_eq!(
        (0..7).collect::<Vec<i64>>(),
        batches.iter().map(|(base, _)| *base).collect::<Vec<_>>()
    );

    let aborted = aborted_transactions(engine.partitions.get(&key(&topition)), 0);
    assert_eq!(
        vec![AbortedTransaction {
            producer_id: txn.id,
            first_offset: 5 // 3 plain + txn(3) + marker(4)
        }],
        aborted
    );

    let offsets = offset_fetch(&engine.group_offsets, Some("group-a"), &vec![topition.dup()]);
    assert_eq!(Some(&2), offsets.get(&topition));

    // Sequences recovered: replaying an old sequence is a duplicate.
    let duplicate = engine.produce(None, &topition, batch(1, 0, 0, false, "dup"));
    assert_eq!(
        Err(Error::Api(ErrorCode::DuplicateSequenceNumber)),
        duplicate
    );

    // And the log continues where it left off.
    let offset = engine
        .produce(None, &topition, batch(1, 0, 3, false, "after"))
        .expect("produce");
    assert_eq!(7, offset);
}

#[test]
fn torn_tails_are_truncated() {
    let topition = Topition::new("torn", 0);
    let mut engine = Engine::open(Config::default());
    engine.create_topic(topic("torn", 1)).expect("topic");

    let pid = engine.init_producer(None, 0);
    for sequence in 0..3 {
        engine
            .produce(None, &topition, batch(pid.id, pid.epoch, sequence, false, "keep"))
            .expect("produce");
    }

    // Tear the segment and WAL tails as a crash mid-append would.
    engine.wal.bytes.extend_from_slice(b"torn");
    for bytes in engine.segments.get_mut(&key(&topition)).unwrap().values_mut() {
        bytes.extend_from_slice(&[0x54, 0x01, 0x01, 0x00, 0xff, 0xff]);
    }

    let (engine, _) = engine.reopen();
    assert_eq!(3, engine.stage(&topition).high_watermark);
    assert_eq!(3, engine.fetch(&topition, 0).len());
    assert_eq!("torn-0000000000", topition.dir_name());
}

#[test]
fn retention_deletes_sealed_segments() {
    let topition = Topition::new("retained", 0);
    let mut engine = Engine::open(Config {
        // Tiny segments: every batch seals the previous segment.
        segment_bytes: 64,
        ..Config::default()
    });
    engine.create_topic(retained_topic("retained")).expect("topic");

    let pid = engine.init_producer(None, 0);
    for sequence in 0..5 {
        engine
            .produce(
                None,
                &topition,
                batch(pid.id, pid.epoch, sequence, false, "expiring"),
            )
            .expect("produce");
    }
    assert!(engine.segments[&key(&topition)].len() >= 4);

    // Everything sealed is far past retention; the active tail stays.
    let later = SystemTime {
        nanos: engine.now.nanos + 3600 * 1_000_000_000,
    };
    engine.maintain(later);

    let stage = engine.stage(&topition);
    assert_eq!(5, stage.high_watermark);
    assert_eq!(4, stage.log_start);
    assert_eq!(1, engine.segments[&key(&topition)].len());

    let batches = engine.fetch(&topition, 0);
    assert_eq!(1, batches.len());
    assert_eq!(4, batches[0].0);

    // Recovery with a log start beyond deleted segments.
    let (engine, _) = engine.reopen();
    let stage = engine.stage(&topition);
    assert_eq!(5, stage.high_watermark);
    assert_eq!(4, stage.log_start);
}

#[test]
fn concurrent_producers_get_dense_unique_offsets() {
    let topition = Topition::new("dense", 0);
    let mut engine = Engine::open(Config::default());
    engine.create_topic(topic("dense", 1)).expect("topic");
    let engine = Arc::new(Mutex::new(engine));

    const TASKS: usize = 8;
    const EACH: usize = 25;

    let runtime = tokio::runtime::Builder::new_multi_thread()
        .build()
        .expect("runtime");
    let mut all = runtime.block_on(async {
        let mut handles = vec![];

        for task in 0..TASKS {
            let engine = engine.clone();
            let topition = topition.dup();

            handles.push(tokio::spawn(async move {
                let mut offsets = vec![];
                for i in 0..EACH {
                    let (header, bytes) = batch(-1, -1, -1, false, &format!("t{task}-{i}"));
                    let admitted = engine.lock().unwrap().admission(None, &topition, &header);
                    let admitted = admitted.expect("admitted");
                    tokio::task::yield_now().await;
                    let unsynced = engine.lock().unwrap().append(&topition, admitted, bytes);
                    tokio::task::yield_now().await;
                    let synced = engine.lock().unwrap().acknowledge(&topition, unsynced);
                    tokio::task::yield_now().await;
                    let settled = synced.settle(&mut engine.lock().unwrap().coord);
                    offsets.push(settled.expect("settle"));
                }
                offsets
            }));
        }

        let mut all = vec![];
        for handle in handles {
            all.extend(handle.await.expect("join"));
        }
        all
    });

    all.sort_unstable();
    let expected: Vec<i64> = (0..(TASKS * EACH) as i64).collect();
    assert_eq!(expected, all, "offsets must be dense and unique");

    let stage = engine.lock().unwrap().stage(&topition);
    assert_eq!((TASKS * EACH) as i64, stage.high_watermark);
    assert_eq!(stage.high_watermark, stage.last_stable);
}

#[test]
fn tiering_cold_bootstrap_serves_from_object_store() {
    let topition = Topition::new("tiered", 0);
    let mut engine = Engine::open(Config {
        segment_bytes: 64, // every batch seals a segment
        ..Config::default()
    });
    engine.create_topic(topic("tiered", 1)).expect("topic");

    let pid = engine.init_producer(None, 0);
    for sequence in 0..5 {
        engine
            .produce(
                None,
                &topition,
                batch(pid.id, pid.epoch, sequence, false, &format!("v{sequence}")),
            )
            .expect("produce");
    }
    engine.tick(&topition);
    engine.snapshot_now();

    // The local disk is gone entirely.
    engine.segments.clear();
    let (mut engine, _) = engine.reopen();

    let stage = engine.stage(&topition);
    assert_eq!(4, stage.high_watermark, "all but the active segment");

    let batches = engine.fetch(&topition, 0);
    assert_eq!(stage.high_watermark as usize, batches.len());
    assert_eq!(0, batches[0].0);
    assert_eq!(b"v3", &batches[3].1[VALUE..]);

    // And the log continues past the recovered watermark.
    let pid = engine.init_producer(None, 0);
    assert_eq!(2, pid.id);
    let offset = engine
        .produce(None, &topition, batch(pid.id, pid.epoch, 0, false, "after"))
        .expect("produce");
    assert_eq!(stage.high_watermark, offset);

    // The sidecars rebuilt the first producer's sequence too.
    assert_eq!(
        Err(Error::Api(ErrorCode::DuplicateSequenceNumber)),
        engine.produce(None, &topition, batch(1, 0, 3, false, "dup"))
    );
}

#[test]
fn tiering_evicts_under_disk_budget_and_reads_through() {
    let topition = Topition::new("evicted", 0);
    let mut engine = Engine::open(Config {
        segment_bytes: 64,
        tail_cache_bytes: 0,
        disk_budget_bytes: 4096,
        ..Config::default()
    });
    engine.create_topic(topic("evicted", 1)).expect("topic");

    let pid = engine.init_producer(None, 0);
    for sequence in 0..30 {
        engine
            .produce(
                None,
                &topition,
                batch(pid.id, pid.epoch, sequence, false, "spill me to s3"),
            )
            .expect("produce");
        if sequence % 3 == 2 {
            engine.tick(&topition);
        }
    }
    engine.tick(&topition);

    let inner = &engine.partitions[&key(&topition)];
    let tiered = (0..inner.batches.len())
        .filter(|i| inner.batches.at(*i).1.tiered)
        .count();
    assert!(tiered > 0, "eviction must have tiered some batches");
    assert!(
        engine.segments[&key(&topition)].len() < 30,
        "some local segments must be gone"
    );

    // Every batch still readable: hot from disk, cold from the store.
    assert_eq!(30, engine.fetch(&topition, 0).len());
}

#[test]
fn disk_budget_refuses_then_reclaims() {
    let topition = Topition::new("budget", 0);
    let mut engine = Engine::open(Config {
        segment_bytes: 128,
        disk_budget_bytes: 2048,
        ..Config::default()
    });
    engine.create_topic(retained_topic("budget")).expect("topic");

    let pid = engine.init_producer(None, 0);

    let mut refused = None;
    for sequence in 0..200 {
        match engine.produce(
            None,
            &topition,
            batch(pid.id, pid.epoch, sequence, false, "filling the disk"),
        ) {
            Ok(_) => {}
            Err(Error::Api(ErrorCode::KafkaStorageError)) => {
                refused = Some(sequence);
                break;
            }
            Err(otherwise) => panic!("{otherwise:?}"),
        }
    }

    let refused = refused.expect("budget must refuse eventually");
    assert!(refused > 4, "some produces must land first");

    // Retention reclaims budget; produce works again.
    let later = SystemTime {
        nanos: engine.now.nanos + 3600 * 1_000_000_000,
    };
    engine.maintain(later);

    engine
        .produce(
            None,
            &topition,
            batch(pid.id, pid.epoch, refused, false, "after reclaim"),
        )
        .expect("produce");
}

#[test]
fn fetch_reads_evicted_batches_from_disk() {
    let topition = Topition::new("cold", 0);
    let mut engine = Engine::open(Config {
        // No tail cache: every fetch reads the segment, including the active
        // one.
        tail_cache_bytes: 0,
        ..Config::default()
    });
    engine.create_topic(topic("cold", 1)).expect("topic");

    let pid = engine.init_producer(None, 0);
    for sequence in 0..4 {
        engine
            .produce(
                None,
                &topition,
                batch(pid.id, pid.epoch, sequence, false, "cold read"),
            )
            .expect("produce");
    }
    assert!(engine.partitions[&key(&topition)]
        .fetch(0, 1024, IsolationLevel::ReadUncommitted)
        .iter()
        .all(|pending| matches!(pending, Pending::Disk { .. })));

    let batches = engine.fetch(&topition, 0);
    assert_eq!(4, batches.len());
    assert_eq!(0, batches[0].0);
    assert_eq!(b"cold read", &batches[0].1[VALUE..]);
}

#[test]
fn prepared_transaction_survives_a_crash_in_doubt() {
    let topition = Topition::new("doubt", 0);
    let mut engine = Engine::open(Config::default());
    engine.create_topic(topic("doubt", 1)).expect("topic");

    let txn = engine.init_producer(Some("txn"), 10_000);
    engine.txn_begin("txn", txn, "doubt");
    engine
        .produce(Some("txn"), &topition, batch(txn.id, txn.epoch, 0, true, "x"))
        .expect("produce");
    let (record, markers) = engine
        .coord
        .txn_prepare("txn", txn.id, txn.epoch, true)
        .expect("prepare")
        .expect("open");
    assert_eq!(vec![topition.dup()], markers);
    engine.wal.push(record);

    // The crash comes before the marker.
    let (mut engine, in_doubt) = engine.reopen();
    assert_eq!(vec![("txn".to_owned(), txn.id, txn.epoch, true)], in_doubt);
    let inner = &engine.partitions[&key(&topition)];
    assert!(!inner.marker_present(0, txn.id));
    assert_eq!(0, engine.stage(&topition).last_stable);
    assert_eq!(1, engine.stage(&topition).high_watermark);

    let marker = control_batch(txn.id, txn.epoch, -1, true, true, "end");
    engine
        .produce(Some("txn"), &topition, marker)
        .expect("marker");
    assert!(engine.partitions[&key(&topition)].marker_present(0, txn.id));
    engine
        .txn_end("txn", txn.id, txn.epoch, true)
        .expect("resolve");
    assert_eq!(2, engine.stage(&topition).last_stable);
}

#[test]
fn open_transaction_survives_a_crash_with_its_range() {
    let topition = Topition::new("open", 0);
    let mut engine = Engine::open(Config::default());
    engine.create_topic(topic("open", 1)).expect("topic");

    engine
        .produce(None, &topition, batch(-1, -1, -1, false, "plain"))
        .expect("produce");
    let txn = engine.init_producer(Some("txn"), 10_000);
    engine.txn_begin("txn", txn, "open");
    for sequence in 0..2 {
        engine
            .produce(
                Some("txn"),
                &topition,
                batch(txn.id, txn.epoch, sequence, true, "x"),
            )
            .expect("produce");
    }
    assert_eq!(1, engine.stage(&topition).last_stable);

    let (mut engine, in_doubt) = engine.reopen();
    assert!(in_doubt.is_empty());
    assert_eq!(1, engine.stage(&topition).last_stable);
    assert_eq!(3, engine.stage(&topition).high_watermark);

    // The same transaction id starts over: the open one is rolled back first.
    let again = engine.init_producer(Some("txn"), 10_000);
    assert_eq!((txn.id, 1), (again.id, again.epoch));
    assert_eq!(4, engine.stage(&topition).last_stable);
    assert_eq!(
        vec![AbortedTransaction {
            producer_id: txn.id,
            first_offset: 1
        }],
        aborted_transactions(engine.partitions.get(&key(&topition)), 0)
    );
}

#[test]
fn overlapping_transactions_resolve_together() {
    let topition = Topition::new("overlap", 0);
    let mut engine = Engine::open(Config::default());
    engine.create_topic(topic("overlap", 1)).expect("topic");

    let a = engine.init_producer(Some("a"), 10_000);
    let b = engine.init_producer(Some("b"), 10_000);
    engine.txn_begin("a", a, "overlap");
    engine.txn_begin("b", b, "overlap");
    for (id, txn, sequence) in [("a", a, 0), ("b", b, 0), ("a", a, 1)] {
        engine
            .produce(
                Some(id),
                &topition,
                batch(txn.id, txn.epoch, sequence, true, id),
            )
            .expect("produce");
    }

    // `a` is open, and its batches lie around that of `b`: `b` waits, prepared.
    engine.txn_end("b", b.id, b.epoch, true).expect("end");
    assert_eq!(Some(TxnState::PrepareCommit), engine.txn_state("b"));
    assert_eq!(0, engine.stage(&topition).last_stable);

    // The last end resolves both.
    engine.txn_end("a", a.id, a.epoch, false).expect("end");
    assert_eq!(Some(TxnState::Committed), engine.txn_state("b"));
    assert_eq!(Some(TxnState::Aborted), engine.txn_state("a"));
    assert_eq!(5, engine.stage(&topition).last_stable);
    assert_eq!(
        vec![AbortedTransaction {
            producer_id: a.id,
            first_offset: 0
        }],
        aborted_transactions(engine.partitions.get(&key(&topition)), 0)
    );
}

#[test]
fn rollback_waits_for_an_overlapping_transaction() {
    let topition = Topition::new("rollback", 0);
    let mut engine = Engine::open(Config::default());
    engine.create_topic(topic("rollback", 1)).expect("topic");

    let a = engine.init_producer(Some("a"), 10_000);
    let b = engine.init_producer(Some("b"), 10_000);
    let plain = engine.init_producer(None, 0);
    assert_eq!((1, 2, 3), (a.id, b.id, plain.id));
    engine.txn_begin("a", a, "rollback");
    engine.txn_begin("b", b, "rollback");
    for (id, txn) in [("a", a), ("b", b)] {
        engine
            .produce(Some(id), &topition, batch(txn.id, txn.epoch, 0, true, id))
            .expect("produce");
    }

    // The open incarnation is prepared to abort, and its marker at 2 lies
    // beyond the batch of `b`, which is open.
    let again = engine.init_producer(Some("a"), 10_000);
    assert_eq!((1, 1), (again.id, again.epoch));
    let state = |engine: &Engine, epoch: i16| {
        let txn = engine.coord.transactions.get(&"a".to_owned()).expect("txn");
        txn.epochs.get(&epoch).expect("epoch").state
    };
    assert_eq!(Some(TxnState::PrepareAbort), state(&engine, 0));
    assert_eq!(None, state(&engine, 1));
    assert_eq!(0, engine.stage(&topition).last_stable);

    // The end of `b` ends it; nothing was open in the new incarnation.
    engine.txn_end("b", b.id, b.epoch, true).expect("end");
    assert_eq!(Some(TxnState::Aborted), state(&engine, 0));
    assert_eq!(4, engine.stage(&topition).last_stable);

    let next = engine.init_producer(Some("a"), 10_000);
    assert_eq!((1, 2), (next.id, next.epoch));
    assert_eq!(4, engine.init_producer(Some("new"), 10_000).id);
}

#[test]
fn chained_transactions_all_resolve() {
    let topition = Topition::new("chain", 0);
    let mut engine = Engine::open(Config::default());
    engine.create_topic(topic("chain", 1)).expect("topic");

    let a = engine.init_producer(Some("a"), 10_000);
    let b = engine.init_producer(Some("b"), 10_000);
    let c = engine.init_producer(Some("c"), 10_000);
    for (id, txn) in [("a", a), ("b", b), ("c", c)] {
        engine.txn_begin(id, txn, "chain");
    }
    let mut send = |engine: &mut Engine, id: &str, txn: ProducerIdResponse, sequence: i32| {
        engine
            .produce(
                Some(id),
                &topition,
                batch(txn.id, txn.epoch, sequence, true, id),
            )
            .expect("produce")
    };
    assert_eq!(0, send(&mut engine, "a", a, 0));
    assert_eq!(1, send(&mut engine, "b", b, 0));

    // 0 to 2, with its marker: `a` waits for `b`.
    engine.txn_end("a", a.id, a.epoch, true).expect("end");
    assert_eq!(Some(TxnState::PrepareCommit), engine.txn_state("a"));

    for _ in 3..5 {
        engine
            .produce(None, &topition, batch(-1, -1, -1, false, "plain"))
            .expect("produce");
    }
    assert_eq!(5, send(&mut engine, "c", c, 0));

    // 1 to 6: `b` waits for `c`, and nothing is left for `a` to wait for.
    engine.txn_end("b", b.id, b.epoch, true).expect("end");
    assert_eq!(Some(TxnState::Committed), engine.txn_state("a"));
    assert_eq!(Some(TxnState::PrepareCommit), engine.txn_state("b"));
    assert_eq!(1, engine.stage(&topition).last_stable);

    // 5 to 8: none is open any more.
    assert_eq!(7, send(&mut engine, "c", c, 1));
    engine.txn_end("c", c.id, c.epoch, true).expect("end");
    for id in ["a", "b", "c"] {
        assert_eq!(Some(TxnState::Committed), engine.txn_state(id));
    }
    assert_eq!(9, engine.stage(&topition).last_stable);

    let (engine, in_doubt) = engine.reopen();
    assert!(in_doubt.is_empty());
    assert_eq!(9, engine.stage(&topition).last_stable);
}

#[test]
fn transaction_that_overlaps_none_resolves_at_once() {
    let topition = Topition::new("apart", 0);
    let mut engine = Engine::open(Config::default());
    engine.create_topic(topic("apart", 1)).expect("topic");

    let a = engine.init_producer(Some("a"), 10_000);
    let b = engine.init_producer(Some("b"), 10_000);
    for (id, txn) in [("a", a), ("b", b)] {
        engine.txn_begin(id, txn, "apart");
        engine
            .produce(Some(id), &topition, batch(txn.id, txn.epoch, 0, true, id))
            .expect("produce");
    }

    engine.txn_end("b", b.id, b.epoch, true).expect("end");
    assert_eq!(Some(TxnState::Committed), engine.txn_state("b"));
    assert_eq!(Some(TxnState::Begin), engine.txn_state("a"));
    // `a` still holds the last stable offset.
    assert_eq!(0, engine.stage(&topition).last_stable);
    assert_eq!(3, engine.stage(&topition).high_watermark);
}

#[test]
fn lost_batch_is_taken_when_it_is_sent_again() {
    let topition = Topition::new("lost", 0);
    let mut engine = Engine::open(Config::default());
    engine.create_topic(topic("lost", 1)).expect("topic");
    let pid = engine.init_producer(None, 0);
    engine
        .produce(None, &topition, batch(pid.id, pid.epoch, 0, false, "kept"))
        .expect("produce");

    // Admitted, and a snapshot taken; the crash comes before the write.
    let (header, _) = batch(pid.id, pid.epoch, 1, false, "lost");
    assert!(Admitted::admission(&mut engine.coord, 0, 0, None, &topition, &header).is_ok());
    engine.snapshot_now();

    let (mut engine, _) = engine.reopen();
    assert_eq!(
        Ok(1),
        engine.produce(None, &topition, batch(pid.id, pid.epoch, 1, false, "lost"))
    );
    assert_eq!(
        Err(Error::Api(ErrorCode::DuplicateSequenceNumber)),
        engine.produce(None, &topition, batch(pid.id, pid.epoch, 0, false, "kept"))
    );
}

#[test]
fn snapshot_stands_for_the_wal() {
    let topition = Topition::new("snap", 0);
    let mut engine = Engine::open(Config::default());
    engine.create_topic(topic("snap", 2)).expect("topic");
    let txn = engine.init_producer(Some("txn"), 10_000);
    engine.txn_begin("txn", txn, "snap");
    engine
        .produce(Some("txn"), &topition, batch(txn.id, txn.epoch, 0, true, "x"))
        .expect("produce");
    engine
        .txn_end("txn", txn.id, txn.epoch, false)
        .expect("abort");
    engine.snapshot_now();

    let (_, record) = offset_commit(
        &engine.coord,
        &mut engine.group_offsets,
        "late",
        &vec![(topition.dup(), OffsetCommitRequest::of(1))],
    );
    engine.wal.extend(record);

    let (mut engine, _) = engine.reopen();
    assert_eq!(2, engine.partitions.len());
    assert_eq!(2, engine.stage(&topition).high_watermark);
    assert_eq!(
        1,
        aborted_transactions(engine.partitions.get(&key(&topition)), 0).len()
    );
    let offsets = offset_fetch(&engine.group_offsets, Some("late"), &vec![topition.dup()]);
    assert_eq!(Some(&1), offsets.get(&topition));
    assert_eq!(1, engine.init_producer(Some("txn"), 0).epoch);
}

#[test]
fn swept_transaction_cannot_keep_producing() {
    let topition = Topition::new("swept", 0);
    let mut engine = Engine::open(Config::default());
    engine.create_topic(topic("swept", 1)).expect("topic");
    let txn = engine.init_producer(Some("txn"), 1_000);
    engine.txn_begin("txn", txn, "swept");

    let in_time = SystemTime {
        nanos: engine.now.nanos + 1_000_000_000,
    };
    assert!(engine.coord.expired_transactions(in_time).is_empty());

    let late = SystemTime {
        nanos: engine.now.nanos + 1_000_000_001,
    };
    let expired = engine.coord.expired_transactions(late);
    assert_eq!(vec![("txn".to_owned(), txn.id, txn.epoch)], expired);
    engine
        .txn_end("txn", txn.id, txn.epoch, false)
        .expect("sweep");
    assert!(engine.coord.expired_transactions(late).is_empty());

    assert_eq!(
        Err(Error::Api(ErrorCode::InvalidTxnState)),
        engine.produce(
            Some("txn"),
            &topition,
            batch(txn.id, txn.epoch, 0, true, "late")
        )
    );
}
