use tansu_nvme::error::{Error, ErrorCode};
use tansu_nvme::groups::{
    committed_offset_topitions, delete_groups, describe_groups, list_groups, offset_commit,
    offset_fetch, update_group, UpdateError,
};
use tansu_nvme::model::Model;
use tansu_nvme::ordmap::OrdMap;
use tansu_nvme::producer::{after_rollback, InitProducer, ProducerIdResponse};
use tansu_nvme::rebuild::merge_range;
use tansu_nvme::replay::{GroupOffsets, Groups, Image};
use tansu_nvme::snapshot::SnapshotDoc;
use tansu_nvme::state::{CoordState, TxnDetail, TxnProduceOffset};
use tansu_nvme::time::SystemTime;
use tansu_nvme::txn::{
    AddPartitionsToTxnTopic, TxnAddPartitionsRequest, TxnEffects, TxnOffsetCommitRequest,
    TxnOffsetPartition, TxnOffsetTopic,
};
use tansu_nvme::types::{
    AlterableConfig, CreatableTopic, CreatableTopicConfig, GroupDetail, OffsetCommitRequest,
    ScramCredential, TopicId, Topition, TxnState, Version,
};
use tansu_nvme::wal::WalRecord;

const NOW: SystemTime = SystemTime {
    nanos: 1_000_000_000,
};

fn topic(name: &str, num_partitions: i32) -> CreatableTopic {
    CreatableTopic {
        name: name.to_owned(),
        num_partitions,
        replication_factor: 2,
        assignments: Some(vec![(0, Some(vec![1, 2]))]),
        configs: None,
    }
}

fn detail(text: &str) -> GroupDetail {
    GroupDetail {
        encoded: text.as_bytes().to_vec(),
    }
}

fn add(id: &str, producer_id: i64, producer_epoch: i16) -> TxnAddPartitionsRequest {
    TxnAddPartitionsRequest::VersionZeroToThree {
        transaction_id: id.to_owned(),
        producer_id,
        producer_epoch,
        topics: vec![AddPartitionsToTxnTopic {
            name: "t".to_owned(),
            partitions: Some(vec![0, 1]),
        }],
    }
}

fn completed(outcome: InitProducer) -> ProducerIdResponse {
    match outcome {
        InitProducer::Completed { response, .. } => response,
        otherwise => panic!("{otherwise:?}"),
    }
}

#[test]
fn producer_ids_count_up() {
    let mut coord = CoordState::new();
    let first = completed(coord.init_producer(None, 0, Some(-1), Some(-1)));
    assert_eq!((1, 0), (first.id, first.epoch));
    let second = completed(coord.init_producer(Some("x"), 5, Some(-1), Some(-1)));
    assert_eq!((2, 0), (second.id, second.epoch));
    let bumped = completed(coord.init_producer(Some("x"), 5, Some(-1), Some(-1)));
    assert_eq!((2, 1), (bumped.id, bumped.epoch));

    let nothing = ProducerIdResponse {
        id: -1,
        epoch: -1,
        error: ErrorCode::UnknownServerError,
    };
    assert_eq!(
        nothing,
        completed(coord.init_producer(Some("x"), 5, Some(2), Some(1)))
    );
    assert_eq!(nothing, completed(coord.init_producer(None, 0, None, None)));
    assert_eq!(None, after_rollback(ErrorCode::NoError));
    assert_eq!(Some(nothing), after_rollback(ErrorCode::ProducerFenced));
}

#[test]
fn open_transaction_is_rolled_back_first() {
    let mut coord = CoordState::new();
    let txn = completed(coord.init_producer(Some("x"), 5, Some(-1), Some(-1)));
    coord
        .txn_add_partitions(&add("x", txn.id, txn.epoch), NOW)
        .expect("add");
    match coord.init_producer(Some("x"), 5, Some(-1), Some(-1)) {
        InitProducer::NeedToRollback {
            producer_id,
            producer_epoch,
        } => assert_eq!((txn.id, txn.epoch), (producer_id, producer_epoch)),
        otherwise => panic!("{otherwise:?}"),
    }
    coord
        .txn_prepare("x", txn.id, txn.epoch, false)
        .expect("prepare");
    let again = completed(coord.init_producer(Some("x"), 5, Some(-1), Some(-1)));
    assert_eq!((txn.id, 1), (again.id, again.epoch));
}

#[test]
fn transactions_are_validated_in_order() {
    let mut coord = CoordState::new();
    let txn = completed(coord.init_producer(Some("x"), 5, Some(-1), Some(-1)));
    let code = |coord: &mut CoordState, request: &TxnAddPartitionsRequest| {
        let (results, record) = coord.txn_add_partitions(request, NOW).expect("answer");
        assert!(record.is_none());
        assert_eq!("t", results[0].name);
        assert_eq!(2, results[0].partitions.len());
        results[0].partitions[1].1
    };
    assert_eq!(
        ErrorCode::TransactionalIdNotFound,
        code(&mut coord, &add("y", 9, 9))
    );
    assert_eq!(
        ErrorCode::UnknownProducerId,
        code(&mut coord, &add("x", 9, 9))
    );
    assert_eq!(
        ErrorCode::ProducerFenced,
        code(&mut coord, &add("x", txn.id, 9))
    );
    assert_eq!(
        Err(Error::Api(ErrorCode::ProducerFenced)),
        coord.txn_prepare("x", txn.id, 9, true).map(|_| ())
    );
    assert_eq!(
        Err(Error::Api(ErrorCode::UnknownProducerId)),
        coord.txn_resolve("x", 9, 0, true).map(|_| ())
    );
    assert_eq!(
        Err(Error::Api(ErrorCode::UnsupportedVersion)),
        coord
            .txn_add_partitions(&TxnAddPartitionsRequest::VersionFourPlus, NOW)
            .map(|_| ())
    );
}

#[test]
fn rebegun_transaction_carries_nothing_over() {
    let mut coord = CoordState::new();
    let txn = completed(coord.init_producer(Some("x"), 5, Some(-1), Some(-1)));
    coord
        .txn_add_partitions(&add("x", txn.id, txn.epoch), NOW)
        .expect("add");
    coord
        .record_txn_produce("x", txn.epoch, "t", 0, 3, 4, false)
        .expect("record");
    assert_eq!(1, coord.produced("x", txn.epoch).len());
    coord
        .txn_prepare("x", txn.id, txn.epoch, false)
        .expect("prepare");
    let effects = coord
        .txn_resolve("x", txn.id, txn.epoch, false)
        .expect("resolve");
    assert_eq!(1, effects.len());
    assert!(effects[0].aborting);
    coord
        .txn_add_partitions(&add("x", txn.id, txn.epoch), NOW)
        .expect("add");
    assert!(coord.produced("x", txn.epoch).is_empty());
    assert_eq!(
        Ok(()),
        coord.record_txn_produce("x", txn.epoch, "t", 0, 9, 9, false)
    );
    assert_eq!(9, coord.produced("x", txn.epoch)[0].2.offset_start);
}

#[test]
fn staged_offsets_apply_on_commit_only() {
    for committed in [true, false] {
        let mut coord = CoordState::new();
        let txn = completed(coord.init_producer(Some("x"), 5, Some(-1), Some(-1)));
        let request = TxnOffsetCommitRequest {
            transaction_id: "x".to_owned(),
            group_id: "g".to_owned(),
            producer_id: txn.id,
            producer_epoch: txn.epoch,
            topics: vec![TxnOffsetTopic {
                name: "t".to_owned(),
                partitions: Some(vec![TxnOffsetPartition {
                    partition_index: 4,
                    committed_offset: 42,
                    committed_leader_epoch: None,
                    committed_metadata: None,
                }]),
            }],
        };
        let (results, record) = coord.txn_offset_commit(&request).expect("answer");
        assert_eq!(vec![(4, ErrorCode::NoError)], results[0].partitions);
        assert!(record.is_some());

        // It never began: there is nothing to prepare, and it ends committed.
        assert!(coord
            .txn_prepare("x", txn.id, txn.epoch, committed)
            .expect("prepare")
            .is_none());
        let effects = coord
            .txn_resolve("x", txn.id, txn.epoch, committed)
            .expect("resolve");
        assert!(!effects[0].aborting);
        let commits = tansu_nvme::resolution::commits_by_group(&effects);
        if committed {
            let offsets = commits.get(&"g".to_owned()).expect("group");
            assert_eq!(vec![(Topition::new("t", 4), OffsetCommitRequest::of(42))], *offsets);
        } else {
            assert_eq!(0, commits.len());
        }
    }
}

#[test]
fn staging_for_an_unknown_transaction_is_answered() {
    let mut coord = CoordState::new();
    let request = TxnOffsetCommitRequest {
        transaction_id: "x".to_owned(),
        group_id: "g".to_owned(),
        producer_id: 1,
        producer_epoch: 0,
        topics: vec![TxnOffsetTopic {
            name: "t".to_owned(),
            partitions: None,
        }],
    };
    let (results, record) = coord.txn_offset_commit(&request).expect("answer");
    assert!(results[0].partitions.is_empty());
    assert!(record.is_none());
}

#[test]
fn terminal_record_names_aborted_ranges_only() {
    let mut coord = CoordState::new();
    let txn = completed(coord.init_producer(Some("x"), 5, Some(-1), Some(-1)));
    coord
        .txn_add_partitions(&add("x", txn.id, txn.epoch), NOW)
        .expect("add");
    coord
        .record_txn_produce("x", txn.epoch, "t", 1, 3, 4, false)
        .expect("record");
    coord
        .txn_prepare("x", txn.id, txn.epoch, true)
        .expect("prepare");
    let effects = coord
        .txn_resolve("x", txn.id, txn.epoch, true)
        .expect("resolve");
    match effects[0].terminal_record() {
        WalRecord::TxnTerminal {
            committed, aborted, ..
        } => {
            assert!(committed);
            assert!(aborted.is_empty());
        }
        otherwise => panic!("{otherwise:?}"),
    }
    assert_eq!(1, effects[0].ranges.len());
}

#[test]
fn only_ranges_with_an_offset_in_common_overlap() {
    let mut coord = CoordState::new();
    for (id, producer, start, end) in [("a", 1, 0, 1), ("b", 2, 5, 6), ("c", 3, 6, 9)] {
        completed(coord.init_producer(Some(id), 5, Some(-1), Some(-1)));
        coord
            .txn_add_partitions(&add(id, producer, 0), NOW)
            .expect("add");
        coord
            .record_txn_produce(id, 0, "t", 0, start, end, false)
            .expect("record");
    }
    let names = |id: &str, producer: i64| -> Vec<String> {
        coord
            .overlapping_transactions(id, producer, 0)
            .into_iter()
            .map(|txn| txn.transaction)
            .collect()
    };
    assert!(names("a", 1).is_empty());
    assert_eq!(vec!["c".to_owned()], names("b", 2));
    assert_eq!(vec!["b".to_owned()], names("c", 3));
}

fn state_of(coord: &CoordState, id: &str, epoch: i16) -> Option<TxnState> {
    coord
        .transactions
        .get(&id.to_owned())
        .and_then(|txn| txn.epochs.get(&epoch))
        .and_then(|detail| detail.state)
}

fn ended(effects: &[TxnEffects]) -> Vec<(String, i16)> {
    effects
        .iter()
        .map(|effects| (effects.transaction.clone(), effects.producer_epoch))
        .collect()
}

#[test]
fn end_reaches_through_overlaps() {
    let mut coord = CoordState::new();
    let ranges = [("a", 1, 0, 2), ("b", 2, 1, 6), ("c", 3, 5, 8), ("d", 4, 9, 9)];
    for (id, producer, start, end) in ranges {
        completed(coord.init_producer(Some(id), 5, Some(-1), Some(-1)));
        coord
            .txn_add_partitions(&add(id, producer, 0), NOW)
            .expect("add");
        coord
            .record_txn_produce(id, 0, "t", 0, start, end, false)
            .expect("record");
        coord
            .txn_prepare(id, producer, 0, id != "b")
            .expect("prepare");
    }

    // `a` and `c` have no offset in common; `b` lies between them.
    let effects = coord.txn_resolve("c", 3, 0, true).expect("resolve");
    assert_eq!(
        vec![
            ("a".to_owned(), 0),
            ("b".to_owned(), 0),
            ("c".to_owned(), 0)
        ],
        ended(&effects)
    );
    assert_eq!(Some(TxnState::Committed), state_of(&coord, "a", 0));
    assert_eq!(Some(TxnState::Aborted), state_of(&coord, "b", 0));
    assert_eq!(Some(TxnState::Committed), state_of(&coord, "c", 0));
    assert_eq!(Some(TxnState::PrepareCommit), state_of(&coord, "d", 0));
}

#[test]
fn prepared_incarnation_hides_no_open_one() {
    let mut coord = CoordState::new();
    for (id, producer, start, end) in [("x", 1, 0, 2), ("y", 2, 1, 1)] {
        completed(coord.init_producer(Some(id), 5, Some(-1), Some(-1)));
        coord
            .txn_add_partitions(&add(id, producer, 0), NOW)
            .expect("add");
        coord
            .record_txn_produce(id, 0, "t", 0, start, end, false)
            .expect("record");
    }
    coord.txn_prepare("x", 1, 0, true).expect("prepare");
    assert!(coord
        .txn_resolve("x", 1, 0, true)
        .expect("resolve")
        .is_empty());

    // The next incarnation of `x` opens while the first one waits for `y`.
    let next = completed(coord.init_producer(Some("x"), 5, Some(-1), Some(-1)));
    assert_eq!((1, 1), (next.id, next.epoch));
    coord.txn_add_partitions(&add("x", 1, 1), NOW).expect("add");
    coord
        .record_txn_produce("x", 1, "t", 0, 3, 3, false)
        .expect("record");
    coord
        .record_txn_produce("y", 0, "t", 0, 4, 4, false)
        .expect("record");
    assert_eq!(
        vec![("x".to_owned(), 0), ("x".to_owned(), 1)],
        coord
            .overlapping_transactions("y", 2, 0)
            .into_iter()
            .map(|txn| (txn.transaction, txn.producer_epoch))
            .collect::<Vec<_>>()
    );

    // `y` waits for the open incarnation, and ends the one that waited for it.
    coord.txn_prepare("y", 2, 0, true).expect("prepare");
    assert!(coord.is_held("y", 2, 0));
    let effects = coord.txn_resolve("y", 2, 0, true).expect("resolve");
    assert_eq!(vec![("x".to_owned(), 0)], ended(&effects));
    assert_eq!(Some(TxnState::PrepareCommit), state_of(&coord, "y", 0));

    coord.txn_prepare("x", 1, 1, false).expect("prepare");
    let effects = coord.txn_resolve("x", 1, 1, false).expect("resolve");
    assert_eq!(
        vec![("y".to_owned(), 0), ("x".to_owned(), 1)],
        ended(&effects)
    );
    assert_eq!(Some(TxnState::Committed), state_of(&coord, "y", 0));
    assert_eq!(Some(TxnState::Aborted), state_of(&coord, "x", 1));
}

#[test]
fn prepared_ranges_are_in_a_snapshot() {
    let mut coord = CoordState::new();
    completed(coord.init_producer(Some("x"), 5, Some(-1), Some(-1)));
    coord.txn_add_partitions(&add("x", 1, 0), NOW).expect("add");
    coord
        .record_txn_produce("x", 0, "t", 1, 3, 4, false)
        .expect("record");
    coord.txn_prepare("x", 1, 0, true).expect("prepare");
    let doc = SnapshotDoc::from_state(1, &coord, &OrdMap::new(), &OrdMap::new(), vec![]);
    let range = TxnProduceOffset {
        offset_start: 3,
        offset_end: 4,
    };
    assert_eq!(
        vec![("t".to_owned(), vec![(0, None), (1, Some(range))])],
        doc.transactions[0].1.epochs[0].1.produces
    );
    assert_eq!(1, doc.coord_state().produced("x", 0).len());
}

#[test]
fn ranges_merge_both_ways() {
    let mut detail = TxnDetail::fresh(0);
    let topition = Topition::new("t", 0);
    merge_range(&mut detail, &topition, 5, 6);
    merge_range(&mut detail, &topition, 2, 3);
    merge_range(&mut detail, &topition, 8, 9);
    let by_partition = detail.produces.get(&"t".to_owned()).expect("topic");
    assert_eq!(
        Some(&Some(TxnProduceOffset {
            offset_start: 2,
            offset_end: 9
        })),
        by_partition.get(&0)
    );
}

#[test]
fn topics_are_created_described_and_deleted() {
    let mut coord = CoordState::new();
    assert!(coord.create_topic(11, &topic("t", 2)).is_ok());
    assert_eq!(
        Err(Error::Api(ErrorCode::TopicAlreadyExists)),
        coord.create_topic(12, &topic("t", 1)).map(|_| ())
    );

    let all = coord.metadata(111, None);
    assert_eq!(1, all.len());
    assert_eq!(ErrorCode::NoError, all[0].error_code);
    assert_eq!(11, all[0].topic_id);
    assert_eq!(2, all[0].partitions.len());
    assert_eq!(vec![111, 111], all[0].partitions[1].replica_nodes);
    assert_eq!(1, all[0].partitions[1].partition_index);
    assert_eq!(i32::MIN, all[0].topic_authorized_operations);
    assert_eq!(1, coord.metadata(111, Some(&vec![])).len());

    let asked = coord.metadata(
        111,
        Some(&vec![
            TopicId::Id(11),
            TopicId::Name("no".to_owned()),
            TopicId::Id(12),
        ]),
    );
    assert_eq!(Some("t".to_owned()), asked[0].name);
    assert_eq!(ErrorCode::UnknownTopicOrPartition, asked[1].error_code);
    assert_eq!((Some("no".to_owned()), 0), (asked[1].name.clone(), asked[1].topic_id));
    assert_eq!((None, 12), (asked[2].name.clone(), asked[2].topic_id));

    assert!(coord.delete_topic(&TopicId::Id(12)).is_none());
    let (name, _) = coord.delete_topic(&TopicId::Id(11)).expect("topic");
    assert_eq!("t", name);
    assert_eq!(0, coord.topics.len());
}

#[test]
fn settings_are_altered_step_by_step() {
    let mut coord = CoordState::new();
    coord.create_topic(1, &topic("t", 1)).expect("topic");
    let change = |config_operation: i8, value: Option<&str>| AlterableConfig {
        name: "cleanup.policy".to_owned(),
        config_operation,
        value: value.map(str::to_owned),
    };
    let value = |coord: &CoordState| {
        coord
            .describe_config(true, "t")
            .first()
            .and_then(|(_, value)| value.clone())
    };
    let alter = |coord: &mut CoordState, change: AlterableConfig| {
        coord.incremental_alter_resource(true, "t", Some(vec![change]))
    };
    assert!(alter(&mut coord, change(0, Some("delete"))).is_ok());
    assert_eq!(Some("delete".to_owned()), value(&coord));
    assert!(alter(&mut coord, change(2, Some("compact"))).is_ok());
    assert_eq!(Some("delete,compact".to_owned()), value(&coord));
    assert!(alter(&mut coord, change(3, Some("delete"))).is_ok());
    assert_eq!(Some("compact".to_owned()), value(&coord));
    assert!(alter(&mut coord, change(1, None)).is_ok());
    assert_eq!(None, value(&coord));

    assert_eq!(
        Err(Error::OpType(9)),
        alter(&mut coord, change(9, None)).map(|_| ())
    );
    assert!(matches!(
        coord.incremental_alter_resource(false, "t", None),
        Ok(None)
    ));
    assert!(coord.describe_config(false, "t").is_empty());
    assert!(coord.describe_config(true, "none").is_empty());
}

#[test]
fn retention_settings_are_read() {
    let mut coord = CoordState::new();
    let config = |name: &str, value: Option<&str>| CreatableTopicConfig {
        name: name.to_owned(),
        value: value.map(str::to_owned),
    };
    assert_eq!(None, coord.topic_retention("t"));
    coord.create_topic(1, &topic("t", 1)).expect("topic");
    assert_eq!(Some((604_800_000, -1)), coord.topic_retention("t"));
    coord
        .create_topic(
            2,
            &CreatableTopic {
                configs: Some(vec![
                    config("retention.ms", Some("+5")),
                    config("retention.ms", Some("soon")),
                    config("retention.bytes", Some("-1")),
                    config("retention.bytes", Some("77")),
                    config("retention.bytes", None),
                    config("other", Some("9")),
                ]),
                ..topic("u", 1)
            },
        )
        .expect("topic");
    assert_eq!(Some((5, 77)), coord.topic_retention("u"));
}

#[test]
fn credentials_come_and_go() {
    let mut coord = CoordState::new();
    let credential = ScramCredential {
        salt: vec![1],
        iterations: 4096,
        stored_key: vec![2],
        server_key: vec![3],
    };
    coord.upsert_user_scram_credential("u", "Scram256", credential.dup());
    assert_eq!(
        Some(credential),
        coord.user_scram_credential("u", "Scram256")
    );
    assert_eq!(None, coord.user_scram_credential("u", "Scram512"));
    coord.delete_user_scram_credential("u", "Scram256");
    assert_eq!(None, coord.user_scram_credential("u", "Scram256"));
}

#[test]
fn committed_offsets_read_back() {
    let mut coord = CoordState::new();
    coord.create_topic(1, &topic("t", 2)).expect("topic");
    let mut offsets: GroupOffsets = OrdMap::new();
    let t0 = Topition::new("t", 0);
    let unknown = Topition::new("u", 0);
    let (answers, record) = offset_commit(
        &coord,
        &mut offsets,
        "g",
        &vec![
            (t0.dup(), OffsetCommitRequest::of(3)),
            (unknown.dup(), OffsetCommitRequest::of(4)),
            (t0.dup(), OffsetCommitRequest::of(5)),
        ],
    );
    assert_eq!(
        vec![
            (t0.dup(), ErrorCode::NoError),
            (unknown.dup(), ErrorCode::UnknownTopicOrPartition),
            (t0.dup(), ErrorCode::NoError),
        ],
        answers
    );
    assert!(record.is_some());
    let fetched = offset_fetch(&offsets, Some("g"), &vec![t0.dup(), unknown.dup()]);
    assert_eq!(Some(&5), fetched.get(&t0));
    assert_eq!(Some(&-1), fetched.get(&unknown));
    assert_eq!(0, offset_fetch(&offsets, None, &vec![t0.dup()]).len());
    assert_eq!(1, committed_offset_topitions(&offsets, "g").len());
    assert_eq!(0, committed_offset_topitions(&offsets, "h").len());

    let (_, nothing) = offset_commit(
        &coord,
        &mut offsets,
        "g",
        &vec![(unknown.dup(), OffsetCommitRequest::of(4))],
    );
    assert!(nothing.is_none());
}

#[test]
fn groups_are_listed_described_and_deleted() {
    let mut coord = CoordState::new();
    coord.create_topic(1, &topic("t", 1)).expect("topic");
    let mut groups: Groups = OrdMap::new();
    let mut offsets: GroupOffsets = OrdMap::new();
    update_group(&mut groups, "b", detail("state"), None, Version { id: 1 }).expect("update");
    for group in ["c", "a", "b"] {
        offset_commit(
            &coord,
            &mut offsets,
            group,
            &vec![(Topition::new("t", 0), OffsetCommitRequest::of(1))],
        );
    }
    let listed = list_groups(&groups, &offsets);
    assert_eq!(
        vec!["a", "b", "c"],
        listed
            .iter()
            .map(|group| group.group_id.as_str())
            .collect::<Vec<_>>()
    );
    assert_eq!("consumer", listed[0].protocol_type);
    assert_eq!("Unknown", listed[0].group_state);
    assert_eq!("classic", listed[0].group_type);

    let described = describe_groups(&groups, Some(&vec!["b".to_owned(), "z".to_owned()]));
    assert_eq!(detail("state"), described[0].1);
    assert_eq!(detail(""), described[1].1);
    assert!(describe_groups(&groups, None).is_empty());

    let ids = vec!["b".to_owned(), "b".to_owned(), "c".to_owned()];
    let (results, records) = delete_groups(&mut groups, &mut offsets, Some(&ids));
    assert_eq!(
        vec![
            ("b".to_owned(), ErrorCode::NoError),
            ("b".to_owned(), ErrorCode::GroupIdNotFound),
            ("c".to_owned(), ErrorCode::NoError),
        ],
        results
    );
    assert_eq!(2, records.len());
    assert_eq!(1, list_groups(&groups, &offsets).len());
    assert!(delete_groups(&mut groups, &mut offsets, None).0.is_empty());
}

#[test]
fn stale_update_is_refused() {
    let mut groups: Groups = OrdMap::new();
    let v = |id: u128| Version { id };
    assert!(matches!(
        update_group(&mut groups, "g", detail("0"), Some(v(9)), v(1)),
        Err(UpdateError::Error(Error::Message(message))) if message == "group not found: g"
    ));
    let (version, _) = update_group(&mut groups, "g", detail("1"), None, v(1)).expect("first");
    assert_eq!(v(1), version);
    assert!(update_group(&mut groups, "g", detail("2"), Some(v(1)), v(2)).is_ok());
    for stale in [Some(v(1)), None] {
        match update_group(&mut groups, "g", detail("3"), stale, v(3)) {
            Err(error) => assert_eq!(
                UpdateError::Outdated {
                    current: detail("2"),
                    version: v(2)
                },
                error
            ),
            Ok(_) => panic!("stale"),
        }
    }
}

#[test]
fn replaying_twice_is_replaying_once() {
    let records = || {
        vec![
            WalRecord::TopicCreate {
                id: 5,
                topic: topic("t", 1),
            },
            WalRecord::PidAlloc {
                producer_id: 3,
                transaction_id: Some("x".to_owned()),
                transaction_timeout_ms: 9,
            },
            WalRecord::TxnBegin {
                transaction_id: "x".to_owned(),
                producer_id: 3,
                producer_epoch: 0,
                started_at: NOW,
                partitions: vec![("t".to_owned(), 0)],
            },
            WalRecord::TxnTerminal {
                transaction_id: "x".to_owned(),
                producer_id: 3,
                producer_epoch: 0,
                committed: false,
                aborted: vec![(
                    "t".to_owned(),
                    0,
                    TxnProduceOffset {
                        offset_start: 1,
                        offset_end: 2,
                    },
                )],
            },
            WalRecord::LogStartAdvance {
                topic: "t".to_owned(),
                partition: 0,
                offset: 1,
            },
            WalRecord::GroupOffsetCommit {
                group: "g".to_owned(),
                offsets: vec![("t".to_owned(), 0, OffsetCommitRequest::of(8))],
            },
        ]
    };
    let mut image = Image::new();
    for (once, twice) in records().into_iter().zip(records()) {
        image.apply(once);
        image.apply(twice);
    }
    let skeleton = image
        .skeletons
        .get(&Topition::new("t", 0))
        .expect("skeleton");
    assert_eq!(1, skeleton.aborted.len());
    assert_eq!(1, skeleton.log_start);
    assert_eq!(1, image.group_offsets.len());
    let txn = image.coord.transactions.get(&"x".to_owned()).expect("txn");
    let detail = txn.epochs.get(&0).expect("epoch");
    assert_eq!(Some(TxnState::Aborted), detail.state);
    assert_eq!(9, detail.transaction_timeout_ms);

    image.apply(WalRecord::TopicDelete {
        name: "t".to_owned(),
    });
    assert_eq!(0, image.skeletons.len());
    assert_eq!(0, image.group_offsets.len());
    assert_eq!(0, image.coord.topics.len());
}

#[test]
fn records_of_another_producer_are_passed_over() {
    let mut image = Image::new();
    image.apply(WalRecord::PidAlloc {
        producer_id: 3,
        transaction_id: Some("x".to_owned()),
        transaction_timeout_ms: 9,
    });
    image.apply(WalRecord::EpochBump {
        transaction_id: "x".to_owned(),
        producer_id: 3,
        producer_epoch: 1,
        transaction_timeout_ms: 7,
    });
    image.apply(WalRecord::TxnPrepare {
        transaction_id: "x".to_owned(),
        producer_id: 4,
        producer_epoch: 1,
        committed: true,
        produced: vec![],
    });
    let state = |image: &Image| {
        let txn = image.coord.transactions.get(&"x".to_owned()).expect("txn");
        txn.epochs.get(&1).expect("epoch").state
    };
    assert_eq!(None, state(&image));
    image.apply(WalRecord::TxnPrepare {
        transaction_id: "x".to_owned(),
        producer_id: 3,
        producer_epoch: 1,
        committed: true,
        produced: vec![],
    });
    assert_eq!(Some(TxnState::PrepareCommit), state(&image));
}

#[test]
fn snapshot_gives_the_state_back() {
    let mut coord = CoordState::new();
    coord.create_topic(1, &topic("t", 1)).expect("topic");
    completed(coord.init_producer(None, 0, Some(-1), Some(-1)));
    completed(coord.init_producer(Some("x"), 5, Some(-1), Some(-1)));
    coord
        .txn_add_partitions(&add("x", 2, 0), NOW)
        .expect("add");
    coord
        .validate_sequence(1, 0, 0, 2, "t", 0)
        .expect("sequence");
    coord
        .record_txn_produce("x", 0, "t", 1, 3, 4, false)
        .expect("record");
    let mut groups: Groups = OrdMap::new();
    update_group(&mut groups, "g", detail("state"), None, Version { id: 1 }).expect("update");
    let mut offsets: GroupOffsets = OrdMap::new();
    offset_commit(
        &coord,
        &mut offsets,
        "g",
        &vec![(Topition::new("t", 0), OffsetCommitRequest::of(6))],
    );

    let doc = SnapshotDoc::from_state(4, &coord, &groups, &offsets, vec![]);
    assert_eq!(1, doc.format_version);
    assert_eq!(4, doc.wal_seq);
    // Neither sequence numbers nor the open transaction's range are in it.
    assert_eq!((1, vec![(0i16, vec![])]), (doc.producers[0].0, doc.producers[0].1.dup()));
    let (id, txn) = &doc.transactions[0];
    assert_eq!("x", id);
    assert_eq!(
        vec![("t".to_owned(), vec![(0, None), (1, None)])],
        txn.epochs[0].1.produces
    );

    let mut image = doc.dup().image();
    assert_eq!(1, image.groups.len());
    assert_eq!(
        Some(&6),
        offset_fetch(&image.group_offsets, Some("g"), &vec![Topition::new("t", 0)])
            .get(&Topition::new("t", 0))
    );
    let metadata = image.coord.topics.get(&"t".to_owned()).expect("topic");
    assert_eq!(Some(vec![(0, Some(vec![1, 2]))]), metadata.topic.assignments);
    // A batch whose write was lost is taken when it is sent again.
    assert_eq!(Ok(()), image.coord.validate_sequence(1, 0, 0, 2, "t", 0));
    assert!(matches!(
        image
            .coord
            .init_producer(Some("x"), 5, Some(-1), Some(-1)),
        InitProducer::NeedToRollback { .. }
    ));
}
