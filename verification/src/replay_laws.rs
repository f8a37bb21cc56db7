//! Replaying a record twice is replaying it once: a snapshot may capture the
//! effect of a record that the next WAL file holds too.

use crate::partition::AbortedRange;
use crate::replay::{
    applied, empty_skeleton, txn_named, with_aborted, with_commits, with_named, with_ranges,
    GroupOffsetsModel, ImageModel, SkeletonModel,
};
use crate::state::{
    cell, get_or, with_cell, with_txn, CommitOffsetModel, CoordModel, OffsetsModel, ProducesModel,
    TxnDetailModel, TxnProduceOffset,
};
use crate::txn::{begun, with_offsets, with_partitions};
use crate::types::OffsetCommit;
use crate::wal::Record;
use vstd::prelude::*;

verus! {

proof fn lemma_partitions_present(
    produces: ProducesModel,
    list: Seq<(Seq<char>, i32)>,
    topic: Seq<char>,
    partition: i32,
)
    ensures
        cell(produces, topic, partition) is Some ==> cell(
            with_partitions(produces, list),
            topic,
            partition,
        ) is Some,
        list.contains((topic, partition)) ==> cell(
            with_partitions(produces, list),
            topic,
            partition,
        ) is Some,
    decreases list.len(),
{
    if list.len() > 0 {
        let init = list.drop_last();
        lemma_partitions_present(produces, init, topic, partition);
        if list.contains((topic, partition)) && list.last() != (topic, partition) {
            let i = choose|i: int| 0 <= i < list.len() && list[i] == (topic, partition);
            assert(init[i] == (topic, partition));
        }
    }
}

proof fn lemma_partitions_again(produces: ProducesModel, list: Seq<(Seq<char>, i32)>)
    requires
        forall|i: int| 0 <= i < list.len() ==> cell(produces, (#[trigger] list[i]).0, list[i].1) is Some,
    ensures
        with_partitions(produces, list) == produces,
    decreases list.len(),
{
    if list.len() > 0 {
        let init = list.drop_last();
        assert forall|i: int| 0 <= i < init.len() implies cell(
            produces,
            (#[trigger] init[i]).0,
            init[i].1,
        ) is Some by {
            assert(init[i] == list[i]);
        }
        lemma_partitions_again(produces, init);
        let (topic, partition) = list[list.len() - 1];
        assert(cell(produces, topic, partition) is Some);
        assert(produces[topic].insert(partition, produces[topic][partition]) =~= produces[topic]);
        assert(produces.insert(topic, produces[topic]) =~= produces);
    }
}

proof fn lemma_begun_again(
    detail: TxnDetailModel,
    partitions: Seq<(Seq<char>, i32)>,
    started_at: crate::time::SystemTime,
)
    ensures
        ({
            let once = begun(detail, partitions, started_at);
            begun(once, partitions, started_at) == once
        }),
{
    let once = begun(detail, partitions, started_at);
    let start = if detail.state matches Some(state) && state.terminal() {
        Map::empty()
    } else {
        detail.produces
    };
    assert(once.produces == with_partitions(start, partitions));
    assert forall|i: int| 0 <= i < partitions.len() implies cell(
        once.produces,
        (#[trigger] partitions[i]).0,
        partitions[i].1,
    ) is Some by {
        lemma_partitions_present(start, partitions, partitions[i].0, partitions[i].1);
        assert(partitions.contains(partitions[i]));
    }
    lemma_partitions_again(once.produces, partitions);
}

/// A list of values put in two levels down.
spec fn with_cells(
    m: Map<Seq<char>, Map<i32, CommitOffsetModel>>,
    list: Seq<(Seq<char>, i32, CommitOffsetModel)>,
) -> Map<Seq<char>, Map<i32, CommitOffsetModel>>
    decreases list.len(),
{
    if list.len() == 0 {
        m
    } else {
        with_cell(
            with_cells(m, list.drop_last()),
            list.last().0,
            list.last().1,
            list.last().2,
        )
    }
}

proof fn lemma_offsets_cells(
    offsets: OffsetsModel,
    group: Seq<char>,
    list: Seq<(Seq<char>, i32, CommitOffsetModel)>,
)
    requires
        list.len() > 0,
    ensures
        with_offsets(offsets, group, list) == offsets.insert(
            group,
            with_cells(get_or(offsets, group, Map::empty()), list),
        ),
    decreases list.len(),
{
    let init = list.drop_last();
    if init.len() > 0 {
        lemma_offsets_cells(offsets, group, init);
    } else {
        assert(with_offsets(offsets, group, init) == offsets);
        assert(with_cells(get_or(offsets, group, Map::empty()), init) == get_or(
            offsets,
            group,
            Map::empty(),
        ));
    }
    assert(with_offsets(offsets, group, list) =~= offsets.insert(
        group,
        with_cells(get_or(offsets, group, Map::empty()), list),
    ));
}

/// Where a cell is named by a list its value comes from the list alone.
proof fn lemma_cells_at(
    a: Map<Seq<char>, Map<i32, CommitOffsetModel>>,
    b: Map<Seq<char>, Map<i32, CommitOffsetModel>>,
    list: Seq<(Seq<char>, i32, CommitOffsetModel)>,
    topic: Seq<char>,
    partition: i32,
)
    ensures
        (exists|i: int| 0 <= i < list.len() && (#[trigger] list[i]).0 == topic && list[i].1 == partition)
            ==> cell(with_cells(a, list), topic, partition) is Some && cell(
            with_cells(a, list),
            topic,
            partition,
        ) == cell(with_cells(b, list), topic, partition),
        !(exists|i: int|
            0 <= i < list.len() && (#[trigger] list[i]).0 == topic && list[i].1 == partition)
            ==> cell(with_cells(a, list), topic, partition) == cell(a, topic, partition),
        with_cells(a, list).dom().contains(topic) <==> a.dom().contains(topic) || exists|i: int|
            0 <= i < list.len() && (#[trigger] list[i]).0 == topic,
    decreases list.len(),
{
    if list.len() > 0 {
        let init = list.drop_last();
        lemma_cells_at(a, b, init, topic, partition);
        let last = list.len() - 1;
        if exists|i: int|
            0 <= i < list.len() && (#[trigger] list[i]).0 == topic && list[i].1 == partition {
            let i = choose|i: int|
                0 <= i < list.len() && (#[trigger] list[i]).0 == topic && list[i].1 == partition;
            if i < last {
                assert(init[i].0 == topic && init[i].1 == partition);
            }
        } else {
            assert forall|i: int| 0 <= i < init.len() implies !((#[trigger] init[i]).0 == topic
                && init[i].1 == partition) by {
                assert(init[i] == list[i]);
            }
            assert(!(list[last].0 == topic && list[last].1 == partition));
        }
        if exists|i: int| 0 <= i < list.len() && (#[trigger] list[i]).0 == topic {
            let i = choose|i: int| 0 <= i < list.len() && (#[trigger] list[i]).0 == topic;
            if i < last {
                assert(init[i].0 == topic);
            }
        }
        if exists|i: int| 0 <= i < init.len() && (#[trigger] init[i]).0 == topic {
            let i = choose|i: int| 0 <= i < init.len() && (#[trigger] init[i]).0 == topic;
            assert(list[i].0 == topic);
        }
        if exists|i: int|
            0 <= i < init.len() && (#[trigger] init[i]).0 == topic && init[i].1 == partition {
            let i = choose|i: int|
                0 <= i < init.len() && (#[trigger] init[i]).0 == topic && init[i].1 == partition;
            assert(list[i].0 == topic && list[i].1 == partition);
        }
        assert(list[last].0 == list.last().0);
    }
}

proof fn lemma_cells_again(
    m: Map<Seq<char>, Map<i32, CommitOffsetModel>>,
    list: Seq<(Seq<char>, i32, CommitOffsetModel)>,
)
    ensures
        with_cells(with_cells(m, list), list) == with_cells(m, list),
{
    let once = with_cells(m, list);
    let twice = with_cells(once, list);
    assert forall|topic: Seq<char>| twice.dom().contains(topic) <==> once.dom().contains(topic) by {
        lemma_cells_at(once, m, list, topic, 0);
        lemma_cells_at(m, once, list, topic, 0);
    }
    assert forall|topic: Seq<char>| once.dom().contains(topic) implies #[trigger] twice[topic]
        == once[topic] by {
        assert forall|partition: i32|
            twice[topic].dom().contains(partition) <==> once[topic].dom().contains(partition) by {
            lemma_cells_at(once, m, list, topic, partition);
            lemma_cells_at(m, once, list, topic, partition);
            assert(cell(twice, topic, partition) == cell(once, topic, partition));
        }
        assert forall|partition: i32| once[topic].dom().contains(partition) implies
            #[trigger] twice[topic][partition] == once[topic][partition] by {
            lemma_cells_at(once, m, list, topic, partition);
            lemma_cells_at(m, once, list, topic, partition);
            assert(cell(twice, topic, partition) == cell(once, topic, partition));
        }
        assert(twice[topic] =~= once[topic]);
    }
    assert(twice =~= once);
}

proof fn lemma_offsets_again(
    offsets: OffsetsModel,
    group: Seq<char>,
    list: Seq<(Seq<char>, i32, CommitOffsetModel)>,
)
    ensures
        ({
            let once = with_offsets(offsets, group, list);
            with_offsets(once, group, list) == once
        }),
{
    if list.len() > 0 {
        let once = with_offsets(offsets, group, list);
        lemma_offsets_cells(offsets, group, list);
        lemma_offsets_cells(once, group, list);
        lemma_cells_again(get_or(offsets, group, Map::empty()), list);
        assert(once.insert(group, once[group]) =~= once);
    }
}

/// Where a commit is named by a list its value comes from the list alone.
proof fn lemma_commits_at(
    a: GroupOffsetsModel,
    b: GroupOffsetsModel,
    group: Seq<char>,
    list: Seq<(Seq<char>, i32, OffsetCommit)>,
    k: (Seq<char>, (Seq<char>, i32)),
)
    ensures
        (exists|i: int|
            0 <= i < list.len() && k == (group, ((#[trigger] list[i]).0, list[i].1)))
            ==> with_commits(a, group, list).dom().contains(k) && with_commits(
            b,
            group,
            list,
        ).dom().contains(k) && with_commits(a, group, list)[k] == with_commits(b, group, list)[k],
        !(exists|i: int| 0 <= i < list.len() && k == (group, ((#[trigger] list[i]).0, list[i].1)))
            ==> (with_commits(a, group, list).dom().contains(k) <==> a.dom().contains(k)) && (
        a.dom().contains(k) ==> with_commits(a, group, list)[k] == a[k]),
    decreases list.len(),
{
    if list.len() > 0 {
        let init = list.drop_last();
        let last = list.len() - 1;
        lemma_commits_at(a, b, group, init, k);
        if exists|i: int| 0 <= i < list.len() && k == (group, ((#[trigger] list[i]).0, list[i].1)) {
            let i = choose|i: int|
                0 <= i < list.len() && k == (group, ((#[trigger] list[i]).0, list[i].1));
            if i < last {
                assert(k == (group, (init[i].0, init[i].1)));
            }
        } else {
            assert forall|i: int| 0 <= i < init.len() implies k != (
                group,
                ((#[trigger] init[i]).0, init[i].1),
            ) by {
                assert(init[i] == list[i]);
            }
            assert(k != (group, (list[last].0, list[last].1)));
        }
    }
}

proof fn lemma_commits_again(
    group_offsets: GroupOffsetsModel,
    group: Seq<char>,
    list: Seq<(Seq<char>, i32, OffsetCommit)>,
)
    ensures
        ({
            let once = with_commits(group_offsets, group, list);
            with_commits(once, group, list) == once
        }),
{
    let once = with_commits(group_offsets, group, list);
    let twice = with_commits(once, group, list);
    assert forall|k: (Seq<char>, (Seq<char>, i32))|
        twice.dom().contains(k) <==> once.dom().contains(k) by {
        lemma_commits_at(once, group_offsets, group, list, k);
        lemma_commits_at(group_offsets, once, group, list, k);
    }
    assert forall|k: (Seq<char>, (Seq<char>, i32))| twice.dom().contains(k) implies #[trigger] twice[k]
        == once[k] by {
        lemma_commits_at(once, group_offsets, group, list, k);
        lemma_commits_at(group_offsets, once, group, list, k);
    }
    assert(twice =~= once);
}

/// The range that a terminal record names.
spec fn named_range(producer: i64, range: TxnProduceOffset) -> AbortedRange {
    AbortedRange { producer, offset_start: range.offset_start, offset_end: range.offset_end }
}

spec fn has_range(
    skeletons: Map<(Seq<char>, i32), SkeletonModel>,
    producer: i64,
    named: (Seq<char>, i32, TxnProduceOffset),
) -> bool {
    skeletons.dom().contains((named.0, named.1)) && skeletons[(
        named.0,
        named.1,
    )].aborted.contains(named_range(producer, named.2))
}

proof fn lemma_ranges_present(
    skeletons: Map<(Seq<char>, i32), SkeletonModel>,
    producer: i64,
    ranges: Seq<(Seq<char>, i32, TxnProduceOffset)>,
    named: (Seq<char>, i32, TxnProduceOffset),
)
    ensures
        has_range(skeletons, producer, named) || ranges.contains(named) ==> has_range(
            with_ranges(skeletons, producer, ranges),
            producer,
            named,
        ),
    decreases ranges.len(),
{
    if ranges.len() > 0 {
        let init = ranges.drop_last();
        lemma_ranges_present(skeletons, producer, init, named);
        let before = with_ranges(skeletons, producer, init);
        let after = with_ranges(skeletons, producer, ranges);
        let (topic, partition, range) = ranges.last();
        let added = named_range(producer, range);
        let list = get_or(before, (topic, partition), empty_skeleton()).aborted;
        let grown = with_aborted(list, added);
        assert(grown.contains(added)) by {
            if !list.contains(added) {
                assert(grown[grown.len() - 1] == added);
            }
        }
        if has_range(before, producer, named) && (named.0, named.1) == (topic, partition) {
            let i = choose|i: int|
                0 <= i < list.len() && list[i] == named_range(producer, named.2);
            assert(grown[i] == list[i]);
        }
        if ranges.contains(named) && ranges.last() != named {
            let i = choose|i: int| 0 <= i < ranges.len() && ranges[i] == named;
            assert(init[i] == named);
        }
    }
}

proof fn lemma_ranges_again(
    skeletons: Map<(Seq<char>, i32), SkeletonModel>,
    producer: i64,
    ranges: Seq<(Seq<char>, i32, TxnProduceOffset)>,
)
    requires
        forall|i: int| 0 <= i < ranges.len() ==> has_range(skeletons, producer, #[trigger] ranges[i]),
    ensures
        with_ranges(skeletons, producer, ranges) == skeletons,
    decreases ranges.len(),
{
    if ranges.len() > 0 {
        let init = ranges.drop_last();
        assert forall|i: int| 0 <= i < init.len() implies has_range(
            skeletons,
            producer,
            #[trigger] init[i],
        ) by {
            assert(init[i] == ranges[i]);
        }
        lemma_ranges_again(skeletons, producer, init);
        let last = ranges[ranges.len() - 1];
        assert(has_range(skeletons, producer, last));
        let k = (last.0, last.1);
        assert(skeletons.insert(k, skeletons[k]) =~= skeletons);
    }
}

proof fn lemma_named_again(
    coord: CoordModel,
    transaction_id: Seq<char>,
    producer_id: i64,
    producer_epoch: i16,
    change: spec_fn(TxnDetailModel) -> TxnDetailModel,
)
    requires
        forall|detail: TxnDetailModel| change(#[trigger] change(detail)) == change(detail),
    ensures
        ({
            let once = with_named(coord, transaction_id, producer_id, producer_epoch, change);
            with_named(once, transaction_id, producer_id, producer_epoch, change) == once
        }),
{
    if let Some(detail) = txn_named(coord, transaction_id, producer_id, producer_epoch) {
        let once = with_txn(coord, transaction_id, producer_epoch, change(detail));
        assert(txn_named(once, transaction_id, producer_id, producer_epoch) == Some(
            change(detail),
        ));
        crate::txn::lemma_same_txn(once, transaction_id, producer_epoch);
        assert(change(change(detail)) == change(detail));
    }
}

/// Replaying a record twice is replaying it once. (A change of settings is left
/// out: one that appends several items, or an empty one, appends them again.)
pub proof fn law_replay_idempotent(image: ImageModel, record: Record)
    requires
        !(record is ConfigAlter),
    ensures
        applied(applied(image, record), record) == applied(image, record),
{
    let once = applied(image, record);
    let twice = applied(once, record);
    match record {
        Record::TxnBegin { transaction_id, producer_id, producer_epoch, started_at, partitions } => {
            let change = |detail: TxnDetailModel| begun(detail, partitions, started_at);
            assert forall|detail: TxnDetailModel| change(#[trigger] change(detail)) == change(
                detail,
            ) by {
                lemma_begun_again(detail, partitions, started_at);
            }
            lemma_named_again(image.coord, transaction_id, producer_id, producer_epoch, change);
        },
        Record::TxnPrepare { transaction_id, producer_id, producer_epoch, committed, produced } => {
            lemma_named_again(
                image.coord,
                transaction_id,
                producer_id,
                producer_epoch,
                |detail: TxnDetailModel|
                    TxnDetailModel {
                        state: Some(crate::txn::prepared_state(committed)),
                        produces: crate::txn::ranges_map(produced),
                        ..detail
                    },
            );
        },
        Record::TxnTerminal { transaction_id, producer_id, producer_epoch, committed, aborted } => {
            lemma_named_again(
                image.coord,
                transaction_id,
                producer_id,
                producer_epoch,
                |detail: TxnDetailModel|
                    crate::txn::ended(detail, crate::txn::terminal_state(committed)),
            );
            assert forall|i: int| 0 <= i < aborted.len() implies has_range(
                once.skeletons,
                producer_id,
                #[trigger] aborted[i],
            ) by {
                assert(aborted.contains(aborted[i]));
                lemma_ranges_present(image.skeletons, producer_id, aborted, aborted[i]);
            }
            lemma_ranges_again(once.skeletons, producer_id, aborted);
        },
        Record::TxnOffsets { transaction_id, producer_id, producer_epoch, group, offsets } => {
            let change = |detail: TxnDetailModel|
                TxnDetailModel { offsets: with_offsets(detail.offsets, group, offsets), ..detail };
            assert forall|detail: TxnDetailModel| change(#[trigger] change(detail)) == change(
                detail,
            ) by {
                lemma_offsets_again(detail.offsets, group, offsets);
            }
            lemma_named_again(image.coord, transaction_id, producer_id, producer_epoch, change);
        },
        Record::GroupOffsetCommit { group, offsets } => {
            lemma_commits_again(image.group_offsets, group, offsets);
        },
        Record::EpochBump { transaction_id, producer_id, producer_epoch, .. } => {
            assert(twice.coord.producers =~= once.coord.producers) by {
                if image.coord.producers.dom().contains(producer_id) {
                    assert(twice.coord.producers[producer_id]
                        =~= once.coord.producers[producer_id]);
                }
            }
            assert(twice.coord.transactions =~= once.coord.transactions) by {
                if image.coord.transactions.dom().contains(transaction_id) {
                    assert(twice.coord.transactions[transaction_id].epochs
                        =~= once.coord.transactions[transaction_id].epochs);
                }
            }
        },
        Record::TopicDelete { name } => {
            assert(twice.group_offsets =~= once.group_offsets);
            assert(twice.skeletons =~= once.skeletons);
        },
        Record::GroupDelete { group } => {
            assert(twice.group_offsets =~= once.group_offsets);
        },
        _ => {
            assert(twice.coord =~= once.coord);
        },
    }
    assert(twice =~= once);
}

} // verus!
