//! Consumer groups: their committed offsets, and their state under optimistic
//! concurrency.

use crate::error::{Error, ErrorCode, Fault};
use crate::model::{Key, Model};
use crate::ordmap::{lemma_ascending_at, lemma_ascending_position, to_map, OrdMap};
use crate::replay::{
    applied, forget_group, with_commits, without_group, GroupOffsets, GroupOffsetsModel, Groups,
    GroupsModel, ImageModel,
};
use crate::state::{CoordModel, CoordState};
use crate::text::{concat, same};
use crate::types::{GroupDetail, OffsetCommit, OffsetCommitRequest, Topition, Version};
use crate::wal::{record_view, Record, WalRecord};
use vstd::prelude::*;

verus! {

/// The commits to topics that are known.
pub open spec fn accepted(
    coord: CoordModel,
    offsets: Seq<((Seq<char>, i32), OffsetCommit)>,
) -> Seq<(Seq<char>, i32, OffsetCommit)>
    decreases offsets.len(),
{
    if offsets.len() == 0 {
        Seq::empty()
    } else {
        let before = accepted(coord, offsets.drop_last());
        let ((topic, partition), commit) = offsets.last();
        if coord.topics.dom().contains(topic) {
            before.push((topic, partition, commit))
        } else {
            before
        }
    }
}

/// The answers to a list of commits.
pub open spec fn commit_answers(
    coord: CoordModel,
    offsets: Seq<((Seq<char>, i32), OffsetCommit)>,
) -> Seq<((Seq<char>, i32), ErrorCode)> {
    Seq::new(
        offsets.len(),
        |i: int|
            (
                offsets[i].0,
                if coord.topics.dom().contains(offsets[i].0.0) {
                    ErrorCode::NoError
                } else {
                    ErrorCode::UnknownTopicOrPartition
                },
            ),
    )
}

/// What a list of answers says.
pub open spec fn answers_view(list: Seq<(Topition, ErrorCode)>) -> Seq<
    ((Seq<char>, i32), ErrorCode),
> {
    Seq::new(list.len(), |i: int| (list[i].0.model(), list[i].1))
}

/// Commits a group's offsets to topics that are known; gives the answers and
/// what is to be logged, if anything was committed.
pub fn offset_commit(
    coord: &CoordState,
    group_offsets: &mut GroupOffsets,
    group_id: &str,
    offsets: &Vec<(Topition, OffsetCommitRequest)>,
) -> (outcome: (Vec<(Topition, ErrorCode)>, Option<WalRecord>))
    requires
        coord.wf(),
        old(group_offsets).wf(),
    ensures
        final(group_offsets).wf(),
        ({
            let list = accepted(coord.model(), offsets.model());
            &&& final(group_offsets).model() == with_commits(
                old(group_offsets).model(),
                group_id@,
                list,
            )
            &&& answers_view(outcome.0@) == commit_answers(coord.model(), offsets.model())
            &&& record_view(outcome.1) == (if list.len() > 0 {
                Some(Record::GroupOffsetCommit { group: group_id@, offsets: list })
            } else {
                None
            })
        }),
{
    let mut responses: Vec<(Topition, ErrorCode)> = Vec::new();
    let mut stored: Vec<(String, i32, OffsetCommitRequest)> = Vec::new();
    let ghost rows = offsets.model();
    let ghost all = commit_answers(coord.model(), rows);
    let ghost before = group_offsets.model();
    let mut i: usize = 0;
    assert(stored.model() =~= accepted(coord.model(), rows.take(0)));
    assert(with_commits(before, group_id@, stored.model()) == before);
    while i < offsets.len()
        invariant
            coord.wf(),
            group_offsets.wf(),
            rows == offsets.model(),
            all == commit_answers(coord.model(), rows),
            i <= rows.len(),
            stored.model() == accepted(coord.model(), rows.take(i as int)),
            group_offsets.model() == with_commits(before, group_id@, stored.model()),
            answers_view(responses@) == all.take(i as int),
        decreases rows.len() - i,
    {
        proof {
            assert(rows.take(i + 1).drop_last() =~= rows.take(i as int));
            assert(rows.take(i + 1).last() == offsets@[i as int].model());
        }
        let ghost answered = answers_view(responses@);
        let ghost listed = stored.model();
        let topition = &offsets[i].0;
        let commit = &offsets[i].1;
        let code = if coord.topics.contains(&topition.topic) {
            group_offsets.insert((group_id.to_owned(), topition.dup()), commit.dup());
            stored.push((topition.topic.clone(), topition.partition, commit.dup()));
            proof {
                assert(stored.model() =~= listed.push(stored@.last().model()));
                assert(stored.model().drop_last() =~= listed);
            }
            ErrorCode::NoError
        } else {
            ErrorCode::UnknownTopicOrPartition
        };
        responses.push((topition.dup(), code));
        proof {
            assert(answers_view(responses@) =~= answered.push(all[i as int]));
            assert(all.take(i + 1) =~= all.take(i as int).push(all[i as int]));
        }
        i += 1;
    }
    proof {
        assert(rows.take(i as int) =~= rows);
        assert(all.take(i as int) =~= all);
    }
    let record = if stored.len() > 0 {
        Some(WalRecord::GroupOffsetCommit { group: group_id.to_owned(), offsets: stored })
    } else {
        None
    };
    (responses, record)
}

/// A group's committed offset on a partition, -1 where it has none.
pub open spec fn committed_at(
    group_offsets: GroupOffsetsModel,
    group: Seq<char>,
    topition: (Seq<char>, i32),
) -> i64 {
    if group_offsets.dom().contains((group, topition)) {
        group_offsets[(group, topition)].offset
    } else {
        -1 as i64
    }
}

/// A group's committed offsets on a list of partitions.
pub open spec fn committed_on(
    group_offsets: GroupOffsetsModel,
    group: Seq<char>,
    topics: Seq<(Seq<char>, i32)>,
) -> Map<(Seq<char>, i32), i64> {
    Map::new(
        |k: (Seq<char>, i32)| topics.contains(k),
        |k: (Seq<char>, i32)| committed_at(group_offsets, group, k),
    )
}

/// A group's committed offsets on the partitions that are asked for; none
/// where no group is named.
pub fn offset_fetch(
    group_offsets: &GroupOffsets,
    group_id: Option<&str>,
    topics: &Vec<Topition>,
) -> (offsets: OrdMap<Topition, i64>)
    requires
        group_offsets.wf(),
    ensures
        offsets.wf(),
        offsets.model() == (match group_id {
            Some(group) => committed_on(group_offsets.model(), group@, topics.model()),
            None => Map::empty(),
        }),
{
    let mut offsets: OrdMap<Topition, i64> = OrdMap::new();
    let group = match group_id {
        Some(group) => group.to_owned(),
        None => {
            return offsets;
        },
    };
    let ghost rows = topics.model();
    let mut i: usize = 0;
    assert(offsets.model() =~= committed_on(group_offsets.model(), group@, rows.take(0)));
    while i < topics.len()
        invariant
            group_offsets.wf(),
            offsets.wf(),
            rows == topics.model(),
            i <= rows.len(),
            offsets.model() == committed_on(group_offsets.model(), group@, rows.take(i as int)),
        decreases rows.len() - i,
    {
        let key = (group.clone(), topics[i].dup());
        let offset: i64 = match group_offsets.get(&key) {
            Some(commit) => commit.offset,
            None => -1,
        };
        offsets.insert(topics[i].dup(), offset);
        proof {
            let before = rows.take(i as int);
            let after = rows.take(i + 1);
            assert(after =~= before.push(rows[i as int]));
            assert forall|k: (Seq<char>, i32)|
                after.contains(k) <==> before.contains(k) || k == rows[i as int] by {
                if before.contains(k) {
                    let j = choose|j: int| 0 <= j < before.len() && before[j] == k;
                    assert(after[j] == k);
                }
                if after.contains(k) && k != rows[i as int] {
                    let j = choose|j: int| 0 <= j < after.len() && after[j] == k;
                    assert(before[j] == k);
                }
                assert(after[i as int] == rows[i as int]);
            }
            assert(offsets.model() =~= committed_on(group_offsets.model(), group@, after));
        }
        i += 1;
    }
    assert(rows.take(i as int) =~= rows);
    offsets
}

/// All of a group's committed offsets.
pub open spec fn committed(group_offsets: GroupOffsetsModel, group: Seq<char>) -> Map<
    (Seq<char>, i32),
    i64,
> {
    Map::new(
        |k: (Seq<char>, i32)| group_offsets.dom().contains((group, k)),
        |k: (Seq<char>, i32)| group_offsets[(group, k)].offset,
    )
}

/// All of a group's committed offsets.
pub fn committed_offset_topitions(group_offsets: &GroupOffsets, group_id: &str) -> (offsets: OrdMap<
    Topition,
    i64,
>)
    requires
        group_offsets.wf(),
    ensures
        offsets.wf(),
        offsets.model() == committed(group_offsets.model(), group_id@),
{
    let mut offsets: OrdMap<Topition, i64> = OrdMap::new();
    let ghost rows = group_offsets.seq();
    proof {
        group_offsets.lemma_seq();
        assert(to_map(rows.take(0)) =~= Map::<
            (Seq<char>, (Seq<char>, i32)),
            OffsetCommit,
        >::empty());
        assert(offsets.model() =~= committed(to_map(rows.take(0)), group_id@));
    }
    let mut i: usize = 0;
    while i < group_offsets.len()
        invariant
            group_offsets.wf(),
            offsets.wf(),
            rows == group_offsets.seq(),
            i <= rows.len(),
            offsets.model() == committed(to_map(rows.take(i as int)), group_id@),
        decreases rows.len() - i,
    {
        let (key, commit) = group_offsets.at(i);
        assert(rows.take(i + 1).drop_last() =~= rows.take(i as int));
        if same(key.0.as_str(), group_id) {
            offsets.insert(key.1.dup(), commit.offset);
        }
        assert(offsets.model() =~= committed(to_map(rows.take(i + 1)), group_id@));
        i += 1;
    }
    assert(rows.take(i as int) =~= rows);
    offsets
}

/// A group in a listing.
#[derive(Debug, PartialEq, Eq)]
pub struct ListedGroup {
    pub group_id: String,
    pub protocol_type: String,
    pub group_state: String,
    pub group_type: String,
}

/// Whether a group is known: by its state or by a committed offset.
pub open spec fn group_known(
    groups: GroupsModel,
    group_offsets: GroupOffsetsModel,
    group: Seq<char>,
) -> bool {
    groups.dom().contains(group) || has_commits(group_offsets, group)
}

/// Whether a group has committed an offset.
pub open spec fn has_commits(group_offsets: GroupOffsetsModel, group: Seq<char>) -> bool {
    exists|k: (Seq<char>, (Seq<char>, i32))| #[trigger]
        group_offsets.dom().contains(k) && k.0 == group
}

/// The known groups, each once, in the order of their ids.
pub fn list_groups(groups: &Groups, group_offsets: &GroupOffsets) -> (list: Vec<ListedGroup>)
    requires
        groups.wf(),
        group_offsets.wf(),
    ensures
        forall|i: int, j: int|
            0 <= i < j < list@.len() ==> String::precedes(
                (#[trigger] list@[i]).group_id@,
                (#[trigger] list@[j]).group_id@,
            ),
        forall|group: Seq<char>|
            group_known(groups.model(), group_offsets.model(), group) <==> exists|i: int|
                0 <= i < list@.len() && (#[trigger] list@[i]).group_id@ == group,
        forall|i: int|
            0 <= i < list@.len() ==> (#[trigger] list@[i]).protocol_type@ == "consumer"@
                && list@[i].group_state@ == "Unknown"@ && list@[i].group_type@ == "classic"@,
{
    let mut ids: OrdMap<String, ()> = OrdMap::new();
    let ghost states = groups.seq();
    let ghost commits = group_offsets.seq();
    proof {
        groups.lemma_seq();
        group_offsets.lemma_seq();
    }
    let mut i: usize = 0;
    while i < groups.len()
        invariant
            groups.wf(),
            ids.wf(),
            states == groups.seq(),
            i <= states.len(),
            forall|group: Seq<char>| #[trigger]
                ids.model().dom().contains(group) <==> exists|j: int|
                    0 <= j < i && (#[trigger] states[j]).0 == group,
        decreases states.len() - i,
    {
        let (group, _) = groups.at(i);
        let ghost before = ids.model();
        ids.insert(group.clone(), ());
        proof {
            assert forall|g: Seq<char>| #[trigger] ids.model().dom().contains(g) <==> exists|j: int|
                0 <= j < i + 1 && (#[trigger] states[j]).0 == g by {
                if before.dom().contains(g) {
                    let j = choose|j: int| 0 <= j < i && (#[trigger] states[j]).0 == g;
                    assert(states[j].0 == g);
                }
                assert(states[i as int].0 == group@);
            }
        }
        i += 1;
    }
    let mut k: usize = 0;
    while k < group_offsets.len()
        invariant
            group_offsets.wf(),
            ids.wf(),
            commits == group_offsets.seq(),
            k <= commits.len(),
            forall|group: Seq<char>| #[trigger]
                ids.model().dom().contains(group) <==> (exists|j: int|
                    0 <= j < states.len() && (#[trigger] states[j]).0 == group) || (exists|j: int|
                    0 <= j < k && (#[trigger] commits[j]).0.0 == group),
        decreases commits.len() - k,
    {
        let (key, _) = group_offsets.at(k);
        let ghost before = ids.model();
        ids.insert(key.0.clone(), ());
        proof {
            assert forall|g: Seq<char>| #[trigger] ids.model().dom().contains(g) <==> (exists|j: int|
                0 <= j < states.len() && (#[trigger] states[j]).0 == g) || (exists|j: int|
                0 <= j < k + 1 && (#[trigger] commits[j]).0.0 == g) by {
                if exists|j: int| 0 <= j < k && (#[trigger] commits[j]).0.0 == g {
                    let j = choose|j: int| 0 <= j < k && (#[trigger] commits[j]).0.0 == g;
                    assert(commits[j].0.0 == g);
                }
                assert(commits[k as int].0.0 == key.0@);
            }
        }
        k += 1;
    }
    proof {
        assert forall|g: Seq<char>| #[trigger] ids.model().dom().contains(g) <==> group_known(
            groups.model(),
            group_offsets.model(),
            g,
        ) by {
            if groups.model().dom().contains(g) {
                let j = lemma_ascending_position::<String, (Seq<u8>, Version)>(states, g);
                assert(states[j].0 == g);
            }
            if exists|j: int| 0 <= j < states.len() && (#[trigger] states[j]).0 == g {
                let j = choose|j: int| 0 <= j < states.len() && (#[trigger] states[j]).0 == g;
                lemma_ascending_at::<String, (Seq<u8>, Version)>(states, j);
            }
            if has_commits(group_offsets.model(), g) {
                let key = choose|key: (Seq<char>, (Seq<char>, i32))| #[trigger]
                    group_offsets.model().dom().contains(key) && key.0 == g;
                let j = lemma_ascending_position::<(String, Topition), OffsetCommit>(
                    commits,
                    key,
                );
                assert(commits[j].0.0 == g);
            }
            if exists|j: int| 0 <= j < commits.len() && (#[trigger] commits[j]).0.0 == g {
                let j = choose|j: int| 0 <= j < commits.len() && (#[trigger] commits[j]).0.0 == g;
                lemma_ascending_at::<(String, Topition), OffsetCommit>(commits, j);
                assert(group_offsets.model().dom().contains(commits[j].0));
            }
        }
    }
    let mut list: Vec<ListedGroup> = Vec::new();
    let ghost rows = ids.seq();
    proof {
        ids.lemma_seq();
    }
    let mut n: usize = 0;
    while n < ids.len()
        invariant
            ids.wf(),
            rows == ids.seq(),
            n <= rows.len(),
            list@.len() == n,
            forall|j: int|
                0 <= j < n ==> (#[trigger] list@[j]).group_id@ == rows[j].0
                    && list@[j].protocol_type@ == "consumer"@ && list@[j].group_state@
                    == "Unknown"@ && list@[j].group_type@ == "classic"@,
        decreases rows.len() - n,
    {
        let (group, _) = ids.at(n);
        list.push(
            ListedGroup {
                group_id: group.clone(),
                protocol_type: "consumer".to_owned(),
                group_state: "Unknown".to_owned(),
                group_type: "classic".to_owned(),
            },
        );
        n += 1;
    }
    proof {
        assert forall|a: int, b: int| 0 <= a < b < list@.len() implies String::precedes(
            (#[trigger] list@[a]).group_id@,
            (#[trigger] list@[b]).group_id@,
        ) by {
            assert(String::precedes(rows[a].0, rows[b].0));
        }
        assert forall|g: Seq<char>|
            group_known(groups.model(), group_offsets.model(), g) <==> exists|j: int|
                0 <= j < list@.len() && (#[trigger] list@[j]).group_id@ == g by {
            if ids.model().dom().contains(g) {
                let j = lemma_ascending_position::<String, ()>(rows, g);
                assert(list@[j].group_id@ == g);
            }
            if exists|j: int| 0 <= j < list@.len() && (#[trigger] list@[j]).group_id@ == g {
                let j = choose|j: int| 0 <= j < list@.len() && (#[trigger] list@[j]).group_id@ == g;
                lemma_ascending_at::<String, ()>(rows, j);
            }
        }
    }
    list
}

/// What a list of results says.
pub open spec fn results_view(list: Seq<(String, ErrorCode)>) -> Seq<(Seq<char>, ErrorCode)> {
    Seq::new(list.len(), |i: int| (list[i].0@, list[i].1))
}

/// What is left of the groups after some were deleted.
pub ghost struct Deletion {
    pub groups: GroupsModel,
    pub group_offsets: GroupOffsetsModel,
    pub results: Seq<(Seq<char>, ErrorCode)>,
    pub records: Seq<Record>,
}

/// The deletion of a list of groups, one after the other: a group that is not
/// known by then is answered so.
pub open spec fn deletion(
    groups: GroupsModel,
    group_offsets: GroupOffsetsModel,
    ids: Seq<Seq<char>>,
) -> Deletion
    decreases ids.len(),
{
    if ids.len() == 0 {
        Deletion { groups, group_offsets, results: Seq::empty(), records: Seq::empty() }
    } else {
        let before = deletion(groups, group_offsets, ids.drop_last());
        let group = ids.last();
        let known = group_known(before.groups, before.group_offsets, group);
        Deletion {
            groups: before.groups.remove(group),
            group_offsets: without_group(before.group_offsets, group),
            results: before.results.push(
                (
                    group,
                    if known {
                        ErrorCode::NoError
                    } else {
                        ErrorCode::GroupIdNotFound
                    },
                ),
            ),
            records: if known {
                before.records.push(Record::GroupDelete { group })
            } else {
                before.records
            },
        }
    }
}

/// What a list of log records says.
pub open spec fn records_view(records: Seq<WalRecord>) -> Seq<Record> {
    Seq::new(records.len(), |i: int| records[i]@)
}

fn find_commits(group_offsets: &GroupOffsets, group: &str) -> (found: bool)
    requires
        group_offsets.wf(),
    ensures
        found == has_commits(group_offsets.model(), group@),
{
    let ghost rows = group_offsets.seq();
    proof {
        group_offsets.lemma_seq();
    }
    let mut i: usize = 0;
    while i < group_offsets.len()
        invariant
            group_offsets.wf(),
            rows == group_offsets.seq(),
            i <= rows.len(),
            forall|j: int| 0 <= j < i ==> (#[trigger] rows[j]).0.0 != group@,
        decreases rows.len() - i,
    {
        let (key, _) = group_offsets.at(i);
        if same(key.0.as_str(), group) {
            proof {
                group_offsets.lemma_seq();
                lemma_ascending_at::<(String, Topition), OffsetCommit>(rows, i as int);
                assert(group_offsets.model().dom().contains(rows[i as int].0));
            }
            return true;
        }
        i += 1;
    }
    proof {
        assert forall|k: (Seq<char>, (Seq<char>, i32))| #[trigger]
            group_offsets.model().dom().contains(k) implies k.0 != group@ by {
            let j = lemma_ascending_position::<(String, Topition), OffsetCommit>(rows, k);
        }
    }
    false
}

/// Deletes groups, with their committed offsets; gives the answers and what is
/// to be logged.
pub fn delete_groups(
    groups: &mut Groups,
    group_offsets: &mut GroupOffsets,
    group_ids: Option<&Vec<String>>,
) -> (outcome: (Vec<(String, ErrorCode)>, Vec<WalRecord>))
    requires
        old(groups).wf(),
        old(group_offsets).wf(),
    ensures
        final(groups).wf(),
        final(group_offsets).wf(),
        ({
            let ids = match group_ids {
                Some(ids) => ids.model(),
                None => Seq::empty(),
            };
            deletion(old(groups).model(), old(group_offsets).model(), ids) == (Deletion {
                groups: final(groups).model(),
                group_offsets: final(group_offsets).model(),
                results: results_view(outcome.0@),
                records: records_view(outcome.1@),
            })
        }),
{
    let mut results: Vec<(String, ErrorCode)> = Vec::new();
    let mut records: Vec<WalRecord> = Vec::new();
    assert(results_view(results@) =~= Seq::empty());
    assert(records_view(records@) =~= Seq::empty());
    let ids = match group_ids {
        Some(ids) => ids,
        None => {
            return (results, records);
        },
    };
    let ghost rows = ids.model();
    let mut i: usize = 0;
    assert(rows.take(0) =~= Seq::<Seq<char>>::empty());
    while i < ids.len()
        invariant
            groups.wf(),
            group_offsets.wf(),
            rows == ids.model(),
            i <= rows.len(),
            deletion(old(groups).model(), old(group_offsets).model(), rows.take(i as int)) == (
            Deletion {
                groups: groups.model(),
                group_offsets: group_offsets.model(),
                results: results_view(results@),
                records: records_view(records@),
            }),
        decreases rows.len() - i,
    {
        let group = &ids[i];
        proof {
            assert(rows.take(i + 1).drop_last() =~= rows.take(i as int));
            assert(rows.take(i + 1).last() == group@);
        }
        let ghost answered = results_view(results@);
        let ghost logged = records_view(records@);
        let had_commits = find_commits(group_offsets, group.as_str());
        let had_state = groups.remove(group).is_some();
        forget_group(group_offsets, group.as_str());
        if had_state || had_commits {
            records.push(WalRecord::GroupDelete { group: group.clone() });
            results.push((group.clone(), ErrorCode::NoError));
            assert(records_view(records@) =~= logged.push(Record::GroupDelete { group: group@ }));
        } else {
            results.push((group.clone(), ErrorCode::GroupIdNotFound));
        }
        assert(results_view(results@) =~= answered.push(
            (
                group@,
                if had_state || had_commits {
                    ErrorCode::NoError
                } else {
                    ErrorCode::GroupIdNotFound
                },
            ),
        ));
        i += 1;
    }
    assert(rows.take(i as int) =~= rows);
    (results, records)
}

/// The states of groups that are asked for; an unknown group's is empty.
pub open spec fn described_groups(groups: GroupsModel, ids: Seq<Seq<char>>) -> Seq<
    (Seq<char>, Seq<u8>),
> {
    Seq::new(
        ids.len(),
        |i: int|
            (
                ids[i],
                if groups.dom().contains(ids[i]) {
                    groups[ids[i]].0
                } else {
                    Seq::empty()
                },
            ),
    )
}

/// The states of the groups that are asked for.
pub fn describe_groups(groups: &Groups, group_ids: Option<&Vec<String>>) -> (list: Vec<
    (String, GroupDetail),
>)
    requires
        groups.wf(),
    ensures
        list.model() == (match group_ids {
            Some(ids) => described_groups(groups.model(), ids.model()),
            None => Seq::empty(),
        }),
{
    let mut list: Vec<(String, GroupDetail)> = Vec::new();
    assert(list.model() =~= Seq::empty());
    let ids = match group_ids {
        Some(ids) => ids,
        None => {
            return list;
        },
    };
    let ghost all = described_groups(groups.model(), ids.model());
    let mut i: usize = 0;
    while i < ids.len()
        invariant
            groups.wf(),
            all == described_groups(groups.model(), ids.model()),
            i <= ids@.len(),
            list@.len() == i,
            forall|j: int| 0 <= j < i ==> (#[trigger] list@[j]).model() == all[j],
        decreases ids@.len() - i,
    {
        let detail = match groups.get(&ids[i]) {
            Some(state) => state.0.dup(),
            None => {
                let empty = GroupDetail { encoded: Vec::new() };
                assert(empty.model() =~= Seq::<u8>::empty());
                empty
            },
        };
        list.push((ids[i].clone(), detail));
        i += 1;
    }
    assert(list.model() =~= all);
    list
}

/// Why a group's state was not updated.
#[derive(Debug, PartialEq, Eq)]
pub enum UpdateError {
    Error(Error),
    /// The state has moved on since the version that the update was made for.
    Outdated { current: GroupDetail, version: Version },
}

/// What an [`UpdateError`] says.
pub enum UpdateFault {
    Error(Fault),
    Outdated { current: Seq<u8>, version: Version },
}

impl View for UpdateError {
    type V = UpdateFault;

    open spec fn view(&self) -> UpdateFault {
        match self {
            UpdateError::Error(error) => UpdateFault::Error(error@),
            UpdateError::Outdated { current, version } => UpdateFault::Outdated {
                current: current.model(),
                version: *version,
            },
        }
    }
}

/// Why an update of a group's state is refused, if it is: the group is not
/// known, or the update was made for another version (or for none).
pub open spec fn update_refusal(groups: GroupsModel, group: Seq<char>, version: Option<Version>) -> Option<
    UpdateFault,
> {
    if groups.dom().contains(group) {
        let (current, stored) = groups[group];
        if version == Some(stored) {
            None
        } else {
            Some(UpdateFault::Outdated { current, version: stored })
        }
    } else if version is Some {
        Some(UpdateFault::Error(Fault::Message("group not found: "@ + group)))
    } else {
        None
    }
}

/// Updates a group's state if it is at the version that the update was made
/// for; it is then at `fresh`, a version that the caller made up.
pub fn update_group(
    groups: &mut Groups,
    group_id: &str,
    detail: GroupDetail,
    version: Option<Version>,
    fresh: Version,
) -> (result: core::result::Result<(Version, WalRecord), UpdateError>)
    requires
        old(groups).wf(),
    ensures
        final(groups).wf(),
        match update_refusal(old(groups).model(), group_id@, version) {
            Some(fault) => {
                &&& final(groups).model() == old(groups).model()
                &&& result matches Err(error) && error@ == fault
            },
            None => {
                &&& final(groups).model() == old(groups).model().insert(
                    group_id@,
                    (detail.model(), fresh),
                )
                &&& result matches Ok((updated, record)) && updated == fresh && record@ == (
                Record::GroupUpdate {
                    group: group_id@,
                    detail: detail.model(),
                    version: fresh,
                })
            },
        },
{
    let group = group_id.to_owned();
    match groups.get(&group) {
        Some(state) => {
            let outdated = match version {
                Some(version) => state.1 != version,
                None => true,
            };
            if outdated {
                return Err(
                    UpdateError::Outdated { current: state.0.dup(), version: state.1 },
                );
            }
        },
        None => {
            if version.is_some() {
                return Err(
                    UpdateError::Error(Error::Message(concat("group not found: ", group_id))),
                );
            }
        },
    }
    let logged = detail.dup();
    groups.insert(group.clone(), (detail, fresh));
    Ok((fresh, WalRecord::GroupUpdate { group, detail: logged, version: fresh }))
}

/// A commit is read back: after a list of commits, a group's offset on a
/// partition is that of the last one for it.
pub proof fn law_commit_reads_back(
    group_offsets: GroupOffsetsModel,
    group: Seq<char>,
    commits: Seq<(Seq<char>, i32, OffsetCommit)>,
    i: int,
)
    requires
        0 <= i < commits.len(),
        forall|j: int|
            i < j < commits.len() ==> ((#[trigger] commits[j]).0, commits[j].1) != (
                commits[i].0,
                commits[i].1,
            ),
    ensures
        committed_at(
            with_commits(group_offsets, group, commits),
            group,
            (commits[i].0, commits[i].1),
        ) == commits[i].2.offset,
    decreases commits.len(),
{
    let init = commits.drop_last();
    let last = commits.len() - 1;
    if i < last {
        assert((commits[last].0, commits[last].1) != (commits[i].0, commits[i].1));
        assert forall|j: int| i < j < init.len() implies ((#[trigger] init[j]).0, init[j].1) != (
            init[i].0,
            init[i].1,
        ) by {
            assert(init[j] == commits[j] && init[i] == commits[i]);
        }
        law_commit_reads_back(group_offsets, group, init, i);
    }
}

/// A commit changes no other group's offsets.
pub proof fn law_commit_leaves_others(
    group_offsets: GroupOffsetsModel,
    group: Seq<char>,
    commits: Seq<(Seq<char>, i32, OffsetCommit)>,
    other: Seq<char>,
    topition: (Seq<char>, i32),
)
    requires
        other != group,
    ensures
        committed_at(with_commits(group_offsets, group, commits), other, topition) == committed_at(
            group_offsets,
            other,
            topition,
        ),
    decreases commits.len(),
{
    if commits.len() > 0 {
        law_commit_leaves_others(group_offsets, group, commits.drop_last(), other, topition);
    }
}

/// What is logged of commits replays to what they did.
pub proof fn law_commit_replays(
    image: ImageModel,
    group: Seq<char>,
    commits: Seq<(Seq<char>, i32, OffsetCommit)>,
)
    ensures
        applied(image, Record::GroupOffsetCommit { group, offsets: commits }) == (ImageModel {
            group_offsets: with_commits(image.group_offsets, group, commits),
            ..image
        }),
{
}

/// A deleted group is not known any more, and its offsets read as none.
pub proof fn law_deleted_group_unknown(
    groups: GroupsModel,
    group_offsets: GroupOffsetsModel,
    group: Seq<char>,
    topition: (Seq<char>, i32),
)
    ensures
        !group_known(groups.remove(group), without_group(group_offsets, group), group),
        committed_at(without_group(group_offsets, group), group, topition) == -1,
{
}

/// Of two updates made for one version only the first is taken: the second
/// finds the state moved on, and learns what it is now.
pub proof fn law_stale_update_refused(
    groups: GroupsModel,
    group: Seq<char>,
    detail: Seq<u8>,
    version: Option<Version>,
    fresh: Version,
)
    requires
        update_refusal(groups, group, version) is None,
        version != Some(fresh),
    ensures
        update_refusal(groups.insert(group, (detail, fresh)), group, version) == Some(
            UpdateFault::Outdated { current: detail, version: fresh },
        ),
        update_refusal(groups.insert(group, (detail, fresh)), group, Some(fresh)) is None,
{
}

} // verus!
