//! What becomes of the consumer offsets that transactions staged, and which
//! transactions time out.

use crate::error::ErrorCode;
use crate::groups::{accepted, commit_answers, committed_on};
use crate::model::{Key, Model};
use crate::ordmap::{
    ascending, lemma_ascending_at, lemma_ascending_distinct, lemma_ascending_position, ordered,
    to_map,
};
use crate::overlap::{
    ending_too, ends_too, held, lemma_filtered, lemma_unended_txns, names, unended_txns,
};
use crate::overlap_laws::{lemma_resolved_at, listed};
use crate::producer::{expired, expired_epochs, expired_txns};
use crate::replay::{with_commits, GroupOffsetsModel};
use crate::resolution::{group_commits, grouped, owned};
use crate::state::{
    get_or, produced_ranges, txn_at, txn_refusal, CommitOffsetModel, CoordModel, CoordState, OffsetsModel,
    TxnDetail, TxnDetailModel, TxnModel, TxnRefModel,
};
use crate::time::SystemTime;
use crate::totals::listable;
use crate::txn::{
    all_offsets, ending, group_offsets, outcome, prepared_state, resolution, resolved, staged_offsets, topic_offsets,
    Effects,
};
use crate::types::{OffsetCommit, TxnState};
use vstd::prelude::*;

verus! {

/// An offset that a transaction staged: the group, the topic and partition, and
/// what was staged.
pub type Staged = ((Seq<char>, (Seq<char>, i32)), CommitOffsetModel);

/// The commit that a staged offset becomes.
pub open spec fn commit_of(staged: Staged) -> ((Seq<char>, i32), OffsetCommit) {
    (
        staged.0.1,
        OffsetCommit {
            offset: staged.1.committed_offset,
            leader_epoch: None,
            timestamp: None,
            metadata: None,
        },
    )
}

/// The offsets of a list that are staged for a group, as commits.
pub open spec fn of_group(offsets: Seq<Staged>, group: Seq<char>) -> Seq<
    ((Seq<char>, i32), OffsetCommit),
> {
    offsets.filter(|staged: Staged| staged.0.0 == group).map_values(
        |staged: Staged| commit_of(staged),
    )
}

proof fn lemma_of_group_push(offsets: Seq<Staged>, staged: Staged, group: Seq<char>)
    ensures
        of_group(offsets.push(staged), group) == (if staged.0.0 == group {
            of_group(offsets, group).push(commit_of(staged))
        } else {
            of_group(offsets, group)
        }),
{
    reveal(Seq::filter);
    assert(offsets.push(staged).drop_last() =~= offsets);
    if staged.0.0 == group {
        assert(of_group(offsets.push(staged), group) =~= of_group(offsets, group).push(
            commit_of(staged),
        ));
    }
}

/// Group commits that hold what a list of offsets stages, group by group.
pub open spec fn holds_staged(
    commits: Map<Seq<char>, Seq<((Seq<char>, i32), OffsetCommit)>>,
    offsets: Seq<Staged>,
) -> bool {
    forall|group: Seq<char>|
        #![trigger commits.dom().contains(group)]
        #![trigger of_group(offsets, group)]
        if of_group(offsets, group).len() == 0 {
            !commits.dom().contains(group)
        } else {
            commits.dom().contains(group) && commits[group] == of_group(offsets, group)
        }
}

proof fn lemma_grouped(
    commits: Map<Seq<char>, Seq<((Seq<char>, i32), OffsetCommit)>>,
    before: Seq<Staged>,
    offsets: Seq<Staged>,
)
    requires
        holds_staged(commits, before),
    ensures
        holds_staged(grouped(commits, offsets), before + offsets),
    decreases offsets.len(),
{
    if offsets.len() == 0 {
        assert(before + offsets =~= before);
    } else {
        let init = offsets.drop_last();
        let last = offsets.last();
        lemma_grouped(commits, before, init);
        let earlier = grouped(commits, init);
        let all = before + offsets;
        let but_last = before + init;
        assert(all =~= but_last.push(last));
        assert forall|group: Seq<char>|
            #![trigger grouped(commits, offsets).dom().contains(group)]
            #![trigger of_group(all, group)]
            if of_group(all, group).len() == 0 {
                !grouped(commits, offsets).dom().contains(group)
            } else {
                grouped(commits, offsets).dom().contains(group) && grouped(
                    commits,
                    offsets,
                )[group] == of_group(all, group)
            } by {
            lemma_of_group_push(but_last, last, group);
            assert(if of_group(but_last, group).len() == 0 {
                !earlier.dom().contains(group)
            } else {
                earlier.dom().contains(group) && earlier[group] == of_group(but_last, group)
            });
            if last.0.0 == group {
                assert(get_or(earlier, group, Seq::empty()) =~= of_group(but_last, group));
            }
        }
    }
}

/// The commits of a group are, in order, exactly the offsets that the ended
/// transactions stage for it, each of them one; a group that none is staged for
/// gets none.
pub proof fn law_group_gets_every_staged_offset(effects: Seq<Effects>)
    ensures
        holds_staged(
            group_commits(effects),
            effects.map_values(|one: Effects| one.offsets).flatten(),
        ),
    decreases effects.len(),
{
    let lists = effects.map_values(|one: Effects| one.offsets);
    if effects.len() == 0 {
        assert(lists.flatten() =~= Seq::<Staged>::empty());
        reveal(Seq::filter);
        assert forall|group: Seq<char>| #[trigger]
            of_group(lists.flatten(), group).len() == 0 by {}
    } else {
        let init = effects.drop_last();
        let before = init.map_values(|one: Effects| one.offsets);
        law_group_gets_every_staged_offset(init);
        lemma_grouped(group_commits(init), before.flatten(), effects.last().offsets);
        assert(lists =~= before.push(effects.last().offsets));
        before.lemma_flatten_push(effects.last().offsets);
    }
}

/// A staged offset that no later one of a list replaces is the last commit of
/// its group on its partition.
proof fn lemma_last_commit(
    commits: Map<Seq<char>, Seq<((Seq<char>, i32), OffsetCommit)>>,
    offsets: Seq<Staged>,
    j: int,
) -> (i: int)
    requires
        0 <= j < offsets.len(),
        forall|k: int| j < k < offsets.len() ==> (#[trigger] offsets[k]).0 != offsets[j].0,
    ensures
        ({
            let after = grouped(commits, offsets);
            let group = offsets[j].0.0;
            &&& after.dom().contains(group)
            &&& 0 <= i < after[group].len()
            &&& after[group][i] == commit_of(offsets[j])
            &&& forall|k: int|
                i < k < after[group].len() ==> (#[trigger] after[group][k]).0 != offsets[j].0.1
        }),
    decreases offsets.len(),
{
    let init = offsets.drop_last();
    let n = offsets.len() - 1;
    let before = grouped(commits, init);
    let after = grouped(commits, offsets);
    let group = offsets[j].0.0;
    if j == n {
        after[group].len() - 1
    } else {
        assert forall|k: int| j < k < init.len() implies (#[trigger] init[k]).0 != init[j].0 by {
            assert(offsets[k].0 != offsets[j].0);
        }
        let i = lemma_last_commit(commits, init, j);
        assert(offsets[n].0 != offsets[j].0);
        assert forall|k: int| i < k < after[group].len() implies (#[trigger] after[group][k]).0
            != offsets[j].0.1 by {
            if k < before[group].len() {
                assert(after[group][k] == before[group][k]);
            }
        }
        i
    }
}

/// Committing a list of offsets: each partition of a known topic has the last
/// offset that is listed for it afterwards, whatever else is listed.
pub proof fn law_last_commit_counts(
    coord: CoordModel,
    group_offsets: GroupOffsetsModel,
    group: Seq<char>,
    offsets: Seq<((Seq<char>, i32), OffsetCommit)>,
    i: int,
)
    requires
        0 <= i < offsets.len(),
        coord.topics.dom().contains(offsets[i].0.0),
        forall|j: int| i < j < offsets.len() ==> (#[trigger] offsets[j]).0 != offsets[i].0,
    ensures
        ({
            let after = with_commits(group_offsets, group, accepted(coord, offsets));
            &&& after.dom().contains((group, offsets[i].0))
            &&& after[(group, offsets[i].0)] == offsets[i].1
        }),
    decreases offsets.len(),
{
    let init = offsets.drop_last();
    let n = offsets.len() - 1;
    let list = accepted(coord, offsets);
    if coord.topics.dom().contains(offsets[n].0.0) {
        assert(list.drop_last() =~= accepted(coord, init));
    }
    if i < n {
        assert forall|j: int| i < j < init.len() implies (#[trigger] init[j]).0 != init[i].0 by {
            assert(offsets[j].0 != offsets[i].0);
        }
        law_last_commit_counts(coord, group_offsets, group, init, i);
        assert(offsets[n].0 != offsets[i].0);
    }
}

/// Committing a list of offsets leaves every other offset as it was: those of
/// other groups, of partitions that are not listed and of unknown topics.
pub proof fn law_commit_leaves_the_rest(
    coord: CoordModel,
    group_offsets: GroupOffsetsModel,
    group: Seq<char>,
    offsets: Seq<((Seq<char>, i32), OffsetCommit)>,
    other: Seq<char>,
    topition: (Seq<char>, i32),
)
    requires
        other != group || !coord.topics.dom().contains(topition.0) || forall|i: int|
            0 <= i < offsets.len() ==> (#[trigger] offsets[i]).0 != topition,
    ensures
        ({
            let after = with_commits(group_offsets, group, accepted(coord, offsets));
            let key = (other, topition);
            &&& after.dom().contains(key) <==> group_offsets.dom().contains(key)
            &&& after.dom().contains(key) ==> after[key] == group_offsets[key]
        }),
    decreases offsets.len(),
{
    if offsets.len() > 0 {
        let init = offsets.drop_last();
        let n = offsets.len() - 1;
        let list = accepted(coord, offsets);
        if coord.topics.dom().contains(offsets[n].0.0) {
            assert(list.drop_last() =~= accepted(coord, init));
        }
        if forall|i: int| 0 <= i < offsets.len() ==> (#[trigger] offsets[i]).0 != topition {
            assert forall|i: int| 0 <= i < init.len() implies (#[trigger] init[i]).0
                != topition by {
                assert(offsets[i].0 != topition);
            }
            assert(offsets[n].0 != topition);
        }
        law_commit_leaves_the_rest(coord, group_offsets, group, init, other, topition);
    }
}

/// Every commit is answered, in its order: without an error where its topic is
/// known, and else that it is not.
pub proof fn law_every_commit_is_answered(
    coord: CoordModel,
    offsets: Seq<((Seq<char>, i32), OffsetCommit)>,
)
    ensures
        commit_answers(coord, offsets).len() == offsets.len(),
        forall|i: int|
            0 <= i < offsets.len() ==> {
                let (topition, code) = #[trigger] commit_answers(coord, offsets)[i];
                &&& topition == offsets[i].0
                &&& coord.topics.dom().contains(topition.0) ==> code == ErrorCode::NoError
                &&& !coord.topics.dom().contains(topition.0) ==> code
                    == ErrorCode::UnknownTopicOrPartition
            },
{
}

/// What is asked for of a group's offsets is answered, and nothing else: the
/// offset that is committed, and -1 where none is.
pub proof fn law_committed_is_fetched(
    group_offsets: GroupOffsetsModel,
    group: Seq<char>,
    topics: Seq<(Seq<char>, i32)>,
    topition: (Seq<char>, i32),
)
    ensures
        ({
            let answer = committed_on(group_offsets, group, topics);
            &&& answer.dom().contains(topition) <==> topics.contains(topition)
            &&& topics.contains(topition) && group_offsets.dom().contains((group, topition))
                ==> answer[topition] == group_offsets[(group, topition)].offset
            &&& topics.contains(topition) && !group_offsets.dom().contains((group, topition))
                ==> answer[topition] == -1
        }),
{
}

/// What is staged at a group's partition.
pub open spec fn staged_at(
    offsets: OffsetsModel,
    group: Seq<char>,
    topic: Seq<char>,
    partition: i32,
) -> Option<CommitOffsetModel> {
    if offsets.dom().contains(group) && offsets[group].dom().contains(topic)
        && offsets[group][topic].dom().contains(partition) {
        Some(offsets[group][topic][partition])
    } else {
        None
    }
}

/// Whether the keys of a list of staged offsets are all different.
pub open spec fn all_different(list: Seq<Staged>) -> bool {
    forall|i: int, j: int|
        0 <= i < j < list.len() ==> (#[trigger] list[i]).0 != (#[trigger] list[j]).0
}

proof fn lemma_topic_offsets(
    group: Seq<char>,
    topic: Seq<char>,
    partitions: Seq<(i32, CommitOffsetModel)>,
)
    requires
        ascending::<i32, CommitOffsetModel>(partitions),
    ensures
        all_different(topic_offsets(group, topic, partitions)),
        forall|i: int|
            0 <= i < topic_offsets(group, topic, partitions).len() ==> {
                let ((g, (t, p)), commit) = #[trigger] topic_offsets(group, topic, partitions)[i];
                g == group && t == topic && to_map(partitions).dom().contains(p) && to_map(
                    partitions,
                )[p] == commit
            },
        forall|p: i32| #[trigger]
            to_map(partitions).dom().contains(p) ==> topic_offsets(
                group,
                topic,
                partitions,
            ).contains(((group, (topic, p)), to_map(partitions)[p])),
{
    let list = topic_offsets(group, topic, partitions);
    assert forall|i: int, j: int| 0 <= i < j < list.len() implies (#[trigger] list[i]).0 != (
    #[trigger] list[j]).0 by {
        assert(i32::precedes(partitions[i].0, partitions[j].0));
    }
    assert forall|i: int| 0 <= i < list.len() implies {
        let ((g, (t, p)), commit) = #[trigger] list[i];
        g == group && t == topic && to_map(partitions).dom().contains(p) && to_map(partitions)[p]
            == commit
    } by {
        lemma_ascending_at::<i32, CommitOffsetModel>(partitions, i);
    }
    assert forall|p: i32| #[trigger] to_map(partitions).dom().contains(p) implies list.contains(
        ((group, (topic, p)), to_map(partitions)[p]),
    ) by {
        let i = lemma_ascending_position::<i32, CommitOffsetModel>(partitions, p);
        assert(list[i] == ((group, (topic, p)), to_map(partitions)[p]));
    }
}

proof fn lemma_group_offsets(
    group: Seq<char>,
    topics: Seq<(Seq<char>, Map<i32, CommitOffsetModel>)>,
)
    requires
        ascending::<String, Map<i32, CommitOffsetModel>>(topics),
        forall|i: int|
            0 <= i < topics.len() ==> listable::<i32, CommitOffsetModel>((#[trigger] topics[i]).1),
    ensures
        all_different(group_offsets(group, topics)),
        forall|i: int|
            0 <= i < group_offsets(group, topics).len() ==> {
                let ((g, (t, p)), commit) = #[trigger] group_offsets(group, topics)[i];
                g == group && exists|k: int|
                    0 <= k < topics.len() && (#[trigger] topics[k]).0 == t
                        && topics[k].1.dom().contains(p) && topics[k].1[p] == commit
            },
        forall|k: int, p: i32|
            0 <= k < topics.len() && #[trigger] topics[k].1.dom().contains(p) ==> group_offsets(
                group,
                topics,
            ).contains(((group, (topics[k].0, p)), topics[k].1[p])),
    decreases topics.len(),
{
    if topics.len() > 0 {
        let init = topics.drop_last();
        let n = topics.len() - 1;
        let (topic, map) = topics[n];
        let cells = ordered::<i32, CommitOffsetModel>(map);
        assert forall|i: int| 0 <= i < n implies #[trigger] init[i] == topics[i] by {}
        assert forall|i: int| 0 <= i < init.len() implies listable::<i32, CommitOffsetModel>(
            (#[trigger] init[i]).1,
        ) by {
            assert(listable::<i32, CommitOffsetModel>(topics[i].1));
        }
        assert(ascending::<String, Map<i32, CommitOffsetModel>>(init)) by {
            assert forall|i: int, j: int| 0 <= i < j < init.len() implies String::precedes(
                (#[trigger] init[i]).0,
                (#[trigger] init[j]).0,
            ) by {
                assert(String::precedes(topics[i].0, topics[j].0));
            }
        }
        lemma_group_offsets(group, init);
        assert(listable::<i32, CommitOffsetModel>(topics[n].1));
        lemma_topic_offsets(group, topic, cells);
        let head = group_offsets(group, init);
        let tail = topic_offsets(group, topic, cells);
        let all = group_offsets(group, topics);
        assert(all == head + tail);
        assert forall|i: int| 0 <= i < all.len() implies {
            let ((g, (t, p)), commit) = #[trigger] all[i];
            g == group && exists|k: int|
                0 <= k < topics.len() && (#[trigger] topics[k]).0 == t
                    && topics[k].1.dom().contains(p) && topics[k].1[p] == commit
        } by {
            let ((g, (t, p)), commit) = all[i];
            if i < head.len() {
                assert(all[i] == head[i]);
                let k = choose|k: int|
                    0 <= k < init.len() && (#[trigger] init[k]).0 == t
                        && init[k].1.dom().contains(p) && init[k].1[p] == commit;
                assert(topics[k].0 == t);
            } else {
                assert(all[i] == tail[i - head.len()]);
                assert(topics[n].0 == t);
            }
        }
        assert forall|i: int, j: int| 0 <= i < j < all.len() implies (#[trigger] all[i]).0 != (
        #[trigger] all[j]).0 by {
            if j < head.len() {
                assert(all[i] == head[i] && all[j] == head[j]);
            } else if i >= head.len() {
                assert(all[i] == tail[i - head.len()] && all[j] == tail[j - head.len()]);
            } else {
                assert(all[i] == head[i] && all[j] == tail[j - head.len()]);
                let t = head[i].0.1.0;
                let k = choose|k: int| 0 <= k < init.len() && (#[trigger] init[k]).0 == t;
                lemma_ascending_distinct::<String, Map<i32, CommitOffsetModel>>(topics, k, n);
                assert(topics[k].0 == t);
            }
        }
        assert forall|k: int, p: i32|
            0 <= k < topics.len() && #[trigger] topics[k].1.dom().contains(p) implies all.contains(
            ((group, (topics[k].0, p)), topics[k].1[p]),
        ) by {
            let item = ((group, (topics[k].0, p)), topics[k].1[p]);
            if k < n {
                assert(init[k].1.dom().contains(p));
                assert(head.contains(item));
                let i = choose|i: int| 0 <= i < head.len() && head[i] == item;
                assert(all[i] == item);
            } else {
                assert(to_map(cells).dom().contains(p));
                assert(tail.contains(item));
                let i = choose|i: int| 0 <= i < tail.len() && tail[i] == item;
                assert(all[head.len() + i] == item);
            }
        }
    }
}

proof fn lemma_all_offsets(
    groups: Seq<(Seq<char>, Map<Seq<char>, Map<i32, CommitOffsetModel>>)>,
)
    requires
        ascending::<String, Map<Seq<char>, Map<i32, CommitOffsetModel>>>(groups),
        forall|i: int| 0 <= i < groups.len() ==> all_listable((#[trigger] groups[i]).1),
    ensures
        all_different(all_offsets(groups)),
        forall|i: int|
            0 <= i < all_offsets(groups).len() ==> {
                let ((g, (t, p)), commit) = #[trigger] all_offsets(groups)[i];
                exists|k: int|
                    0 <= k < groups.len() && (#[trigger] groups[k]).0 == g
                        && groups[k].1.dom().contains(t) && groups[k].1[t].dom().contains(p)
                        && groups[k].1[t][p] == commit
            },
        forall|k: int, t: Seq<char>, p: i32|
            0 <= k < groups.len() && groups[k].1.dom().contains(t)
                && #[trigger] groups[k].1[t].dom().contains(p) ==> all_offsets(groups).contains(
                ((groups[k].0, (t, p)), groups[k].1[t][p]),
            ),
    decreases groups.len(),
{
    if groups.len() > 0 {
        let init = groups.drop_last();
        let n = groups.len() - 1;
        let (group, map) = groups[n];
        assert forall|i: int| 0 <= i < n implies #[trigger] init[i] == groups[i] by {}
        assert forall|i: int| 0 <= i < init.len() implies all_listable((#[trigger] init[i]).1) by {
            assert(all_listable(groups[i].1));
        }
        assert(ascending::<String, Map<Seq<char>, Map<i32, CommitOffsetModel>>>(init)) by {
            assert forall|i: int, j: int| 0 <= i < j < init.len() implies String::precedes(
                (#[trigger] init[i]).0,
                (#[trigger] init[j]).0,
            ) by {
                assert(String::precedes(groups[i].0, groups[j].0));
            }
        }
        lemma_all_offsets(init);
        assert(all_listable(groups[n].1));
        let topics = ordered::<String, Map<i32, CommitOffsetModel>>(map);
        assert forall|i: int| 0 <= i < topics.len() implies listable::<i32, CommitOffsetModel>(
            (#[trigger] topics[i]).1,
        ) by {
            lemma_ascending_at::<String, Map<i32, CommitOffsetModel>>(topics, i);
            assert(map.dom().contains(topics[i].0));
        }
        lemma_group_offsets(group, topics);
        let head = all_offsets(init);
        let tail = group_offsets(group, topics);
        let all = all_offsets(groups);
        assert(all == head + tail);
        assert forall|i: int| 0 <= i < all.len() implies {
            let ((g, (t, p)), commit) = #[trigger] all[i];
            exists|k: int|
                0 <= k < groups.len() && (#[trigger] groups[k]).0 == g
                    && groups[k].1.dom().contains(t) && groups[k].1[t].dom().contains(p)
                    && groups[k].1[t][p] == commit
        } by {
            let ((g, (t, p)), commit) = all[i];
            if i < head.len() {
                assert(all[i] == head[i]);
                let k = choose|k: int|
                    0 <= k < init.len() && (#[trigger] init[k]).0 == g
                        && init[k].1.dom().contains(t) && init[k].1[t].dom().contains(p)
                        && init[k].1[t][p] == commit;
                assert(groups[k].0 == g);
            } else {
                assert(all[i] == tail[i - head.len()]);
                let k = choose|k: int|
                    0 <= k < topics.len() && (#[trigger] topics[k]).0 == t
                        && topics[k].1.dom().contains(p) && topics[k].1[p] == commit;
                lemma_ascending_at::<String, Map<i32, CommitOffsetModel>>(topics, k);
                assert(groups[n].0 == g);
            }
        }
        assert forall|i: int, j: int| 0 <= i < j < all.len() implies (#[trigger] all[i]).0 != (
        #[trigger] all[j]).0 by {
            if j < head.len() {
                assert(all[i] == head[i] && all[j] == head[j]);
            } else if i >= head.len() {
                assert(all[i] == tail[i - head.len()] && all[j] == tail[j - head.len()]);
            } else {
                assert(all[i] == head[i] && all[j] == tail[j - head.len()]);
                let g = head[i].0.0;
                let k = choose|k: int| 0 <= k < init.len() && (#[trigger] init[k]).0 == g;
                lemma_ascending_distinct::<
                    String,
                    Map<Seq<char>, Map<i32, CommitOffsetModel>>,
                >(groups, k, n);
                assert(groups[k].0 == g);
            }
        }
        assert forall|k: int, t: Seq<char>, p: i32|
            0 <= k < groups.len() && groups[k].1.dom().contains(t)
                && #[trigger] groups[k].1[t].dom().contains(p) implies all.contains(
            ((groups[k].0, (t, p)), groups[k].1[t][p]),
        ) by {
            let item = ((groups[k].0, (t, p)), groups[k].1[t][p]);
            if k < n {
                assert(init[k].1[t].dom().contains(p));
                assert(head.contains(item));
                let i = choose|i: int| 0 <= i < head.len() && head[i] == item;
                assert(all[i] == item);
            } else {
                let m = lemma_ascending_position::<String, Map<i32, CommitOffsetModel>>(
                    topics,
                    t,
                );
                assert(topics[m].1.dom().contains(p));
                assert(tail.contains(item));
                let i = choose|i: int| 0 <= i < tail.len() && tail[i] == item;
                assert(all[head.len() + i] == item);
            }
        }
    }
}

/// Whether a group's staged offsets can be listed.
spec fn all_listable(map: Map<Seq<char>, Map<i32, CommitOffsetModel>>) -> bool {
    &&& listable::<String, Map<i32, CommitOffsetModel>>(map)
    &&& forall|t: Seq<char>| #[trigger]
        map.dom().contains(t) ==> listable::<i32, CommitOffsetModel>(map[t])
}

/// The staged offsets that are listed are those that are staged, each once.
pub proof fn law_staged_offsets(detail: &TxnDetail)
    requires
        detail.wf(),
    ensures
        all_different(staged_offsets(detail.model().offsets)),
        forall|group: Seq<char>, topic: Seq<char>, partition: i32, commit: CommitOffsetModel|
            #[trigger]
            staged_offsets(detail.model().offsets).contains(
                ((group, (topic, partition)), commit),
            ) <==> staged_at(detail.model().offsets, group, topic, partition) == Some(commit),
{
    let rows = detail.offsets.seq();
    detail.offsets.lemma_seq();
    assert forall|i: int| 0 <= i < rows.len() implies all_listable((#[trigger] rows[i]).1) by {
        let by_topic = detail.offsets.lemma_value(i);
        by_topic.lemma_seq();
        assert forall|t: Seq<char>| #[trigger] by_topic.model().dom().contains(t) implies listable::<
            i32,
            CommitOffsetModel,
        >(by_topic.model()[t]) by {
            let k = lemma_ascending_position::<String, Map<i32, CommitOffsetModel>>(
                by_topic.seq(),
                t,
            );
            let cells = by_topic.lemma_value(k);
            cells.lemma_seq();
        }
    }
    lemma_all_offsets(rows);
    let list = staged_offsets(detail.model().offsets);
    let offsets = detail.model().offsets;
    assert forall|group: Seq<char>, topic: Seq<char>, partition: i32, commit: CommitOffsetModel|
        #[trigger]
        list.contains(((group, (topic, partition)), commit)) <==> staged_at(
            offsets,
            group,
            topic,
            partition,
        ) == Some(commit) by {
        let item = ((group, (topic, partition)), commit);
        if list.contains(item) {
            let i = choose|i: int| 0 <= i < list.len() && list[i] == item;
            let k = choose|k: int|
                0 <= k < rows.len() && (#[trigger] rows[k]).0 == group
                    && rows[k].1.dom().contains(topic) && rows[k].1[topic].dom().contains(partition)
                    && rows[k].1[topic][partition] == commit;
            lemma_ascending_at::<String, Map<Seq<char>, Map<i32, CommitOffsetModel>>>(rows, k);
        }
        if staged_at(offsets, group, topic, partition) == Some(commit) {
            let k = lemma_ascending_position::<
                String,
                Map<Seq<char>, Map<i32, CommitOffsetModel>>,
            >(rows, group);
            assert(rows[k].1[topic].dom().contains(partition));
        }
    }
}

/// Whether effects are those of an incarnation that has ended.
pub open spec fn effects_for(effects: Effects, transaction_id: Seq<char>, epoch: i16) -> bool {
    effects.transaction == transaction_id && effects.producer_epoch == epoch
}

/// Whether effects say what an incarnation's end leaves to be done: they name
/// it and its producer, say whether it aborts, list what it produced and, where
/// it commits, what it staged.
pub open spec fn tell_of(
    effects: Effects,
    coord: CoordModel,
    committed: bool,
) -> bool {
    &&& coord.transactions.dom().contains(effects.transaction)
    &&& coord.transactions[effects.transaction].producer == effects.producer_id
    &&& txn_at(coord, effects.transaction, effects.producer_epoch) matches Some(detail)
    &&& effects.aborting == (detail.state == Some(TxnState::PrepareAbort))
    &&& effects.ranges == produced_ranges(detail.produces)
    &&& committed ==> effects.offsets == staged_offsets(detail.offsets)
    &&& !committed ==> effects.offsets.len() == 0
}

proof fn lemma_resolved_effects(coord: CoordModel, txns: Seq<TxnRefModel>)
    requires
        owned(coord, txns),
    ensures
        ({
            let effects = resolved(coord, txns).1;
            &&& forall|i: int|
                0 <= i < effects.len() ==> exists|k: int|
                    0 <= k < txns.len() && effects_for(
                        #[trigger] effects[i],
                        (#[trigger] txns[k]).transaction,
                        txns[k].producer_epoch,
                    ) && tell_of(effects[i], coord, txns[k].state == TxnState::PrepareCommit)
            &&& forall|k: int|
                0 <= k < txns.len() && (txn_at(
                    coord,
                    (#[trigger] txns[k]).transaction,
                    txns[k].producer_epoch,
                ) matches Some(detail) && outcome(detail.state) is Some) ==> exists|i: int|
                    0 <= i < effects.len() && effects_for(
                        #[trigger] effects[i],
                        txns[k].transaction,
                        txns[k].producer_epoch,
                    )
            &&& forall|i: int, j: int|
                0 <= i < j < effects.len() ==> !effects_for(
                    #[trigger] effects[i],
                    (#[trigger] effects[j]).transaction,
                    effects[j].producer_epoch,
                )
        }),
    decreases txns.len(),
{
    if txns.len() > 0 {
        let init = txns.drop_last();
        let n = txns.len() - 1;
        let last = txns[n];
        assert forall|i: int| 0 <= i < n implies #[trigger] init[i] == txns[i] by {}
        assert(owned(coord, init));
        lemma_resolved_effects(coord, init);
        let (before, earlier) = resolved(coord, init);
        let effects = resolved(coord, txns).1;
        lemma_resolved_at(coord, init, last.transaction, last.producer_epoch);
        let now = txn_at(before, last.transaction, last.producer_epoch);
        assert forall|i: int| 0 <= i < effects.len() implies exists|k: int|
            0 <= k < txns.len() && effects_for(
                #[trigger] effects[i],
                (#[trigger] txns[k]).transaction,
                txns[k].producer_epoch,
            ) && tell_of(effects[i], coord, txns[k].state == TxnState::PrepareCommit) by {
            if i < earlier.len() {
                assert(effects[i] == earlier[i]);
                let k = choose|k: int|
                    0 <= k < init.len() && effects_for(
                        earlier[i],
                        (#[trigger] init[k]).transaction,
                        init[k].producer_epoch,
                    ) && tell_of(earlier[i], coord, init[k].state == TxnState::PrepareCommit);
                assert(txns[k] == init[k]);
            } else {
                assert(effects_for(effects[i], txns[n].transaction, txns[n].producer_epoch));
                assert(coord.transactions[txns[n].transaction].producer == txns[n].producer_id);
                assert(tell_of(effects[i], coord, txns[n].state == TxnState::PrepareCommit));
            }
        }
        assert forall|k: int| 0 <= k < txns.len() && (txn_at(
            coord,
            (#[trigger] txns[k]).transaction,
            txns[k].producer_epoch,
        ) matches Some(detail) && outcome(detail.state) is Some) implies exists|i: int|
            0 <= i < effects.len() && effects_for(
                #[trigger] effects[i],
                txns[k].transaction,
                txns[k].producer_epoch,
            ) by {
            if k < n {
                assert(init[k] == txns[k]);
                let i = choose|i: int|
                    0 <= i < earlier.len() && effects_for(
                        #[trigger] earlier[i],
                        init[k].transaction,
                        init[k].producer_epoch,
                    );
                assert(effects[i] == earlier[i]);
            } else if listed(init, last.transaction, last.producer_epoch) {
                let m = choose|m: int|
                    0 <= m < init.len() && (#[trigger] init[m]).transaction == last.transaction
                        && init[m].producer_epoch == last.producer_epoch;
                let i = choose|i: int|
                    0 <= i < earlier.len() && effects_for(
                        #[trigger] earlier[i],
                        init[m].transaction,
                        init[m].producer_epoch,
                    );
                assert(effects[i] == earlier[i]);
            } else {
                assert(effects_for(
                    effects[effects.len() - 1],
                    last.transaction,
                    last.producer_epoch,
                ));
            }
        }
        assert forall|i: int, j: int| 0 <= i < j < effects.len() implies !effects_for(
            #[trigger] effects[i],
            (#[trigger] effects[j]).transaction,
            effects[j].producer_epoch,
        ) by {
            assert(effects[i] == earlier[i]);
            if j < earlier.len() {
                assert(effects[j] == earlier[j]);
            } else {
                let k = choose|k: int|
                    0 <= k < init.len() && effects_for(
                        earlier[i],
                        (#[trigger] init[k]).transaction,
                        init[k].producer_epoch,
                    );
                if effects_for(effects[i], last.transaction, last.producer_epoch) {
                    assert(listed(init, last.transaction, last.producer_epoch));
                }
            }
        }
    }
}

/// Every incarnation that a resolution ends leaves its effects to be done, each
/// once, and no other does. The asked-for one applies what it staged where a
/// commit was asked for; another one where it was prepared to commit.
pub proof fn law_every_end_has_its_effects(
    coord: &CoordState,
    transaction_id: Seq<char>,
    producer_id: i64,
    producer_epoch: i16,
    committed: bool,
)
    requires
        coord.wf(),
        txn_refusal(coord.model(), transaction_id, producer_id, producer_epoch) is None,
    ensures
        ({
            let before = coord.model();
            let (after, effects) = resolution(
                before,
                transaction_id,
                producer_id,
                producer_epoch,
                committed,
            );
            &&& forall|i: int|
                0 <= i < effects.len() ==> tell_of(
                    #[trigger] effects[i],
                    before,
                    if effects_for(effects[i], transaction_id, producer_epoch) {
                        committed
                    } else {
                        !effects[i].aborting
                    },
                )
            &&& forall|id: Seq<char>, epoch: i16| #[trigger]
                txn_at(after, id, epoch) != txn_at(before, id, epoch) ==> exists|i: int|
                    0 <= i < effects.len() && effects_for(#[trigger] effects[i], id, epoch)
            &&& forall|i: int|
                0 <= i < effects.len() ==> txn_at(
                    after,
                    (#[trigger] effects[i]).transaction,
                    effects[i].producer_epoch,
                ).unwrap().state == Some(
                    if effects[i].aborting {
                        TxnState::Aborted
                    } else {
                        TxnState::Committed
                    },
                )
            &&& forall|i: int, j: int|
                0 <= i < j < effects.len() ==> !effects_for(
                    #[trigger] effects[i],
                    (#[trigger] effects[j]).transaction,
                    effects[j].producer_epoch,
                )
        }),
{
    let before = coord.model();
    let txns = ending(before, transaction_id, producer_id, producer_epoch, committed);
    let (after, effects) = resolution(
        before,
        transaction_id,
        producer_id,
        producer_epoch,
        committed,
    );
    let refs = unended_txns(before);
    let others = ending_too(before, transaction_id, producer_epoch);
    lemma_unended_txns(coord);
    lemma_filtered(
        refs,
        |txn: TxnRefModel| ends_too(before, transaction_id, producer_epoch, txn),
    );
    assert forall|k: int| 0 <= k < txns.len() implies (k < others.len() ==> names(
        before,
        #[trigger] txns[k],
    ) && ends_too(before, transaction_id, producer_epoch, txns[k])) && (k >= others.len() ==> (
        txns[k].transaction,
        txns[k].producer_epoch,
    ) == (transaction_id, producer_epoch) && txns[k].producer_id == producer_id
        && txns[k].state == prepared_state(committed)) by {
        if k < others.len() {
            assert(txns[k] == others[k]);
            assert(others.contains(others[k]));
            let m = choose|m: int| 0 <= m < refs.len() && refs[m] == others[k];
        }
    }
    assert(owned(before, txns)) by {
        assert forall|k: int| 0 <= k < txns.len() implies before.transactions.dom().contains(
            (#[trigger] txns[k]).transaction,
        ) && before.transactions[txns[k].transaction].producer == txns[k].producer_id by {
            if k < others.len() {
                assert(names(before, txns[k]));
            }
        }
    }
    lemma_resolved_effects(before, txns);
    assert forall|i: int| 0 <= i < effects.len() implies tell_of(
        #[trigger] effects[i],
        before,
        if effects_for(effects[i], transaction_id, producer_epoch) {
            committed
        } else {
            !effects[i].aborting
        },
    ) by {
        let k = choose|k: int|
            0 <= k < txns.len() && effects_for(
                effects[i],
                (#[trigger] txns[k]).transaction,
                txns[k].producer_epoch,
            ) && tell_of(effects[i], before, txns[k].state == TxnState::PrepareCommit);
        if k < others.len() {
            assert(names(before, txns[k]));
        }
    }
    assert forall|id: Seq<char>, epoch: i16| #[trigger] txn_at(after, id, epoch) != txn_at(
        before,
        id,
        epoch,
    ) implies exists|i: int|
        0 <= i < effects.len() && effects_for(#[trigger] effects[i], id, epoch) by {
        lemma_resolved_at(before, txns, id, epoch);
        let k = choose|k: int|
            0 <= k < txns.len() && (#[trigger] txns[k]).transaction == id
                && txns[k].producer_epoch == epoch;
        assert(txn_at(before, txns[k].transaction, txns[k].producer_epoch) is Some);
    }
    assert forall|i: int| 0 <= i < effects.len() implies txn_at(
        after,
        (#[trigger] effects[i]).transaction,
        effects[i].producer_epoch,
    ).unwrap().state == Some(
        if effects[i].aborting {
            TxnState::Aborted
        } else {
            TxnState::Committed
        },
    ) by {
        lemma_effects_end(before, txns, i);
    }
}

/// What has effects has ended, as they say.
proof fn lemma_effects_end(coord: CoordModel, txns: Seq<TxnRefModel>, i: int)
    requires
        0 <= i < resolved(coord, txns).1.len(),
    ensures
        ({
            let (after, effects) = resolved(coord, txns);
            &&& txn_at(
                after,
                effects[i].transaction,
                effects[i].producer_epoch,
            ) matches Some(detail)
            &&& detail.state == Some(
                if effects[i].aborting {
                    TxnState::Aborted
                } else {
                    TxnState::Committed
                },
            )
        }),
    decreases txns.len(),
{
    if txns.len() > 0 {
        let init = txns.drop_last();
        if i < resolved(coord, init).1.len() {
            lemma_effects_end(coord, init, i);
        }
    }
}

/// A commit applies what the transaction staged: once its group commits are
/// made, the offset of every partition of a known topic that it staged one for
/// is the staged one.
pub proof fn law_commit_applies_staged_offsets(
    coord: &CoordState,
    transaction_id: Seq<char>,
    producer_id: i64,
    producer_epoch: i16,
    known: CoordModel,
    committed_before: GroupOffsetsModel,
    group: Seq<char>,
    topic: Seq<char>,
    partition: i32,
)
    requires
        coord.wf(),
        txn_refusal(coord.model(), transaction_id, producer_id, producer_epoch) is None,
        !held(coord.model(), transaction_id, producer_epoch),
        ({
            let detail = txn_at(coord.model(), transaction_id, producer_epoch).unwrap();
            &&& detail.state is None || detail.state == Some(TxnState::PrepareCommit)
            &&& staged_at(detail.offsets, group, topic, partition) is Some
        }),
        known.topics.dom().contains(topic),
    ensures
        ({
            let detail = txn_at(coord.model(), transaction_id, producer_epoch).unwrap();
            let effects = resolution(
                coord.model(),
                transaction_id,
                producer_id,
                producer_epoch,
                true,
            ).1;
            let commits = group_commits(effects);
            let after = with_commits(committed_before, group, accepted(known, commits[group]));
            &&& commits.dom().contains(group)
            &&& after.dom().contains((group, (topic, partition)))
            &&& after[(group, (topic, partition))].offset == staged_at(
                detail.offsets,
                group,
                topic,
                partition,
            ).unwrap().committed_offset
        }),
{
    let model = coord.model();
    let detail = txn_at(model, transaction_id, producer_epoch).unwrap();
    let others = ending_too(model, transaction_id, producer_epoch);
    let all = ending(model, transaction_id, producer_id, producer_epoch, true);
    let effects = resolved(model, all).1;
    assert(all.drop_last() =~= others);
    lemma_filtered(
        unended_txns(model),
        |txn: TxnRefModel| ends_too(model, transaction_id, producer_epoch, txn),
    );
    assert(!listed(others, transaction_id, producer_epoch));
    lemma_resolved_at(model, others, transaction_id, producer_epoch);
    assert(effects.last().offsets == staged_offsets(detail.offsets));
    coord.transactions.lemma_seq();
    let at = lemma_ascending_position::<String, TxnModel>(
        coord.transactions.seq(),
        transaction_id,
    );
    let txn = coord.transactions.lemma_value(at);
    txn.epochs.lemma_seq();
    let epoch_at = lemma_ascending_position::<i16, TxnDetailModel>(
        txn.epochs.seq(),
        producer_epoch,
    );
    let value = txn.epochs.lemma_value(epoch_at);
    law_staged_offsets(&value);
    let list = staged_offsets(detail.offsets);
    let commit = staged_at(detail.offsets, group, topic, partition).unwrap();
    let item = ((group, (topic, partition)), commit);
    assert(list.contains(item));
    let j = choose|j: int| 0 <= j < list.len() && list[j] == item;
    assert forall|k: int| j < k < list.len() implies (#[trigger] list[k]).0 != list[j].0 by {
        assert(list[j].0 != list[k].0);
    }
    let init = effects.drop_last();
    let i = lemma_last_commit(group_commits(init), list, j);
    assert(group_commits(effects) == grouped(group_commits(init), list));
    law_last_commit_counts(known, committed_before, group, group_commits(effects)[group], i);
}

proof fn lemma_expired_epochs(
    id: Seq<char>,
    producer: i64,
    epochs: Seq<(i16, TxnDetailModel)>,
    now: SystemTime,
)
    requires
        ascending::<i16, TxnDetailModel>(epochs),
    ensures
        ({
            let list = expired_epochs(id, producer, epochs, now);
            &&& list.no_duplicates()
            &&& forall|i: int|
                0 <= i < list.len() ==> (#[trigger] list[i]).0 == id && list[i].1 == producer
                    && exists|k: int|
                    0 <= k < epochs.len() && (#[trigger] epochs[k]).0 == list[i].2 && overdue(
                        epochs[k].1,
                        now,
                    )
            &&& forall|k: int|
                0 <= k < epochs.len() && overdue((#[trigger] epochs[k]).1, now) ==> list.contains(
                    (id, producer, epochs[k].0),
                )
        }),
    decreases epochs.len(),
{
    if epochs.len() > 0 {
        let init = epochs.drop_last();
        let n = epochs.len() - 1;
        assert forall|i: int| 0 <= i < n implies #[trigger] init[i] == epochs[i] by {}
        assert(ascending::<i16, TxnDetailModel>(init)) by {
            assert forall|i: int, j: int| 0 <= i < j < init.len() implies i16::precedes(
                (#[trigger] init[i]).0,
                (#[trigger] init[j]).0,
            ) by {
                assert(i16::precedes(epochs[i].0, epochs[j].0));
            }
        }
        lemma_expired_epochs(id, producer, init, now);
        let before = expired_epochs(id, producer, init, now);
        let list = expired_epochs(id, producer, epochs, now);
        assert forall|i: int| 0 <= i < list.len() implies (#[trigger] list[i]).0 == id && list[i].1
            == producer && exists|k: int|
            0 <= k < epochs.len() && (#[trigger] epochs[k]).0 == list[i].2 && overdue(
                epochs[k].1,
                now,
            ) by {
            if i < before.len() {
                assert(list[i] == before[i]);
                let k = choose|k: int|
                    0 <= k < init.len() && (#[trigger] init[k]).0 == before[i].2 && overdue(
                        init[k].1,
                        now,
                    );
                assert(epochs[k] == init[k]);
            } else {
                assert(epochs[n].0 == list[i].2);
            }
        }
        assert forall|k: int| 0 <= k < epochs.len() && overdue(
            (#[trigger] epochs[k]).1,
            now,
        ) implies list.contains((id, producer, epochs[k].0)) by {
            if k < n {
                assert(init[k] == epochs[k]);
                assert(before.contains((id, producer, init[k].0)));
                let i = choose|i: int| 0 <= i < before.len() && before[i] == (id, producer, init[k].0);
                assert(list[i] == before[i]);
            } else {
                assert(list[list.len() - 1] == (id, producer, epochs[n].0));
            }
        }
        assert forall|i: int, j: int| 0 <= i < j < list.len() implies list[i] != list[j] by {
            assert(list[i] == before[i]);
            if j < before.len() {
                assert(list[j] == before[j]);
            } else {
                let k = choose|k: int| 0 <= k < init.len() && (#[trigger] init[k]).0 == before[i].2;
                lemma_ascending_distinct::<i16, TxnDetailModel>(epochs, k, n);
            }
        }
    }
}

/// Whether an incarnation has begun, has not ended, and has outlived its
/// timeout.
pub open spec fn overdue(detail: TxnDetailModel, now: SystemTime) -> bool {
    &&& detail.state != Some(TxnState::Committed)
    &&& detail.state != Some(TxnState::Aborted)
    &&& detail.started_at matches Some(start)
    &&& now.nanos - start.nanos > 0
    &&& now.nanos - start.nanos > detail.transaction_timeout_ms * 1_000_000
}

proof fn lemma_expired_txns(coord: &CoordState, n: int, now: SystemTime)
    requires
        coord.wf(),
        0 <= n <= coord.transactions.seq().len(),
    ensures
        ({
            let rows = coord.transactions.seq();
            let list = expired_txns(rows.take(n), now);
            &&& list.no_duplicates()
            &&& forall|i: int|
                0 <= i < list.len() ==> exists|k: int|
                    0 <= k < n && (#[trigger] rows[k]).0 == (#[trigger] list[i]).0
                        && rows[k].1.producer == list[i].1 && rows[k].1.epochs.dom().contains(
                        list[i].2,
                    ) && overdue(rows[k].1.epochs[list[i].2], now)
            &&& forall|k: int, epoch: i16|
                0 <= k < n && #[trigger] rows[k].1.epochs.dom().contains(epoch) && overdue(
                    rows[k].1.epochs[epoch],
                    now,
                ) ==> list.contains((rows[k].0, rows[k].1.producer, epoch))
        }),
    decreases n,
{
    let rows = coord.transactions.seq();
    if n > 0 {
        coord.transactions.lemma_seq();
        lemma_expired_txns(coord, n - 1, now);
        assert(rows.take(n).drop_last() =~= rows.take(n - 1));
        let (id, txn) = rows[n - 1];
        let value = coord.transactions.lemma_value(n - 1);
        value.epochs.lemma_seq();
        let epochs = value.epochs.seq();
        lemma_expired_epochs(id, txn.producer, epochs, now);
        let head = expired_txns(rows.take(n - 1), now);
        let tail = expired_epochs(id, txn.producer, epochs, now);
        let list = expired_txns(rows.take(n), now);
        assert(list == head + tail);
        assert forall|i: int| 0 <= i < list.len() implies exists|k: int|
            0 <= k < n && (#[trigger] rows[k]).0 == (#[trigger] list[i]).0 && rows[k].1.producer
                == list[i].1 && rows[k].1.epochs.dom().contains(list[i].2) && overdue(
                rows[k].1.epochs[list[i].2],
                now,
            ) by {
            if i < head.len() {
                assert(list[i] == head[i]);
                let k = choose|k: int|
                    0 <= k < n - 1 && (#[trigger] rows[k]).0 == head[i].0 && rows[k].1.producer
                        == head[i].1 && rows[k].1.epochs.dom().contains(head[i].2) && overdue(
                        rows[k].1.epochs[head[i].2],
                        now,
                    );
            } else {
                assert(list[i] == tail[i - head.len()]);
                let m = choose|m: int|
                    0 <= m < epochs.len() && (#[trigger] epochs[m]).0 == list[i].2 && overdue(
                        epochs[m].1,
                        now,
                    );
                lemma_ascending_at::<i16, TxnDetailModel>(epochs, m);
                assert(rows[n - 1].0 == list[i].0);
            }
        }
        assert forall|k: int, epoch: i16|
            0 <= k < n && #[trigger] rows[k].1.epochs.dom().contains(epoch) && overdue(
                rows[k].1.epochs[epoch],
                now,
            ) implies list.contains((rows[k].0, rows[k].1.producer, epoch)) by {
            let item = (rows[k].0, rows[k].1.producer, epoch);
            if k < n - 1 {
                assert(head.contains(item));
                let i = choose|i: int| 0 <= i < head.len() && head[i] == item;
                assert(list[i] == item);
            } else {
                let m = lemma_ascending_position::<i16, TxnDetailModel>(epochs, epoch);
                assert(tail.contains((id, txn.producer, epochs[m].0)));
                let i = choose|i: int| 0 <= i < tail.len() && tail[i] == item;
                assert(list[head.len() + i] == item);
            }
        }
        assert forall|i: int, j: int| 0 <= i < j < list.len() implies list[i] != list[j] by {
            if j < head.len() {
                assert(list[i] == head[i] && list[j] == head[j]);
            } else if i >= head.len() {
                assert(list[i] == tail[i - head.len()] && list[j] == tail[j - head.len()]);
            } else {
                assert(list[i] == head[i] && list[j] == tail[j - head.len()]);
                let k = choose|k: int| 0 <= k < n - 1 && (#[trigger] rows[k]).0 == head[i].0;
                lemma_ascending_distinct::<String, TxnModel>(rows, k, n - 1);
            }
        }
    }
}

/// The transactions to be aborted for their timeouts: of every transaction and
/// every epoch, the incarnation is listed, with its producer and once, if and
/// only if it has begun, has not ended, and more than its timeout has gone by
/// since it began.
pub proof fn law_all_overdue_are_swept(coord: &CoordState, now: SystemTime)
    requires
        coord.wf(),
    ensures
        ({
            let model = coord.model();
            let list = expired(model, now);
            &&& list.no_duplicates()
            &&& forall|id: Seq<char>, producer: i64, epoch: i16| #[trigger]
                list.contains((id, producer, epoch)) <==> {
                    &&& model.transactions.dom().contains(id)
                    &&& model.transactions[id].producer == producer
                    &&& txn_at(model, id, epoch) matches Some(detail)
                    &&& overdue(detail, now)
                }
        }),
{
    let model = coord.model();
    let rows = coord.transactions.seq();
    coord.transactions.lemma_seq();
    lemma_expired_txns(coord, rows.len() as int, now);
    assert(rows.take(rows.len() as int) =~= rows);
    let list = expired(model, now);
    assert forall|id: Seq<char>, producer: i64, epoch: i16| #[trigger]
        list.contains((id, producer, epoch)) <==> {
            &&& model.transactions.dom().contains(id)
            &&& model.transactions[id].producer == producer
            &&& txn_at(model, id, epoch) matches Some(detail)
            &&& overdue(detail, now)
        } by {
        if list.contains((id, producer, epoch)) {
            let i = choose|i: int| 0 <= i < list.len() && list[i] == (id, producer, epoch);
            let k = choose|k: int|
                0 <= k < rows.len() && (#[trigger] rows[k]).0 == list[i].0 && rows[k].1.producer
                    == list[i].1 && rows[k].1.epochs.dom().contains(list[i].2) && overdue(
                    rows[k].1.epochs[list[i].2],
                    now,
                );
            lemma_ascending_at::<String, TxnModel>(rows, k);
        }
        if model.transactions.dom().contains(id) && model.transactions[id].producer == producer && (
        txn_at(model, id, epoch) matches Some(detail) && overdue(detail, now)) {
            let k = lemma_ascending_position::<String, TxnModel>(rows, id);
            assert(rows[k].1.epochs.dom().contains(epoch));
        }
    }
}

} // verus!
