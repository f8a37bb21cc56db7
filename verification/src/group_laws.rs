//! What holds of consumer groups when they are listed, described, updated and
//! deleted, and when what was logged of them is replayed.

use crate::error::{ErrorCode, Fault};
use crate::groups::{
    committed, deletion, described_groups, group_known, update_refusal, UpdateFault,
};
use crate::replay::{
    applied, replayed, without_topic, GroupOffsetsModel, GroupsModel, ImageModel,
};
use crate::types::Version;
use crate::wal::Record;
use vstd::prelude::*;

verus! {

/// A group is known if and only if it has a state or has committed an offset.
pub proof fn law_known_group(
    groups: GroupsModel,
    group_offsets: GroupOffsetsModel,
    group: Seq<char>,
)
    ensures
        groups.dom().contains(group) ==> group_known(groups, group_offsets, group),
        forall|topition: (Seq<char>, i32)| #[trigger]
            group_offsets.dom().contains((group, topition)) ==> group_known(
                groups,
                group_offsets,
                group,
            ),
        group_known(groups, group_offsets, group) ==> groups.dom().contains(group) || exists|
            topition: (Seq<char>, i32),
        | #[trigger]
            group_offsets.dom().contains((group, topition)),
{
    assert forall|topition: (Seq<char>, i32)| #[trigger]
        group_offsets.dom().contains((group, topition)) implies group_known(
        groups,
        group_offsets,
        group,
    ) by {
        let k = (group, topition);
        assert(group_offsets.dom().contains(k));
    }
    if group_known(groups, group_offsets, group) && !groups.dom().contains(group) {
        let k = choose|k: (Seq<char>, (Seq<char>, i32))| #[trigger]
            group_offsets.dom().contains(k) && k.0 == group;
        assert(group_offsets.dom().contains((group, k.1)));
    }
}

/// All of a group's offsets are those that it committed, and no other group's.
pub proof fn law_all_committed_offsets(
    group_offsets: GroupOffsetsModel,
    group: Seq<char>,
    topition: (Seq<char>, i32),
)
    ensures
        committed(group_offsets, group).dom().contains(topition) <==> group_offsets.dom().contains(
            (group, topition),
        ),
        group_offsets.dom().contains((group, topition)) ==> committed(
            group_offsets,
            group,
        )[topition] == group_offsets[(group, topition)].offset,
{
}

/// Every group that is asked for is described, in its order: by its state, or
/// by an empty one where it has none.
pub proof fn law_groups_are_described(groups: GroupsModel, ids: Seq<Seq<char>>)
    ensures
        described_groups(groups, ids).len() == ids.len(),
        forall|i: int|
            0 <= i < ids.len() ==> {
                let (id, state) = #[trigger] described_groups(groups, ids)[i];
                &&& id == ids[i]
                &&& groups.dom().contains(id) ==> state == groups[id].0
                &&& !groups.dom().contains(id) ==> state.len() == 0
            },
{
}

/// Whether a group is named before a place of a list.
pub open spec fn named_before(ids: Seq<Seq<char>>, i: int) -> bool {
    exists|j: int| 0 <= j < i && #[trigger] ids[j] == ids[i]
}

/// Deleting groups: those that are named are gone, with all their offsets, and
/// every other group and offset stays as it was. Each is answered in its order:
/// without an error where it was known and not named before, and else that
/// there is none; what was answered without an error is what is logged.
pub proof fn law_named_groups_are_deleted(
    groups: GroupsModel,
    group_offsets: GroupOffsetsModel,
    ids: Seq<Seq<char>>,
)
    ensures
        ({
            let after = deletion(groups, group_offsets, ids);
            &&& forall|group: Seq<char>| #[trigger]
                after.groups.dom().contains(group) <==> groups.dom().contains(group)
                    && !ids.contains(group)
            &&& forall|group: Seq<char>| #[trigger]
                after.groups.dom().contains(group) ==> after.groups[group] == groups[group]
            &&& forall|k: (Seq<char>, (Seq<char>, i32))| #[trigger]
                after.group_offsets.dom().contains(k) <==> group_offsets.dom().contains(k)
                    && !ids.contains(k.0)
            &&& forall|k: (Seq<char>, (Seq<char>, i32))| #[trigger]
                after.group_offsets.dom().contains(k) ==> after.group_offsets[k]
                    == group_offsets[k]
            &&& after.results.len() == ids.len()
            &&& forall|i: int|
                0 <= i < ids.len() ==> {
                    let (group, code) = #[trigger] after.results[i];
                    let found = group_known(groups, group_offsets, group) && !named_before(ids, i);
                    &&& group == ids[i]
                    &&& found ==> code == ErrorCode::NoError
                    &&& !found ==> code == ErrorCode::GroupIdNotFound
                }
            &&& after.records == after.results.filter(
                |result: (Seq<char>, ErrorCode)| result.1 == ErrorCode::NoError,
            ).map_values(|result: (Seq<char>, ErrorCode)| Record::GroupDelete { group: result.0 })
        }),
    decreases ids.len(),
{
    reveal(Seq::filter);
    let after = deletion(groups, group_offsets, ids);
    let kept = |result: (Seq<char>, ErrorCode)| result.1 == ErrorCode::NoError;
    let logged = |result: (Seq<char>, ErrorCode)| Record::GroupDelete { group: result.0 };
    if ids.len() == 0 {
        assert(after.records =~= after.results.filter(kept).map_values(logged));
    } else {
        let init = ids.drop_last();
        let n = ids.len() - 1;
        let last = ids[n];
        law_named_groups_are_deleted(groups, group_offsets, init);
        let before = deletion(groups, group_offsets, init);
        assert forall|i: int| 0 <= i < n implies #[trigger] ids[i] == init[i] by {}
        assert forall|group: Seq<char>| ids.contains(group) <==> init.contains(group) || group
            == last by {
            if init.contains(group) {
                let i = choose|i: int| 0 <= i < init.len() && init[i] == group;
                assert(ids[i] == group);
            }
            if ids.contains(group) && group != last {
                let i = choose|i: int| 0 <= i < ids.len() && ids[i] == group;
                assert(init[i] == group);
            }
            assert(ids[n] == last);
        }
        law_known_group(groups, group_offsets, last);
        law_known_group(before.groups, before.group_offsets, last);
        let known = group_known(before.groups, before.group_offsets, last);
        assert(known <==> group_known(groups, group_offsets, last) && !init.contains(last)) by {
            if known && !before.groups.dom().contains(last) {
                let topition = choose|topition: (Seq<char>, i32)| #[trigger]
                    before.group_offsets.dom().contains((last, topition));
                assert(group_offsets.dom().contains((last, topition)));
            }
            if group_known(groups, group_offsets, last) && !init.contains(last)
                && !groups.dom().contains(last) {
                let topition = choose|topition: (Seq<char>, i32)| #[trigger]
                    group_offsets.dom().contains((last, topition));
                assert(before.group_offsets.dom().contains((last, topition)));
            }
        }
        assert(named_before(ids, n) <==> init.contains(last)) by {
            if init.contains(last) {
                let j = choose|j: int| 0 <= j < init.len() && init[j] == last;
                assert(ids[j] == ids[n]);
            }
            if named_before(ids, n) {
                let j = choose|j: int| 0 <= j < n && #[trigger] ids[j] == ids[n];
                assert(init[j] == last);
            }
        }
        assert forall|i: int| 0 <= i < n implies named_before(ids, i) == #[trigger] named_before(
            init,
            i,
        ) by {
            if named_before(init, i) {
                let j = choose|j: int| 0 <= j < i && #[trigger] init[j] == init[i];
                assert(ids[j] == ids[i]);
            }
            if named_before(ids, i) {
                let j = choose|j: int| 0 <= j < i && #[trigger] ids[j] == ids[i];
                assert(init[j] == init[i]);
            }
        }
        assert forall|i: int| 0 <= i < ids.len() implies {
            let (group, code) = #[trigger] after.results[i];
            let found = group_known(groups, group_offsets, group) && !named_before(ids, i);
            &&& group == ids[i]
            &&& found ==> code == ErrorCode::NoError
            &&& !found ==> code == ErrorCode::GroupIdNotFound
        } by {
            if i < n {
                assert(after.results[i] == before.results[i]);
                assert(named_before(ids, i) == named_before(init, i));
            }
        }
        assert(after.results.drop_last() =~= before.results);
        if known {
            assert(after.results.filter(kept).map_values(logged) =~= before.results.filter(
                kept,
            ).map_values(logged).push(Record::GroupDelete { group: last }));
        }
    }
}

/// An update of a group's state is taken if and only if it was made for the
/// version that the group is at, or for none where the group has no state. One
/// that was made for another version learns the state and its version; one made
/// for a version of a group without a state is told that there is none.
pub proof fn law_update_needs_the_version(
    groups: GroupsModel,
    group: Seq<char>,
    version: Option<Version>,
)
    ensures
        ({
            let refusal = update_refusal(groups, group, version);
            let stored = groups.dom().contains(group);
            &&& refusal is None <==> (if stored {
                version == Some(groups[group].1)
            } else {
                version is None
            })
            &&& stored && refusal is Some ==> refusal == Some(
                UpdateFault::Outdated { current: groups[group].0, version: groups[group].1 },
            )
            &&& !stored && refusal is Some ==> refusal == Some(
                UpdateFault::Error(Fault::Message("group not found: "@ + group)),
            )
        }),
{
}

/// What is logged of an update and of a deletion replays to what they did.
pub proof fn law_group_records_replay(
    image: ImageModel,
    group: Seq<char>,
    detail: Seq<u8>,
    version: Version,
    ids: Seq<Seq<char>>,
)
    ensures
        applied(image, Record::GroupUpdate { group, detail, version }) == (ImageModel {
            groups: image.groups.insert(group, (detail, version)),
            ..image
        }),
        ({
            let after = deletion(image.groups, image.group_offsets, ids);
            replayed(image, after.records) == (ImageModel {
                groups: after.groups,
                group_offsets: after.group_offsets,
                ..image
            })
        }),
    decreases ids.len(),
{
    let after = deletion(image.groups, image.group_offsets, ids);
    if ids.len() > 0 {
        let init = ids.drop_last();
        let last = ids.last();
        law_group_records_replay(image, group, detail, version, init);
        let before = deletion(image.groups, image.group_offsets, init);
        if group_known(before.groups, before.group_offsets, last) {
            assert(after.records.drop_last() =~= before.records);
        } else {
            law_known_group(before.groups, before.group_offsets, last);
            assert(after.groups =~= before.groups);
            assert forall|k: (Seq<char>, (Seq<char>, i32))| #[trigger]
                before.group_offsets.dom().contains(k) implies k.0 != last by {
                if k.0 == last {
                    assert(before.group_offsets.dom().contains((last, k.1)));
                }
            }
            assert(after.group_offsets =~= before.group_offsets);
        }
    }
}

/// A deleted topic takes its committed offsets with it, in every group, and no
/// other topic's.
pub proof fn law_deleted_topic_takes_its_offsets(
    group_offsets: GroupOffsetsModel,
    name: Seq<char>,
    k: (Seq<char>, (Seq<char>, i32)),
)
    ensures
        without_topic(group_offsets, name).dom().contains(k) <==> group_offsets.dom().contains(k)
            && k.1.0 != name,
        without_topic(group_offsets, name).dom().contains(k) ==> without_topic(
            group_offsets,
            name,
        )[k] == group_offsets[k],
{
}

} // verus!
