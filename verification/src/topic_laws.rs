//! What holds of topics when they are created, found, described, altered and
//! truncated, of users' credentials, and of what replay makes of their records.

use crate::error::ErrorCode;
use crate::model::{Key, Model};
use crate::ordmap::{lemma_ascending_at, lemma_ascending_position, ordered, to_map};
use crate::partition::{AbortedRange, EntryModel, PartModel};
use crate::replay::{applied, with_ranges, ImageModel, SkeletonModel};
use crate::settings::{altered, changed, changed_all, first_unknown, settings_of, Settings};
use crate::state::{topic_of, with_id, CoordModel, CoordState, TopicModel, TxnProduceOffset};
use crate::text::{comma_list, items, without};
use crate::topics::{
    all_sheets, asked_sheets, frame_bytes, frame_weight, local_bytes, local_weight, partitions_of, sheet, truncation,
    with_credential, with_topic, TopicSheet,
};
use crate::totals::{lemma_total_put, listable};
use crate::types::{op_of, Change, Credential, OpType, TopicId, TopicRef, TopicSpec};
use crate::wal::Record;
use vstd::prelude::*;

verus! {

/// A created topic is there under its name, as it was asked for and with the id
/// that was made up for it; every other topic and all else stays.
pub proof fn law_topic_is_created(coord: CoordModel, id: u128, topic: TopicSpec, other: Seq<char>)
    ensures
        ({
            let after = with_topic(coord, id, topic);
            &&& after.topics.dom().contains(topic.name)
            &&& after.topics[topic.name].id == id
            &&& after.topics[topic.name].topic == topic
            &&& other != topic.name ==> {
                &&& after.topics.dom().contains(other) <==> coord.topics.dom().contains(other)
                &&& coord.topics.dom().contains(other) ==> after.topics[other]
                    == coord.topics[other]
            }
            &&& after == (CoordModel { topics: after.topics, ..coord })
        }),
{
}

/// The partitions of a topic are numbered from 0 on, as many as it was created
/// with, each once and in order.
pub proof fn law_partitions_are_numbered(name: Seq<char>, num_partitions: i32)
    ensures
        ({
            let list = partitions_of(name, num_partitions);
            &&& forall|topition: (Seq<char>, i32)| #[trigger]
                list.contains(topition) <==> topition.0 == name && 0 <= topition.1 < num_partitions
            &&& forall|i: int, j: int|
                0 <= i < j < list.len() ==> (#[trigger] list[i]).1 < (#[trigger] list[j]).1
        }),
{
    let list = partitions_of(name, num_partitions);
    assert forall|topition: (Seq<char>, i32)| #[trigger] list.contains(topition) <==> topition.0
        == name && 0 <= topition.1 < num_partitions by {
        if topition.0 == name && 0 <= topition.1 < num_partitions {
            assert(list[topition.1 as int] == topition);
        }
    }
}

/// A topic is found by its name if and only if it is there under that name, and
/// by an id if and only if some topic has it: what is found has what was asked
/// for.
pub proof fn law_topic_is_found(coord: &CoordState, name: Seq<char>, id: u128)
    requires
        coord.wf(),
    ensures
        ({
            let topics = coord.model().topics;
            &&& match topic_of(coord.model(), TopicRef::Name(name)) {
                Some(topic) => topics.dom().contains(name) && topics[name] == topic,
                None => !topics.dom().contains(name),
            }
            &&& match topic_of(coord.model(), TopicRef::Id(id)) {
                Some(topic) => topic.id == id && exists|other: Seq<char>| #[trigger]
                    topics.dom().contains(other) && topics[other] == topic,
                None => forall|other: Seq<char>| #[trigger]
                    topics.dom().contains(other) ==> topics[other].id != id,
            }
        }),
{
    let rows = coord.topics.seq();
    coord.topics.lemma_seq();
    lemma_with_id(rows, id);
    match with_id(rows, id) {
        Some(topic) => {
            let i = choose|i: int| 0 <= i < rows.len() && (#[trigger] rows[i]).1 == topic;
            lemma_ascending_at::<String, TopicModel>(rows, i);
            assert(coord.model().topics.dom().contains(rows[i].0));
        },
        None => {
            assert forall|other: Seq<char>| #[trigger]
                coord.model().topics.dom().contains(other) implies coord.model().topics[other].id
                != id by {
                let i = lemma_ascending_position::<String, TopicModel>(rows, other);
            }
        },
    }
}

proof fn lemma_with_id(topics: Seq<(Seq<char>, TopicModel)>, id: u128)
    ensures
        match with_id(topics, id) {
            Some(topic) => topic.id == id && exists|i: int|
                0 <= i < topics.len() && (#[trigger] topics[i]).1 == topic,
            None => forall|i: int| 0 <= i < topics.len() ==> (#[trigger] topics[i]).1.id != id,
        },
    decreases topics.len(),
{
    if topics.len() > 0 {
        let init = topics.drop_last();
        let n = topics.len() - 1;
        assert forall|i: int| 0 <= i < n implies #[trigger] topics[i] == init[i] by {}
        lemma_with_id(init, id);
        match with_id(init, id) {
            Some(topic) => {
                let i = choose|i: int| 0 <= i < init.len() && (#[trigger] init[i]).1 == topic;
                assert(topics[i] == init[i]);
            },
            None => {
                if topics[n].1.id == id {
                    assert(topics[n].1 == topics.last().1);
                }
            },
        }
    }
}

/// Whether a sheet describes a topic: its name and id, and all its partitions by
/// number, each led by the node, which is every replica and in sync.
pub open spec fn describes(told: TopicSheet, node: i32, topic: TopicModel) -> bool {
    let replicas = topic.topic.replication_factor;
    &&& told.error_code == ErrorCode::NoError
    &&& told.name == Some(topic.topic.name)
    &&& told.topic_id == topic.id
    &&& !told.is_internal
    &&& told.partitions.len() == (if topic.topic.num_partitions < 0 {
        0int
    } else {
        topic.topic.num_partitions as int
    })
    &&& forall|i: int|
        0 <= i < told.partitions.len() ==> {
            let part = #[trigger] told.partitions[i];
            &&& part.error_code == ErrorCode::NoError
            &&& part.partition_index == i
            &&& part.leader_id == node
            &&& part.leader_epoch == 0
            &&& part.replica_nodes.len() == (if replicas < 0 {
                0int
            } else {
                replicas as int
            })
            &&& forall|k: int|
                0 <= k < part.replica_nodes.len() ==> #[trigger] part.replica_nodes[k] == node
            &&& part.isr_nodes == part.replica_nodes
            &&& part.offline_replicas.len() == 0
        }
}

/// A topic that is asked for is described as it is where it is known; else it is
/// answered that it is not, under the name or the id that was asked for and
/// without a partition. Topics that are asked for are answered in their order.
pub proof fn law_asked_topics_are_described(
    node: i32,
    coord: CoordModel,
    topics: Seq<TopicId>,
    i: int,
)
    requires
        0 <= i < topics.len(),
    ensures
        ({
            let told = asked_sheets(node, coord, topics)[i];
            &&& asked_sheets(node, coord, topics).len() == topics.len()
            &&& match topic_of(coord, topics[i]@) {
                Some(topic) => describes(told, node, topic),
                None => {
                    &&& told.error_code == ErrorCode::UnknownTopicOrPartition
                    &&& told.partitions.len() == 0
                    &&& match topics[i]@ {
                        TopicRef::Name(name) => told.name == Some(name) && told.topic_id == 0,
                        TopicRef::Id(id) => told.name is None && told.topic_id == id,
                    }
                },
            }
        }),
{
    let told = asked_sheets(node, coord, topics)[i];
    assert(told == sheet(node, coord, topics[i]@));
}

/// Where no topic is asked for all are described, each once, by ascending name.
pub proof fn law_all_topics_are_described(coord: &CoordState, node: i32)
    requires
        coord.wf(),
    ensures
        ({
            let topics = coord.model().topics;
            let rows = ordered::<String, TopicModel>(topics);
            let told = all_sheets(node, rows);
            &&& told.len() == rows.len()
            &&& forall|i: int|
                0 <= i < told.len() ==> topics.dom().contains((#[trigger] rows[i]).0) && describes(
                    told[i],
                    node,
                    topics[rows[i].0],
                )
            &&& forall|name: Seq<char>| #[trigger]
                topics.dom().contains(name) ==> exists|i: int|
                    0 <= i < told.len() && (#[trigger] rows[i]).0 == name
            &&& forall|i: int, j: int|
                0 <= i < j < rows.len() ==> String::precedes(
                    (#[trigger] rows[i]).0,
                    (#[trigger] rows[j]).0,
                )
        }),
{
    let rows = coord.topics.seq();
    coord.topics.lemma_seq();
    let topics = coord.model().topics;
    let told = all_sheets(node, rows);
    assert forall|i: int| 0 <= i < told.len() implies topics.dom().contains((#[trigger] rows[i]).0)
        && describes(told[i], node, topics[rows[i].0]) by {
        lemma_ascending_at::<String, TopicModel>(rows, i);
        assert(told[i].name == Some(rows[i].1.topic.name));
    }
    assert forall|name: Seq<char>| #[trigger] topics.dom().contains(name) implies exists|i: int|
        0 <= i < told.len() && (#[trigger] rows[i]).0 == name by {
        let i = lemma_ascending_position::<String, TopicModel>(rows, name);
        assert(rows[i].0 == name);
    }
}

/// A user's credential for a mechanism reads back as it was put in; those of
/// other users and mechanisms, and all else, stay.
pub proof fn law_credential_reads_back(
    coord: CoordModel,
    user: Seq<char>,
    mechanism: Seq<char>,
    credential: Credential,
    other: (Seq<char>, Seq<char>),
)
    ensures
        ({
            let after = with_credential(coord, user, mechanism, credential);
            &&& after.scram.dom().contains((user, mechanism))
            &&& after.scram[(user, mechanism)] == credential
            &&& other != (user, mechanism) ==> {
                &&& after.scram.dom().contains(other) <==> coord.scram.dom().contains(other)
                &&& coord.scram.dom().contains(other) ==> after.scram[other] == coord.scram[other]
            }
            &&& after == (CoordModel { scram: after.scram, ..coord })
        }),
{
}

/// What is logged of a credential replays to what was done.
pub proof fn law_credential_replays(
    image: ImageModel,
    user: Seq<char>,
    mechanism: Seq<char>,
    credential: Credential,
)
    ensures
        applied(
            image,
            Record::ScramUpsert {
                user,
                mechanism,
                salt: credential.salt,
                iterations: credential.iterations,
                stored_key: credential.stored_key,
                server_key: credential.server_key,
            },
        ) == (ImageModel {
            coord: with_credential(image.coord, user, mechanism, credential),
            ..image
        }),
        applied(image, Record::ScramDelete { user, mechanism }) == (ImageModel {
            coord: CoordModel {
                scram: image.coord.scram.remove((user, mechanism)),
                ..image.coord
            },
            ..image
        }),
{
}

/// Records are deleted up to the offset that is asked for, and up to the high
/// watermark where a negative one is.
pub proof fn law_negative_offset_truncates_all(p: PartModel, offset: i64)
    ensures
        offset >= 0 ==> truncation(p, offset) == offset,
        offset < 0 ==> truncation(p, offset) == p.durable_offset,
{
}

/// The bytes of a partition's frames are those of its batches added up: one
/// more batch adds its length, to the local ones if and only if it is local,
/// and none are none.
pub proof fn law_frame_bytes_add_up(p: PartModel, offset: i64, entry: EntryModel)
    requires
        listable::<i64, EntryModel>(p.batches),
        !p.batches.dom().contains(offset),
    ensures
        ({
            let more = PartModel { batches: p.batches.insert(offset, entry), ..p };
            let none = PartModel { batches: Map::empty(), ..p };
            &&& frame_bytes(more) == frame_bytes(p) + entry.len
            &&& local_bytes(more) == local_bytes(p) + if entry.tiered {
                0
            } else {
                entry.len as int
            }
            &&& frame_bytes(none) == 0
            &&& local_bytes(none) == 0
        }),
{
    lemma_total_put::<i64, EntryModel>(p.batches, offset, entry, frame_weight());
    lemma_total_put::<i64, EntryModel>(p.batches, offset, entry, local_weight());
    let none = Seq::<(i64, EntryModel)>::empty();
    crate::ordmap::lemma_ordered::<i64, EntryModel>(none);
    assert(to_map(none) == Map::<i64, EntryModel>::empty());
}

/// The codes of the operations: every one that stands for an operation stands
/// for another one, and no other code stands for any.
pub proof fn law_operation_codes(code: i8)
    ensures
        match op_of(code) {
            Some(OpType::Assign) => code == 0,
            Some(OpType::Delete) => code == 1,
            Some(OpType::Append) => code == 2,
            Some(OpType::Subtract) => code == 3,
            None => code < 0 || code > 3,
        },
{
}

/// The items of two lists joined by a comma are those of the one and then those
/// of the other.
pub proof fn law_joined_lists(first: Seq<char>, second: Seq<char>)
    ensures
        items(first.push(',') + second) == items(first) + items(second),
        items(first).len() > 0,
    decreases second.len(),
{
    let joined = first.push(',') + second;
    lemma_some_item(first);
    if second.len() == 0 {
        assert(joined =~= first.push(','));
        assert(first.push(',').drop_last() =~= first);
        assert(items(joined) =~= items(first) + items(second));
    } else {
        let init = second.drop_last();
        law_joined_lists(first, init);
        lemma_some_item(init);
        assert(joined.drop_last() =~= first.push(',') + init);
        let before = items(first) + items(init);
        if second.last() == ',' {
            assert(items(joined) =~= items(first) + items(second));
        } else {
            assert(before.drop_last() =~= items(first) + items(init).drop_last());
            assert(items(joined) =~= items(first) + items(second));
        }
    }
}

proof fn lemma_some_item(list: Seq<char>)
    ensures
        items(list).len() > 0,
    decreases list.len(),
{
    if list.len() > 0 {
        lemma_some_item(list.drop_last());
    }
}

/// A text without a comma is a list of itself alone.
pub proof fn law_one_item(text: Seq<char>)
    requires
        !text.contains(','),
    ensures
        items(text) == seq![text],
    decreases text.len(),
{
    if text.len() == 0 {
        assert(text =~= Seq::<char>::empty());
    } else {
        let init = text.drop_last();
        assert(!init.contains(',')) by {
            if init.contains(',') {
                let i = choose|i: int| 0 <= i < init.len() && init[i] == ',';
                assert(text[i] == ',');
            }
        }
        law_one_item(init);
        assert(text[text.len() - 1] != ',');
        assert(init.push(text.last()) =~= text);
        assert(items(text) =~= seq![text]);
    }
}

/// No item of a list holds a comma.
pub proof fn law_items_hold_no_comma(list: Seq<char>, i: int)
    requires
        0 <= i < items(list).len(),
    ensures
        !items(list)[i].contains(','),
    decreases list.len(),
{
    if list.len() > 0 {
        let init = list.drop_last();
        lemma_some_item(init);
        let before = items(init);
        if i < before.len() - 1 || (list.last() == ',' && i < before.len()) {
            law_items_hold_no_comma(init, i);
        } else if list.last() != ',' {
            law_items_hold_no_comma(init, before.len() - 1);
            let item = items(list)[i];
            assert(item == before.last().push(list.last()));
            if item.contains(',') {
                let k = choose|k: int| 0 <= k < item.len() && item[k] == ',';
                assert(before.last()[k] == ',');
            }
        }
    }
}

/// Items that hold no comma are read back from the list that joins them.
pub proof fn law_joined_items_read_back(list: Seq<Seq<char>>)
    requires
        list.len() > 0,
        forall|i: int| 0 <= i < list.len() ==> !(#[trigger] list[i]).contains(','),
    ensures
        items(comma_list(list)) == list,
    decreases list.len(),
{
    if list.len() == 1 {
        law_one_item(list[0]);
        assert(items(comma_list(list)) =~= list);
    } else {
        let init = list.drop_last();
        assert forall|i: int| 0 <= i < init.len() implies !(#[trigger] init[i]).contains(',') by {
            assert(init[i] == list[i]);
        }
        law_joined_items_read_back(init);
        assert(!list[list.len() - 1].contains(','));
        law_one_item(list.last());
        law_joined_lists(comma_list(init), list.last());
        assert(items(comma_list(list)) =~= list);
    }
}

/// The items other than one are those that a filter keeps.
proof fn lemma_without(list: Seq<Seq<char>>, item: Seq<char>)
    ensures
        without(list, item) == list.filter(|other: Seq<char>| other != item),
        forall|i: int| 0 <= i < without(list, item).len() ==> list.contains(#[trigger] without(list, item)[i]),
    decreases list.len(),
{
    reveal(Seq::filter);
    if list.len() > 0 {
        let init = list.drop_last();
        lemma_without(init, item);
        let kept = without(init, item);
        let all = without(list, item);
        assert forall|i: int| 0 <= i < all.len() implies list.contains(#[trigger] all[i]) by {
            if i < kept.len() {
                assert(all[i] == kept[i]);
                let k = choose|k: int| 0 <= k < init.len() && init[k] == kept[i];
                assert(list[k] == all[i]);
            } else {
                assert(list[list.len() - 1] == all[i]);
            }
        }
    } else {
        assert(without(list, item) =~= list.filter(|other: Seq<char>| other != item));
    }
}

/// What a change does to the setting that it names; every other setting stays.
/// An assignment gives it the change's value, and a deletion takes it away.
/// Appending to a list adds the item behind the others, unless it is there, and
/// makes it the list where there is none. Subtracting takes every such item out
/// of a list and keeps the others in their order. An operation that is unknown
/// changes nothing.
pub proof fn law_setting_changes(settings: Settings, change: Change, other: Seq<char>)
    ensures
        ({
            let after = changed(settings, change);
            let name = change.name;
            let item = match change.value {
                Some(text) => text,
                None => Seq::empty(),
            };
            let listed = settings.dom().contains(name) && settings[name] is Some;
            let list = settings[name].unwrap();
            let code = change.config_operation;
            &&& other != name ==> {
                &&& after.dom().contains(other) <==> settings.dom().contains(other)
                &&& settings.dom().contains(other) ==> after[other] == settings[other]
            }
            &&& code == 0 ==> after.dom().contains(name) && after[name] == change.value
            &&& code == 1 ==> !after.dom().contains(name)
            &&& code == 2 ==> {
                &&& after.dom().contains(name)
                &&& after[name] matches Some(text)
                &&& !listed || list.len() == 0 ==> text == item
                &&& listed && list.len() > 0 && items(list).contains(item) ==> text == list
                &&& listed && list.len() > 0 && !items(list).contains(item) ==> items(text)
                    == items(list) + items(item)
            }
            &&& code == 3 && !listed ==> after == settings
            &&& code == 3 && listed ==> {
                let kept = items(list).filter(|one: Seq<char>| one != item);
                &&& after.dom().contains(name)
                &&& after[name] matches Some(text)
                &&& kept.len() == 0 ==> text.len() == 0
                &&& kept.len() > 0 ==> items(text) == kept
            }
            &&& code < 0 || code > 3 ==> after == settings
        }),
{
    let name = change.name;
    let item = match change.value {
        Some(text) => text,
        None => Seq::empty(),
    };
    if settings.dom().contains(name) && settings[name] is Some {
        let list = settings[name].unwrap();
        if change.config_operation == 2 {
            law_joined_lists(list, item);
        }
        if change.config_operation == 3 {
            lemma_without(items(list), item);
            let kept = without(items(list), item);
            if kept.len() > 0 {
                assert forall|i: int| 0 <= i < kept.len() implies !(#[trigger] kept[i]).contains(
                    ',',
                ) by {
                    assert(items(list).contains(kept[i]));
                    let k = choose|k: int| 0 <= k < items(list).len() && items(list)[k] == kept[i];
                    law_items_hold_no_comma(list, k);
                }
                law_joined_items_read_back(kept);
            }
        }
    }
}

/// Changes are made one after the other: those of two lists as if they were
/// one, a single one by itself, and none at all changes nothing.
pub proof fn law_changes_follow_each_other(
    settings: Settings,
    first: Seq<Change>,
    second: Seq<Change>,
    one: Change,
)
    ensures
        changed_all(settings, Seq::empty()) == settings,
        changed_all(settings, seq![one]) == changed(settings, one),
        changed_all(settings, first + second) == changed_all(changed_all(settings, first), second),
    decreases second.len(),
{
    assert(seq![one].drop_last() =~= Seq::<Change>::empty());
    assert(changed_all(settings, seq![one].drop_last()) == settings);
    if second.len() == 0 {
        assert(first + second =~= first);
    } else {
        law_changes_follow_each_other(settings, first, second.drop_last(), one);
        assert((first + second).drop_last() =~= first + second.drop_last());
    }
}

/// The operation that refuses a list of changes is the first that is unknown.
pub proof fn law_first_unknown_operation(changes: Seq<Change>)
    ensures
        match first_unknown(changes) {
            Some(code) => exists|i: int|
                0 <= i < changes.len() && op_of((#[trigger] changes[i]).config_operation) is None
                    && code == changes[i].config_operation && forall|j: int|
                    0 <= j < i ==> op_of((#[trigger] changes[j]).config_operation) is Some,
            None => forall|i: int|
                0 <= i < changes.len() ==> op_of((#[trigger] changes[i]).config_operation) is Some,
        },
    decreases changes.len(),
{
    if changes.len() > 0 {
        let init = changes.drop_last();
        let n = changes.len() - 1;
        assert forall|i: int| 0 <= i < n implies #[trigger] changes[i] == init[i] by {}
        law_first_unknown_operation(init);
        match first_unknown(init) {
            Some(code) => {
                let i = choose|i: int|
                    0 <= i < init.len() && op_of((#[trigger] init[i]).config_operation) is None
                        && code == init[i].config_operation && forall|j: int|
                        0 <= j < i ==> op_of((#[trigger] init[j]).config_operation) is Some;
                assert(op_of(changes[i].config_operation) is None);
                assert forall|j: int| 0 <= j < i implies op_of(
                    (#[trigger] changes[j]).config_operation,
                ) is Some by {
                    assert(op_of(init[j].config_operation) is Some);
                }
            },
            None => {
                assert forall|j: int| 0 <= j < n implies op_of(
                    (#[trigger] changes[j]).config_operation,
                ) is Some by {
                    assert(op_of(init[j].config_operation) is Some);
                }
                assert(changes.last() == changes[n]);
            },
        }
    }
}

/// Whether a map can be listed after a change, as it could before.
proof fn lemma_changed_listable(settings: Settings, change: Change)
    requires
        listable::<String, Option<Seq<char>>>(settings),
    ensures
        listable::<String, Option<Seq<char>>>(changed(settings, change)),
{
    let weight = |value: Option<Seq<char>>| 0nat;
    let name = change.name;
    match op_of(change.config_operation) {
        Some(OpType::Delete) => {
            let rows = ordered::<String, Option<Seq<char>>>(settings);
            if settings.dom().contains(name) {
                let i = lemma_ascending_position::<String, Option<Seq<char>>>(rows, name);
                crate::ordmap::lemma_remove_map::<String, Option<Seq<char>>>(rows, i);
                crate::ordmap::lemma_ordered::<String, Option<Seq<char>>>(rows.remove(i));
            } else {
                assert(settings.remove(name) =~= settings);
            }
        },
        _ => {
            let after = changed(settings, change);
            if after.dom().contains(name) {
                lemma_total_put::<String, Option<Seq<char>>>(settings, name, after[name], weight);
                if after == settings {
                    assert(settings.insert(name, after[name]) =~= settings);
                }
            }
        },
    }
}

proof fn lemma_changed_all_listable(settings: Settings, changes: Seq<Change>)
    requires
        listable::<String, Option<Seq<char>>>(settings),
    ensures
        listable::<String, Option<Seq<char>>>(changed_all(settings, changes)),
    decreases changes.len(),
{
    if changes.len() > 0 {
        lemma_changed_all_listable(settings, changes.drop_last());
        lemma_changed_listable(changed_all(settings, changes.drop_last()), changes.last());
    }
}

proof fn lemma_settings_listable(list: Seq<(Seq<char>, Option<Seq<char>>)>)
    ensures
        listable::<String, Option<Seq<char>>>(to_map(list)),
    decreases list.len(),
{
    if list.len() == 0 {
        crate::revise::lemma_listable_empty::<String, Option<Seq<char>>>();
    } else {
        lemma_settings_listable(list.drop_last());
        lemma_total_put::<String, Option<Seq<char>>>(
            to_map(list.drop_last()),
            list.last().0,
            list.last().1,
            |value: Option<Seq<char>>| 0nat,
        );
    }
}

/// Altering a topic changes its settings by every change, one after the other,
/// and nothing else of it, of other topics or of the rest. A topic that is not
/// known, or an unknown operation anywhere in the list, changes nothing.
pub proof fn law_topic_is_altered(
    coord: CoordModel,
    topic: Seq<char>,
    changes: Seq<Change>,
    other: Seq<char>,
)
    ensures
        ({
            let after = altered(coord, topic, changes);
            let known = coord.topics.dom().contains(topic);
            let refused = exists|i: int|
                0 <= i < changes.len() && op_of((#[trigger] changes[i]).config_operation) is None;
            let (was, is) = (coord.topics[topic], after.topics[topic]);
            &&& !known || refused ==> after == coord
            &&& known && !refused ==> {
                &&& settings_of(is.topic.configs) == changed_all(
                    settings_of(was.topic.configs),
                    changes,
                )
                &&& is == (TopicModel {
                    topic: TopicSpec { configs: is.topic.configs, ..was.topic },
                    ..was
                })
            }
            &&& after.topics.dom() == coord.topics.dom()
            &&& other != topic && coord.topics.dom().contains(other) ==> after.topics[other]
                == coord.topics[other]
            &&& after == (CoordModel { topics: after.topics, ..coord })
        }),
{
    let after = altered(coord, topic, changes);
    law_first_unknown_operation(changes);
    assert(after.topics.dom() =~= coord.topics.dom());
    if coord.topics.dom().contains(topic) {
        let before = settings_of(coord.topics[topic].topic.configs);
        match coord.topics[topic].topic.configs {
            Some(list) => lemma_settings_listable(list),
            None => crate::revise::lemma_listable_empty::<String, Option<Seq<char>>>(),
        }
        lemma_changed_all_listable(before, changes);
    }
}

/// What is logged of a change of settings replays to what it did, and what is
/// logged of a deleted topic forgets its partitions and no other's.
pub proof fn law_topic_records_replay(
    image: ImageModel,
    name: Seq<char>,
    changes: Seq<Change>,
    k: (Seq<char>, i32),
)
    ensures
        applied(image, Record::ConfigAlter { name, changes }) == (ImageModel {
            coord: altered(image.coord, name, changes),
            ..image
        }),
        ({
            let after = applied(image, Record::TopicDelete { name });
            &&& !after.coord.topics.dom().contains(name)
            &&& after.skeletons.dom().contains(k) <==> image.skeletons.dom().contains(k) && k.0
                != name
            &&& after.skeletons.dom().contains(k) ==> after.skeletons[k] == image.skeletons[k]
            &&& after.groups == image.groups
        }),
{
}

/// The aborted ranges that are known of a partition.
pub open spec fn aborted_at(
    skeletons: Map<(Seq<char>, i32), SkeletonModel>,
    topition: (Seq<char>, i32),
) -> Seq<AbortedRange> {
    if skeletons.dom().contains(topition) {
        skeletons[topition].aborted
    } else {
        Seq::empty()
    }
}

/// Where a partition's log is known to start.
pub open spec fn start_at(
    skeletons: Map<(Seq<char>, i32), SkeletonModel>,
    topition: (Seq<char>, i32),
) -> i64 {
    if skeletons.dom().contains(topition) {
        skeletons[topition].log_start
    } else {
        0
    }
}

/// The ranges that an aborted transaction is logged with are known of their
/// partitions afterwards, beside those that were, and no log start moves.
pub proof fn law_aborted_ranges_replay(
    skeletons: Map<(Seq<char>, i32), SkeletonModel>,
    producer: i64,
    ranges: Seq<(Seq<char>, i32, TxnProduceOffset)>,
    topition: (Seq<char>, i32),
    range: AbortedRange,
)
    ensures
        ({
            let after = with_ranges(skeletons, producer, ranges);
            let logged = range.producer == producer && ranges.contains(
                (
                    topition.0,
                    topition.1,
                    TxnProduceOffset {
                        offset_start: range.offset_start,
                        offset_end: range.offset_end,
                    },
                ),
            );
            &&& aborted_at(after, topition).contains(range) <==> aborted_at(
                skeletons,
                topition,
            ).contains(range) || logged
            &&& start_at(after, topition) == start_at(skeletons, topition)
        }),
    decreases ranges.len(),
{
    if ranges.len() > 0 {
        let init = ranges.drop_last();
        let n = ranges.len() - 1;
        law_aborted_ranges_replay(skeletons, producer, init, topition, range);
        let before = with_ranges(skeletons, producer, init);
        let after = with_ranges(skeletons, producer, ranges);
        let item = (
            topition.0,
            topition.1,
            TxnProduceOffset { offset_start: range.offset_start, offset_end: range.offset_end },
        );
        assert(ranges.contains(item) <==> init.contains(item) || ranges[n] == item) by {
            if init.contains(item) {
                let i = choose|i: int| 0 <= i < init.len() && init[i] == item;
                assert(ranges[i] == item);
            }
            if ranges.contains(item) && ranges[n] != item {
                let i = choose|i: int| 0 <= i < ranges.len() && ranges[i] == item;
                assert(init[i] == item);
            }
        }
        let own = AbortedRange {
            producer,
            offset_start: ranges[n].2.offset_start,
            offset_end: ranges[n].2.offset_end,
        };
        if (ranges[n].0, ranges[n].1) == topition {
            let had = aborted_at(before, topition);
            crate::partition_laws::law_aborted_range_is_added_once(had, own);
            let has_now = aborted_at(after, topition);
            assert(has_now == crate::replay::with_aborted(had, own));
            if has_now.contains(range) && range != own {
                let i = choose|i: int| 0 <= i < has_now.len() && has_now[i] == range;
                if i < had.len() {
                    assert(had[i] == range);
                }
            }
            if range == own {
                assert(ranges[n] == item);
            }
        }
    }
}

/// A log start that was logged is known of its partition and of no other, and
/// no aborted range is forgotten over it; the groups and the coordination state
/// stay.
pub proof fn law_logged_start_keeps_the_rest(
    image: ImageModel,
    topition: (Seq<char>, i32),
    offset: i64,
    other: (Seq<char>, i32),
)
    ensures
        ({
            let after = applied(
                image,
                Record::LogStartAdvance { topic: topition.0, partition: topition.1, offset },
            );
            &&& start_at(after.skeletons, topition) == offset
            &&& other != topition ==> start_at(after.skeletons, other) == start_at(
                image.skeletons,
                other,
            )
            &&& aborted_at(after.skeletons, other) == aborted_at(image.skeletons, other)
            &&& after.skeletons.dom() == image.skeletons.dom().insert(topition)
            &&& after.coord == image.coord
            &&& after.groups == image.groups
            &&& after.group_offsets == image.group_offsets
        }),
{
    let after = applied(
        image,
        Record::LogStartAdvance { topic: topition.0, partition: topition.1, offset },
    );
    assert(after.skeletons.dom() =~= image.skeletons.dom().insert(topition));
}

} // verus!
