//! Incremental changes of a topic's settings: assign, delete, and append to or
//! subtract from a comma-separated list.

use crate::error::{refused, Error, Fault, Result};
use crate::model::Model;
use crate::ordmap::{ordered, to_map, OrdMap};
use crate::state::{CoordModel, CoordState, TopicModel};
use crate::text::{
    comma_list, concat, drop_item, has_item, items, join_commas, split_commas, without,
};
use crate::types::{op_of, AlterableConfig, Change, CreatableTopicConfig, OpType, TopicSpec};
use vstd::prelude::*;

verus! {

/// Settings by name.
pub type Settings = Map<Seq<char>, Option<Seq<char>>>;

/// The settings that a topic's list writes out.
pub open spec fn settings_of(configs: Option<Seq<(Seq<char>, Option<Seq<char>>)>>) -> Settings {
    match configs {
        Some(list) => to_map(list),
        None => Map::empty(),
    }
}

/// A change's text, empty where it has none.
pub open spec fn text_of(value: Option<Seq<char>>) -> Seq<char> {
    match value {
        Some(text) => text,
        None => Seq::empty(),
    }
}

/// A list with an item appended, unless it is there.
pub open spec fn appended(current: Option<Option<Seq<char>>>, item: Seq<char>) -> Seq<char> {
    match current {
        Some(Some(list)) => if list.len() == 0 {
            item
        } else if items(list).contains(item) {
            list
        } else {
            list.push(',') + item
        },
        _ => item,
    }
}

/// The settings after one change.
pub open spec fn changed(settings: Settings, change: Change) -> Settings {
    match op_of(change.config_operation) {
        Some(OpType::Assign) => settings.insert(change.name, change.value),
        Some(OpType::Delete) => settings.remove(change.name),
        Some(OpType::Append) => {
            let current = if settings.dom().contains(change.name) {
                Some(settings[change.name])
            } else {
                None
            };
            settings.insert(change.name, Some(appended(current, text_of(change.value))))
        },
        Some(OpType::Subtract) => if settings.dom().contains(change.name)
            && settings[change.name] is Some {
            let list = settings[change.name].unwrap();
            settings.insert(
                change.name,
                Some(comma_list(without(items(list), text_of(change.value)))),
            )
        } else {
            settings
        },
        None => settings,
    }
}

/// The settings after a list of changes.
pub open spec fn changed_all(settings: Settings, changes: Seq<Change>) -> Settings
    decreases changes.len(),
{
    if changes.len() == 0 {
        settings
    } else {
        changed(changed_all(settings, changes.drop_last()), changes.last())
    }
}

/// The first operation code of a list that the protocol does not have.
pub open spec fn first_unknown(changes: Seq<Change>) -> Option<i8>
    decreases changes.len(),
{
    if changes.len() == 0 {
        None
    } else {
        match first_unknown(changes.drop_last()) {
            Some(code) => Some(code),
            None => if op_of(changes.last().config_operation) is None {
                Some(changes.last().config_operation)
            } else {
                None
            },
        }
    }
}

/// The state after a change of a topic's settings. A topic that is not there,
/// or an operation that is not the protocol's, changes nothing.
pub open spec fn altered(coord: CoordModel, topic: Seq<char>, changes: Seq<Change>) -> CoordModel {
    if !coord.topics.dom().contains(topic) || first_unknown(changes) is Some {
        coord
    } else {
        let metadata = coord.topics[topic];
        let settings = changed_all(settings_of(metadata.topic.configs), changes);
        CoordModel {
            topics: coord.topics.insert(
                topic,
                TopicModel {
                    topic: TopicSpec {
                        configs: Some(ordered::<String, Option<Seq<char>>>(settings)),
                        ..metadata.topic
                    },
                    ..metadata
                },
            ),
            ..coord
        }
    }
}

proof fn lemma_first_unknown_stable(changes: Seq<Change>, n: int)
    requires
        0 <= n <= changes.len(),
    ensures
        first_unknown(changes.take(n)) is Some ==> first_unknown(changes) == first_unknown(
            changes.take(n),
        ),
    decreases changes.len() - n,
{
    if n < changes.len() {
        assert(changes.take(n + 1).drop_last() =~= changes.take(n));
        lemma_first_unknown_stable(changes, n + 1);
    } else {
        assert(changes.take(n) =~= changes);
    }
}

/// A topic's settings, by name.
fn read_settings(configs: &Option<Vec<CreatableTopicConfig>>) -> (settings: OrdMap<
    String,
    Option<String>,
>)
    ensures
        settings.wf(),
        settings.model() == settings_of(configs.model()),
{
    let mut settings: OrdMap<String, Option<String>> = OrdMap::new();
    if let Some(list) = configs {
        let ghost rows = list.model();
        let mut i: usize = 0;
        assert(settings.model() =~= to_map(rows.take(0)));
        while i < list.len()
            invariant
                settings.wf(),
                rows == list.model(),
                i <= rows.len(),
                settings.model() == to_map(rows.take(i as int)),
            decreases rows.len() - i,
        {
            proof {
                assert(rows.take(i + 1).drop_last() =~= rows.take(i as int));
                assert(rows.take(i + 1).last() == list@[i as int].model());
            }
            settings.insert(list[i].name.clone(), list[i].value.dup());
            i += 1;
        }
        assert(rows.take(i as int) =~= rows);
    }
    settings
}

/// Settings as a topic lists them, by name.
fn write_settings(settings: &OrdMap<String, Option<String>>) -> (list: Vec<CreatableTopicConfig>)
    requires
        settings.wf(),
    ensures
        list.model() == ordered::<String, Option<Seq<char>>>(settings.model()),
{
    let mut list: Vec<CreatableTopicConfig> = Vec::new();
    let ghost rows = settings.seq();
    proof {
        settings.lemma_seq();
        assert(list.model() =~= rows.take(0));
    }
    let mut i: usize = 0;
    while i < settings.len()
        invariant
            settings.wf(),
            rows == settings.seq(),
            i <= rows.len(),
            list.model() == rows.take(i as int),
        decreases rows.len() - i,
    {
        let (name, value) = settings.at(i);
        let ghost before = list.model();
        list.push(CreatableTopicConfig { name: name.clone(), value: value.dup() });
        assert(list.model() =~= before.push(rows[i as int]));
        assert(rows.take(i + 1) =~= rows.take(i as int).push(rows[i as int]));
        i += 1;
    }
    assert(rows.take(i as int) =~= rows);
    list
}

/// Appends an item to the setting's list.
fn append_item(settings: &mut OrdMap<String, Option<String>>, name: &String, item: &str)
    requires
        old(settings).wf(),
    ensures
        final(settings).wf(),
        final(settings).model() == old(settings).model().insert(
            name@,
            Some(
                appended(
                    if old(settings).model().dom().contains(name@) {
                        Some(old(settings).model()[name@])
                    } else {
                        None
                    },
                    item@,
                ),
            ),
        ),
{
    let mut text = item.to_owned();
    if let Some(Some(list)) = settings.get(name) {
        if !list.as_str().is_empty() {
            if has_item(&split_commas(list.as_str()), item) {
                text = list.clone();
            } else {
                proof {
                    reveal_strlit(",");
                }
                text = concat(concat(list.as_str(), ",").as_str(), item);
                assert(text@ =~= list@.push(',') + item@);
            }
        }
    }
    settings.insert(name.clone(), Some(text));
}

/// Takes an item out of the setting's list.
fn subtract_item(settings: &mut OrdMap<String, Option<String>>, name: &String, item: &str)
    requires
        old(settings).wf(),
    ensures
        final(settings).wf(),
        final(settings).model() == (if old(settings).model().dom().contains(name@)
            && old(settings).model()[name@] is Some {
            old(settings).model().insert(
                name@,
                Some(comma_list(without(items(old(settings).model()[name@].unwrap()), item@))),
            )
        } else {
            old(settings).model()
        }),
{
    let kept = match settings.get(name) {
        Some(Some(list)) => Some(join_commas(&drop_item(&split_commas(list.as_str()), item))),
        _ => None,
    };
    if kept.is_some() {
        settings.insert(name.clone(), kept);
    }
}

/// Makes one change, if its operation is the protocol's.
fn apply_change(settings: &mut OrdMap<String, Option<String>>, change: &AlterableConfig) -> (known:
    bool)
    requires
        old(settings).wf(),
    ensures
        final(settings).wf(),
        known == op_of(change.config_operation) is Some,
        final(settings).model() == changed(old(settings).model(), change.model()),
{
    let item = match &change.value {
        Some(text) => text.clone(),
        None => String::new(),
    };
    match OpType::of(change.config_operation) {
        Some(OpType::Assign) => {
            settings.insert(change.name.clone(), change.value.dup());
            true
        },
        Some(OpType::Delete) => {
            settings.remove(&change.name);
            true
        },
        Some(OpType::Append) => {
            append_item(settings, &change.name, item.as_str());
            true
        },
        Some(OpType::Subtract) => {
            subtract_item(settings, &change.name, item.as_str());
            true
        },
        None => false,
    }
}

impl CoordState {
    /// Apply incremental changes to a topic's settings.
    pub fn alter_topic(&mut self, topic: &str, changes: &Vec<AlterableConfig>) -> (result: Result<
        (),
    >)
        requires
            old(self).wf(),
        ensures
            final(self).wf(),
            final(self).model() == altered(old(self).model(), topic@, changes.model()),
            match first_unknown(changes.model()) {
                Some(code) => if old(self).model().topics.dom().contains(topic@) {
                    refused(result, Fault::OpType(code))
                } else {
                    result is Ok
                },
                None => result is Ok,
            },
    {
        let name = topic.to_owned();
        let mut settings = match self.topics.get(&name) {
            Some(metadata) => read_settings(&metadata.topic.configs),
            None => {
                return Ok(());
            },
        };
        let ghost before = settings.model();
        let ghost all = changes.model();
        let mut i: usize = 0;
        assert(all.take(0) =~= Seq::<Change>::empty());
        while i < changes.len()
            invariant
                settings.wf(),
                *self == *old(self),
                old(self).wf(),
                self.model().topics.dom().contains(topic@),
                all == changes.model(),
                i <= all.len(),
                settings.model() == changed_all(before, all.take(i as int)),
                first_unknown(all.take(i as int)) is None,
            decreases all.len() - i,
        {
            proof {
                assert(all.take(i + 1).drop_last() =~= all.take(i as int));
                assert(all.take(i + 1).last() == changes@[i as int].model());
                lemma_first_unknown_stable(all, i + 1);
            }
            if !apply_change(&mut settings, &changes[i]) {
                return Err(Error::OpType(changes[i].config_operation));
            }
            i += 1;
        }
        assert(all.take(i as int) =~= all);
        let list = write_settings(&settings);
        let metadata = self.topics.get_mut(&name).unwrap();
        metadata.topic.configs = Some(list);
        Ok(())
    }
}

} // verus!
