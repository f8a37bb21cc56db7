//! Topics: created, altered, described, truncated and deleted; and the SCRAM
//! credentials of users.

use crate::error::{refused, Error, ErrorCode, Fault, Result};
use crate::model::Model;
use crate::ordmap::ordered;
use crate::partition::{advanced, EntryModel, PartModel, PartitionInner};
use crate::replay::{applied, without_topic, ImageModel};
use crate::settings::{altered, first_unknown};
use crate::snapshot::topics_named;
use crate::state::{topic_of, CoordModel, CoordState, TopicMetadata, TopicModel};
use crate::totals::total;
use crate::types::{
    AlterableConfig, CreatableTopic, Credential, ScramCredential, TopicId, TopicRef, TopicSpec,
    Topition,
};
use crate::wal::{record_view, Record, WalRecord};
use vstd::prelude::*;

verus! {

/// The state with a topic put in.
pub open spec fn with_topic(coord: CoordModel, id: u128, topic: TopicSpec) -> CoordModel {
    CoordModel { topics: coord.topics.insert(topic.name, TopicModel { id, topic }), ..coord }
}

/// The partitions that a topic is created with.
pub open spec fn partitions_of(name: Seq<char>, num_partitions: i32) -> Seq<(Seq<char>, i32)> {
    Seq::new(
        if num_partitions > 0 {
            num_partitions as nat
        } else {
            0
        },
        |i: int| (name, i as i32),
    )
}

/// The partitions that a topic is created with.
pub fn topic_partitions(topic: &CreatableTopic) -> (list: Vec<Topition>)
    ensures
        list.model() == partitions_of(topic.name@, topic.num_partitions),
{
    let mut list: Vec<Topition> = Vec::new();
    let mut partition: i32 = 0;
    while partition < topic.num_partitions
        invariant
            0 <= partition,
            partition <= topic.num_partitions || partition == 0,
            list@.len() == partition,
            forall|j: int| 0 <= j < partition ==> (#[trigger] list@[j]).model() == (
                topic.name@,
                j as i32,
            ),
        decreases topic.num_partitions - partition,
    {
        list.push(Topition { topic: topic.name.clone(), partition });
        partition += 1;
    }
    assert(list.model() =~= partitions_of(topic.name@, topic.num_partitions));
    list
}

/// The state with a user's credential put in.
pub open spec fn with_credential(
    coord: CoordModel,
    user: Seq<char>,
    mechanism: Seq<char>,
    credential: Credential,
) -> CoordModel {
    CoordModel { scram: coord.scram.insert((user, mechanism), credential), ..coord }
}

/// A partition in a topic's description.
#[derive(Debug, PartialEq, Eq)]
pub struct PartitionDescription {
    pub error_code: ErrorCode,
    pub partition_index: i32,
    pub leader_id: i32,
    pub leader_epoch: i32,
    pub replica_nodes: Vec<i32>,
    pub isr_nodes: Vec<i32>,
    pub offline_replicas: Vec<i32>,
}

/// What a [`PartitionDescription`] says.
pub struct PartitionSheet {
    pub error_code: ErrorCode,
    pub partition_index: i32,
    pub leader_id: i32,
    pub leader_epoch: i32,
    pub replica_nodes: Seq<i32>,
    pub isr_nodes: Seq<i32>,
    pub offline_replicas: Seq<i32>,
}

impl View for PartitionDescription {
    type V = PartitionSheet;

    open spec fn view(&self) -> PartitionSheet {
        PartitionSheet {
            error_code: self.error_code,
            partition_index: self.partition_index,
            leader_id: self.leader_id,
            leader_epoch: self.leader_epoch,
            replica_nodes: self.replica_nodes@,
            isr_nodes: self.isr_nodes@,
            offline_replicas: self.offline_replicas@,
        }
    }
}

/// A topic's description.
#[derive(Debug, PartialEq, Eq)]
pub struct TopicDescription {
    pub error_code: ErrorCode,
    pub name: Option<String>,
    pub topic_id: u128,
    pub is_internal: bool,
    pub partitions: Vec<PartitionDescription>,
    pub topic_authorized_operations: i32,
}

/// What a [`TopicDescription`] says.
pub struct TopicSheet {
    pub error_code: ErrorCode,
    pub name: Option<Seq<char>>,
    pub topic_id: u128,
    pub is_internal: bool,
    pub partitions: Seq<PartitionSheet>,
    pub topic_authorized_operations: i32,
}

impl View for TopicDescription {
    type V = TopicSheet;

    open spec fn view(&self) -> TopicSheet {
        TopicSheet {
            error_code: self.error_code,
            name: self.name.model(),
            topic_id: self.topic_id,
            is_internal: self.is_internal,
            partitions: Seq::new(self.partitions@.len(), |i: int| self.partitions@[i]@),
            topic_authorized_operations: self.topic_authorized_operations,
        }
    }
}

/// What a list of descriptions says.
pub open spec fn sheets(topics: Seq<TopicDescription>) -> Seq<TopicSheet> {
    Seq::new(topics.len(), |i: int| topics[i]@)
}

/// One node as often as there are replicas.
pub open spec fn replicas(node: i32, replication_factor: i16) -> Seq<i32> {
    Seq::new(
        if replication_factor > 0 {
            replication_factor as nat
        } else {
            0
        },
        |i: int| node,
    )
}

/// A partition's description: every replica is the node itself.
pub open spec fn partition_sheet(
    node: i32,
    replication_factor: i16,
    partition_index: i32,
) -> PartitionSheet {
    PartitionSheet {
        error_code: ErrorCode::NoError,
        partition_index,
        leader_id: node,
        leader_epoch: 0,
        replica_nodes: replicas(node, replication_factor),
        isr_nodes: replicas(node, replication_factor),
        offline_replicas: Seq::empty(),
    }
}

/// A known topic's description.
pub open spec fn known_sheet(node: i32, metadata: TopicModel) -> TopicSheet {
    let topic = metadata.topic;
    TopicSheet {
        error_code: ErrorCode::NoError,
        name: Some(topic.name),
        topic_id: metadata.id,
        is_internal: false,
        partitions: Seq::new(
            if topic.num_partitions > 0 {
                topic.num_partitions as nat
            } else {
                0
            },
            |i: int| partition_sheet(node, topic.replication_factor, i as i32),
        ),
        topic_authorized_operations: i32::MIN,
    }
}

/// The description of a topic that is not known.
pub open spec fn unknown_sheet(topic: TopicRef) -> TopicSheet {
    TopicSheet {
        error_code: ErrorCode::UnknownTopicOrPartition,
        name: match topic {
            TopicRef::Name(name) => Some(name),
            TopicRef::Id(id) => None,
        },
        topic_id: match topic {
            TopicRef::Name(name) => 0,
            TopicRef::Id(id) => id,
        },
        is_internal: false,
        partitions: Seq::empty(),
        topic_authorized_operations: i32::MIN,
    }
}

/// The description of a topic that was asked for.
pub open spec fn sheet(node: i32, coord: CoordModel, topic: TopicRef) -> TopicSheet {
    match topic_of(coord, topic) {
        Some(metadata) => known_sheet(node, metadata),
        None => unknown_sheet(topic),
    }
}

/// The descriptions of a list of topics.
pub open spec fn asked_sheets(node: i32, coord: CoordModel, topics: Seq<TopicId>) -> Seq<
    TopicSheet,
> {
    Seq::new(topics.len(), |i: int| sheet(node, coord, topics[i]@))
}

/// The descriptions of all topics in name order.
pub open spec fn all_sheets(node: i32, topics: Seq<(Seq<char>, TopicModel)>) -> Seq<TopicSheet> {
    Seq::new(topics.len(), |i: int| known_sheet(node, topics[i].1))
}

fn replica_list(node: i32, replication_factor: i16) -> (list: Vec<i32>)
    ensures
        list@ == replicas(node, replication_factor),
{
    let mut list: Vec<i32> = Vec::new();
    let mut i: i16 = 0;
    while i < replication_factor
        invariant
            0 <= i,
            i <= replication_factor || i == 0,
            list@ == Seq::new(i as nat, |j: int| node),
        decreases replication_factor - i,
    {
        list.push(node);
        i += 1;
        assert(list@ =~= Seq::new(i as nat, |j: int| node));
    }
    assert(list@ =~= replicas(node, replication_factor));
    list
}

/// Describes a known topic.
fn describe_known(node: i32, metadata: &TopicMetadata) -> (topic: TopicDescription)
    ensures
        topic@ == known_sheet(node, metadata.model()),
{
    let factor: i16 = metadata.topic.replication_factor;
    let mut partitions: Vec<PartitionDescription> = Vec::new();
    let mut partition: i32 = 0;
    while partition < metadata.topic.num_partitions
        invariant
            0 <= partition,
            partition <= metadata.topic.num_partitions || partition == 0,
            partitions@.len() == partition,
            forall|j: int| 0 <= j < partition ==> (#[trigger] partitions@[j])@ == partition_sheet(
                node,
                factor,
                j as i32,
            ),
        decreases metadata.topic.num_partitions - partition,
    {
        let described = PartitionDescription {
            error_code: ErrorCode::NoError,
            partition_index: partition,
            leader_id: node,
            leader_epoch: 0,
            replica_nodes: replica_list(node, factor),
            isr_nodes: replica_list(node, factor),
            offline_replicas: Vec::new(),
        };
        assert(described@.offline_replicas =~= Seq::<i32>::empty());
        partitions.push(described);
        partition += 1;
    }
    let topic = TopicDescription {
        error_code: ErrorCode::NoError,
        name: Some(metadata.topic.name.clone()),
        topic_id: metadata.id,
        is_internal: false,
        partitions,
        topic_authorized_operations: i32::MIN,
    };
    assert(topic@.partitions =~= known_sheet(node, metadata.model()).partitions);
    topic
}

impl CoordState {
    /// Creates a topic with an id that the caller made up.
    pub fn create_topic(&mut self, id: u128, topic: &CreatableTopic) -> (result: Result<WalRecord>)
        requires
            old(self).wf(),
        ensures
            final(self).wf(),
            if old(self).model().topics.dom().contains(topic.name@) {
                &&& refused(result, Fault::Api(ErrorCode::TopicAlreadyExists))
                &&& final(self).model() == old(self).model()
            } else {
                &&& final(self).model() == with_topic(old(self).model(), id, topic.model())
                &&& result matches Ok(record) && record@ == (Record::TopicCreate {
                    id,
                    topic: topic.model(),
                })
            },
    {
        if self.topics.contains(&topic.name) {
            return Err(Error::Api(ErrorCode::TopicAlreadyExists));
        }
        self.topics.insert(topic.name.clone(), TopicMetadata { id, topic: topic.dup() });
        Ok(WalRecord::TopicCreate { id, topic: topic.dup() })
    }

    /// Changes the settings of a resource: those of a topic change, those of
    /// another resource are left alone.
    pub fn incremental_alter_resource(
        &mut self,
        is_topic: bool,
        name: &str,
        changes: Option<Vec<AlterableConfig>>,
    ) -> (result: Result<Option<WalRecord>>)
        requires
            old(self).wf(),
        ensures
            final(self).wf(),
            ({
                let list = crate::txn::or_none(changes.model());
                if !is_topic {
                    &&& result matches Ok(None)
                    &&& final(self).model() == old(self).model()
                } else {
                    &&& final(self).model() == altered(old(self).model(), name@, list)
                    &&& match first_unknown(list) {
                        Some(code) if old(self).model().topics.dom().contains(name@) => refused(
                            result,
                            Fault::OpType(code),
                        ),
                        _ => result matches Ok(Some(record)) && record@ == (Record::ConfigAlter {
                            name: name@,
                            changes: list,
                        }),
                    }
                }
            }),
    {
        if !is_topic {
            return Ok(None);
        }
        let list: Vec<AlterableConfig> = match changes {
            Some(list) => list,
            None => Vec::new(),
        };
        assert(list.model() =~= crate::txn::or_none(changes.model()));
        match self.alter_topic(name, &list) {
            Ok(()) => Ok(
                Some(WalRecord::ConfigAlter { name: name.to_owned(), changes: list }),
            ),
            Err(error) => Err(error),
        }
    }

    /// Deletes a topic, by name or by id; gives its name and what is to be
    /// logged, or nothing where there is no such topic.
    pub fn delete_topic(&mut self, topic: &TopicId) -> (deleted: Option<(String, WalRecord)>)
        requires
            old(self).wf(),
        ensures
            final(self).wf(),
            match topic_of(old(self).model(), topic@) {
                Some(metadata) => {
                    &&& final(self).model() == (CoordModel {
                        topics: old(self).model().topics.remove(metadata.topic.name),
                        ..old(self).model()
                    })
                    &&& deleted matches Some((name, record)) && name@ == metadata.topic.name
                        && record@ == (Record::TopicDelete { name: metadata.topic.name })
                },
                None => deleted is None && final(self).model() == old(self).model(),
            },
    {
        let name = match self.topic_metadata(topic) {
            Some(metadata) => metadata.topic.name.clone(),
            None => {
                return None;
            },
        };
        let _ = self.topics.remove(&name);
        let record = WalRecord::TopicDelete { name: name.clone() };
        Some((name, record))
    }

    /// Describes topics: those that are asked for, or all where none are.
    pub fn metadata(&self, node: i32, topics: Option<&Vec<TopicId>>) -> (list: Vec<
        TopicDescription,
    >)
        requires
            self.wf(),
        ensures
            sheets(list@) == (match topics {
                Some(topics) if topics@.len() > 0 => asked_sheets(node, self.model(), topics@),
                _ => all_sheets(node, ordered::<String, TopicModel>(self.model().topics)),
            }),
    {
        if let Some(topics) = topics {
            if topics.len() > 0 {
                return self.describe_topics(node, topics);
            }
        }
        let mut list: Vec<TopicDescription> = Vec::new();
        let ghost rows = self.topics.seq();
        proof {
            self.topics.lemma_seq();
        }
        let mut i: usize = 0;
        while i < self.topics.len()
            invariant
                self.wf(),
                rows == self.topics.seq(),
                i <= rows.len(),
                list@.len() == i,
                forall|j: int|
                    0 <= j < i ==> (#[trigger] list@[j])@ == known_sheet(node, rows[j].1),
            decreases rows.len() - i,
        {
            let (_, metadata) = self.topics.at(i);
            list.push(describe_known(node, metadata));
            i += 1;
        }
        assert(sheets(list@) =~= all_sheets(node, rows));
        list
    }

    /// Describes the topics that are asked for.
    pub fn describe_topics(&self, node: i32, topics: &Vec<TopicId>) -> (list: Vec<
        TopicDescription,
    >)
        requires
            self.wf(),
        ensures
            sheets(list@) == asked_sheets(node, self.model(), topics@),
    {
        let mut list: Vec<TopicDescription> = Vec::new();
        let mut i: usize = 0;
        while i < topics.len()
            invariant
                self.wf(),
                i <= topics@.len(),
                list@.len() == i,
                forall|j: int|
                    0 <= j < i ==> (#[trigger] list@[j])@ == sheet(
                        node,
                        self.model(),
                        topics@[j]@,
                    ),
            decreases topics@.len() - i,
        {
            let described = match self.topic_metadata(&topics[i]) {
                Some(metadata) => describe_known(node, metadata),
                None => {
                    let (name, topic_id) = match &topics[i] {
                        TopicId::Name(name) => (Some(name.clone()), 0u128),
                        TopicId::Id(id) => (None, *id),
                    };
                    let unknown = TopicDescription {
                        error_code: ErrorCode::UnknownTopicOrPartition,
                        name,
                        topic_id,
                        is_internal: false,
                        partitions: Vec::new(),
                        topic_authorized_operations: i32::MIN,
                    };
                    assert(unknown@.partitions =~= Seq::<PartitionSheet>::empty());
                    unknown
                },
            };
            list.push(described);
            i += 1;
        }
        assert(sheets(list@) =~= asked_sheets(node, self.model(), topics@));
        list
    }

    /// A topic's settings, as it was created with or altered to; none for a
    /// topic that is not known or has none.
    pub fn describe_config(&self, is_topic: bool, name: &str) -> (settings: Vec<
        (String, Option<String>),
    >)
        requires
            self.wf(),
        ensures
            settings.model() == (if is_topic && self.model().topics.dom().contains(name@) {
                crate::txn::or_none(self.model().topics[name@].topic.configs)
            } else {
                Seq::empty()
            }),
    {
        let mut settings: Vec<(String, Option<String>)> = Vec::new();
        let ghost none = settings.model();
        assert(none =~= Seq::empty());
        if is_topic {
            if let Some(metadata) = self.topics.get(&name.to_owned()) {
                if let Some(configs) = &metadata.topic.configs {
                    let mut i: usize = 0;
                    while i < configs.len()
                        invariant
                            i <= configs@.len(),
                            settings@.len() == i,
                            forall|j: int|
                                0 <= j < i ==> (#[trigger] settings@[j]).model()
                                    == configs@[j].model(),
                        decreases configs@.len() - i,
                    {
                        settings.push((configs[i].name.clone(), configs[i].value.dup()));
                        i += 1;
                    }
                    assert(settings.model() =~= configs.model());
                }
            }
        }
        settings
    }

    /// Puts a user's credential in.
    pub fn upsert_user_scram_credential(
        &mut self,
        user: &str,
        mechanism: &str,
        credential: ScramCredential,
    ) -> (record: WalRecord)
        requires
            old(self).wf(),
        ensures
            final(self).wf(),
            final(self).model() == with_credential(
                old(self).model(),
                user@,
                mechanism@,
                credential.model(),
            ),
            record@ == (Record::ScramUpsert {
                user: user@,
                mechanism: mechanism@,
                salt: credential.model().salt,
                iterations: credential.model().iterations,
                stored_key: credential.model().stored_key,
                server_key: credential.model().server_key,
            }),
    {
        let logged = credential.dup();
        self.scram.insert((user.to_owned(), mechanism.to_owned()), credential);
        WalRecord::ScramUpsert {
            user: user.to_owned(),
            mechanism: mechanism.to_owned(),
            salt: logged.salt,
            iterations: logged.iterations,
            stored_key: logged.stored_key,
            server_key: logged.server_key,
        }
    }

    /// Drops a user's credential.
    pub fn delete_user_scram_credential(&mut self, user: &str, mechanism: &str) -> (record:
        WalRecord)
        requires
            old(self).wf(),
        ensures
            final(self).wf(),
            final(self).model() == (CoordModel {
                scram: old(self).model().scram.remove((user@, mechanism@)),
                ..old(self).model()
            }),
            record@ == (Record::ScramDelete { user: user@, mechanism: mechanism@ }),
    {
        let _ = self.scram.remove(&(user.to_owned(), mechanism.to_owned()));
        WalRecord::ScramDelete { user: user.to_owned(), mechanism: mechanism.to_owned() }
    }

    /// A user's credential.
    pub fn user_scram_credential(&self, user: &str, mechanism: &str) -> (credential: Option<
        ScramCredential,
    >)
        requires
            self.wf(),
        ensures
            credential.model() == (if self.model().scram.dom().contains((user@, mechanism@)) {
                Some(self.model().scram[(user@, mechanism@)])
            } else {
                None
            }),
    {
        match self.scram.get(&(user.to_owned(), mechanism.to_owned())) {
            Some(credential) => Some(credential.dup()),
            None => None,
        }
    }
}

/// What comes of a request to delete records of a partition.
#[derive(Clone, Copy, Debug, PartialEq, Eq, Structural)]
pub struct DeleteRecordsResult {
    pub partition_index: i32,
    pub low_watermark: i64,
    pub error_code: ErrorCode,
}

/// Where a request to delete records asks the log to start: a negative offset
/// asks for the high watermark.
pub open spec fn truncation(p: PartModel, offset: i64) -> i64 {
    if offset < 0 {
        p.durable_offset
    } else {
        offset
    }
}

/// Deletes a partition's records below an offset. A topic or partition that is
/// not known, and an offset past the high watermark, are refused.
pub fn delete_records(
    topic_known: bool,
    partition: Option<&mut PartitionInner>,
    topition: &Topition,
    offset: i64,
) -> (outcome: (DeleteRecordsResult, Option<WalRecord>))
    requires
        partition matches Some(inner) ==> inner.wf(),
    ensures
        match partition {
            None => {
                &&& outcome.0 == (DeleteRecordsResult {
                    partition_index: topition.partition,
                    low_watermark: -1 as i64,
                    error_code: ErrorCode::UnknownTopicOrPartition,
                })
                &&& outcome.1 is None
            },
            Some(inner) => {
                &&& final(inner).wf()
                &&& if !topic_known {
                    &&& outcome.0 == (DeleteRecordsResult {
                        partition_index: topition.partition,
                        low_watermark: -1 as i64,
                        error_code: ErrorCode::UnknownTopicOrPartition,
                    })
                    &&& outcome.1 is None
                    &&& final(inner).model() == inner.model()
                } else if truncation(inner.model(), offset) > inner.model().durable_offset {
                    &&& outcome.0 == (DeleteRecordsResult {
                        partition_index: topition.partition,
                        low_watermark: -1 as i64,
                        error_code: ErrorCode::OffsetOutOfRange,
                    })
                    &&& outcome.1 is None
                    &&& final(inner).model() == inner.model()
                } else {
                    let after = advanced(inner.model(), truncation(inner.model(), offset));
                    &&& final(inner).model() == after
                    &&& outcome.0 == (DeleteRecordsResult {
                        partition_index: topition.partition,
                        low_watermark: after.log_start,
                        error_code: ErrorCode::NoError,
                    })
                    &&& record_view(outcome.1) == Some(
                        Record::LogStartAdvance {
                            topic: topition.topic@,
                            partition: topition.partition,
                            offset: after.log_start,
                        },
                    )
                }
            },
        },
{
    let unknown = DeleteRecordsResult {
        partition_index: topition.partition,
        low_watermark: -1,
        error_code: ErrorCode::UnknownTopicOrPartition,
    };
    match partition {
        None => (unknown, None),
        Some(inner) => {
            if !topic_known {
                return (unknown, None);
            }
            let target: i64 = if offset < 0 {
                inner.high_watermark()
            } else {
                offset
            };
            if target > inner.high_watermark() {
                return (
                    DeleteRecordsResult {
                        partition_index: topition.partition,
                        low_watermark: -1,
                        error_code: ErrorCode::OffsetOutOfRange,
                    },
                    None,
                );
            }
            let low_watermark = inner.advance_log_start(target);
            (
                DeleteRecordsResult {
                    partition_index: topition.partition,
                    low_watermark,
                    error_code: ErrorCode::NoError,
                },
                Some(
                    WalRecord::LogStartAdvance {
                        topic: topition.topic.clone(),
                        partition: topition.partition,
                        offset: low_watermark,
                    },
                ),
            )
        },
    }
}

/// The bytes of a batch's frame.
pub open spec fn frame_weight() -> spec_fn(EntryModel) -> nat {
    |entry: EntryModel| entry.len as nat
}

/// The bytes of a batch's frame that are on the local disk.
pub open spec fn local_weight() -> spec_fn(EntryModel) -> nat {
    |entry: EntryModel|
        if entry.tiered {
            0
        } else {
            entry.len as nat
        }
}

/// The bytes of all indexed frames.
pub open spec fn frame_bytes(p: PartModel) -> nat {
    total(ordered::<i64, EntryModel>(p.batches), frame_weight())
}

/// The bytes of the indexed frames that are on the local disk.
pub open spec fn local_bytes(p: PartModel) -> nat {
    total(ordered::<i64, EntryModel>(p.batches), local_weight())
}

impl PartitionInner {
    /// The bytes of all indexed frames, those that only the object store holds
    /// among them: what deleting this partition takes off the disk's usage.
    pub fn frame_bytes(&self) -> (bytes: u64)
        requires
            self.wf(),
            frame_bytes(self.model()) <= u64::MAX,
        ensures
            bytes == frame_bytes(self.model()),
    {
        let ghost rows = self.batches.seq();
        proof {
            self.batches.lemma_seq();
        }
        let mut bytes: u64 = 0;
        let mut i: usize = 0;
        while i < self.batches.len()
            invariant
                self.wf(),
                rows == self.batches.seq(),
                i <= rows.len(),
                bytes == total(rows.take(i as int), frame_weight()),
                total(rows, frame_weight()) <= u64::MAX,
            decreases rows.len() - i,
        {
            let (_, entry) = self.batches.at(i);
            proof {
                assert(rows.take(i + 1).drop_last() =~= rows.take(i as int));
                lemma_total_prefix(rows, i + 1, frame_weight());
            }
            bytes = bytes + entry.len as u64;
            i += 1;
        }
        assert(rows.take(i as int) =~= rows);
        bytes
    }

    /// The bytes that this partition has on the local disk.
    pub fn local_bytes(&self) -> (bytes: u64)
        requires
            self.wf(),
            local_bytes(self.model()) <= u64::MAX,
        ensures
            bytes == local_bytes(self.model()),
    {
        let ghost rows = self.batches.seq();
        proof {
            self.batches.lemma_seq();
        }
        let mut bytes: u64 = 0;
        let mut i: usize = 0;
        while i < self.batches.len()
            invariant
                self.wf(),
                rows == self.batches.seq(),
                i <= rows.len(),
                bytes == total(rows.take(i as int), local_weight()),
                total(rows, local_weight()) <= u64::MAX,
            decreases rows.len() - i,
        {
            let (_, entry) = self.batches.at(i);
            proof {
                assert(rows.take(i + 1).drop_last() =~= rows.take(i as int));
                lemma_total_prefix(rows, i + 1, local_weight());
            }
            if !entry.tiered {
                bytes = bytes + entry.len as u64;
            }
            i += 1;
        }
        assert(rows.take(i as int) =~= rows);
        bytes
    }
}

/// A part weighs no more than the whole.
pub proof fn lemma_total_prefix<A, W>(s: Seq<(A, W)>, n: int, weight: spec_fn(W) -> nat)
    requires
        0 <= n <= s.len(),
    ensures
        total(s.take(n), weight) <= total(s, weight),
    decreases s.len() - n,
{
    if n == s.len() {
        assert(s.take(n) =~= s);
    } else {
        lemma_total_prefix(s, n + 1, weight);
        assert(s.take(n + 1).drop_last() =~= s.take(n));
    }
}

/// Creating a topic is logged as what it did.
pub proof fn law_create_replays(image: ImageModel, id: u128, topic: TopicSpec)
    ensures
        applied(image, Record::TopicCreate { id, topic }) == (ImageModel {
            coord: with_topic(image.coord, id, topic),
            ..image
        }),
{
}

/// Deleting a topic is logged as what it did: the topic is gone, with its
/// committed offsets and what is known of its partitions.
pub proof fn law_delete_replays(image: ImageModel, name: Seq<char>)
    ensures
        ({
            let after = applied(image, Record::TopicDelete { name });
            &&& after.coord == (CoordModel {
                topics: image.coord.topics.remove(name),
                ..image.coord
            })
            &&& after.group_offsets == without_topic(image.group_offsets, name)
            &&& forall|k: (Seq<char>, i32)| #[trigger]
                after.skeletons.dom().contains(k) ==> k.0 != name
        }),
{
}

/// A record keeps every topic under its own name.
pub proof fn law_topics_stay_named(image: ImageModel, record: Record)
    requires
        topics_named(image.coord),
    ensures
        topics_named(applied(image, record).coord),
{
    let after = applied(image, record).coord;
    assert forall|name: Seq<char>| #[trigger] after.topics.dom().contains(name) implies after.topics[name].topic.name
        == name by {
        if image.coord.topics.dom().contains(name) {
            assert(image.coord.topics[name].topic.name == name);
        }
    }
}

/// A log start that was logged is the one that replay gives back.
pub proof fn law_log_start_replays(
    image: ImageModel,
    topic: Seq<char>,
    partition: i32,
    offset: i64,
)
    ensures
        ({
            let after = applied(image, Record::LogStartAdvance { topic, partition, offset });
            &&& after.skeletons.dom().contains((topic, partition))
            &&& after.skeletons[(topic, partition)].log_start == offset
            &&& after.coord == image.coord
        }),
{
}

} // verus!
