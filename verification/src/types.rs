//! What the engine is asked with and answers with, as plain values.

use crate::model::{Key, Model, Rank};
use crate::time::SystemTime;
use vstd::prelude::*;

verus! {

/// One partition of a topic.
#[derive(Debug, PartialEq, Eq)]
pub struct Topition {
    pub topic: String,
    pub partition: i32,
}

impl Topition {
    pub fn new(topic: &str, partition: i32) -> (topition: Self)
        ensures
            topition.model() == (topic@, partition),
    {
        Topition { topic: topic.to_owned(), partition }
    }
}

impl Model for Topition {
    type V = (Seq<char>, i32);

    open spec fn model(&self) -> (Seq<char>, i32) {
        (self.topic@, self.partition)
    }

    open spec fn wf(&self) -> bool {
        true
    }

    fn dup(&self) -> (copy: Self) {
        Topition { topic: self.topic.clone(), partition: self.partition }
    }
}

/// Partitions are ordered by topic, then by number.
impl Key for Topition {
    open spec fn precedes(a: (Seq<char>, i32), b: (Seq<char>, i32)) -> bool {
        String::precedes(a.0, b.0) || (a.0 == b.0 && a.1 < b.1)
    }

    proof fn precedes_irreflexive(a: (Seq<char>, i32)) {
        String::precedes_irreflexive(a.0);
    }

    proof fn precedes_transitive(a: (Seq<char>, i32), b: (Seq<char>, i32), c: (Seq<char>, i32)) {
        if String::precedes(a.0, b.0) && String::precedes(b.0, c.0) {
            String::precedes_transitive(a.0, b.0, c.0);
        }
    }

    proof fn precedes_total(a: (Seq<char>, i32), b: (Seq<char>, i32)) {
        String::precedes_total(a.0, b.0);
    }

    fn rank(&self, other: &Self) -> (r: Rank) {
        proof {
            String::precedes_irreflexive(self.topic@);
            if String::precedes(self.topic@, other.topic@) && String::precedes(other.topic@, self.topic@) {
                String::precedes_transitive(self.topic@, other.topic@, self.topic@);
            }
        }
        match self.topic.rank(&other.topic) {
            Rank::Same => self.partition.rank(&other.partition),
            otherwise => otherwise,
        }
    }
}

/// A topic by its name or by its id.
#[derive(Debug, PartialEq, Eq)]
pub enum TopicId {
    Name(String),
    Id(u128),
}

/// What a [`TopicId`] says.
pub enum TopicRef {
    Name(Seq<char>),
    Id(u128),
}

impl View for TopicId {
    type V = TopicRef;

    open spec fn view(&self) -> TopicRef {
        match self {
            TopicId::Name(name) => TopicRef::Name(name@),
            TopicId::Id(id) => TopicRef::Id(*id),
        }
    }
}

/// The life of one transaction.
#[derive(Clone, Copy, Debug, PartialEq, Eq, Structural)]
pub enum TxnState {
    Begin,
    PrepareCommit,
    PrepareAbort,
    Committed,
    Aborted,
}

impl TxnState {
    pub open spec fn prepared(self) -> bool {
        self == TxnState::PrepareCommit || self == TxnState::PrepareAbort
    }

    pub open spec fn terminal(self) -> bool {
        self == TxnState::Committed || self == TxnState::Aborted
    }

    pub fn is_prepared(self) -> (b: bool)
        ensures
            b == self.prepared(),
    {
        self == TxnState::PrepareCommit || self == TxnState::PrepareAbort
    }

    pub fn is_terminal(self) -> (b: bool)
        ensures
            b == self.terminal(),
    {
        self == TxnState::Committed || self == TxnState::Aborted
    }
}

/// What a reader may see.
#[derive(Clone, Copy, Debug, PartialEq, Eq, Structural)]
pub enum IsolationLevel {
    ReadUncommitted,
    ReadCommitted,
}

/// One setting of a topic.
#[derive(Debug, PartialEq, Eq)]
pub struct CreatableTopicConfig {
    pub name: String,
    pub value: Option<String>,
}

impl Model for CreatableTopicConfig {
    type V = (Seq<char>, Option<Seq<char>>);

    open spec fn model(&self) -> (Seq<char>, Option<Seq<char>>) {
        (self.name@, self.value.model())
    }

    open spec fn wf(&self) -> bool {
        true
    }

    fn dup(&self) -> (copy: Self) {
        CreatableTopicConfig { name: self.name.clone(), value: self.value.dup() }
    }
}

/// A topic as its creator describes it.
#[derive(Debug, PartialEq, Eq)]
pub struct CreatableTopic {
    pub name: String,
    pub num_partitions: i32,
    pub replication_factor: i16,
    /// Partitions and the brokers that they are assigned to, kept as given.
    pub assignments: Option<Vec<(i32, Option<Vec<i32>>)>>,
    pub configs: Option<Vec<CreatableTopicConfig>>,
}

/// What a [`CreatableTopic`] says.
pub struct TopicSpec {
    pub name: Seq<char>,
    pub num_partitions: i32,
    pub replication_factor: i16,
    pub assignments: Option<Seq<(i32, Option<Seq<i32>>)>>,
    pub configs: Option<Seq<(Seq<char>, Option<Seq<char>>)>>,
}

impl Model for CreatableTopic {
    type V = TopicSpec;

    open spec fn model(&self) -> TopicSpec {
        TopicSpec {
            name: self.name@,
            num_partitions: self.num_partitions,
            replication_factor: self.replication_factor,
            assignments: self.assignments.model(),
            configs: self.configs.model(),
        }
    }

    open spec fn wf(&self) -> bool {
        true
    }

    fn dup(&self) -> (copy: Self) {
        CreatableTopic {
            name: self.name.clone(),
            num_partitions: self.num_partitions,
            replication_factor: self.replication_factor,
            assignments: self.assignments.dup(),
            configs: self.configs.dup(),
        }
    }
}

/// One change of a topic's settings; the operation is the protocol's code.
#[derive(Debug, PartialEq, Eq)]
pub struct AlterableConfig {
    pub name: String,
    pub config_operation: i8,
    pub value: Option<String>,
}

/// What an [`AlterableConfig`] says.
pub struct Change {
    pub name: Seq<char>,
    pub config_operation: i8,
    pub value: Option<Seq<char>>,
}

impl Model for AlterableConfig {
    type V = Change;

    open spec fn model(&self) -> Change {
        Change {
            name: self.name@,
            config_operation: self.config_operation,
            value: self.value.model(),
        }
    }

    open spec fn wf(&self) -> bool {
        true
    }

    fn dup(&self) -> (copy: Self) {
        AlterableConfig {
            name: self.name.clone(),
            config_operation: self.config_operation,
            value: self.value.dup(),
        }
    }
}

/// What a change does to a setting.
#[derive(Clone, Copy, Debug, PartialEq, Eq, Structural)]
pub enum OpType {
    Assign,
    Delete,
    Append,
    Subtract,
}

/// The operation that a protocol code stands for.
pub open spec fn op_of(code: i8) -> Option<OpType> {
    if code == 0 {
        Some(OpType::Assign)
    } else if code == 1 {
        Some(OpType::Delete)
    } else if code == 2 {
        Some(OpType::Append)
    } else if code == 3 {
        Some(OpType::Subtract)
    } else {
        None
    }
}

impl OpType {
    pub fn of(code: i8) -> (op: Option<OpType>)
        ensures
            op == op_of(code),
    {
        match code {
            0 => Some(OpType::Assign),
            1 => Some(OpType::Delete),
            2 => Some(OpType::Append),
            3 => Some(OpType::Subtract),
            _ => None,
        }
    }
}

/// A user's SCRAM credential.
#[derive(Debug, PartialEq, Eq)]
pub struct ScramCredential {
    pub salt: Vec<u8>,
    pub iterations: i32,
    pub stored_key: Vec<u8>,
    pub server_key: Vec<u8>,
}

/// What a [`ScramCredential`] says.
pub struct Credential {
    pub salt: Seq<u8>,
    pub iterations: i32,
    pub stored_key: Seq<u8>,
    pub server_key: Seq<u8>,
}

impl Model for ScramCredential {
    type V = Credential;

    open spec fn model(&self) -> Credential {
        Credential {
            salt: self.salt@,
            iterations: self.iterations,
            stored_key: self.stored_key@,
            server_key: self.server_key@,
        }
    }

    open spec fn wf(&self) -> bool {
        true
    }

    fn dup(&self) -> (copy: Self) {
        ScramCredential {
            salt: vstd::slice::slice_to_vec(self.salt.as_slice()),
            iterations: self.iterations,
            stored_key: vstd::slice::slice_to_vec(self.stored_key.as_slice()),
            server_key: vstd::slice::slice_to_vec(self.server_key.as_slice()),
        }
    }
}

/// A consumer group's state, in the group coordinator's own encoding; the
/// engine keeps it and hands it back. A new group's is empty.
#[derive(Debug, PartialEq, Eq)]
pub struct GroupDetail {
    pub encoded: Vec<u8>,
}

impl Model for GroupDetail {
    type V = Seq<u8>;

    open spec fn model(&self) -> Seq<u8> {
        self.encoded@
    }

    open spec fn wf(&self) -> bool {
        true
    }

    fn dup(&self) -> (copy: Self) {
        GroupDetail { encoded: vstd::slice::slice_to_vec(self.encoded.as_slice()) }
    }
}

/// The version of a group's state, for optimistic concurrency.
#[derive(Clone, Copy, Debug, PartialEq, Eq, Structural)]
pub struct Version {
    pub id: u128,
}

impl Model for Version {
    type V = Version;

    open spec fn model(&self) -> Version {
        *self
    }

    open spec fn wf(&self) -> bool {
        true
    }

    fn dup(&self) -> (copy: Self) {
        *self
    }
}

/// One committed consumer offset.
#[derive(Debug, PartialEq, Eq)]
pub struct OffsetCommitRequest {
    pub offset: i64,
    pub leader_epoch: Option<i32>,
    pub timestamp: Option<SystemTime>,
    pub metadata: Option<String>,
}

/// What an [`OffsetCommitRequest`] says.
pub struct OffsetCommit {
    pub offset: i64,
    pub leader_epoch: Option<i32>,
    pub timestamp: Option<SystemTime>,
    pub metadata: Option<Seq<char>>,
}

/// A commit of a bare offset.
pub open spec fn bare_commit(offset: i64) -> OffsetCommit {
    OffsetCommit { offset, leader_epoch: None, timestamp: None, metadata: None }
}

impl OffsetCommitRequest {
    /// A commit of a bare offset.
    pub fn of(offset: i64) -> (commit: Self)
        ensures
            commit.model() == bare_commit(offset),
    {
        OffsetCommitRequest { offset, leader_epoch: None, timestamp: None, metadata: None }
    }
}

impl Model for OffsetCommitRequest {
    type V = OffsetCommit;

    open spec fn model(&self) -> OffsetCommit {
        OffsetCommit {
            offset: self.offset,
            leader_epoch: self.leader_epoch,
            timestamp: self.timestamp,
            metadata: self.metadata.model(),
        }
    }

    open spec fn wf(&self) -> bool {
        true
    }

    fn dup(&self) -> (copy: Self) {
        OffsetCommitRequest {
            offset: self.offset,
            leader_epoch: self.leader_epoch,
            timestamp: self.timestamp,
            metadata: self.metadata.dup(),
        }
    }
}

} // verus!
