//! What the engine answers when it refuses.

use vstd::prelude::*;

verus! {

/// The protocol's error codes that the engine answers with.
#[derive(Clone, Copy, Debug, PartialEq, Eq, Structural)]
pub enum ErrorCode {
    NoError,
    UnknownServerError,
    OffsetOutOfRange,
    UnknownTopicOrPartition,
    UnsupportedVersion,
    TopicAlreadyExists,
    OutOfOrderSequenceNumber,
    DuplicateSequenceNumber,
    InvalidTxnState,
    KafkaStorageError,
    UnknownProducerId,
    TransactionalIdNotFound,
    GroupIdNotFound,
    ProducerFenced,
}

/// A refusal: a protocol error code, a config operation that the protocol
/// does not have, or a message.
#[derive(Debug, PartialEq, Eq)]
pub enum Error {
    Api(ErrorCode),
    OpType(i8),
    Message(String),
}

/// What an [`Error`] says.
pub enum Fault {
    Api(ErrorCode),
    OpType(i8),
    Message(Seq<char>),
}

impl View for Error {
    type V = Fault;

    open spec fn view(&self) -> Fault {
        match self {
            Error::Api(code) => Fault::Api(*code),
            Error::OpType(code) => Fault::OpType(*code),
            Error::Message(text) => Fault::Message(text@),
        }
    }
}

pub type Result<T> = std::result::Result<T, Error>;

/// Whether a result is the refusal `fault`.
pub open spec fn refused<T>(result: Result<T>, fault: Fault) -> bool {
    result matches Err(error) && error@ == fault
}

} // verus!
