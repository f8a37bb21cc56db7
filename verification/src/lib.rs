//! Local append-log storage: per-partition segment logs and fine-grained
//! coordination state, durable through a metadata WAL and group commit, with
//! sealed segments tiered to an object store.
//!
//! The library is the engine without its files, threads and sockets: every
//! operation is a function on plain state that says what it changes, what is
//! to be logged and what is to be written, and a caller does the writing.
//!
//! - Bytes on disk: [`frame`], [`log`], [`wal`], [`snapshot`], [`layout`].
//! - A partition: [`partition`], [`produce`] and [`producing`], [`fetch`],
//!   [`retention`], [`tier`].
//! - Coordination: [`state`], [`settings`], [`topics`], [`groups`],
//!   [`producer`], [`txn`], [`overlap`], [`resolution`], [`ending`].
//! - Boot: [`replay`], [`unscanned`], [`rebuild`], [`recovery`].
//! - Knobs and group commit: [`address`], [`config`], [`groupcommit`].
//!
//! Stateful types stand for mathematical values ([`model`], [`ordmap`]), and
//! contracts are stated over those. Laws that span several operations, or say
//! what an operation is for, are public proof functions whose names begin with
//! `law_`; many stand in modules of their own, whose names end in `_laws`.

pub mod address;
pub mod boot_laws;
pub mod codec;
pub mod commit_laws;
pub mod config;
pub mod config_laws;
pub mod ending;
pub mod error;
pub mod fetch;
pub mod fetch_laws;
pub mod file_laws;
pub mod flat;
pub mod frame;
pub mod groupcommit;
pub mod group_laws;
pub mod groups;
pub mod layout;
pub mod log;
pub mod model;
pub mod ordmap;
pub mod overlap;
pub mod overlap_laws;
pub mod partition;
pub mod partition_laws;
pub mod produce;
pub mod produce_laws;
pub mod producer;
pub mod producer_laws;
pub mod producing;
pub mod rebuild;
pub mod recovery;
pub mod recovery_laws;
pub mod replay;
pub mod replay_laws;
pub mod resolution;
pub mod retention;
pub mod retention_laws;
pub mod revise;
pub mod settings;
pub mod snapshot;
pub mod sorting;
pub mod state;
pub mod text;
pub mod tier;
pub mod time;
pub mod topic_laws;
pub mod topics;
pub mod totals;
pub mod txn;
pub mod txn_laws;
pub mod types;
pub mod unscanned;
pub mod wal;
