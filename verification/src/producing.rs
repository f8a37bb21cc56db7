//! One batch on its way into a partition, a step at a time. Each step takes
//! what the last one gave, so that none is left out and all speak of the same
//! batch: admitted, given its offsets, written, indexed, synced, settled.

use crate::error::{refused, ErrorCode, Fault, Result};
use crate::frame::{framed, FrameType};
use crate::log::{batch_payload, encode_batch, SegmentWriter};
use crate::model::Model;
use crate::partition::{PartModel, PartitionInner};
use crate::produce::{
    acknowledged, admission, admit_batch, assigned, entry_of, open_key, over_budget, recorded,
    rotates, settle, settled_txn, text_view, Append, BatchHeader,
};
use crate::state::{cell, extended, sequence_fits, with_cell, with_txn, CoordState, TxnDetailModel};
use crate::types::{Topition, TxnState};
use vstd::prelude::*;

verus! {

/// What was asked for.
pub struct Request {
    pub transaction_id: Option<Seq<char>>,
    pub topition: (Seq<char>, i32),
    pub header: BatchHeader,
}

/// A batch that may be appended.
pub struct Admitted {
    transaction_id: Option<String>,
    topition: Topition,
    header: BatchHeader,
}

impl View for Admitted {
    type V = Request;

    closed spec fn view(&self) -> Request {
        Request {
            transaction_id: self.transaction_id.model(),
            topition: self.topition.model(),
            header: self.header,
        }
    }
}

fn as_text(text: &Option<String>) -> (view: Option<&str>)
    ensures
        text_view(view) == text.model(),
{
    match text {
        Some(text) => Some(text.as_str()),
        None => None,
    }
}

impl Admitted {
    /// Decides whether a batch may be appended, bumping the sequence number of
    /// an idempotent producer.
    pub fn admission(
        coord: &mut CoordState,
        disk_usage: u64,
        disk_budget_bytes: u64,
        transaction_id: Option<&str>,
        topition: &Topition,
        header: &BatchHeader,
    ) -> (result: Result<Admitted>)
        requires
            old(coord).wf(),
            !over_budget(disk_usage, disk_budget_bytes) && header.idempotent && sequence_fits(
                old(coord).model(),
                header.producer_id,
                header.producer_epoch,
                header.base_sequence,
                topition.topic@,
                topition.partition,
            ) ==> {
                &&& header.last_offset_delta < i32::MAX
                &&& i32::MIN <= header.base_sequence + header.last_offset_delta + 1 <= i32::MAX
            },
        ensures
            final(coord).wf(),
            ({
                let (after, refusal) = admission(
                    old(coord).model(),
                    disk_usage,
                    disk_budget_bytes,
                    text_view(transaction_id),
                    topition.model(),
                    *header,
                );
                &&& final(coord).model() == after
                &&& match refusal {
                    Some(code) => refused(result, Fault::Api(code)),
                    None => result matches Ok(admitted) && admitted@ == (Request {
                        transaction_id: text_view(transaction_id),
                        topition: topition.model(),
                        header: *header,
                    }),
                }
            }),
    {
        match admit_batch(
            coord,
            disk_usage,
            disk_budget_bytes,
            transaction_id,
            topition,
            header,
        ) {
            Ok(()) => {},
            Err(error) => {
                return Err(error);
            },
        }
        let transaction_id = match transaction_id {
            Some(transaction_id) => Some(transaction_id.to_owned()),
            None => None,
        };
        Ok(Admitted { transaction_id, topition: topition.dup(), header: *header })
    }

    /// What the engine reads of the batch.
    pub fn header(&self) -> (header: BatchHeader)
        ensures
            header == self@.header,
    {
        self.header
    }

    /// The partition that the batch is for.
    pub fn topition(&self) -> (topition: &Topition)
        ensures
            topition.model() == self@.topition,
    {
        &self.topition
    }

    /// Gives the batch its offsets, and frames it.
    pub fn assign(self, inner: &mut PartitionInner, batch: Vec<u8>, segment_bytes: u64) -> (next:
        Assigned)
        requires
            old(inner).wf(),
            i64::MIN <= old(inner).next_offset + self@.header.last_offset_delta < i64::MAX,
        ensures
            final(inner).wf(),
            final(inner).model() == assigned(
                old(inner).model(),
                self@.header.last_offset_delta,
                segment_bytes,
            ),
            next@.request == self@,
            next@.batch == batch@,
            next@.append == (Append {
                offset: old(inner).next_offset,
                offset_end: (old(inner).next_offset + self@.header.last_offset_delta) as i64,
                sealed: if rotates(old(inner).model(), segment_bytes) {
                    match old(inner).writer {
                        Some(writer) => Some(writer.base_offset),
                        None => None,
                    }
                } else {
                    None
                },
                create: rotates(old(inner).model(), segment_bytes),
            }),
    {
        let append = inner.begin_append(self.header.last_offset_delta, segment_bytes);
        let bytes = encode_batch(append.offset, batch.as_slice());
        Assigned { request: self, append, batch, bytes }
    }
}

/// A batch, its offsets, and where it goes.
pub struct Placement {
    pub request: Request,
    pub append: Append,
    pub batch: Seq<u8>,
}

/// A batch that has its offsets and is to be written.
pub struct Assigned {
    request: Admitted,
    append: Append,
    batch: Vec<u8>,
    bytes: Vec<u8>,
}

impl View for Assigned {
    type V = Placement;

    closed spec fn view(&self) -> Placement {
        Placement { request: self.request@, append: self.append, batch: self.batch@ }
    }
}

impl Assigned {
    #[verifier::type_invariant]
    spec fn inv(self) -> bool {
        self.bytes@ == framed(FrameType::Batch, batch_payload(self.append.offset, self.batch@))
    }

    /// The segment that is to be sealed first, if any.
    pub fn sealed(&self) -> (base: Option<i64>)
        ensures
            base == self@.append.sealed,
    {
        self.append.sealed
    }

    /// The segment that is to be created first, if any.
    pub fn created(&self) -> (base: Option<i64>)
        ensures
            base == (if self@.append.create {
                Some(self@.append.offset)
            } else {
                None
            }),
    {
        if self.append.create {
            Some(self.append.offset)
        } else {
            None
        }
    }

    /// The bytes that are to be written.
    pub fn bytes(&self) -> (bytes: &Vec<u8>)
        ensures
            bytes@ == framed(
                FrameType::Batch,
                batch_payload(self@.append.offset, self@.batch),
            ),
    {
        proof {
            use_type_invariant(self);
        }
        &self.bytes
    }

    /// Takes the segment that was created for the batch as the active one.
    pub fn open_segment(&self, inner: &mut PartitionInner)
        requires
            old(inner).wf(),
        ensures
            final(inner).wf(),
            final(inner).model() == (PartModel {
                writer: Some(SegmentWriter { base_offset: self@.append.offset, position: 0 }),
                ..old(inner).model()
            }),
    {
        inner.open_segment(self.append.offset);
    }

    /// Accounts for the bytes that were written.
    pub fn written(self, inner: &mut PartitionInner) -> (next: Written)
        requires
            old(inner).wf(),
            old(inner).writer matches Some(writer) && writer.position + framed(
                FrameType::Batch,
                batch_payload(self@.append.offset, self@.batch),
            ).len() <= u64::MAX,
        ensures
            final(inner).wf(),
            next@.placement == self@,
            next@.framed_len == framed(
                FrameType::Batch,
                batch_payload(self@.append.offset, self@.batch),
            ).len(),
            old(inner).writer == Some(
                SegmentWriter { base_offset: next@.segment_base, position: next@.position },
            ),
            final(inner).model() == (PartModel {
                writer: Some(
                    SegmentWriter {
                        base_offset: next@.segment_base,
                        position: (next@.position + next@.framed_len) as u64,
                    },
                ),
                ..old(inner).model()
            }),
    {
        proof {
            use_type_invariant(&self);
        }
        let framed_len: u64 = self.bytes.len() as u64;
        let (segment_base, position) = inner.written(framed_len);
        Written { placement: self, segment_base, position, framed_len }
    }
}

/// A batch and the place in its segment where it was written.
pub struct Location {
    pub placement: Placement,
    pub segment_base: i64,
    pub position: u64,
    pub framed_len: u64,
}

/// A batch that was written and is to be indexed.
pub struct Written {
    placement: Assigned,
    segment_base: i64,
    position: u64,
    framed_len: u64,
}

impl View for Written {
    type V = Location;

    closed spec fn view(&self) -> Location {
        Location {
            placement: self.placement@,
            segment_base: self.segment_base,
            position: self.position,
            framed_len: self.framed_len,
        }
    }
}

impl Written {
    /// The bytes that the batch takes on disk.
    pub fn len(&self) -> (bytes: u64)
        ensures
            bytes == self@.framed_len,
    {
        self.framed_len
    }

    /// Indexes the batch; a data batch of a transaction pins the last stable
    /// offset from here on. Readers do not see it yet.
    pub fn record(self, inner: &mut PartitionInner, cache_budget: u64) -> (next: Unsynced)
        requires
            old(inner).wf(),
            i64::MIN <= self@.placement.append.offset
                + self@.placement.request.header.last_offset_delta <= i64::MAX,
            old(inner).cached_bytes + self@.placement.batch.len() <= u64::MAX,
        ensures
            final(inner).wf(),
            final(inner).model() == recorded(
                old(inner).model(),
                self@.placement.append.offset,
                entry_of(
                    self@.placement.request.header,
                    self@.segment_base,
                    self@.position,
                    self@.framed_len,
                    self@.placement.batch,
                ),
                open_key(
                    self@.placement.request.transaction_id,
                    self@.placement.request.header,
                ),
                cache_budget,
            ),
            next@ == (Range {
                request: self@.placement.request,
                offset: self@.placement.append.offset,
                offset_end: self@.placement.append.offset_end,
            }),
    {
        let Assigned { request, append, batch, .. } = self.placement;
        inner.record_batch(
            as_text(&request.transaction_id),
            &request.header,
            append.offset,
            self.segment_base,
            self.position,
            self.framed_len,
            batch,
            cache_budget,
        );
        Unsynced { request, offset: append.offset, offset_end: append.offset_end }
    }
}

/// A batch and its offsets.
pub struct Range {
    pub request: Request,
    pub offset: i64,
    pub offset_end: i64,
}

/// A batch that is indexed and whose sync is awaited.
pub struct Unsynced {
    request: Admitted,
    offset: i64,
    offset_end: i64,
}

impl View for Unsynced {
    type V = Range;

    closed spec fn view(&self) -> Range {
        Range { request: self.request@, offset: self.offset, offset_end: self.offset_end }
    }
}

impl Unsynced {
    /// Lets readers see the batch: its sync was acknowledged.
    pub fn acknowledge(self, inner: &mut PartitionInner) -> (next: Synced)
        requires
            old(inner).wf(),
            self@.offset_end < i64::MAX,
        ensures
            final(inner).wf(),
            final(inner).model() == acknowledged(old(inner).model(), self@.offset_end),
            next@ == self@,
    {
        inner.acknowledge(self.offset_end);
        Synced { request: self.request, offset: self.offset, offset_end: self.offset_end }
    }
}

/// A batch that is durable and is to be recorded with its transaction.
pub struct Synced {
    request: Admitted,
    offset: i64,
    offset_end: i64,
}

impl View for Synced {
    type V = Range;

    closed spec fn view(&self) -> Range {
        Range { request: self.request@, offset: self.offset, offset_end: self.offset_end }
    }
}

impl Synced {
    /// Records the batch with its transaction, if it has one; gives its offset.
    pub fn settle(self, coord: &mut CoordState) -> (result: Result<i64>)
        requires
            old(coord).wf(),
        ensures
            final(coord).wf(),
            ({
                let request = self@.request;
                let header = request.header;
                match settled_txn(old(coord).model(), request.transaction_id, header) {
                    None => {
                        &&& result matches Ok(offset) && offset == self@.offset
                        &&& final(coord).model() == old(coord).model()
                    },
                    Some((id, detail)) => if !header.control && detail.state != Some(
                        TxnState::Begin,
                    ) {
                        &&& refused(result, Fault::Api(ErrorCode::InvalidTxnState))
                        &&& final(coord).model() == old(coord).model()
                    } else {
                        &&& result matches Ok(offset) && offset == self@.offset
                        &&& final(coord).model() == with_txn(
                            old(coord).model(),
                            id,
                            header.producer_epoch,
                            TxnDetailModel {
                                produces: with_cell(
                                    detail.produces,
                                    request.topition.0,
                                    request.topition.1,
                                    Some(
                                        extended(
                                            cell(
                                                detail.produces,
                                                request.topition.0,
                                                request.topition.1,
                                            ),
                                            self@.offset,
                                            self@.offset_end,
                                        ),
                                    ),
                                ),
                                ..detail
                            },
                        )
                    },
                }
            }),
    {
        match settle(
            coord,
            as_text(&self.request.transaction_id),
            &self.request.topition,
            &self.request.header,
            self.offset,
            self.offset_end,
        ) {
            Ok(()) => Ok(self.offset),
            Err(error) => Err(error),
        }
    }
}

} // verus!
