//! Segment files: `{base_offset:020}.seg`, a run of batch frames whose payload
//! is `base_offset i64 LE | raw batch bytes`. Sequential append by exactly one
//! writer; reads are positioned.

use crate::codec::{
    get_i64_le, le_bytes, le_value, lemma_le_bytes_len, lemma_le_round_trip, lemma_pow256,
    put_i64_le, signed, unsigned,
};
use crate::error::{refused, Error, Fault, Result};
use crate::frame::{
    decode, encode, frame_at_start, framed, law_round_trip, law_trailing_bytes_ignored,
    lemma_frame_fits, Decoded, FrameType, HEADER_LEN,
};
use crate::sorting::{all_models, in_order, sort};
use crate::text::{
    concat, decimal, decimal_text, integer_value, join, lemma_padded_reads_back, lemma_stem, padded,
    padded_text, parse_integer, path_in, stem, strip_suffix,
};
use vstd::prelude::*;

verus! {

/// The name of the segment that begins at an offset.
pub open spec fn segment_name(base_offset: i64) -> Seq<char> {
    padded(base_offset as int, 20) + ".seg"@
}

pub fn segment_path(dir: &str, base_offset: i64) -> (path: String)
    ensures
        path@ == path_in(dir@, segment_name(base_offset)),
{
    let name = concat(padded_text(base_offset, 20).as_str(), ".seg");
    join(dir, name.as_str())
}

/// What the frame of a batch holds.
pub open spec fn batch_payload(base_offset: i64, batch: Seq<u8>) -> Seq<u8> {
    le_bytes(unsigned(base_offset), 8) + batch
}

/// Frame a batch for the segment log.
pub fn encode_batch(base_offset: i64, batch: &[u8]) -> (out: Vec<u8>)
    ensures
        out@ == framed(FrameType::Batch, batch_payload(base_offset, batch@)),
{
    let mut payload: Vec<u8> = Vec::new();
    put_i64_le(&mut payload, base_offset);
    payload.extend_from_slice(batch);
    assert(payload@ =~= batch_payload(base_offset, batch@));
    encode(FrameType::Batch, payload.as_slice())
}

/// The active (tail) segment of one partition.
#[derive(Clone, Copy, Debug, PartialEq, Eq, Structural)]
pub struct SegmentWriter {
    pub base_offset: i64,
    /// Bytes appended so far (buffered writes among them).
    pub position: u64,
}

impl SegmentWriter {
    /// A fresh, empty segment.
    pub fn create(base_offset: i64) -> (writer: Self)
        ensures
            writer == (SegmentWriter { base_offset, position: 0 }),
    {
        SegmentWriter { base_offset, position: 0 }
    }

    /// Accounts for framed bytes that were appended; returns where the frame
    /// starts. Durability is the caller's job.
    pub fn append(&mut self, len: u64) -> (position: u64)
        requires
            old(self).position + len <= u64::MAX,
        ensures
            position == old(self).position,
            *final(self) == (SegmentWriter {
                position: (old(self).position + len) as u64,
                ..*old(self)
            }),
    {
        let position = self.position;
        self.position = self.position + len;
        position
    }
}

/// One recovered batch and its location.
#[derive(Debug)]
pub struct ScannedBatch {
    pub base_offset: i64,
    pub file_position: u64,
    pub len: u32,
    pub batch: Vec<u8>,
}

/// What a [`ScannedBatch`] says.
pub struct Scanned {
    pub base_offset: i64,
    pub file_position: int,
    pub len: nat,
    pub batch: Seq<u8>,
}

impl View for ScannedBatch {
    type V = Scanned;

    open spec fn view(&self) -> Scanned {
        Scanned {
            base_offset: self.base_offset,
            file_position: self.file_position as int,
            len: self.len as nat,
            batch: self.batch@,
        }
    }
}

/// The batches that a scan found.
pub open spec fn scanned_views(batches: Seq<ScannedBatch>) -> Seq<Scanned> {
    Seq::new(batches.len(), |i: int| batches[i]@)
}

/// The batch framed at the start of `bytes`: its base offset and its bytes.
pub open spec fn batch_at_start(bytes: Seq<u8>) -> Option<(i64, Seq<u8>)> {
    match frame_at_start(bytes) {
        Some((FrameType::Batch, payload)) => if payload.len() < 8 {
            None
        } else {
            Some((signed(le_value(payload.take(8))) as i64, payload.skip(8)))
        },
        _ => None,
    }
}

/// The well-formed batches of a segment from a position on, and where they end.
pub open spec fn scan_from(bytes: Seq<u8>, at: int) -> (Seq<Scanned>, int)
    decreases bytes.len() - at,
{
    if at < 0 || at >= bytes.len() {
        (Seq::empty(), at)
    } else {
        match batch_at_start(bytes.skip(at)) {
            Some((base_offset, batch)) => {
                let size = HEADER_LEN + 8 + batch.len();
                let (more, end) = scan_from(bytes, at + size);
                let found = Scanned {
                    base_offset,
                    file_position: at,
                    len: (size % 0x1_0000_0000) as nat,
                    batch,
                };
                (seq![found] + more, end)
            },
            None => (Seq::empty(), at),
        }
    }
}

/// Scan a segment's bytes, yielding the well-formed batches and the length of
/// the valid prefix. A torn tail (crash mid-append) ends the scan; the caller
/// truncates the file to the valid length.
pub fn scan_segment(bytes: &[u8]) -> (result: (Vec<ScannedBatch>, u64))
    ensures
        (scanned_views(result.0@), result.1 as int) == scan_from(bytes@, 0),
        result.1 <= bytes@.len(),
{
    let mut batches: Vec<ScannedBatch> = Vec::new();
    let mut position: usize = 0;
    let ghost whole = scan_from(bytes@, 0);
    proof {
        assert(scanned_views(batches@) + scan_from(bytes@, 0).0 =~= whole.0);
    }
    let len: usize = bytes.len();
    while position < len
        invariant
            len == bytes@.len(),
            position <= len,
            whole == scan_from(bytes@, 0),
            whole.0 == scanned_views(batches@) + scan_from(bytes@, position as int).0,
            whole.1 == scan_from(bytes@, position as int).1,
        decreases len - position,
    {
        let here = vstd::slice::slice_subrange(bytes, position, len);
        assert(here@ =~= bytes@.skip(position as int));
        match decode(here) {
            Decoded::Frame(frame) => {
                if !matches!(frame.frame_type, FrameType::Batch) || frame.payload.len() < 8 {
                    // A foreign frame, or one too short for its base offset.
                    assert(batch_at_start(here@) is None);
                    assert(whole.0 =~= scanned_views(batches@));
                    return (batches, position as u64);
                }
                let size: usize = frame.size_on_disk();
                let base_offset = get_i64_le(frame.payload.as_slice(), 0);
                let batch = vstd::slice::slice_to_vec(
                    vstd::slice::slice_subrange(frame.payload.as_slice(), 8, frame.payload.len()),
                );
                let ghost before = batches@;
                batches.push(
                    ScannedBatch {
                        base_offset,
                        file_position: position as u64,
                        len: (size as u64 % 0x1_0000_0000) as u32,
                        batch,
                    },
                );
                proof {
                    let payload = frame.payload@;
                    assert(payload.subrange(0, 8) =~= payload.take(8));
                    assert(payload.subrange(8, payload.len() as int) =~= payload.skip(8));
                    assert(batch_at_start(here@) == Some((base_offset, batch@)));
                    assert(scanned_views(batches@) =~= scanned_views(before).push(
                        batches@.last()@,
                    ));
                    assert(scanned_views(batches@) + scan_from(bytes@, position + size).0
                        =~= scanned_views(before) + scan_from(bytes@, position as int).0);
                }
                position += size;
            },
            Decoded::Torn => {
                assert(batch_at_start(here@) is None);
                assert(whole.0 =~= scanned_views(batches@));
                return (batches, position as u64);
            },
        }
    }
    assert(whole.0 =~= scanned_views(batches@));
    (batches, position as u64)
}

/// The raw bytes of the batch in one frame, read from `position` of a segment.
pub fn read_batch_at(frame_bytes: &[u8], position: u64) -> (result: Result<Vec<u8>>)
    ensures
        match frame_at_start(frame_bytes@) {
            Some((FrameType::Batch, payload)) => if payload.len() < 8 {
                refused(result, Fault::Message("nvme segment pread: short payload"@))
            } else {
                result matches Ok(batch) && batch@ == payload.skip(8)
            },
            _ => refused(
                result,
                Fault::Message("nvme segment pread: bad frame at "@ + decimal(position as nat)),
            ),
        },
{
    match batch_bytes(frame_bytes) {
        BatchRead::Batch(batch) => Ok(batch),
        BatchRead::ShortPayload => Err(
            Error::Message("nvme segment pread: short payload".to_owned()),
        ),
        BatchRead::BadFrame => Err(
            Error::Message(
                concat(
                    "nvme segment pread: bad frame at ",
                    decimal_text(position).as_str(),
                ),
            ),
        ),
    }
}

/// What the bytes of one batch frame hold.
#[derive(Debug)]
pub enum BatchRead {
    Batch(Vec<u8>),
    /// A batch frame too short for its base offset.
    ShortPayload,
    /// No batch frame.
    BadFrame,
}

/// Unpacks one batch frame.
pub fn batch_bytes(frame_bytes: &[u8]) -> (read: BatchRead)
    ensures
        match frame_at_start(frame_bytes@) {
            Some((FrameType::Batch, payload)) => if payload.len() < 8 {
                read is ShortPayload
            } else {
                read matches BatchRead::Batch(batch) && batch@ == payload.skip(8)
            },
            _ => read is BadFrame,
        },
{
    match decode(frame_bytes) {
        Decoded::Frame(frame) => {
            if !matches!(frame.frame_type, FrameType::Batch) {
                return BatchRead::BadFrame;
            }
            if frame.payload.len() < 8 {
                return BatchRead::ShortPayload;
            }
            let batch = vstd::slice::slice_to_vec(
                vstd::slice::slice_subrange(frame.payload.as_slice(), 8, frame.payload.len()),
            );
            assert(batch@ =~= frame.payload@.skip(8));
            BatchRead::Batch(batch)
        },
        Decoded::Torn => BatchRead::BadFrame,
    }
}

/// The base offset that a file name says, if it has a suffix.
pub open spec fn base_of_name(name: Seq<char>, suffix: Seq<char>) -> Option<i64> {
    match stem(name, suffix) {
        Some(digits) => integer_value(digits),
        None => None,
    }
}

/// The base offsets that the names with a suffix say.
pub open spec fn bases_of(names: Seq<String>, suffix: Seq<char>) -> Seq<i64>
    decreases names.len(),
{
    if names.len() == 0 {
        Seq::empty()
    } else {
        match base_of_name(names.last()@, suffix) {
            Some(base) => bases_of(names.drop_last(), suffix).push(base),
            None => bases_of(names.drop_last(), suffix),
        }
    }
}

/// Base offsets of the segments among a directory's file names, ascending.
pub fn segment_bases(names: &Vec<String>) -> (bases: Vec<i64>)
    ensures
        in_order::<i64>(bases@),
        bases@.to_multiset() == bases_of(names@, ".seg"@).to_multiset(),
{
    sorted_bases(names, ".seg")
}

/// The base offsets that the names with a suffix say, ascending.
pub fn sorted_bases(names: &Vec<String>, suffix: &str) -> (bases: Vec<i64>)
    ensures
        in_order::<i64>(bases@),
        bases@.to_multiset() == bases_of(names@, suffix@).to_multiset(),
{
    let mut found: Vec<i64> = Vec::new();
    let mut i: usize = 0;
    while i < names.len()
        invariant
            i <= names@.len(),
            found@ == bases_of(names@.take(i as int), suffix@),
        decreases names@.len() - i,
    {
        proof {
            assert(names@.take(i + 1).drop_last() =~= names@.take(i as int));
        }
        if let Some(digits) = strip_suffix(names[i].as_str(), suffix) {
            if let Some(base) = parse_integer(digits.as_str()) {
                found.push(base);
            }
        }
        i += 1;
    }
    proof {
        assert(names@.take(i as int) =~= names@);
        assert(all_models(found@) =~= found@);
    }
    let bases = sort(found);
    assert(all_models(bases@) =~= bases@);
    bases
}

/// The name given to a segment says its base offset.
pub proof fn law_segment_name_reads_back(base_offset: i64)
    ensures
        base_of_name(segment_name(base_offset), ".seg"@) == Some(base_offset),
{
    lemma_stem(padded(base_offset as int, 20), ".seg"@);
    lemma_padded_reads_back(base_offset as int, 20);
}

proof fn lemma_batch_payload(base_offset: i64, batch: Seq<u8>)
    ensures
        batch_payload(base_offset, batch).len() == 8 + batch.len(),
        batch_payload(base_offset, batch).skip(8) == batch,
        signed(le_value(batch_payload(base_offset, batch).take(8))) == base_offset,
{
    lemma_pow256();
    lemma_le_bytes_len(unsigned(base_offset), 8);
    lemma_le_round_trip(unsigned(base_offset), 8);
    let payload = batch_payload(base_offset, batch);
    assert(payload.take(8) =~= le_bytes(unsigned(base_offset), 8));
    assert(payload.skip(8) =~= batch);
}

/// A framed batch reads back, whatever stands behind it.
pub proof fn law_batch_round_trip(base_offset: i64, batch: Seq<u8>, trailing: Seq<u8>)
    requires
        batch.len() + 8 < 0x1_0000_0000,
    ensures
        batch_at_start(
            framed(FrameType::Batch, batch_payload(base_offset, batch)) + trailing,
        ) == Some((base_offset, batch)),
{
    lemma_batch_payload(base_offset, batch);
    law_round_trip(FrameType::Batch, batch_payload(base_offset, batch), trailing);
}

/// The bytes of a segment to which batches were appended one after another.
pub open spec fn segment_bytes(batches: Seq<(i64, Seq<u8>)>) -> Seq<u8>
    decreases batches.len(),
{
    if batches.len() == 0 {
        Seq::empty()
    } else {
        segment_bytes(batches.drop_last()) + framed(
            FrameType::Batch,
            batch_payload(batches.last().0, batches.last().1),
        )
    }
}

/// The same batches with the places they were appended at.
pub open spec fn located(batches: Seq<(i64, Seq<u8>)>) -> Seq<Scanned>
    decreases batches.len(),
{
    if batches.len() == 0 {
        Seq::empty()
    } else {
        located(batches.drop_last()).push(
            Scanned {
                base_offset: batches.last().0,
                file_position: segment_bytes(batches.drop_last()).len() as int,
                len: ((HEADER_LEN + 8 + batches.last().1.len()) % 0x1_0000_0000) as nat,
                batch: batches.last().1,
            },
        )
    }
}

proof fn lemma_scan_step(bytes: Seq<u8>, at: int, base_offset: i64, batch: Seq<u8>)
    requires
        0 <= at < bytes.len(),
        batch_at_start(bytes.skip(at)) == Some((base_offset, batch)),
    ensures
        ({
            let size = HEADER_LEN + 8 + batch.len();
            let found = Scanned {
                base_offset,
                file_position: at,
                len: (size % 0x1_0000_0000) as nat,
                batch,
            };
            scan_from(bytes, at) == (
                seq![found] + scan_from(bytes, at + size).0,
                scan_from(bytes, at + size).1,
            )
        }),
{
}

proof fn lemma_scan_prefix(batches: Seq<(i64, Seq<u8>)>, tail: Seq<u8>)
    requires
        forall|i: int|
            0 <= i < batches.len() ==> (#[trigger] batches[i]).1.len() + 8 < 0x1_0000_0000,
    ensures
        scan_from(segment_bytes(batches) + tail, 0) == (
            located(batches) + scan_from(
                segment_bytes(batches) + tail,
                segment_bytes(batches).len() as int,
            ).0,
            scan_from(
                segment_bytes(batches) + tail,
                segment_bytes(batches).len() as int,
            ).1,
        ),
    decreases batches.len(),
{
    if batches.len() == 0 {
        assert(segment_bytes(batches) + tail =~= tail);
        assert(located(batches) + scan_from(tail, 0).0 =~= scan_from(tail, 0).0);
    } else {
        let init = batches.drop_last();
        let (base, batch) = batches.last();
        let last = framed(FrameType::Batch, batch_payload(base, batch));
        let all = segment_bytes(batches) + tail;
        let at = segment_bytes(init).len() as int;
        assert forall|i: int| 0 <= i < init.len() implies (#[trigger] init[i]).1.len() + 8
            < 0x1_0000_0000 by {
            assert(init[i] == batches[i]);
        }
        assert(batches[batches.len() - 1].1.len() + 8 < 0x1_0000_0000);
        lemma_scan_prefix(init, last + tail);
        assert(segment_bytes(init) + (last + tail) =~= all);
        assert(all.skip(at) =~= last + tail);
        law_batch_round_trip(base, batch, tail);
        assert(last.len() == HEADER_LEN + 8 + batch.len()) by {
            lemma_batch_payload(base, batch);
            law_round_trip(FrameType::Batch, batch_payload(base, batch), tail);
        }
        lemma_scan_step(all, at, base, batch);
        let end = segment_bytes(batches).len() as int;
        assert(end == at + HEADER_LEN + 8 + batch.len());
        let found = located(batches).last();
        assert(located(batches) =~= located(init).push(found));
        assert(located(init) + (seq![found] + scan_from(all, end).0) =~= located(init).push(found)
            + scan_from(all, end).0);
    }
}

/// A scan gives back exactly the batches that were appended, each at its
/// place, and finds the length of what was whole, whatever torn tail a crash
/// left behind them.
pub proof fn law_scan_recovers_appended(batches: Seq<(i64, Seq<u8>)>, torn: Seq<u8>)
    requires
        forall|i: int|
            0 <= i < batches.len() ==> (#[trigger] batches[i]).1.len() + 8 < 0x1_0000_0000,
        batch_at_start(torn) is None,
    ensures
        scan_from(segment_bytes(batches) + torn, 0) == (
            located(batches),
            segment_bytes(batches).len() as int,
        ),
{
    lemma_scan_prefix(batches, torn);
    let all = segment_bytes(batches) + torn;
    let at = segment_bytes(batches).len() as int;
    assert(all.skip(at) =~= torn);
    assert(scan_from(all, at) == (Seq::<Scanned>::empty(), at));
    assert(located(batches) + Seq::<Scanned>::empty() =~= located(batches));
}

proof fn lemma_scan_end(bytes: Seq<u8>, at: int)
    requires
        0 <= at <= bytes.len(),
    ensures
        at <= scan_from(bytes, at).1 <= bytes.len(),
    decreases bytes.len() - at,
{
    if at < bytes.len() {
        if batch_at_start(bytes.skip(at)) is Some {
            lemma_frame_fits(bytes.skip(at));
            let batch = batch_at_start(bytes.skip(at)).unwrap().1;
            lemma_scan_end(bytes, at + HEADER_LEN + 8 + batch.len());
        }
    }
}

proof fn lemma_scan_truncated(bytes: Seq<u8>, at: int)
    requires
        0 <= at <= bytes.len(),
    ensures
        scan_from(bytes.take(scan_from(bytes, at).1), at) == scan_from(bytes, at),
    decreases bytes.len() - at,
{
    lemma_scan_end(bytes, at);
    let end = scan_from(bytes, at).1;
    let cut = bytes.take(end);
    if at < bytes.len() && batch_at_start(bytes.skip(at)) is Some {
        let here = bytes.skip(at);
        lemma_frame_fits(here);
        let (base, batch) = batch_at_start(here).unwrap();
        let size = HEADER_LEN + 8 + batch.len();
        lemma_scan_end(bytes, at + size);
        lemma_scan_truncated(bytes, at + size);
        // The frame ends before the cut, so it decodes alike on either side.
        let frame = here.take(size as int);
        lemma_frame_within(here, size as int);
        assert(here =~= frame + here.skip(size as int));
        assert(cut.skip(at) =~= frame + cut.skip(at + size));
        law_trailing_bytes_ignored(frame, here.skip(size as int));
        law_trailing_bytes_ignored(frame, cut.skip(at + size));
    }
}

/// A frame decodes from its own bytes alone.
proof fn lemma_frame_within(bytes: Seq<u8>, size: int)
    requires
        frame_at_start(bytes) is Some,
        size == HEADER_LEN + frame_at_start(bytes).unwrap().1.len(),
    ensures
        frame_at_start(bytes.take(size)) == frame_at_start(bytes),
{
    let own = bytes.take(size);
    assert(own.take(4) =~= bytes.take(4));
    assert(own.subrange(4, 8) =~= bytes.subrange(4, 8));
    assert(own.subrange(8, 12) =~= bytes.subrange(8, 12));
    assert(own.subrange(HEADER_LEN as int, size) =~= bytes.subrange(HEADER_LEN as int, size));
}

/// Truncating a segment to its valid length loses no batch: the truncated file
/// scans to the same batches, all of it valid.
pub proof fn law_truncation_keeps_batches(bytes: Seq<u8>)
    ensures
        0 <= scan_from(bytes, 0).1 <= bytes.len(),
        scan_from(bytes.take(scan_from(bytes, 0).1), 0) == scan_from(bytes, 0),
{
    lemma_scan_end(bytes, 0);
    lemma_scan_truncated(bytes, 0);
}

} // verus!
