//! The CRC-framed record envelope shared by segment files, the metadata WAL,
//! snapshots and the manifest:
//!
//! ```text
//! magic 0x54 | version u8 | type u8 | flags u8 | payload_len u32 LE | crc32c u32 LE | payload
//! ```
//!
//! CRC32C (Castagnoli) covers the four header bytes plus the payload. The
//! reader's torn-write rule: a short header, bad magic, version or type, an
//! over-long payload, or a CRC mismatch means the file was torn mid-append.
//! Truncate to the record's start and stop: a single append-only writer makes
//! any later bytes unreachable by construction.

use crate::codec::{
    get_u32_le, le_bytes, le_value, lemma_le_bytes_len, lemma_le_round_trip, lemma_pow256,
    put_u32_le,
};
use crate::error::{refused, Error, Fault, Result};
use crate::text::{concat, decimal, decimal_text};
use vstd::prelude::*;

verus! {

pub const MAGIC: u8 = 0x54;

pub const VERSION: u8 = 1;

pub const HEADER_LEN: usize = 12;

/// Record kinds share one namespace across all file types, so a frame landing
/// in the wrong file is caught by type, not just by parse failure.
#[derive(Clone, Copy, Debug, PartialEq, Eq, Structural)]
pub enum FrameType {
    Batch,
    Wal,
    Snapshot,
    Manifest,
}

/// The byte that stands for a record kind.
pub open spec fn type_code(frame_type: FrameType) -> u8 {
    match frame_type {
        FrameType::Batch => 1,
        FrameType::Wal => 2,
        FrameType::Snapshot => 3,
        FrameType::Manifest => 4,
    }
}

/// The record kind that a byte stands for.
pub open spec fn type_of(code: u8) -> Option<FrameType> {
    if code == 1 {
        Some(FrameType::Batch)
    } else if code == 2 {
        Some(FrameType::Wal)
    } else if code == 3 {
        Some(FrameType::Snapshot)
    } else if code == 4 {
        Some(FrameType::Manifest)
    } else {
        None
    }
}

impl FrameType {
    pub fn code(self) -> (code: u8)
        ensures
            code == type_code(self),
    {
        match self {
            FrameType::Batch => 1,
            FrameType::Wal => 2,
            FrameType::Snapshot => 3,
            FrameType::Manifest => 4,
        }
    }

    pub fn try_from(value: u8) -> (result: Result<Self>)
        ensures
            match type_of(value) {
                Some(t) => result == Ok::<FrameType, Error>(t),
                None => refused(
                    result,
                    Fault::Message("nvme frame type: "@ + decimal(value as nat)),
                ),
            },
    {
        match value {
            1 => Ok(FrameType::Batch),
            2 => Ok(FrameType::Wal),
            3 => Ok(FrameType::Snapshot),
            4 => Ok(FrameType::Manifest),
            otherwise => Err(
                Error::Message(
                    concat("nvme frame type: ", decimal_text(otherwise as u64).as_str()),
                ),
            ),
        }
    }
}

/// The CRC-32C of bytes.
pub uninterp spec fn crc32c_of(bytes: Seq<u8>) -> u32;

/// `crc_fast::Digest` over CRC-32/ISCSI, fed the header and then the payload:
/// its final value is that of the two behind one another, and fits 32 bits.
/// The polynomial arithmetic is left unsaid.
#[verifier::external_body]
fn crc32c(header: &[u8], payload: &[u8]) -> (crc: u32)
    ensures
        crc == crc32c_of(header@ + payload@),
{
    let mut digest = crc_fast::Digest::new(crc_fast::CrcAlgorithm::Crc32Iscsi);
    digest.update(header);
    digest.update(payload);
    digest.finalize() as u32
}

/// The four header bytes of a frame that the engine writes.
pub open spec fn header(frame_type: FrameType) -> Seq<u8> {
    seq![MAGIC, VERSION, type_code(frame_type), 0]
}

/// A payload in its frame. The length field holds the low 32 bits of the
/// payload's length.
pub open spec fn framed(frame_type: FrameType, payload: Seq<u8>) -> Seq<u8> {
    header(frame_type) + le_bytes(payload.len() % 0x1_0000_0000, 4) + le_bytes(
        crc32c_of(header(frame_type) + payload) as nat,
        4,
    ) + payload
}

/// Frame a payload for appending.
pub fn encode(frame_type: FrameType, payload: &[u8]) -> (out: Vec<u8>)
    ensures
        out@ == framed(frame_type, payload@),
{
    let mut out: Vec<u8> = Vec::new();
    out.push(MAGIC);
    out.push(VERSION);
    out.push(frame_type.code());
    out.push(0);
    assert(out@ =~= header(frame_type));
    let crc = crc32c(out.as_slice(), payload);
    let len: u32 = (payload.len() as u64 % 0x1_0000_0000) as u32;
    put_u32_le(&mut out, len);
    put_u32_le(&mut out, crc);
    out.extend_from_slice(payload);
    assert(out@ =~= framed(frame_type, payload@));
    out
}

/// One decoded frame.
#[derive(Debug)]
pub struct Frame {
    pub frame_type: FrameType,
    pub payload: Vec<u8>,
}

impl Frame {
    /// The frame's size on disk.
    pub fn size_on_disk(&self) -> (size: usize)
        requires
            HEADER_LEN + self.payload@.len() <= usize::MAX,
        ensures
            size == HEADER_LEN + self.payload@.len(),
    {
        HEADER_LEN + self.payload.len()
    }
}

/// The reader's verdict on the bytes at one position.
#[derive(Debug)]
pub enum Decoded {
    Frame(Frame),
    /// End of well-formed data: everything from this position on is a torn
    /// tail (or clean end of file) and must be truncated away.
    Torn,
}

impl View for Decoded {
    type V = Option<(FrameType, Seq<u8>)>;

    open spec fn view(&self) -> Option<(FrameType, Seq<u8>)> {
        match self {
            Decoded::Frame(frame) => Some((frame.frame_type, frame.payload@)),
            Decoded::Torn => None,
        }
    }
}

/// The payload length that a header announces.
pub open spec fn announced(bytes: Seq<u8>) -> nat {
    le_value(bytes.subrange(4, 8))
}

/// The frame at the start of `bytes`, if one stands there whole.
pub open spec fn frame_at_start(bytes: Seq<u8>) -> Option<(FrameType, Seq<u8>)> {
    if bytes.len() < HEADER_LEN || bytes[0] != MAGIC || bytes[1] != VERSION {
        None
    } else if type_of(bytes[2]) is None || bytes.len() - HEADER_LEN < announced(bytes) {
        None
    } else {
        let payload = bytes.subrange(HEADER_LEN as int, HEADER_LEN + announced(bytes));
        if crc32c_of(bytes.take(4) + payload) as nat == le_value(bytes.subrange(8, 12)) {
            Some((type_of(bytes[2])->0, payload))
        } else {
            None
        }
    }
}

/// Decode the frame at the start of `bytes` (which may hold trailing data).
pub fn decode(bytes: &[u8]) -> (decoded: Decoded)
    ensures
        decoded@ == frame_at_start(bytes@),
        decoded matches Decoded::Frame(frame) ==> HEADER_LEN + frame.payload@.len() <= bytes@.len(),
{
    let len: usize = bytes.len();
    if len < HEADER_LEN {
        return Decoded::Torn;
    }
    let payload_len: u32 = get_u32_le(bytes, 4);
    let crc: u32 = get_u32_le(bytes, 8);
    if bytes[0] != MAGIC || bytes[1] != VERSION {
        return Decoded::Torn;
    }
    let frame_type = match FrameType::try_from(bytes[2]) {
        Ok(frame_type) => frame_type,
        Err(_) => {
            return Decoded::Torn;
        },
    };
    if ((len - HEADER_LEN) as u64) < payload_len as u64 {
        return Decoded::Torn;
    }
    let end: usize = HEADER_LEN + payload_len as usize;
    let payload = vstd::slice::slice_subrange(bytes, HEADER_LEN, end);
    // The CRC is over the header bytes as stored (flags with them), not as assumed.
    let head = vstd::slice::slice_subrange(bytes, 0, 4);
    assert(head@ =~= bytes@.take(4));
    if crc32c(head, payload) != crc {
        return Decoded::Torn;
    }
    Decoded::Frame(Frame { frame_type, payload: vstd::slice::slice_to_vec(payload) })
}

/// A frame decodes to what was framed, whatever stands behind it. (A payload
/// of 4 GiB or more outgrows the length field.)
pub proof fn law_round_trip(frame_type: FrameType, payload: Seq<u8>, trailing: Seq<u8>)
    requires
        payload.len() < 0x1_0000_0000,
    ensures
        frame_at_start(framed(frame_type, payload) + trailing) == Some((frame_type, payload)),
        framed(frame_type, payload).len() == HEADER_LEN + payload.len(),
{
    let crc = crc32c_of(header(frame_type) + payload);
    lemma_pow256();
    lemma_le_bytes_len(payload.len(), 4);
    lemma_le_bytes_len(crc as nat, 4);
    lemma_le_round_trip(payload.len(), 4);
    lemma_le_round_trip(crc as nat, 4);
    let bytes = framed(frame_type, payload) + trailing;
    assert(bytes.take(4) =~= header(frame_type));
    assert(bytes.subrange(4, 8) =~= le_bytes(payload.len(), 4));
    assert(bytes.subrange(8, 12) =~= le_bytes(crc as nat, 4));
    assert(bytes.subrange(HEADER_LEN as int, HEADER_LEN + payload.len()) =~= payload);
}

/// A frame cut short anywhere is torn.
pub proof fn law_truncated_is_torn(frame_type: FrameType, payload: Seq<u8>, cut: int)
    requires
        payload.len() < 0x1_0000_0000,
        0 <= cut < framed(frame_type, payload).len(),
    ensures
        frame_at_start(framed(frame_type, payload).take(cut)) is None,
{
    let crc = crc32c_of(header(frame_type) + payload);
    lemma_pow256();
    lemma_le_bytes_len(payload.len(), 4);
    lemma_le_bytes_len(crc as nat, 4);
    lemma_le_round_trip(payload.len(), 4);
    let bytes = framed(frame_type, payload).take(cut);
    if cut >= HEADER_LEN {
        assert(bytes.subrange(4, 8) =~= le_bytes(payload.len(), 4));
    }
}

/// What a frame decodes to depends on no byte behind it.
pub proof fn law_trailing_bytes_ignored(bytes: Seq<u8>, trailing: Seq<u8>)
    requires
        frame_at_start(bytes) is Some,
    ensures
        frame_at_start(bytes + trailing) == frame_at_start(bytes),
{
    let more = bytes + trailing;
    assert(more.take(4) =~= bytes.take(4));
    assert(more.subrange(4, 8) =~= bytes.subrange(4, 8));
    assert(more.subrange(8, 12) =~= bytes.subrange(8, 12));
    assert(more.subrange(HEADER_LEN as int, HEADER_LEN + announced(bytes)) =~= bytes.subrange(
        HEADER_LEN as int,
        HEADER_LEN + announced(bytes),
    ));
}

/// A decoded frame takes up no more than the bytes it was decoded from.
pub proof fn lemma_frame_fits(bytes: Seq<u8>)
    requires
        frame_at_start(bytes) is Some,
    ensures
        HEADER_LEN + frame_at_start(bytes).unwrap().1.len() <= bytes.len(),
{
}

} // verus!
