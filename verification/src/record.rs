//! The frame of a record.
//!
//! Every record is written as a fixed 8-byte header followed by its payload:
//!
//! ```text
//! +-----------+-----------+----------------------+
//! | crc32c    | length    | payload              |
//! | 4 bytes   | 4 bytes   | `length` bytes       |
//! +-----------+-----------+----------------------+
//! ```
//!
//! All integers are little-endian. The checksum covers everything after it: the
//! length and the payload. The sequence number of a record is the offset at which
//! its frame begins, so the frame does not hold it.

use crate::bytes::{from_le32, le32, le32_bytes, le32_reads_back, read_le32};
use crate::checksum::{checksum, checksum_append, checksum_streams, crc32c_of};
use vstd::prelude::*;
use vstd::slice::slice_subrange;

verus! {

/// Byte offset of the checksum within the header.
pub const CRC_OFFSET: usize = 0;

/// Byte offset of the payload length within the header.
pub const LEN_OFFSET: usize = 4;

/// Size of the header in bytes.
pub const HEADER_LEN: usize = 8;

/// The fields of a record header. The payload still has to be read and checked
/// against the checksum.
#[derive(Debug, Clone, Copy)]
pub struct Header {
    /// Stored checksum of the length and the payload.
    pub crc: u32,
    /// Declared payload length in bytes, untrusted until the checksum verifies.
    pub len: u32,
}

/// The part of a frame that the checksum covers: the length, then the payload.
pub open spec fn body(payload: Seq<u8>) -> Seq<u8> {
    le32(payload.len() as u32) + payload
}

/// The frame of `payload`: the checksum of the body, then the body.
pub open spec fn frame(payload: Seq<u8>) -> Seq<u8> {
    le32(crc32c_of(body(payload))) + body(payload)
}

/// The header whose bytes are `bytes`.
pub open spec fn header_of(bytes: Seq<u8>) -> Header {
    Header {
        crc: from_le32(bytes.subrange(0, 4)),
        len: from_le32(bytes.subrange(4, 8)),
    }
}

/// The size of the frame of a payload of `payload_len` bytes.
pub open spec fn framed_size(payload_len: nat) -> nat {
    HEADER_LEN as nat + payload_len
}

/// A frame is the header and the payload, nothing else.
pub proof fn frame_has_its_size(payload: Seq<u8>)
    ensures
        frame(payload).len() == framed_size(payload.len()),
        body(payload).len() == 4 + payload.len(),
{
    le32_reads_back();
}

/// A frame reads back as what was framed: its header declares the payload's
/// length and the checksum of the rest, and behind the header stands the payload.
pub proof fn frame_reads_back(payload: Seq<u8>)
    requires
        payload.len() <= u32::MAX,
    ensures
        ({
            let bytes = frame(payload);
            &&& header_of(bytes.take(8)) == (Header {
                crc: crc32c_of(body(payload)),
                len: payload.len() as u32,
            })
            &&& bytes.subrange(4, 8) + payload == body(payload)
            &&& bytes.skip(8) == payload
        }),
{
    le32_reads_back();
    let bytes = frame(payload);
    let crc = crc32c_of(body(payload));
    assert(bytes.take(8).subrange(0, 4) =~= le32(crc));
    assert(bytes.take(8).subrange(4, 8) =~= le32(payload.len() as u32));
    assert(bytes.subrange(4, 8) + payload =~= body(payload));
    assert(bytes.skip(8) =~= payload);
}

/// A frame is eight bytes and the payload: four bytes of checksum over all that follows
/// them, four bytes of length, and the payload unchanged.
pub proof fn frame_is_header_and_payload(payload: Seq<u8>)
    requires
        payload.len() <= u32::MAX,
    ensures
        framed_size(payload.len()) == 8 + payload.len(),
        frame(payload).len() == 8 + payload.len(),
        frame(payload).take(4) == le32(crc32c_of(frame(payload).skip(4))),
        frame(payload).subrange(4, 8) == le32(payload.len() as u32),
        frame(payload).skip(8) == payload,
{
    frame_has_its_size(payload);
    frame_reads_back(payload);
    le32_reads_back();
    assert(frame(payload).take(4) =~= le32(crc32c_of(body(payload))));
    assert(frame(payload).skip(4) =~= body(payload));
    assert(frame(payload).subrange(4, 8) =~= le32(payload.len() as u32));
}

/// A header reads as the two numbers whose bytes it holds.
pub proof fn header_is_its_bytes(bytes: Seq<u8>)
    requires
        bytes.len() == 8,
    ensures
        le32(header_of(bytes).crc) == bytes.take(4),
        le32(header_of(bytes).len) == bytes.skip(4),
{
    le32_reads_back();
    assert(bytes.subrange(0, 4) =~= bytes.take(4));
    assert(bytes.subrange(4, 8) =~= bytes.skip(4));
}

/// Different payloads have different frames.
pub proof fn frames_are_distinct(a: Seq<u8>, b: Seq<u8>)
    requires
        a.len() <= u32::MAX,
        b.len() <= u32::MAX,
        frame(a) == frame(b),
    ensures
        a == b,
{
    frame_reads_back(a);
    frame_reads_back(b);
}

/// The size of the frame of a payload of `payload_len` bytes.
pub fn framed_len(payload_len: u32) -> (size: u64)
    ensures
        size == framed_size(payload_len as nat),
{
    HEADER_LEN as u64 + payload_len as u64
}

/// Replace the checksum field, the first four bytes of `buf`, by `crc`.
pub fn seal(buf: &mut Vec<u8>, crc: u32)
    requires
        old(buf)@.len() >= LEN_OFFSET,
    ensures
        final(buf)@ == le32(crc) + old(buf)@.skip(LEN_OFFSET as int),
{
    let bytes = le32_bytes(crc);
    let ghost before = buf@;
    let mut i: usize = CRC_OFFSET;
    while i < LEN_OFFSET
        invariant
            i <= LEN_OFFSET,
            bytes@ == le32(crc),
            bytes@.len() == LEN_OFFSET,
            buf@.len() == before.len(),
            before.len() >= LEN_OFFSET,
            forall|j: int| 0 <= j < i ==> buf@[j] == bytes@[j],
            forall|j: int| i <= j < before.len() ==> buf@[j] == before[j],
        decreases LEN_OFFSET - i,
    {
        buf[i] = bytes[i];
        i += 1;
    }
    assert(buf@ =~= le32(crc) + before.skip(LEN_OFFSET as int));
}

/// Frame `payload` into `buf`, replacing whatever `buf` held.
///
/// `buf` is the caller's scratch space: it is cleared and refilled, so once it
/// has grown to fit typical records no further allocation happens.
pub fn encode(buf: &mut Vec<u8>, payload: &[u8])
    requires
        payload@.len() <= u32::MAX,
    ensures
        final(buf)@ == frame(payload@),
{
    proof {
        le32_reads_back();
    }
    buf.clear();
    let placeholder: [u8; 4] = [0u8; 4];
    buf.extend_from_slice(&placeholder);
    let len = le32_bytes(payload.len() as u32);
    buf.extend_from_slice(len.as_slice());
    buf.extend_from_slice(payload);
    assert(buf@.skip(LEN_OFFSET as int) =~= body(payload@));
    let crc = checksum(slice_subrange(buf.as_slice(), LEN_OFFSET, buf.len()));
    assert(buf@.subrange(LEN_OFFSET as int, buf@.len() as int) =~= body(payload@));
    seal(buf, crc);
}

/// Parse the header fields out of a full header's bytes.
pub fn parse_header(bytes: &[u8; HEADER_LEN]) -> (header: Header)
    ensures
        header == header_of(bytes@),
{
    let all = bytes.as_slice();
    let crc = read_le32(slice_subrange(all, CRC_OFFSET, LEN_OFFSET));
    let len = read_le32(slice_subrange(all, LEN_OFFSET, HEADER_LEN));
    Header { crc, len }
}

/// Recompute the checksum of a record from its header bytes and payload, and
/// compare it to the value the header claims.
///
/// The checksum runs over the length and then the payload, in two steps that
/// give the checksum of both together.
pub fn verify(header_bytes: &[u8; HEADER_LEN], payload: &[u8], expected_crc: u32) -> (intact: bool)
    ensures
        intact == (crc32c_of(header_bytes@.subrange(4, 8) + payload@) == expected_crc),
{
    let partial = checksum(slice_subrange(header_bytes.as_slice(), LEN_OFFSET, HEADER_LEN));
    let crc = checksum_append(partial, payload);
    proof {
        checksum_streams(header_bytes@.subrange(LEN_OFFSET as int, HEADER_LEN as int), payload@);
    }
    crc == expected_crc
}

} // verus!
