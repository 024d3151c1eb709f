//! A frame that carries its own sequence number.
//!
//! Where a record leaves the log, its offset no longer says which one it is. This
//! frame holds the sequence number beside the length, in a fixed 16-byte header:
//!
//! ```text
//! +-----------+-----------+-----------+----------------------+
//! | crc32c    | length    | lsn       | payload              |
//! | 4 bytes   | 4 bytes   | 8 bytes   | `length` bytes       |
//! +-----------+-----------+-----------+----------------------+
//! ```
//!
//! All integers are little-endian. The checksum covers everything after it: the
//! length, the sequence number, and the payload.

use crate::bytes::{from_le32, from_le64, le32, le32_bytes, le32_reads_back, le64, le64_bytes, le64_reads_back, read_le32, read_le64};
use crate::checksum::{checksum, checksum_append, checksum_streams, crc32c_of};
use crate::record::seal;
use vstd::prelude::*;
use vstd::slice::slice_subrange;

verus! {

/// Byte offset of the checksum within the header.
pub const CRC_OFFSET: usize = 0;

/// Byte offset of the payload length within the header.
pub const LEN_OFFSET: usize = 4;

/// Byte offset of the sequence number within the header.
pub const LSN_OFFSET: usize = 8;

/// Size of the header in bytes.
pub const HEADER_LEN: usize = 16;

/// The fields of a stamped header.
#[derive(Debug, Clone, Copy)]
pub struct Header {
    /// Stored checksum of the length, the sequence number, and the payload.
    pub crc: u32,
    /// Declared payload length in bytes, untrusted until the checksum verifies.
    pub len: u32,
    /// The record's sequence number.
    pub lsn: u64,
}

/// The part of a stamped frame that the checksum covers.
pub open spec fn body(lsn: u64, payload: Seq<u8>) -> Seq<u8> {
    le32(payload.len() as u32) + le64(lsn) + payload
}

/// The stamped frame of `payload`.
pub open spec fn frame(lsn: u64, payload: Seq<u8>) -> Seq<u8> {
    le32(crc32c_of(body(lsn, payload))) + body(lsn, payload)
}

/// The header whose bytes are `bytes`.
pub open spec fn header_of(bytes: Seq<u8>) -> Header {
    Header {
        crc: from_le32(bytes.subrange(0, 4)),
        len: from_le32(bytes.subrange(4, 8)),
        lsn: from_le64(bytes.subrange(8, 16)),
    }
}

/// A stamped frame reads back as what was framed: its header declares the length,
/// the sequence number and the checksum of the rest, and behind the header stands
/// the payload.
pub proof fn stamped_frame_reads_back(lsn: u64, payload: Seq<u8>)
    requires
        payload.len() <= u32::MAX,
    ensures
        ({
            let bytes = frame(lsn, payload);
            &&& bytes.len() == HEADER_LEN + payload.len()
            &&& header_of(bytes.take(16)) == (Header {
                crc: crc32c_of(body(lsn, payload)),
                len: payload.len() as u32,
                lsn,
            })
            &&& bytes.subrange(4, 16) + payload == body(lsn, payload)
            &&& bytes.skip(16) == payload
        }),
{
    le32_reads_back();
    le64_reads_back();
    let bytes = frame(lsn, payload);
    let crc = crc32c_of(body(lsn, payload));
    assert(bytes.take(16).subrange(0, 4) =~= le32(crc));
    assert(bytes.take(16).subrange(4, 8) =~= le32(payload.len() as u32));
    assert(bytes.take(16).subrange(8, 16) =~= le64(lsn));
    assert(bytes.subrange(4, 16) + payload =~= body(lsn, payload));
    assert(bytes.skip(16) =~= payload);
}

/// A stamped frame is sixteen bytes and the payload: four bytes of checksum over all that
/// follows them, four bytes of length, eight bytes of sequence number, and the payload
/// unchanged.
pub proof fn stamped_frame_is_header_and_payload(lsn: u64, payload: Seq<u8>)
    requires
        payload.len() <= u32::MAX,
    ensures
        frame(lsn, payload).len() == 16 + payload.len(),
        frame(lsn, payload).take(4) == le32(crc32c_of(frame(lsn, payload).skip(4))),
        frame(lsn, payload).subrange(4, 8) == le32(payload.len() as u32),
        frame(lsn, payload).subrange(8, 16) == le64(lsn),
        frame(lsn, payload).skip(16) == payload,
{
    stamped_frame_reads_back(lsn, payload);
    le32_reads_back();
    le64_reads_back();
    let bytes = frame(lsn, payload);
    assert(bytes.take(4) =~= le32(crc32c_of(body(lsn, payload))));
    assert(bytes.skip(4) =~= body(lsn, payload));
    assert(bytes.subrange(4, 8) =~= le32(payload.len() as u32));
    assert(bytes.subrange(8, 16) =~= le64(lsn));
}

/// A stamped header reads as the three numbers whose bytes it holds.
pub proof fn stamped_header_is_its_bytes(bytes: Seq<u8>)
    requires
        bytes.len() == 16,
    ensures
        le32(header_of(bytes).crc) == bytes.take(4),
        le32(header_of(bytes).len) == bytes.subrange(4, 8),
        le64(header_of(bytes).lsn) == bytes.skip(8),
{
    le32_reads_back();
    le64_reads_back();
    assert(bytes.subrange(0, 4) =~= bytes.take(4));
    assert(bytes.subrange(8, 16) =~= bytes.skip(8));
}

/// Frame `payload` with its sequence number into `buf`, replacing whatever `buf`
/// held.
pub fn encode(buf: &mut Vec<u8>, lsn: u64, payload: &[u8])
    requires
        payload@.len() <= u32::MAX,
    ensures
        final(buf)@ == frame(lsn, payload@),
{
    proof {
        le32_reads_back();
        le64_reads_back();
    }
    buf.clear();
    let placeholder: [u8; 4] = [0u8; 4];
    buf.extend_from_slice(&placeholder);
    let len = le32_bytes(payload.len() as u32);
    buf.extend_from_slice(len.as_slice());
    let stamp = le64_bytes(lsn);
    buf.extend_from_slice(stamp.as_slice());
    buf.extend_from_slice(payload);
    assert(buf@.skip(LEN_OFFSET as int) =~= body(lsn, payload@));
    let crc = checksum(slice_subrange(buf.as_slice(), LEN_OFFSET, buf.len()));
    assert(buf@.subrange(LEN_OFFSET as int, buf@.len() as int) =~= body(lsn, payload@));
    seal(buf, crc);
}

/// Parse the header fields out of a full header's bytes.
pub fn parse_header(bytes: &[u8; HEADER_LEN]) -> (header: Header)
    ensures
        header == header_of(bytes@),
{
    let all = bytes.as_slice();
    let crc = read_le32(slice_subrange(all, CRC_OFFSET, LEN_OFFSET));
    let len = read_le32(slice_subrange(all, LEN_OFFSET, LSN_OFFSET));
    let lsn = read_le64(slice_subrange(all, LSN_OFFSET, HEADER_LEN));
    Header { crc, len, lsn }
}

/// Recompute the checksum of a stamped record and compare it to the value the
/// header claims.
pub fn verify(header_bytes: &[u8; HEADER_LEN], payload: &[u8], expected_crc: u32) -> (intact: bool)
    ensures
        intact == (crc32c_of(header_bytes@.subrange(4, 16) + payload@) == expected_crc),
{
    let partial = checksum(slice_subrange(header_bytes.as_slice(), LEN_OFFSET, HEADER_LEN));
    let crc = checksum_append(partial, payload);
    proof {
        checksum_streams(header_bytes@.subrange(LEN_OFFSET as int, HEADER_LEN as int), payload@);
    }
    crc == expected_crc
}

} // verus!
