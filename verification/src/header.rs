//! Chunk headers: the one-to-three-byte basic header and the fully
//! materialized message header, together with the big- and little-endian
//! field readers the decoder parses them with.

use vstd::prelude::*;

use crate::message::MessageTypeId;

verus! {

/// The basic header of a chunk: the two-bit header format and the chunk
/// stream id, decoded from its one-, two- or three-byte encoding.
#[derive(Clone, Copy, Debug, PartialEq, Eq, Structural)]
pub struct BasicHeader {
    /// Header format in `[0, 3]`; selects the message-header shape.
    pub format: u8,
    /// Chunk stream id in `[2, 65599]`.
    pub chunk_stream_id: u32,
}

/// A message header with every field materialized, whatever header format
/// carried it on the wire.
#[derive(Clone, Copy, Debug, PartialEq, Eq, Structural)]
pub struct MessageHeader {
    /// Absolute timestamp of the message.
    pub timestamp: u32,
    /// Length in bytes of the complete message payload (24 bits on the wire).
    pub msg_length: u32,
    /// The message type.
    pub msg_type_id: MessageTypeId,
    /// The message stream id (carried little-endian on the wire).
    pub msg_stream_id: u32,
}

/// What the per-stream cache remembers of the last fully parsed header.
#[derive(Clone, Copy, Debug, PartialEq, Eq, Structural)]
pub struct CachedHeader {
    /// The last fully parsed message header on this chunk stream.
    pub header: MessageHeader,
    /// Whether that header carried the four-byte extended timestamp; governs
    /// format-3 chunks that follow on the same stream.
    pub used_extended_timestamp: bool,
}

/// A 24-bit big-endian field at offset `i`.
pub open spec fn spec_be24(b: Seq<u8>, i: int) -> u32
    recommends
        0 <= i,
        i + 3 <= b.len(),
{
    ((b[i] as int) * 0x10000 + (b[i + 1] as int) * 0x100 + (b[i + 2] as int)) as u32
}

/// A 32-bit big-endian field at offset `i`.
pub open spec fn spec_be32(b: Seq<u8>, i: int) -> u32
    recommends
        0 <= i,
        i + 4 <= b.len(),
{
    ((b[i] as int) * 0x1000000 + (b[i + 1] as int) * 0x10000 + (b[i + 2] as int) * 0x100 + (b[i
        + 3] as int)) as u32
}

/// A 32-bit little-endian field at offset `i`.
pub open spec fn spec_le32(b: Seq<u8>, i: int) -> u32
    recommends
        0 <= i,
        i + 4 <= b.len(),
{
    ((b[i] as int) + (b[i + 1] as int) * 0x100 + (b[i + 2] as int) * 0x10000 + (b[i + 3] as int)
        * 0x1000000) as u32
}

pub(crate) fn read_be24(data: &Vec<u8>, i: usize) -> (r: u32)
    requires
        i + 3 <= data@.len(),
    ensures
        r == spec_be24(data@, i as int),
        r <= 0xFFFFFF,
{
    let _n: usize = data.len();
    let x0 = data[i] as u32;
    let x1 = data[i + 1] as u32;
    let x2 = data[i + 2] as u32;
    x0 * 0x10000 + x1 * 0x100 + x2
}

pub(crate) fn read_be32(data: &Vec<u8>, i: usize) -> (r: u32)
    requires
        i + 4 <= data@.len(),
    ensures
        r == spec_be32(data@, i as int),
{
    let _n: usize = data.len();
    let x0 = data[i] as u32;
    let x1 = data[i + 1] as u32;
    let x2 = data[i + 2] as u32;
    let x3 = data[i + 3] as u32;
    x0 * 0x1000000 + x1 * 0x10000 + x2 * 0x100 + x3
}

pub(crate) fn read_le32(data: &Vec<u8>, i: usize) -> (r: u32)
    requires
        i + 4 <= data@.len(),
    ensures
        r == spec_le32(data@, i as int),
{
    let _n: usize = data.len();
    let x0 = data[i] as u32;
    let x1 = data[i + 1] as u32;
    let x2 = data[i + 2] as u32;
    let x3 = data[i + 3] as u32;
    x0 + x1 * 0x100 + x2 * 0x10000 + x3 * 0x1000000
}

/// The result of reading a basic header: the decoded header and how many
/// bytes its encoding occupies.
pub struct BasicParse {
    /// The decoded basic header.
    pub header: BasicHeader,
    /// Bytes occupied by the encoding: 1, 2 or 3.
    pub size: int,
}

/// Reads the basic header at `off`: the two-bit format and the chunk stream
/// id, whose low six bits select a one-, two- or three-byte encoding.
/// `None` when the buffer ends before the encoding is complete.
pub open spec fn spec_basic_header(b: Seq<u8>, off: int) -> Option<BasicParse>
    recommends
        0 <= off,
{
    if off + 1 > b.len() {
        None
    } else {
        let b0 = b[off] as int;
        let fmt = (b0 / 64) as u8;
        let low = b0 % 64;
        if low == 0 {
            if off + 2 > b.len() {
                None
            } else {
                Some(
                    BasicParse {
                        header: BasicHeader {
                            format: fmt,
                            chunk_stream_id: (64 + b[off + 1] as int) as u32,
                        },
                        size: 2,
                    },
                )
            }
        } else if low == 1 {
            if off + 3 > b.len() {
                None
            } else {
                Some(
                    BasicParse {
                        header: BasicHeader {
                            format: fmt,
                            chunk_stream_id: (64 + b[off + 1] as int + 256 * (b[off
                                + 2] as int)) as u32,
                        },
                        size: 3,
                    },
                )
            }
        } else {
            Some(
                BasicParse {
                    header: BasicHeader { format: fmt, chunk_stream_id: low as u32 },
                    size: 1,
                },
            )
        }
    }
}

pub(crate) fn read_basic_header(data: &Vec<u8>, off: usize) -> (r: Option<(BasicHeader, usize)>)
    requires
        off <= data@.len(),
    ensures
        match r {
            None => spec_basic_header(data@, off as int) is None,
            Some(p) => {
                &&& spec_basic_header(data@, off as int) == Some(
                    BasicParse { header: p.0, size: p.1 as int },
                )
                &&& 1 <= p.1 <= 3
                &&& off + p.1 <= data@.len()
                &&& p.0.format <= 3
            },
        },
{
    if data.len() - off < 1 {
        return None;
    }
    let b0 = data[off];
    let fmt = b0 / 64;
    let low = b0 % 64;
    if low == 0 {
        if data.len() - off < 2 {
            return None;
        }
        let cs = 64 + data[off + 1] as u32;
        Some((BasicHeader { format: fmt, chunk_stream_id: cs }, 2))
    } else if low == 1 {
        if data.len() - off < 3 {
            return None;
        }
        let cs = 64 + data[off + 1] as u32 + 256 * (data[off + 2] as u32);
        Some((BasicHeader { format: fmt, chunk_stream_id: cs }, 3))
    } else {
        Some((BasicHeader { format: fmt, chunk_stream_id: low as u32 }, 1))
    }
}

} // verus!
