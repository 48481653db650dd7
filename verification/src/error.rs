//! The decoder's error taxonomy. Every error is fatal to the connection the
//! chunk stream came from; each carries enough context that a log line
//! pinpoints the cause.

use vstd::prelude::*;
use vstd::string::StringExecFns;

use crate::numfmt::{dec_u32, spec_dec};

verus! {

/// Why a chunk could not be decoded.
#[derive(Clone, Debug)]
pub enum ChunkDecodeError {
    /// An underlying transport error, surfaced by the caller that fills the
    /// buffer; the decoder itself never produces it.
    IO(String),
    /// Reserved: structurally unreachable, since the header format field is
    /// two bits wide.
    InvalidChunkType(u8),
    /// A header parsed, but its message type byte is unknown.
    InvalidMessageTypeID(u8),
    /// A compressed header arrived on a chunk stream with no cached header.
    MissingPreviousChunkHeader(u32),
    /// Starting another in-flight message would exceed the cap on
    /// concurrently assembling messages.
    TooManyPartialChunks,
    /// Caching another header would exceed the cap on distinct chunk
    /// stream ids.
    TooManyPreviousChunkHeaders,
    /// The declared message length exceeds the partial-payload bound.
    PartialChunkTooLarge(u32),
    /// Adding the timestamp delta to the cached timestamp would wrap;
    /// carries the cached timestamp and the delta.
    TimestampOverflow(u32, u32),
}

/// The rendering of each error, exactly as [`ChunkDecodeError::message`]
/// builds it.
pub open spec fn spec_message(e: ChunkDecodeError) -> Seq<char> {
    match e {
        ChunkDecodeError::IO(m) => "io error: "@ + m@,
        ChunkDecodeError::InvalidChunkType(n) => "invalid chunk type: "@ + spec_dec(n as nat),
        ChunkDecodeError::InvalidMessageTypeID(n) => "invalid message type id: "@ + spec_dec(
            n as nat,
        ),
        ChunkDecodeError::MissingPreviousChunkHeader(n) => "missing previous chunk header: "@
            + spec_dec(n as nat),
        ChunkDecodeError::TooManyPartialChunks => "too many partial chunks"@,
        ChunkDecodeError::TooManyPreviousChunkHeaders => "too many previous chunk headers"@,
        ChunkDecodeError::PartialChunkTooLarge(n) => "partial chunk too large: "@ + spec_dec(
            n as nat,
        ),
        ChunkDecodeError::TimestampOverflow(ts, delta) => "timestamp overflow: timestamp: "@
            + spec_dec(ts as nat) + ", delta: "@ + spec_dec(delta as nat),
    }
}

impl ChunkDecodeError {
    /// A human-readable description of the error.
    pub fn message(&self) -> (s: String)
        ensures
            s@ == spec_message(*self),
    {
        match self {
            ChunkDecodeError::IO(m) => {
                let mut s = String::from_str("io error: ");
                s.append(m.as_str());
                s
            },
            ChunkDecodeError::InvalidChunkType(n) => {
                let mut s = String::from_str("invalid chunk type: ");
                let d = dec_u32(*n as u32);
                s.append(d.as_str());
                s
            },
            ChunkDecodeError::InvalidMessageTypeID(n) => {
                let mut s = String::from_str("invalid message type id: ");
                let d = dec_u32(*n as u32);
                s.append(d.as_str());
                s
            },
            ChunkDecodeError::MissingPreviousChunkHeader(n) => {
                let mut s = String::from_str("missing previous chunk header: ");
                let d = dec_u32(*n);
                s.append(d.as_str());
                s
            },
            ChunkDecodeError::TooManyPartialChunks => String::from_str("too many partial chunks"),
            ChunkDecodeError::TooManyPreviousChunkHeaders => String::from_str(
                "too many previous chunk headers",
            ),
            ChunkDecodeError::PartialChunkTooLarge(n) => {
                let mut s = String::from_str("partial chunk too large: ");
                let d = dec_u32(*n);
                s.append(d.as_str());
                s
            },
            ChunkDecodeError::TimestampOverflow(ts, delta) => {
                let mut s = String::from_str("timestamp overflow: timestamp: ");
                let d = dec_u32(*ts);
                s.append(d.as_str());
                s.append(", delta: ");
                let d2 = dec_u32(*delta);
                s.append(d2.as_str());
                s
            },
        }
    }
}

} // verus!
