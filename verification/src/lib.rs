//! An incremental decoder for the RTMP chunk stream: a stateful parser that
//! turns a byte stream into fully reassembled RTMP messages.
//!
//! The wire format interleaves fragments of concurrently in-flight messages
//! across logical chunk streams, compresses repeated header fields through
//! four header formats, and lets the peer renegotiate the fragment size.
//! [`decoder::ChunkDecoder::read_chunk`] consumes whole `(header, fragment)`
//! pairs from the front of a [`bytes::BytesMut`] and yields one reassembled
//! message at a time; its behaviour is pinned down by the specification
//! functions in [`decoder`].

pub mod buffer;
pub mod decoder;
pub mod error;
pub mod header;
pub mod laws;
pub mod message;
pub mod numfmt;
pub mod signal;
