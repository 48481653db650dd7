use bytes::{BufMut, BytesMut};

use rtmp_chunk::decoder::ChunkDecoder;
use rtmp_chunk::error::ChunkDecodeError;
use rtmp_chunk::message::MessageTypeId;

// A message of 256 bytes split across two fragments, the second introduced
// by a bare format-3 continuation header.
#[test]
fn fragmented_message_format3_continuation() {
    let mut buf = BytesMut::new();

    buf.extend_from_slice(&[
        3, // chunk type 0, chunk stream id 3
        0x00, 0x00, 0x00, // timestamp
        0x00, 0x01, 0x00, // message length (256)
        0x09, // message type id (video)
        0x00, 0x01, 0x00, 0x00, // message stream id
    ]);
    for i in 0..128 {
        buf.put_u8(i as u8);
    }

    let mut decoder = ChunkDecoder::default();
    assert!(decoder.read_chunk(&mut buf).expect("read chunk").is_none());

    buf.put_u8(0xC3); // format 3, chunk stream id 3
    for i in 0..128 {
        buf.put_u8(i as u8);
    }

    let chunk = decoder.read_chunk(&mut buf).expect("read chunk").expect("chunk");
    assert_eq!(chunk.basic_header.chunk_stream_id, 3);
    assert_eq!(chunk.message_header.msg_length, 256);
    assert_eq!(chunk.payload.len(), 256);
    for i in 0..128 {
        assert_eq!(chunk.payload[i], i as u8);
        assert_eq!(chunk.payload[128 + i], i as u8);
    }
}

// A buffer shorter than one complete (header, fragment) pair is left
// untouched.
#[test]
fn short_header_consumes_nothing() {
    let mut decoder = ChunkDecoder::default();

    // Five bytes of an eleven-byte message header.
    let mut buf = BytesMut::new();
    buf.extend_from_slice(&[3, 0x00, 0x00, 0x00, 0x00]);
    assert!(decoder.read_chunk(&mut buf).expect("read chunk").is_none());
    assert_eq!(buf.len(), 5);

    // A full header but only part of the fragment.
    let mut buf = BytesMut::new();
    buf.extend_from_slice(&[
        3, 0x00, 0x00, 0x00, 0x00, 0x00, 0x80, 0x09, 0x00, 0x01, 0x00, 0x00,
    ]);
    for i in 0..50 {
        buf.put_u8(i as u8);
    }
    assert!(decoder.read_chunk(&mut buf).expect("read chunk").is_none());
    assert_eq!(buf.len(), 62);
}

// Only whole (header, fragment) pairs leave the buffer; trailing bytes stay.
#[test]
fn trailing_bytes_stay_buffered() {
    let mut buf = BytesMut::new();
    buf.extend_from_slice(&[
        3, 0x00, 0x00, 0x00, 0x00, 0x00, 0x02, 0x09, 0x00, 0x01, 0x00, 0x00,
    ]);
    buf.put_u8(0xAA);
    buf.put_u8(0xBB);
    // Three extra bytes of whatever comes next.
    buf.extend_from_slice(&[9, 9, 9]);

    let mut decoder = ChunkDecoder::default();
    let chunk = decoder.read_chunk(&mut buf).expect("read chunk").expect("chunk");
    assert_eq!(chunk.payload, vec![0xAA, 0xBB]);
    assert_eq!(buf.len(), 3);
}

// A declared length of zero completes at once with an empty payload.
#[test]
fn zero_length_message() {
    let mut buf = BytesMut::new();
    buf.extend_from_slice(&[
        5, // chunk type 0, chunk stream id 5
        0x00, 0x00, 0x07, // timestamp
        0x00, 0x00, 0x00, // message length (0)
        0x08, // message type id (audio)
        0x02, 0x00, 0x00, 0x00, // message stream id
    ]);

    let mut decoder = ChunkDecoder::default();
    let chunk = decoder.read_chunk(&mut buf).expect("read chunk").expect("chunk");
    assert_eq!(chunk.basic_header.chunk_stream_id, 5);
    assert_eq!(chunk.message_header.timestamp, 7);
    assert_eq!(chunk.message_header.msg_length, 0);
    assert_eq!(chunk.payload.len(), 0);
    assert_eq!(buf.len(), 0);
}

// A timestamp delta that would wrap the 32-bit timestamp is refused.
#[test]
fn timestamp_delta_overflow() {
    let mut buf = BytesMut::new();

    // Cache a header whose absolute timestamp is 0xFFFFFFFE via the
    // extended-timestamp escape; the zero-length message completes at once.
    buf.extend_from_slice(&[
        3, // chunk type 0, chunk stream id 3
        0xFF, 0xFF, 0xFF, // timestamp field: extended
        0x00, 0x00, 0x00, // message length (0)
        0x09, // message type id (video)
        0x00, 0x01, 0x00, 0x00, // message stream id
        0xFF, 0xFF, 0xFF, 0xFE, // extended timestamp 0xFFFFFFFE
    ]);

    let mut decoder = ChunkDecoder::default();
    assert!(decoder.read_chunk(&mut buf).expect("read chunk").is_some());

    // A type-1 header with a delta of 3 overflows.
    buf.extend_from_slice(&[
        (1 << 6) | 3, // chunk type 1, chunk stream id 3
        0x00, 0x00, 0x03, // timestamp delta
        0x00, 0x00, 0x00, // message length (0)
        0x09, // message type id (video)
    ]);

    let err = decoder.read_chunk(&mut buf).unwrap_err();
    match err {
        ChunkDecodeError::TimestampOverflow(0xFFFFFFFE, 3) => {}
        _ => panic!("Unexpected error: {:?}", err),
    }
}

// The smallest allowed chunk size still reassembles a message.
#[test]
fn chunk_size_one() {
    let mut buf = BytesMut::new();
    buf.extend_from_slice(&[
        3, // chunk type 0, chunk stream id 3
        0x00, 0x00, 0x00, // timestamp
        0x00, 0x00, 0x03, // message length (3)
        0x09, // message type id (video)
        0x00, 0x00, 0x00, 0x00, // message stream id
    ]);
    buf.put_u8(0x11);

    let mut decoder = ChunkDecoder::default();
    decoder.update_max_chunk_size(1);

    assert!(decoder.read_chunk(&mut buf).expect("read chunk").is_none());
    buf.extend_from_slice(&[0xC3, 0x22]);
    assert!(decoder.read_chunk(&mut buf).expect("read chunk").is_none());
    buf.extend_from_slice(&[0xC3, 0x33]);
    let chunk = decoder.read_chunk(&mut buf).expect("read chunk").expect("chunk");
    assert_eq!(chunk.payload, vec![0x11, 0x22, 0x33]);
}

// The one-byte extended chunk-stream id at its largest value.
#[test]
fn extended_csid_one_byte_max() {
    let mut buf = BytesMut::new();
    buf.extend_from_slice(&[
        0 << 6, // chunk type 0, extended chunk stream id marker 0
        255,    // extended chunk stream id
        0x00, 0x00, 0x00, // timestamp
        0x00, 0x00, 0x00, // message length (0)
        0x09, // message type id (video)
        0x00, 0x00, 0x00, 0x00, // message stream id
    ]);

    let mut decoder = ChunkDecoder::default();
    let chunk = decoder.read_chunk(&mut buf).expect("read chunk").expect("chunk");
    assert_eq!(chunk.basic_header.chunk_stream_id, 64 + 255);
}

// The two-byte extended chunk-stream id at its largest value.
#[test]
fn extended_csid_two_byte_max() {
    let mut buf = BytesMut::new();
    buf.extend_from_slice(&[
        1,   // chunk type 0, extended chunk stream id marker 1
        255, // extended chunk stream id, low part
        255, // extended chunk stream id, high part
        0x00, 0x00, 0x00, // timestamp
        0x00, 0x00, 0x00, // message length (0)
        0x09, // message type id (video)
        0x00, 0x00, 0x00, 0x00, // message stream id
    ]);

    let mut decoder = ChunkDecoder::default();
    let chunk = decoder.read_chunk(&mut buf).expect("read chunk").expect("chunk");
    assert_eq!(chunk.basic_header.chunk_stream_id, 65599);
}

// A hand-written two-fragment encoding decodes back to the encoded message.
#[test]
fn round_trip_two_fragments() {
    let payload: Vec<u8> = (0..200u32).map(|i| (i * 7) as u8).collect();
    let mut buf = BytesMut::new();
    // Format-0 chunk: timestamp 1000, length 200, audio, stream id 5.
    buf.extend_from_slice(&[
        (0 << 6) | 9, // chunk type 0, chunk stream id 9
        0x00, 0x03, 0xE8, // timestamp (1000)
        0x00, 0x00, 0xC8, // message length (200)
        0x08, // message type id (audio)
        0x05, 0x00, 0x00, 0x00, // message stream id (5, little endian)
    ]);
    buf.extend_from_slice(&payload[..128]);
    buf.put_u8(0xC9); // format 3, chunk stream id 9
    buf.extend_from_slice(&payload[128..]);

    let mut decoder = ChunkDecoder::default();
    let chunk = decoder.read_chunk(&mut buf).expect("read chunk").expect("chunk");
    assert_eq!(chunk.basic_header.chunk_stream_id, 9);
    assert_eq!(chunk.message_header.timestamp, 1000);
    assert_eq!(chunk.message_header.msg_length, 200);
    assert_eq!(chunk.message_header.msg_type_id.as_u8(), 0x08);
    assert_eq!(chunk.message_header.msg_stream_id, 5);
    assert_eq!(chunk.payload, payload);
    assert_eq!(buf.len(), 0);
}

// Emission order follows completion order across three interleaved streams.
#[test]
fn interleaved_three_streams_completion_order() {
    let mut buf = BytesMut::new();
    for cs in [3u8, 4, 5] {
        buf.extend_from_slice(&[
            cs, // chunk type 0
            0x00, 0x00, 0x00, // timestamp
            0x00, 0x01, 0x00, // message length (256)
            0x09, // message type id (video)
            0x00, 0x00, 0x00, 0x00, // message stream id
        ]);
        for _ in 0..128 {
            buf.put_u8(cs);
        }
    }

    let mut decoder = ChunkDecoder::default();
    assert!(decoder.read_chunk(&mut buf).expect("read chunk").is_none());

    // Finish stream 5, then 3, then 4.
    for cs in [5u8, 3, 4] {
        buf.put_u8((3 << 6) | cs);
        for _ in 0..128 {
            buf.put_u8(cs);
        }
    }

    for cs in [5u32, 3, 4] {
        let chunk = decoder.read_chunk(&mut buf).expect("read chunk").expect("chunk");
        assert_eq!(chunk.basic_header.chunk_stream_id, cs);
        assert_eq!(chunk.payload.len(), 256);
    }
    assert_eq!(buf.len(), 0);
}

// Two messages back to back decode in order across successive calls.
#[test]
fn two_messages_back_to_back() {
    let mut buf = BytesMut::new();
    buf.extend_from_slice(&[
        3, // chunk type 0, chunk stream id 3
        0x00, 0x00, 0x0A, // timestamp (10)
        0x00, 0x00, 0x02, // message length (2)
        0x09, // message type id (video)
        0x07, 0x00, 0x00, 0x00, // message stream id (7)
        0x51, 0x52, // payload
    ]);
    buf.extend_from_slice(&[
        3, // chunk type 0, chunk stream id 3 again
        0x00, 0x00, 0x14, // timestamp (20)
        0x00, 0x00, 0x01, // message length (1)
        0x08, // message type id (audio)
        0x07, 0x00, 0x00, 0x00, // message stream id (7)
        0x61, // payload
    ]);

    let mut decoder = ChunkDecoder::default();
    let first = decoder.read_chunk(&mut buf).expect("read chunk").expect("chunk");
    assert_eq!(first.message_header.timestamp, 10);
    assert_eq!(first.message_header.msg_type_id.as_u8(), 0x09);
    assert_eq!(first.payload, vec![0x51, 0x52]);
    let second = decoder.read_chunk(&mut buf).expect("read chunk").expect("chunk");
    assert_eq!(second.message_header.timestamp, 20);
    assert_eq!(second.message_header.msg_type_id.as_u8(), 0x08);
    assert_eq!(second.payload, vec![0x61]);
    assert_eq!(buf.len(), 0);
}

// A type-1 header adds its delta to the cached timestamp and inherits the
// message stream id.
#[test]
fn format1_delta_inherits_stream_id() {
    let mut buf = BytesMut::new();
    buf.extend_from_slice(&[
        3, // chunk type 0, chunk stream id 3
        0x00, 0x00, 0x0A, // timestamp (10)
        0x00, 0x00, 0x01, // message length (1)
        0x09, // message type id (video)
        0x2A, 0x00, 0x00, 0x00, // message stream id (42)
        0x01, // payload
    ]);
    buf.extend_from_slice(&[
        (1 << 6) | 3, // chunk type 1, chunk stream id 3
        0x00, 0x00, 0x05, // timestamp delta (5)
        0x00, 0x00, 0x02, // message length (2)
        0x08, // message type id (audio)
        0x02, 0x03, // payload
    ]);

    let mut decoder = ChunkDecoder::default();
    assert!(decoder.read_chunk(&mut buf).expect("read chunk").is_some());
    let chunk = decoder.read_chunk(&mut buf).expect("read chunk").expect("chunk");
    assert_eq!(chunk.message_header.timestamp, 15);
    assert_eq!(chunk.message_header.msg_length, 2);
    assert_eq!(chunk.message_header.msg_type_id.as_u8(), 0x08);
    assert_eq!(chunk.message_header.msg_stream_id, 42);
    assert_eq!(chunk.payload, vec![0x02, 0x03]);
}

// Decimal renderings at the edges of the 32-bit range.
#[test]
fn error_message_numeric_edges() {
    assert_eq!(
        ChunkDecodeError::PartialChunkTooLarge(0).message(),
        "partial chunk too large: 0"
    );
    assert_eq!(
        ChunkDecodeError::MissingPreviousChunkHeader(4294967295).message(),
        "missing previous chunk header: 4294967295"
    );
    assert_eq!(
        ChunkDecodeError::TimestampOverflow(4294967295, 1).message(),
        "timestamp overflow: timestamp: 4294967295, delta: 1"
    );
}

// Every known message type survives the byte round trip; unknown bytes are
// refused.
#[test]
fn message_type_byte_round_trip() {
    let all = [
        MessageTypeId::SetChunkSize,
        MessageTypeId::Abort,
        MessageTypeId::Acknowledgement,
        MessageTypeId::UserControlEvent,
        MessageTypeId::WindowAcknowledgementSize,
        MessageTypeId::SetPeerBandwidth,
        MessageTypeId::Audio,
        MessageTypeId::Video,
        MessageTypeId::DataAmf3,
        MessageTypeId::SharedObjectAmf3,
        MessageTypeId::CommandAmf3,
        MessageTypeId::DataAmf0,
        MessageTypeId::SharedObjectAmf0,
        MessageTypeId::CommandAmf0,
        MessageTypeId::Aggregate,
    ];
    for t in all {
        assert_eq!(MessageTypeId::from_byte(t.as_u8()), Some(t));
    }
    for b in [0u8, 7, 10, 14, 21, 23, 0xFF] {
        assert_eq!(MessageTypeId::from_byte(b), None);
    }
}

// A renegotiated chunk size takes effect for the next fragment while
// in-flight assembly continues undisturbed.
#[test]
fn chunk_size_change_mid_assembly() {
    let mut buf = BytesMut::new();
    buf.extend_from_slice(&[
        3, // chunk type 0, chunk stream id 3
        0x00, 0x00, 0x00, // timestamp
        0x00, 0x01, 0x2C, // message length (300)
        0x09, // message type id (video)
        0x00, 0x00, 0x00, 0x00, // message stream id
    ]);
    for _ in 0..128 {
        buf.put_u8(1);
    }

    let mut decoder = ChunkDecoder::default();
    assert!(decoder.read_chunk(&mut buf).expect("read chunk").is_none());

    // The peer announces a larger chunk size; the rest arrives in one piece.
    decoder.update_max_chunk_size(4096);
    buf.put_u8(0xC3);
    for _ in 0..172 {
        buf.put_u8(2);
    }
    let chunk = decoder.read_chunk(&mut buf).expect("read chunk").expect("chunk");
    assert_eq!(chunk.payload.len(), 300);
    assert_eq!(chunk.payload[0], 1);
    assert_eq!(chunk.payload[299], 2);
}
