//! Laws of the decoder, proved of the specification functions that
//! [`crate::decoder::ChunkDecoder::read_chunk`] is verified against.

use vstd::prelude::*;

use crate::decoder::{
    lemma_payload_commit_wf, spec_run, spec_step, DecoderModel, HeaderParse, RunResult,
    StepResult, MAX_PARTIAL_CHUNKS, MAX_PARTIAL_PAYLOAD_SIZE, MAX_PREVIOUS_CHUNK_HEADERS,
};
use crate::decoder::{spec_header_parse, spec_payload_step};
use crate::decoder::{ChunkModel, RunOutcome};
use crate::error::ChunkDecodeError;
use crate::message::spec_type_byte;
use crate::header::{spec_basic_header, BasicHeader, BasicParse, CachedHeader, MessageHeader};

verus! {

/// A basic header that a buffer prefix holds in full reads the same from
/// the whole buffer.
proof fn lemma_basic_header_prefix(b: Seq<u8>, m: int, off: int)
    requires
        0 <= off <= m <= b.len(),
    ensures
        spec_basic_header(b.take(m), off) is Some ==> spec_basic_header(b, off)
            == spec_basic_header(b.take(m), off),
{
}

/// A message header that a buffer prefix either materializes or refuses
/// reads the same from the whole buffer.
proof fn lemma_header_parse_prefix(
    fmt: u8,
    csid: u32,
    prev: Option<CachedHeader>,
    b: Seq<u8>,
    m: int,
    off: int,
)
    requires
        0 <= off <= m <= b.len(),
    ensures
        !(spec_header_parse(fmt, csid, prev, b.take(m), off) is NeedBytes) ==> spec_header_parse(
            fmt,
            csid,
            prev,
            b,
            off,
        ) == spec_header_parse(fmt, csid, prev, b.take(m), off),
{
}

/// Atomic consumption: from a buffer prefix shorter than the next complete
/// `(header, fragment)` pair, the decoder consumes nothing — it reports
/// "need more bytes" and its state is unchanged.
pub proof fn lemma_atomic_consumption(s: DecoderModel, b: Seq<u8>, m: int)
    requires
        0 <= m <= b.len(),
        match spec_step(s, b, 0) {
            StepResult::NeedMore => true,
            StepResult::Commit { consumed, .. } => m < consumed,
            StepResult::Fail { .. } => false,
        },
    ensures
        spec_step(s, b.take(m), 0) is NeedMore,
        spec_run(s, b.take(m), 0) == (RunResult {
            outcome: RunOutcome::NeedMore,
            consumed: 0,
            state: s,
        }),
{
    let p = b.take(m);
    lemma_basic_header_prefix(b, m, 0);
    match spec_basic_header(p, 0) {
        None => {},
        Some(bp) => {
            let csid = bp.header.chunk_stream_id;
            let prev = if s.headers.contains_key(csid) {
                Some(s.headers[csid])
            } else {
                None
            };
            lemma_header_parse_prefix(bp.header.format, csid, prev, b, m, bp.size);
            match spec_header_parse(bp.header.format, csid, prev, p, bp.size) {
                HeaderParse::NeedBytes => {},
                HeaderParse::Bad { error } => {
                    assert(false);
                },
                HeaderParse::Parsed { header, used_extended, size } => {
                    if header.msg_length > MAX_PARTIAL_PAYLOAD_SIZE {
                        assert(false);
                    } else {
                        let pstart = bp.size + size;
                        let acc = if s.partials.contains_key(csid) {
                            s.partials[csid]
                        } else {
                            Seq::<u8>::empty()
                        };
                        let take = if acc.len() < header.msg_length {
                            if s.max_chunk_size < header.msg_length - acc.len() {
                                s.max_chunk_size
                            } else {
                                header.msg_length - acc.len()
                            }
                        } else {
                            0
                        };
                        assert(m < pstart + take);
                        assert(spec_step(s, p, 0) is NeedMore);
                    }
                },
            }
        },
    }
}

/// Atomic consumption, starved or failing side: when the next
/// `(header, fragment)` pair is incomplete or invalid, a call consumes
/// nothing and leaves the decoder state unchanged.
pub proof fn lemma_no_commit_no_change(s: DecoderModel, b: Seq<u8>, off: int)
    requires
        !(spec_step(s, b, off) is Commit),
    ensures
        spec_run(s, b, off).consumed == 0,
        spec_run(s, b, off).state == s,
{
}

/// Cache monotonicity: a committed step replaces exactly the committed
/// stream's cache entry with the header that parsed in full; the entry of
/// every other stream is kept as it was. (A step that does not commit
/// carries no new state at all, see [`lemma_no_commit_no_change`].)
pub proof fn lemma_cache_monotonic(s: DecoderModel, b: Seq<u8>, off: int)
    requires
        spec_step(s, b, off) is Commit,
    ensures
        spec_basic_header(b, off) is Some,
        ({
            let st = spec_step(s, b, off)->Commit_state;
            let csid = spec_basic_header(b, off)->Some_0.header.chunk_stream_id;
            &&& st.headers == s.headers.insert(csid, st.headers[csid])
            &&& forall|k: u32|
                k != csid && s.headers.contains_key(k) ==> #[trigger] st.headers[k]
                    == s.headers[k]
            &&& forall|k: u32|
                k != csid ==> (#[trigger] st.headers.contains_key(k) <==> s.headers.contains_key(
                    k,
                ))
        }),
{
    let st = spec_step(s, b, off)->Commit_state;
    let csid = spec_basic_header(b, off)->Some_0.header.chunk_stream_id;
    assert(st.headers == s.headers.insert(csid, st.headers[csid])) by {
        assert(st.headers =~= s.headers.insert(csid, st.headers[csid]));
    }
}

/// Of the error taxonomy, two variants never come out of decoding itself:
/// `InvalidChunkType` is structurally unreachable (the format field is two
/// bits wide), and `IO` is only ever surfaced by the caller that fills the
/// buffer.
pub proof fn lemma_decode_errors(s: DecoderModel, b: Seq<u8>, off: int)
    ensures
        spec_step(s, b, off) matches StepResult::Fail { error } ==> !(error is InvalidChunkType)
            && !(error is IO),
{
}

/// Bounds enforcement, invariant side: a committed step keeps the decoder
/// well-formed, so at most [`MAX_PARTIAL_CHUNKS`] messages are ever in
/// flight and at most [`MAX_PREVIOUS_CHUNK_HEADERS`] headers ever cached.
pub proof fn lemma_step_preserves_wf(s: DecoderModel, b: Seq<u8>, off: int)
    requires
        s.wf(),
        spec_step(s, b, off) is Commit,
    ensures
        (spec_step(s, b, off)->Commit_state).wf(),
{
    match spec_basic_header(b, off) {
        None => {
            assert(false);
        },
        Some(bp) => {
            let csid = bp.header.chunk_stream_id;
            let prev = if s.headers.contains_key(csid) {
                Some(s.headers[csid])
            } else {
                None
            };
            match spec_header_parse(bp.header.format, csid, prev, b, off + bp.size) {
                HeaderParse::NeedBytes => {
                    assert(false);
                },
                HeaderParse::Bad { error } => {
                    assert(false);
                },
                HeaderParse::Parsed { header, used_extended, size } => {
                    if header.msg_length > MAX_PARTIAL_PAYLOAD_SIZE {
                        assert(false);
                    } else {
                        lemma_payload_commit_wf(
                            s,
                            b,
                            off,
                            bp.header,
                            header,
                            used_extended,
                            off + bp.size + size,
                        );
                    }
                },
            }
        },
    }
}

/// Bounds enforcement, invariant side, over a whole call: every state
/// [`spec_run`] can leave a well-formed decoder in is well-formed itself.
pub proof fn lemma_run_preserves_wf(s: DecoderModel, b: Seq<u8>, off: int)
    requires
        s.wf(),
    ensures
        spec_run(s, b, off).state.wf(),
    decreases b.len() - off,
{
    match spec_step(s, b, off) {
        StepResult::NeedMore => {},
        StepResult::Fail { error } => {},
        StepResult::Commit { consumed, state, emitted } => {
            lemma_step_preserves_wf(s, b, off);
            match emitted {
                Some(c) => {},
                None => {
                    if 0 < consumed && off + consumed <= b.len() {
                        lemma_run_preserves_wf(state, b, off + consumed);
                    }
                },
            }
        },
    }
}

/// Interleaving, emission side: the chunk that completes a message emits it
/// exactly once — the emitted payload has reached the declared length, the
/// fragments accumulated so far stay in order as its prefix, and the
/// stream's partial slot is cleared, so nothing of the message stays behind.
pub proof fn lemma_emit_clears_slot(s: DecoderModel, b: Seq<u8>, off: int)
    requires
        spec_step(s, b, off) matches StepResult::Commit { emitted, .. } && emitted is Some,
    ensures
        ({
            let st = spec_step(s, b, off)->Commit_state;
            let c = spec_step(s, b, off)->Commit_emitted->Some_0;
            let csid = c.basic_header.chunk_stream_id;
            &&& !st.partials.contains_key(csid)
            &&& c.payload.len() >= c.message_header.msg_length
            &&& s.partials.contains_key(csid) ==> c.payload.take(s.partials[csid].len() as int)
                == s.partials[csid]
        }),
{
    let c = spec_step(s, b, off)->Commit_emitted->Some_0;
    let csid = c.basic_header.chunk_stream_id;
    if s.partials.contains_key(csid) {
        assert(c.payload.take(s.partials[csid].len() as int) =~= s.partials[csid]);
    }
}

/// Interleaving, emission side, over a whole call: a call emits at most one
/// message — the one whose final fragment arrived — and leaves that
/// stream's partial slot empty, so the message cannot be emitted again.
pub proof fn lemma_run_emit_clears_slot(s: DecoderModel, b: Seq<u8>, off: int)
    requires
        spec_run(s, b, off).outcome is Emit,
    ensures
        ({
            let c = spec_run(s, b, off).outcome->Emit_0;
            !spec_run(s, b, off).state.partials.contains_key(c.basic_header.chunk_stream_id)
        }),
    decreases b.len() - off,
{
    match spec_step(s, b, off) {
        StepResult::NeedMore => {},
        StepResult::Fail { error } => {},
        StepResult::Commit { consumed, state, emitted } => {
            match emitted {
                Some(c) => {
                    lemma_emit_clears_slot(s, b, off);
                },
                None => {
                    if 0 < consumed && off + consumed <= b.len() {
                        lemma_run_emit_clears_slot(state, b, off + consumed);
                    }
                },
            }
        },
    }
}

/// Interleaving, isolation side: a committed chunk changes only its own
/// stream; the partial payload and the cached header of every other chunk
/// stream are exactly as they were.
pub proof fn lemma_stream_isolation(s: DecoderModel, b: Seq<u8>, off: int, k: u32)
    requires
        spec_step(s, b, off) is Commit,
        k != spec_basic_header(b, off)->Some_0.header.chunk_stream_id,
    ensures
        ({
            let st = spec_step(s, b, off)->Commit_state;
            &&& (st.partials.contains_key(k) <==> s.partials.contains_key(k))
            &&& s.partials.contains_key(k) ==> st.partials[k] == s.partials[k]
            &&& (st.headers.contains_key(k) <==> s.headers.contains_key(k))
            &&& s.headers.contains_key(k) ==> st.headers[k] == s.headers[k]
        }),
{
}

/// Bounds enforcement, refusal side: with [`MAX_PARTIAL_CHUNKS`] messages
/// already in flight, a chunk whose header and fragment are at hand but
/// whose message cannot finish in this one fragment is refused with
/// `TooManyPartialChunks`; nothing is consumed
/// (see [`lemma_no_commit_no_change`]).
pub proof fn lemma_partial_cap_enforced(s: DecoderModel, b: Seq<u8>, off: int)
    requires
        s.wf(),
        0 <= off,
        spec_basic_header(b, off) is Some,
        ({
            let bp = spec_basic_header(b, off)->Some_0;
            let csid = bp.header.chunk_stream_id;
            let prev = if s.headers.contains_key(csid) {
                Some(s.headers[csid])
            } else {
                None
            };
            let hp = spec_header_parse(bp.header.format, csid, prev, b, off + bp.size);
            &&& hp is Parsed
            &&& ({
                let mh = hp->Parsed_header;
                &&& mh.msg_length <= MAX_PARTIAL_PAYLOAD_SIZE
                &&& mh.msg_length > s.max_chunk_size
                &&& !s.partials.contains_key(csid)
                &&& s.partials.len() >= MAX_PARTIAL_CHUNKS
                &&& b.len() >= off + bp.size + hp->Parsed_size + s.max_chunk_size
                &&& (s.headers.contains_key(csid) || s.headers.len()
                    < MAX_PREVIOUS_CHUNK_HEADERS)
            })
        }),
    ensures
        spec_step(s, b, off) == (StepResult::Fail {
            error: ChunkDecodeError::TooManyPartialChunks,
        }),
{
    let bp = spec_basic_header(b, off)->Some_0;
    let csid = bp.header.chunk_stream_id;
    let prev = if s.headers.contains_key(csid) {
        Some(s.headers[csid])
    } else {
        None
    };
    let hp = spec_header_parse(bp.header.format, csid, prev, b, off + bp.size);
    let mh = hp->Parsed_header;
    let pstart = off + bp.size + hp->Parsed_size;
    assert(spec_step(s, b, off) == spec_payload_step(
        s,
        b,
        off,
        bp.header,
        mh,
        hp->Parsed_used_extended,
        pstart,
    ));
    let take = s.max_chunk_size;
    let payload = Seq::<u8>::empty() + b.subrange(pstart, pstart + take);
    assert(payload.len() == take);
}

// ---------------------------------------------------------------------------
// Round trip: what a conforming encoder produces, the decoder reassembles.
// ---------------------------------------------------------------------------

/// Big-endian bytes of a 24-bit value.
pub open spec fn be24_bytes(v: u32) -> Seq<u8>
    recommends
        v < 0x1000000,
{
    seq![(v / 0x10000) as u8, ((v / 0x100) % 0x100) as u8, (v % 0x100) as u8]
}

/// Big-endian bytes of a 32-bit value.
pub open spec fn be32_bytes(v: u32) -> Seq<u8> {
    seq![
        (v / 0x1000000) as u8,
        ((v / 0x10000) % 0x100) as u8,
        ((v / 0x100) % 0x100) as u8,
        (v % 0x100) as u8,
    ]
}

/// Little-endian bytes of a 32-bit value.
pub open spec fn le32_bytes(v: u32) -> Seq<u8> {
    seq![
        (v % 0x100) as u8,
        ((v / 0x100) % 0x100) as u8,
        ((v / 0x10000) % 0x100) as u8,
        (v / 0x1000000) as u8,
    ]
}

proof fn lemma_be24_at(b: Seq<u8>, i: int, v: u32)
    requires
        0 <= i,
        i + 3 <= b.len(),
        v < 0x1000000,
        b[i] == be24_bytes(v)[0],
        b[i + 1] == be24_bytes(v)[1],
        b[i + 2] == be24_bytes(v)[2],
    ensures
        crate::header::spec_be24(b, i) == v,
{
    assert(v / 0x10000 < 0x100 && (v / 0x100) % 0x100 < 0x100 && v % 0x100 < 0x100 && (v
        / 0x10000) * 0x10000 + ((v / 0x100) % 0x100) * 0x100 + (v % 0x100) == v) by (bit_vector)
        requires
            v < 0x1000000,
    ;
}

proof fn lemma_be32_at(b: Seq<u8>, i: int, v: u32)
    requires
        0 <= i,
        i + 4 <= b.len(),
        b[i] == be32_bytes(v)[0],
        b[i + 1] == be32_bytes(v)[1],
        b[i + 2] == be32_bytes(v)[2],
        b[i + 3] == be32_bytes(v)[3],
    ensures
        crate::header::spec_be32(b, i) == v,
{
    assert(v / 0x1000000 < 0x100 && (v / 0x10000) % 0x100 < 0x100 && (v / 0x100) % 0x100 < 0x100
        && v % 0x100 < 0x100 && (v / 0x1000000) * 0x1000000 + ((v / 0x10000) % 0x100) * 0x10000 + (
    (v / 0x100) % 0x100) * 0x100 + (v % 0x100) == v) by (bit_vector);
}

proof fn lemma_le32_at(b: Seq<u8>, i: int, v: u32)
    requires
        0 <= i,
        i + 4 <= b.len(),
        b[i] == le32_bytes(v)[0],
        b[i + 1] == le32_bytes(v)[1],
        b[i + 2] == le32_bytes(v)[2],
        b[i + 3] == le32_bytes(v)[3],
    ensures
        crate::header::spec_le32(b, i) == v,
{
    assert(v / 0x1000000 < 0x100 && (v / 0x10000) % 0x100 < 0x100 && (v / 0x100) % 0x100 < 0x100
        && v % 0x100 < 0x100 && (v % 0x100) + ((v / 0x100) % 0x100) * 0x100 + ((v / 0x10000)
        % 0x100) * 0x10000 + (v / 0x1000000) * 0x1000000 == v) by (bit_vector);
}

/// The canonical encoding of a basic header: inline for stream ids up to
/// 63, the one-byte extension up to 319, the two-byte extension above.
pub open spec fn spec_encode_basic(fmt: u8, csid: u32) -> Seq<u8>
    recommends
        fmt <= 3,
        2 <= csid <= 65599,
{
    if csid <= 63 {
        seq![((fmt as u32) * 64 + csid) as u8]
    } else if csid <= 319 {
        seq![((fmt as u32) * 64) as u8, (csid - 64) as u8]
    } else {
        seq![((fmt as u32) * 64 + 1) as u8, ((csid - 64) % 256) as u8, ((csid - 64) / 256) as u8]
    }
}

proof fn lemma_decode_basic_at(b: Seq<u8>, off: int, fmt: u8, csid: u32)
    requires
        fmt <= 3,
        2 <= csid <= 65599,
        0 <= off,
        off + spec_encode_basic(fmt, csid).len() <= b.len(),
        b.subrange(off, off + spec_encode_basic(fmt, csid).len() as int) == spec_encode_basic(
            fmt,
            csid,
        ),
    ensures
        spec_basic_header(b, off) == Some(
            BasicParse {
                header: BasicHeader { format: fmt, chunk_stream_id: csid },
                size: spec_encode_basic(fmt, csid).len() as int,
            },
        ),
{
    let enc = spec_encode_basic(fmt, csid);
    assert(b[off] == enc[0]) by {
        assert(b.subrange(off, off + enc.len() as int)[0] == b[off]);
    }
    if enc.len() >= 2 {
        assert(b[off + 1] == enc[1]) by {
            assert(b.subrange(off, off + enc.len() as int)[1] == b[off + 1]);
        }
    }
    if enc.len() >= 3 {
        assert(b[off + 2] == enc[2]) by {
            assert(b.subrange(off, off + enc.len() as int)[2] == b[off + 2]);
        }
    }
    if csid <= 63 {
        let x = ((fmt as u32) * 64 + csid) as u8;
        assert((fmt as u32) * 64 + csid < 256);
        assert(x as int == fmt as int * 64 + csid as int);
        vstd::arithmetic::div_mod::lemma_fundamental_div_mod_converse(
            x as int,
            64,
            fmt as int,
            csid as int,
        );
        assert(x as int / 64 == fmt as int && x as int % 64 == csid as int);
        assert(b[off] == x);
    } else if csid <= 319 {
        let x = ((fmt as u32) * 64) as u8;
        assert(x as int == fmt as int * 64);
        vstd::arithmetic::div_mod::lemma_fundamental_div_mod_converse(x as int, 64, fmt as int, 0);
        assert(x as int / 64 == fmt as int && x as int % 64 == 0);
        assert(b[off] == x);
        assert(b[off + 1] == ((csid - 64) as u8));
        assert((csid - 64) as u8 as int == csid - 64);
    } else {
        let x = ((fmt as u32) * 64 + 1) as u8;
        assert(x as int == fmt as int * 64 + 1);
        vstd::arithmetic::div_mod::lemma_fundamental_div_mod_converse(x as int, 64, fmt as int, 1);
        assert(x as int / 64 == fmt as int && x as int % 64 == 1);
        assert(b[off] == x);
        let c = (csid - 64) as int;
        vstd::arithmetic::div_mod::lemma_fundamental_div_mod(c, 256);
        assert(0 <= c % 256 < 256);
        assert(c / 256 <= 255) by {
            assert(c <= 65535);
            assert(c == 256 * (c / 256) + c % 256);
        }
        assert(b[off + 1] as int == c % 256);
        assert(b[off + 2] as int == c / 256);
        assert(64 + (c % 256) + 256 * (c / 256) == csid);
    }
}

/// The encoding of a full (format-0) message header: 24-bit timestamp
/// field, 24-bit length, type byte, little-endian stream id, and the
/// extended timestamp when the timestamp does not fit the 24-bit field.
pub open spec fn spec_encode_header0(mh: MessageHeader) -> Seq<u8>
    recommends
        mh.msg_length < 0x1000000,
{
    let ext = mh.timestamp >= 0xFFFFFF;
    let tsf: u32 = if ext {
        0xFFFFFF
    } else {
        mh.timestamp
    };
    be24_bytes(tsf) + be24_bytes(mh.msg_length) + seq![spec_type_byte(mh.msg_type_id)]
        + le32_bytes(mh.msg_stream_id) + (if ext {
        be32_bytes(mh.timestamp)
    } else {
        Seq::<u8>::empty()
    })
}

proof fn lemma_decode_header0_at(
    b: Seq<u8>,
    off: int,
    csid: u32,
    prev: Option<CachedHeader>,
    mh: MessageHeader,
)
    requires
        0 <= off,
        mh.msg_length < 0x1000000,
        off + spec_encode_header0(mh).len() <= b.len(),
        b.subrange(off, off + spec_encode_header0(mh).len() as int) == spec_encode_header0(mh),
    ensures
        spec_header_parse(0, csid, prev, b, off) == (HeaderParse::Parsed {
            header: mh,
            used_extended: mh.timestamp >= 0xFFFFFF,
            size: spec_encode_header0(mh).len() as int,
        }),
{
    let enc = spec_encode_header0(mh);
    let ext = mh.timestamp >= 0xFFFFFF;
    let tsf: u32 = if ext {
        0xFFFFFF
    } else {
        mh.timestamp
    };
    assert forall|i: int| 0 <= i < enc.len() implies b[off + i] == enc[i] by {
        assert(b.subrange(off, off + enc.len() as int)[i] == b[off + i]);
    }
    assert(enc[0] == be24_bytes(tsf)[0] && enc[1] == be24_bytes(tsf)[1] && enc[2] == be24_bytes(
        tsf,
    )[2]);
    assert(enc[3] == be24_bytes(mh.msg_length)[0] && enc[4] == be24_bytes(mh.msg_length)[1]
        && enc[5] == be24_bytes(mh.msg_length)[2]);
    assert(enc[6] == spec_type_byte(mh.msg_type_id));
    assert(enc[7] == le32_bytes(mh.msg_stream_id)[0] && enc[8] == le32_bytes(mh.msg_stream_id)[1]
        && enc[9] == le32_bytes(mh.msg_stream_id)[2] && enc[10] == le32_bytes(
        mh.msg_stream_id,
    )[3]);
    lemma_be24_at(b, off, tsf);
    lemma_be24_at(b, off + 3, mh.msg_length);
    lemma_le32_at(b, off + 7, mh.msg_stream_id);
    if ext {
        assert(enc[11] == be32_bytes(mh.timestamp)[0] && enc[12] == be32_bytes(mh.timestamp)[1]
            && enc[13] == be32_bytes(mh.timestamp)[2] && enc[14] == be32_bytes(mh.timestamp)[3]);
        lemma_be32_at(b, off + 11, mh.timestamp);
    }
    crate::message::lemma_type_byte_round_trip(mh.msg_type_id, 0);
}

/// The format-3 continuations of a message from offset `sent` on: each
/// carries a basic header, the re-sent extended timestamp when the header
/// used one, and the next fragment of up to `chunk` bytes.
pub open spec fn spec_encode_rest(
    csid: u32,
    mh: MessageHeader,
    payload: Seq<u8>,
    chunk: int,
    sent: int,
) -> Seq<u8>
    recommends
        1 <= chunk,
        0 <= sent,
    decreases payload.len() - sent,
{
    if sent >= payload.len() || chunk < 1 {
        Seq::<u8>::empty()
    } else {
        let take = if chunk < payload.len() - sent {
            chunk
        } else {
            payload.len() - sent
        };
        spec_encode_basic(3, csid) + (if mh.timestamp >= 0xFFFFFF {
            be32_bytes(mh.timestamp)
        } else {
            Seq::<u8>::empty()
        }) + payload.subrange(sent, sent + take) + spec_encode_rest(
            csid,
            mh,
            payload,
            chunk,
            sent + take,
        )
    }
}

/// One conforming encoding of a whole message on stream `csid`: a format-0
/// chunk carrying the header and the first fragment, then format-3
/// continuations.
pub open spec fn spec_encode_message(
    csid: u32,
    mh: MessageHeader,
    payload: Seq<u8>,
    chunk: int,
) -> Seq<u8>
    recommends
        1 <= chunk,
        2 <= csid <= 65599,
        payload.len() == mh.msg_length,
{
    let take0 = if chunk < payload.len() {
        chunk
    } else {
        payload.len() as int
    };
    spec_encode_basic(0, csid) + spec_encode_header0(mh) + payload.subrange(0, take0)
        + spec_encode_rest(csid, mh, payload, chunk, take0)
}

proof fn lemma_subrange_of_subrange(b: Seq<u8>, off: int, len: int, x: int, y: int)
    requires
        0 <= off,
        0 <= x <= y <= len,
        off + len <= b.len(),
    ensures
        b.subrange(off + x, off + y) == b.subrange(off, off + len).subrange(x, y),
{
    assert(b.subrange(off + x, off + y) =~= b.subrange(off, off + len).subrange(x, y));
}

/// Decoding the format-3 continuations of a message mid-assembly consumes
/// them whole and emits the message with its payload intact.
#[verifier::rlimit(100)]
proof fn lemma_decode_rest(
    s: DecoderModel,
    b: Seq<u8>,
    off: int,
    csid: u32,
    mh: MessageHeader,
    payload: Seq<u8>,
    sent: int,
)
    requires
        s.wf(),
        2 <= csid <= 65599,
        payload.len() == mh.msg_length,
        mh.msg_length <= MAX_PARTIAL_PAYLOAD_SIZE,
        0 < sent < payload.len(),
        s.headers.contains_key(csid),
        s.headers[csid] == (CachedHeader {
            header: mh,
            used_extended_timestamp: mh.timestamp >= 0xFFFFFF,
        }),
        s.partials.contains_key(csid),
        s.partials[csid] == payload.take(sent),
        0 <= off,
        off + spec_encode_rest(csid, mh, payload, s.max_chunk_size, sent).len() <= b.len(),
        b.subrange(
            off,
            off + spec_encode_rest(csid, mh, payload, s.max_chunk_size, sent).len() as int,
        ) == spec_encode_rest(csid, mh, payload, s.max_chunk_size, sent),
    ensures
        ({
            let run = spec_run(s, b, off);
            &&& run.consumed == spec_encode_rest(
                csid,
                mh,
                payload,
                s.max_chunk_size,
                sent,
            ).len()
            &&& run.outcome matches RunOutcome::Emit(c) && c.message_header == mh && c.payload
                == payload && c.basic_header == (BasicHeader { format: 3, chunk_stream_id: csid })
            &&& run.state == (DecoderModel {
                max_chunk_size: s.max_chunk_size,
                headers: s.headers,
                partials: s.partials.remove(csid),
            })
        }),
    decreases payload.len() - sent,
{
    let chunk = s.max_chunk_size;
    let enc = spec_encode_rest(csid, mh, payload, chunk, sent);
    let ext = mh.timestamp >= 0xFFFFFF;
    let take = if chunk < payload.len() - sent {
        chunk
    } else {
        payload.len() - sent
    };
    let b3 = spec_encode_basic(3, csid);
    let ep = if ext {
        be32_bytes(mh.timestamp)
    } else {
        Seq::<u8>::empty()
    };
    let frag = payload.subrange(sent, sent + take);
    let rest2 = spec_encode_rest(csid, mh, payload, chunk, sent + take);
    assert(enc == b3 + ep + frag + rest2);
    let bsize = b3.len() as int;
    let esize = ep.len() as int;
    let elen = enc.len() as int;
    // The basic header of the continuation.
    lemma_subrange_of_subrange(b, off, elen, 0, bsize);
    assert(b.subrange(off, off + elen).subrange(0, bsize) =~= b3);
    lemma_decode_basic_at(b, off, 3, csid);
    // The format-3 header parse reads no field bytes.
    let prev = Some(s.headers[csid]);
    let hp = spec_header_parse(3, csid, prev, b, off + bsize);
    assert(hp == (HeaderParse::Parsed {
        header: mh,
        used_extended: ext,
        size: esize,
    }));
    // The payload phase.
    let pstart = off + bsize + esize;
    lemma_subrange_of_subrange(b, off, elen, bsize + esize, bsize + esize + take);
    assert(b.subrange(off, off + elen).subrange(bsize + esize, bsize + esize + take) =~= frag);
    let acc = s.partials[csid];
    let payload2 = acc + b.subrange(pstart, pstart + take);
    assert(payload2 =~= payload.take(sent + take));
    let entry = CachedHeader { header: mh, used_extended_timestamp: ext };
    assert(s.headers.insert(csid, entry) =~= s.headers);
    let sr = spec_step(s, b, off);
    assert(sr is Commit);
    let consumed = bsize + esize + take;
    assert(sr->Commit_consumed == consumed);
    if sent + take >= payload.len() {
        // The final fragment: the message completes and is emitted.
        assert(take == payload.len() - sent);
        assert(payload2 =~= payload);
        assert(rest2 == Seq::<u8>::empty());
        assert(elen == consumed);
        assert(sr->Commit_emitted is Some);
        let st = sr->Commit_state;
        assert(st == (DecoderModel {
            max_chunk_size: s.max_chunk_size,
            headers: s.headers,
            partials: s.partials.remove(csid),
        }));
    } else {
        // A middle fragment: the grown partial payload is stored and the
        // remaining continuations decode by induction.
        assert(sr->Commit_emitted is None);
        let st = sr->Commit_state;
        lemma_step_preserves_wf(s, b, off);
        lemma_subrange_of_subrange(b, off, elen, consumed, elen);
        assert((b3 + ep + frag + rest2).subrange(consumed, elen) =~= rest2);
        assert(b.subrange(off + consumed, off + consumed + rest2.len() as int) == rest2);
        assert(st.headers[csid] == entry);
        assert(st.partials[csid] == payload.take(sent + take));
        lemma_decode_rest(st, b, off + consumed, csid, mh, payload, sent + take);
        assert(st.partials.remove(csid) =~= s.partials.remove(csid));
        assert(spec_run(s, b, off).consumed == consumed + spec_run(st, b, off + consumed).consumed);
    }
}

/// Round trip: a whole message encoded by a conforming encoder with the
/// decoder's own chunk size — a format-0 chunk, then format-3
/// continuations — is consumed whole and emitted once, with its header
/// fields and payload exactly as encoded.
#[verifier::rlimit(100)]
pub proof fn lemma_round_trip(s: DecoderModel, csid: u32, mh: MessageHeader, payload: Seq<u8>)
    requires
        s.wf(),
        2 <= csid <= 65599,
        payload.len() == mh.msg_length,
        mh.msg_length <= MAX_PARTIAL_PAYLOAD_SIZE,
        !s.partials.contains_key(csid),
        s.partials.len() < MAX_PARTIAL_CHUNKS,
        s.headers.contains_key(csid) || s.headers.len() < MAX_PREVIOUS_CHUNK_HEADERS,
    ensures
        ({
            let b = spec_encode_message(csid, mh, payload, s.max_chunk_size);
            let run = spec_run(s, b, 0);
            &&& run.consumed == b.len()
            &&& run.outcome matches RunOutcome::Emit(c) && c.message_header == mh && c.payload
                == payload && c.basic_header.chunk_stream_id == csid
            &&& run.state == (DecoderModel {
                max_chunk_size: s.max_chunk_size,
                headers: s.headers.insert(
                    csid,
                    CachedHeader {
                        header: mh,
                        used_extended_timestamp: mh.timestamp >= 0xFFFFFF,
                    },
                ),
                partials: s.partials,
            })
        }),
{
    let enc = spec_encode_message(csid, mh, payload, s.max_chunk_size);
    assert(enc.subrange(0, enc.len() as int) =~= enc);
    lemma_round_trip_at(s, enc, 0, csid, mh, payload);
}

/// Round trip at an offset: a conforming encoding standing at `off` in a
/// larger buffer is consumed whole (and nothing after it is touched), and
/// the message is emitted once, exactly as encoded.
pub proof fn lemma_round_trip_at(
    s: DecoderModel,
    b: Seq<u8>,
    off: int,
    csid: u32,
    mh: MessageHeader,
    payload: Seq<u8>,
)
    requires
        s.wf(),
        2 <= csid <= 65599,
        payload.len() == mh.msg_length,
        mh.msg_length <= MAX_PARTIAL_PAYLOAD_SIZE,
        !s.partials.contains_key(csid),
        s.partials.len() < MAX_PARTIAL_CHUNKS,
        s.headers.contains_key(csid) || s.headers.len() < MAX_PREVIOUS_CHUNK_HEADERS,
        0 <= off,
        off + spec_encode_message(csid, mh, payload, s.max_chunk_size).len() <= b.len(),
        b.subrange(
            off,
            off + spec_encode_message(csid, mh, payload, s.max_chunk_size).len() as int,
        ) == spec_encode_message(csid, mh, payload, s.max_chunk_size),
    ensures
        ({
            let enc = spec_encode_message(csid, mh, payload, s.max_chunk_size);
            let run = spec_run(s, b, off);
            &&& run.consumed == enc.len()
            &&& run.outcome matches RunOutcome::Emit(c) && c.message_header == mh && c.payload
                == payload && c.basic_header.chunk_stream_id == csid
            &&& run.state == (DecoderModel {
                max_chunk_size: s.max_chunk_size,
                headers: s.headers.insert(
                    csid,
                    CachedHeader {
                        header: mh,
                        used_extended_timestamp: mh.timestamp >= 0xFFFFFF,
                    },
                ),
                partials: s.partials,
            })
        }),
{
    let chunk = s.max_chunk_size;
    let enc = spec_encode_message(csid, mh, payload, chunk);
    let ext = mh.timestamp >= 0xFFFFFF;
    let take0 = if chunk < payload.len() {
        chunk
    } else {
        payload.len() as int
    };
    let entry = CachedHeader { header: mh, used_extended_timestamp: ext };
    let consumed = spec_encode_basic(0, csid).len() + spec_encode_header0(mh).len() + take0;
    lemma_message_first_step(s, b, off, csid, mh, payload);
    let sr = spec_step(s, b, off);
    let st = sr->Commit_state;
    if take0 >= payload.len() {
        assert(st.partials =~= s.partials);
    } else {
        lemma_step_preserves_wf(s, b, off);
        lemma_decode_rest(st, b, off + consumed, csid, mh, payload, take0);
        let run = spec_run(s, b, off);
        assert(run.consumed == consumed + spec_run(st, b, off + consumed).consumed);
        assert(spec_run(st, b, off + consumed).state.partials == st.partials.remove(csid));
        assert(st.partials.remove(csid) =~= s.partials);
        assert(st.headers =~= s.headers.insert(csid, entry));
    }
}

/// The first chunk of a conforming encoding commits: it carries the full
/// header and the first fragment, emitting the message outright when it
/// fits one chunk and storing the fragment otherwise.
#[verifier::rlimit(100)]
proof fn lemma_message_first_step(
    s: DecoderModel,
    b: Seq<u8>,
    off: int,
    csid: u32,
    mh: MessageHeader,
    payload: Seq<u8>,
)
    requires
        s.wf(),
        2 <= csid <= 65599,
        payload.len() == mh.msg_length,
        mh.msg_length <= MAX_PARTIAL_PAYLOAD_SIZE,
        !s.partials.contains_key(csid),
        s.partials.len() < MAX_PARTIAL_CHUNKS,
        s.headers.contains_key(csid) || s.headers.len() < MAX_PREVIOUS_CHUNK_HEADERS,
        0 <= off,
        off + spec_encode_message(csid, mh, payload, s.max_chunk_size).len() <= b.len(),
        b.subrange(
            off,
            off + spec_encode_message(csid, mh, payload, s.max_chunk_size).len() as int,
        ) == spec_encode_message(csid, mh, payload, s.max_chunk_size),
    ensures
        ({
            let chunk = s.max_chunk_size;
            let enc = spec_encode_message(csid, mh, payload, chunk);
            let take0 = if chunk < payload.len() {
                chunk
            } else {
                payload.len() as int
            };
            let entry = CachedHeader {
                header: mh,
                used_extended_timestamp: mh.timestamp >= 0xFFFFFF,
            };
            let consumed = spec_encode_basic(0, csid).len() + spec_encode_header0(mh).len()
                + take0;
            let sr = spec_step(s, b, off);
            &&& sr is Commit
            &&& sr->Commit_consumed == consumed
            &&& (sr->Commit_state).max_chunk_size == s.max_chunk_size
            &&& (sr->Commit_state).headers == s.headers.insert(csid, entry)
            &&& if take0 >= payload.len() {
                &&& sr->Commit_emitted matches Some(c) && c.message_header == mh && c.payload
                    == payload && c.basic_header.chunk_stream_id == csid
                &&& (sr->Commit_state).partials == s.partials.remove(csid)
                &&& enc.len() == consumed
            } else {
                &&& sr->Commit_emitted is None
                &&& (sr->Commit_state).partials == s.partials.insert(csid, payload.take(take0))
                &&& b.subrange(off + consumed, off + enc.len() as int) == spec_encode_rest(
                    csid,
                    mh,
                    payload,
                    chunk,
                    take0,
                )
            }
        }),
{
    let chunk = s.max_chunk_size;
    let enc = spec_encode_message(csid, mh, payload, chunk);
    let ext = mh.timestamp >= 0xFFFFFF;
    let take0 = if chunk < payload.len() {
        chunk
    } else {
        payload.len() as int
    };
    let b0 = spec_encode_basic(0, csid);
    let h0 = spec_encode_header0(mh);
    let frag = payload.subrange(0, take0);
    let rest = spec_encode_rest(csid, mh, payload, chunk, take0);
    assert(enc == b0 + h0 + frag + rest);
    let bsize = b0.len() as int;
    let hsize = h0.len() as int;
    let elen = enc.len() as int;
    lemma_subrange_of_subrange(b, off, elen, 0, bsize);
    assert(b.subrange(off, off + elen).subrange(0, bsize) =~= b0);
    lemma_decode_basic_at(b, off, 0, csid);
    lemma_subrange_of_subrange(b, off, elen, bsize, bsize + hsize);
    assert(b.subrange(off, off + elen).subrange(bsize, bsize + hsize) =~= h0);
    let prev = if s.headers.contains_key(csid) {
        Some(s.headers[csid])
    } else {
        None
    };
    lemma_decode_header0_at(b, off + bsize, csid, prev, mh);
    let pstart = off + bsize + hsize;
    lemma_subrange_of_subrange(b, off, elen, bsize + hsize, bsize + hsize + take0);
    assert(b.subrange(off, off + elen).subrange(bsize + hsize, bsize + hsize + take0) =~= frag);
    let acc = Seq::<u8>::empty();
    let payload2 = acc + b.subrange(pstart, pstart + take0);
    assert(payload2 =~= payload.take(take0));
    let entry = CachedHeader { header: mh, used_extended_timestamp: ext };
    let sr = spec_step(s, b, off);
    assert(sr is Commit);
    let consumed = bsize + hsize + take0;
    if take0 >= payload.len() {
        assert(payload2 =~= payload);
        assert(rest == Seq::<u8>::empty());
        assert(elen == consumed);
        assert(sr->Commit_emitted is Some);
    } else {
        assert(sr->Commit_emitted is None);
        lemma_subrange_of_subrange(b, off, elen, consumed, elen);
        assert((b0 + h0 + frag + rest).subrange(consumed, elen) =~= rest);
    }
}

/// One message of a conforming stream: its chunk stream id, its header,
/// and its whole payload.
pub struct MessageEnc {
    /// The chunk stream the message is sent on.
    pub chunk_stream_id: u32,
    /// The message header, with `msg_length` equal to the payload length.
    pub header: MessageHeader,
    /// The whole payload.
    pub payload: Seq<u8>,
}

/// What the decoder asks of a message for it to be decodable at all: a
/// chunk stream id in range, a consistent declared length, and a length
/// under the partial-payload bound.
pub open spec fn spec_message_enc_valid(m: MessageEnc) -> bool {
    &&& 2 <= m.chunk_stream_id <= 65599
    &&& m.payload.len() == m.header.msg_length
    &&& m.header.msg_length <= MAX_PARTIAL_PAYLOAD_SIZE
}

/// A conforming encoding of several messages, one after the other.
pub open spec fn spec_encode_messages(msgs: Seq<MessageEnc>, chunk: int) -> Seq<u8>
    decreases msgs.len(),
{
    if msgs.len() == 0 {
        Seq::<u8>::empty()
    } else {
        spec_encode_message(msgs[0].chunk_stream_id, msgs[0].header, msgs[0].payload, chunk)
            + spec_encode_messages(msgs.drop_first(), chunk)
    }
}

/// Successive calls starting at `off` emit exactly `msgs`, in order: each
/// call emits the next message with its header fields and payload intact
/// and consumes just its chunks, and the following call picks up where it
/// stopped.
pub open spec fn spec_runs_emit(
    s: DecoderModel,
    b: Seq<u8>,
    off: int,
    msgs: Seq<MessageEnc>,
) -> bool
    decreases msgs.len(),
{
    msgs.len() > 0 ==> {
        let run = spec_run(s, b, off);
        &&& run.outcome matches RunOutcome::Emit(c) && c.message_header == msgs[0].header
            && c.payload == msgs[0].payload && c.basic_header.chunk_stream_id
            == msgs[0].chunk_stream_id
        &&& spec_runs_emit(run.state, b, off + run.consumed, msgs.drop_first())
    }
}

/// Round trip for a whole sequence of messages: fed a conforming encoding
/// of `msgs`, the decoder emits exactly those messages, one per call, in
/// the order they were encoded.
pub proof fn lemma_round_trip_sequence(
    s: DecoderModel,
    b: Seq<u8>,
    off: int,
    msgs: Seq<MessageEnc>,
)
    requires
        s.wf(),
        forall|i: int| 0 <= i < msgs.len() ==> spec_message_enc_valid(#[trigger] msgs[i]),
        forall|i: int|
            0 <= i < msgs.len() ==> !s.partials.contains_key(
                (#[trigger] msgs[i]).chunk_stream_id,
            ),
        s.partials.len() < MAX_PARTIAL_CHUNKS,
        s.headers.len() + msgs.len() <= MAX_PREVIOUS_CHUNK_HEADERS,
        0 <= off,
        off + spec_encode_messages(msgs, s.max_chunk_size).len() <= b.len(),
        b.subrange(off, off + spec_encode_messages(msgs, s.max_chunk_size).len() as int)
            == spec_encode_messages(msgs, s.max_chunk_size),
    ensures
        spec_runs_emit(s, b, off, msgs),
    decreases msgs.len(),
{
    if msgs.len() > 0 {
        let m = msgs[0];
        let tail = msgs.drop_first();
        let enc0 = spec_encode_message(m.chunk_stream_id, m.header, m.payload, s.max_chunk_size);
        let encs = spec_encode_messages(msgs, s.max_chunk_size);
        let enct = spec_encode_messages(tail, s.max_chunk_size);
        assert(encs == enc0 + enct);
        let elen0 = enc0.len() as int;
        let elen = encs.len() as int;
        lemma_subrange_of_subrange(b, off, elen, 0, elen0);
        assert(b.subrange(off, off + elen).subrange(0, elen0) =~= enc0);
        lemma_round_trip_at(s, b, off, m.chunk_stream_id, m.header, m.payload);
        lemma_run_preserves_wf(s, b, off);
        let run = spec_run(s, b, off);
        let s2 = run.state;
        // The header cache grew by at most the one entry.
        if s.headers.contains_key(m.chunk_stream_id) {
            assert(s2.headers.dom() =~= s.headers.dom());
        } else {
            assert(s2.headers.dom() =~= s.headers.dom().insert(m.chunk_stream_id));
            vstd::set_lib::lemma_len_union::<u32>(
                s.headers.dom(),
                Set::empty().insert(m.chunk_stream_id),
            );
        }
        // The rest of the buffer still carries the encoding of the rest.
        lemma_subrange_of_subrange(b, off, elen, elen0, elen);
        assert((enc0 + enct).subrange(elen0, elen) =~= enct);
        assert(b.subrange(off + elen0, off + elen) == enct);
        assert(forall|i: int| 0 <= i < tail.len() ==> tail[i] == msgs[i + 1]);
        lemma_round_trip_sequence(s2, b, off + elen0, tail);
    }
}

/// How many chunks a conforming encoder splits a message of `len` payload
/// bytes into at fragment size `chunk`: one chunk per started fragment, and
/// a single chunk for an empty message.
pub open spec fn spec_chunk_count(len: int, chunk: int) -> int
    recommends
        1 <= chunk,
{
    if len <= 0 {
        1
    } else {
        (len + chunk - 1) / chunk
    }
}

proof fn lemma_chunk_count_bounds(len: int, chunk: int)
    requires
        1 <= chunk,
        0 < len,
    ensures
        1 <= spec_chunk_count(len, chunk),
        (spec_chunk_count(len, chunk) - 1) * chunk < len,
        len <= spec_chunk_count(len, chunk) * chunk,
{
    let cnt = spec_chunk_count(len, chunk);
    vstd::arithmetic::div_mod::lemma_fundamental_div_mod(len + chunk - 1, chunk);
    assert(len + chunk - 1 == chunk * cnt + (len + chunk - 1) % chunk);
    assert(0 <= (len + chunk - 1) % chunk < chunk) by {
        vstd::arithmetic::div_mod::lemma_mod_bound(len + chunk - 1, chunk);
    }
    let r = (len + chunk - 1) % chunk;
    assert(cnt >= 1 && (cnt - 1) * chunk < len && len <= cnt * chunk) by (nonlinear_arith)
        requires
            chunk >= 1,
            len >= 1,
            len + chunk - 1 == chunk * cnt + r,
            0 <= r < chunk,
    ;
}

/// The `k`-th chunk (counting from zero) of the canonical encoding of a
/// message: the first carries the full format-0 header, the later ones a
/// format-3 basic header with the re-sent extended timestamp when used;
/// each carries the next payload fragment of up to `chunk` bytes.
pub open spec fn spec_msg_chunk(m: MessageEnc, chunk: int, k: int) -> Seq<u8>
    recommends
        1 <= chunk,
        0 <= k < spec_chunk_count(m.payload.len() as int, chunk),
{
    let len = m.payload.len() as int;
    let hi = if (k + 1) * chunk < len {
        (k + 1) * chunk
    } else {
        len
    };
    let frag = m.payload.subrange(k * chunk, hi);
    if k == 0 {
        spec_encode_basic(0, m.chunk_stream_id) + spec_encode_header0(m.header) + frag
    } else {
        spec_encode_basic(3, m.chunk_stream_id) + (if m.header.timestamp >= 0xFFFFFF {
            be32_bytes(m.header.timestamp)
        } else {
            Seq::<u8>::empty()
        }) + frag
    }
}

/// Decoding the first chunk of a message commits it: the header is cached,
/// and the message is emitted outright when it fits one chunk or its first
/// fragment is stored otherwise. Only this one chunk's bytes are needed.
#[verifier::rlimit(100)]
proof fn lemma_decode_msg_chunk0(s: DecoderModel, b: Seq<u8>, off: int, m: MessageEnc)
    requires
        s.wf(),
        spec_message_enc_valid(m),
        !s.partials.contains_key(m.chunk_stream_id),
        spec_chunk_count(m.payload.len() as int, s.max_chunk_size) > 1 ==> s.partials.len()
            < MAX_PARTIAL_CHUNKS,
        s.headers.contains_key(m.chunk_stream_id) || s.headers.len()
            < MAX_PREVIOUS_CHUNK_HEADERS,
        0 <= off,
        off + spec_msg_chunk(m, s.max_chunk_size, 0).len() <= b.len(),
        b.subrange(off, off + spec_msg_chunk(m, s.max_chunk_size, 0).len() as int)
            == spec_msg_chunk(m, s.max_chunk_size, 0),
    ensures
        ({
            let chunk = s.max_chunk_size;
            let cnt = spec_chunk_count(m.payload.len() as int, chunk);
            let entry = CachedHeader {
                header: m.header,
                used_extended_timestamp: m.header.timestamp >= 0xFFFFFF,
            };
            let sr = spec_step(s, b, off);
            &&& sr is Commit
            &&& sr->Commit_consumed == spec_msg_chunk(m, chunk, 0).len()
            &&& (sr->Commit_state).max_chunk_size == s.max_chunk_size
            &&& (sr->Commit_state).headers == s.headers.insert(m.chunk_stream_id, entry)
            &&& if cnt == 1 {
                &&& sr->Commit_emitted matches Some(c) && c.message_header == m.header
                    && c.payload == m.payload && c.basic_header.chunk_stream_id
                    == m.chunk_stream_id
                &&& (sr->Commit_state).partials == s.partials.remove(m.chunk_stream_id)
            } else {
                &&& sr->Commit_emitted is None
                &&& (sr->Commit_state).partials == s.partials.insert(
                    m.chunk_stream_id,
                    m.payload.take(chunk),
                )
            }
        }),
{
    let chunk = s.max_chunk_size;
    let len = m.payload.len() as int;
    let cnt = spec_chunk_count(len, chunk);
    let csid = m.chunk_stream_id;
    let mh = m.header;
    let ext = mh.timestamp >= 0xFFFFFF;
    let enc = spec_msg_chunk(m, chunk, 0);
    let hi = if chunk < len {
        chunk
    } else {
        len
    };
    let b0 = spec_encode_basic(0, csid);
    let h0 = spec_encode_header0(mh);
    let frag = m.payload.subrange(0, hi);
    assert(enc == b0 + h0 + frag);
    if len > 0 {
        lemma_chunk_count_bounds(len, chunk);
        if cnt == 1 {
            assert(len <= chunk);
        } else {
            assert((cnt - 1) * chunk >= chunk) by (nonlinear_arith)
                requires
                    cnt >= 2,
                    chunk >= 1,
            ;
            assert(len > chunk);
        }
    }
    let bsize = b0.len() as int;
    let hsize = h0.len() as int;
    let elen = enc.len() as int;
    lemma_subrange_of_subrange(b, off, elen, 0, bsize);
    assert(b.subrange(off, off + elen).subrange(0, bsize) =~= b0);
    lemma_decode_basic_at(b, off, 0, csid);
    lemma_subrange_of_subrange(b, off, elen, bsize, bsize + hsize);
    assert(b.subrange(off, off + elen).subrange(bsize, bsize + hsize) =~= h0);
    let prev = if s.headers.contains_key(csid) {
        Some(s.headers[csid])
    } else {
        None
    };
    lemma_decode_header0_at(b, off + bsize, csid, prev, mh);
    let pstart = off + bsize + hsize;
    lemma_subrange_of_subrange(b, off, elen, bsize + hsize, bsize + hsize + hi);
    assert(b.subrange(off, off + elen).subrange(bsize + hsize, bsize + hsize + hi) =~= frag);
    let payload2 = Seq::<u8>::empty() + b.subrange(pstart, pstart + hi);
    assert(payload2 =~= m.payload.take(hi));
    let sr = spec_step(s, b, off);
    assert(sr is Commit);
    if cnt == 1 {
        assert(payload2 =~= m.payload);
        assert(sr->Commit_emitted is Some);
    } else {
        assert(payload2 =~= m.payload.take(chunk));
        assert(sr->Commit_emitted is None);
    }
}

/// Decoding a continuation chunk of a message mid-assembly commits it: the
/// fragment is appended, and the message is emitted when this was its last
/// chunk. Only this one chunk's bytes are needed.
#[verifier::rlimit(100)]
proof fn lemma_decode_msg_chunk_at(s: DecoderModel, b: Seq<u8>, off: int, m: MessageEnc, k: int)
    requires
        s.wf(),
        spec_message_enc_valid(m),
        1 <= k < spec_chunk_count(m.payload.len() as int, s.max_chunk_size),
        s.partials.contains_key(m.chunk_stream_id),
        s.partials[m.chunk_stream_id] == m.payload.take(k * s.max_chunk_size),
        s.headers[m.chunk_stream_id] == (CachedHeader {
            header: m.header,
            used_extended_timestamp: m.header.timestamp >= 0xFFFFFF,
        }),
        0 <= off,
        off + spec_msg_chunk(m, s.max_chunk_size, k).len() <= b.len(),
        b.subrange(off, off + spec_msg_chunk(m, s.max_chunk_size, k).len() as int)
            == spec_msg_chunk(m, s.max_chunk_size, k),
    ensures
        ({
            let chunk = s.max_chunk_size;
            let cnt = spec_chunk_count(m.payload.len() as int, chunk);
            let entry = CachedHeader {
                header: m.header,
                used_extended_timestamp: m.header.timestamp >= 0xFFFFFF,
            };
            let sr = spec_step(s, b, off);
            &&& sr is Commit
            &&& sr->Commit_consumed == spec_msg_chunk(m, chunk, k).len()
            &&& (sr->Commit_state).max_chunk_size == s.max_chunk_size
            &&& (sr->Commit_state).headers == s.headers.insert(m.chunk_stream_id, entry)
            &&& if k + 1 == cnt {
                &&& sr->Commit_emitted matches Some(c) && c.message_header == m.header
                    && c.payload == m.payload && c.basic_header.chunk_stream_id
                    == m.chunk_stream_id
                &&& (sr->Commit_state).partials == s.partials.remove(m.chunk_stream_id)
            } else {
                &&& sr->Commit_emitted is None
                &&& (sr->Commit_state).partials == s.partials.insert(
                    m.chunk_stream_id,
                    m.payload.take((k + 1) * chunk),
                )
            }
        }),
{
    let chunk = s.max_chunk_size;
    let len = m.payload.len() as int;
    let cnt = spec_chunk_count(len, chunk);
    let csid = m.chunk_stream_id;
    let mh = m.header;
    let ext = mh.timestamp >= 0xFFFFFF;
    let entry = CachedHeader { header: mh, used_extended_timestamp: ext };
    let enc = spec_msg_chunk(m, chunk, k);
    assert(len > 0);
    lemma_chunk_count_bounds(len, chunk);
    assert(k * chunk <= (cnt - 1) * chunk && (k + 1) * chunk <= cnt * chunk && (k + 1) * chunk
        == k * chunk + chunk) by (nonlinear_arith)
        requires
            1 <= k <= cnt - 1,
            chunk >= 1,
    ;
    let hi = if (k + 1) * chunk < len {
        (k + 1) * chunk
    } else {
        len
    };
    let b3 = spec_encode_basic(3, csid);
    let ep = if ext {
        be32_bytes(mh.timestamp)
    } else {
        Seq::<u8>::empty()
    };
    let frag = m.payload.subrange(k * chunk, hi);
    assert(enc == b3 + ep + frag);
    let bsize = b3.len() as int;
    let esize = ep.len() as int;
    let elen = enc.len() as int;
    lemma_subrange_of_subrange(b, off, elen, 0, bsize);
    assert(b.subrange(off, off + elen).subrange(0, bsize) =~= b3);
    lemma_decode_basic_at(b, off, 3, csid);
    let prev = Some(s.headers[csid]);
    let hp = spec_header_parse(3, csid, prev, b, off + bsize);
    assert(hp == (HeaderParse::Parsed { header: mh, used_extended: ext, size: esize }));
    let pstart = off + bsize + esize;
    lemma_subrange_of_subrange(b, off, elen, bsize + esize, bsize + esize + (hi - k * chunk));
    assert(b.subrange(off, off + elen).subrange(bsize + esize, bsize + esize + (hi - k * chunk))
        =~= frag);
    let acc = s.partials[csid];
    assert(acc.len() == k * chunk);
    let payload2 = acc + b.subrange(pstart, pstart + (hi - k * chunk));
    let sr = spec_step(s, b, off);
    if k + 1 == cnt {
        assert(hi == len);
        assert(payload2 =~= m.payload);
        assert(sr is Commit);
        assert(sr->Commit_emitted is Some);
    } else {
        assert((k + 1) * chunk <= (cnt - 1) * chunk) by (nonlinear_arith)
            requires
                k + 1 <= cnt - 1,
                chunk >= 1,
        ;
        assert(hi == (k + 1) * chunk);
        assert(payload2 =~= m.payload.take((k + 1) * chunk));
        assert(sr is Commit);
        assert(sr->Commit_emitted is None);
    }
}

/// An interleaving schedule: at each position the index of the message
/// whose next chunk comes on the wire. It is valid when every index is in
/// range, no finished message is scheduled again, and at the end every
/// message has sent all of its chunks. `prog[i]` counts the chunks of
/// message `i` already sent.
pub open spec fn spec_sched_valid(
    msgs: Seq<MessageEnc>,
    chunk: int,
    sched: Seq<int>,
    prog: Seq<int>,
) -> bool
    recommends
        prog.len() == msgs.len(),
    decreases sched.len(),
{
    if sched.len() == 0 {
        forall|i: int|
            0 <= i < msgs.len() ==> #[trigger] prog[i] == spec_chunk_count(
                msgs[i].payload.len() as int,
                chunk,
            )
    } else {
        let i = sched[0];
        &&& 0 <= i < msgs.len()
        &&& prog[i] < spec_chunk_count(msgs[i].payload.len() as int, chunk)
        &&& spec_sched_valid(msgs, chunk, sched.drop_first(), prog.update(i, prog[i] + 1))
    }
}

/// The bytes an interleaved conforming encoder puts on the wire for a
/// schedule: the scheduled message's next chunk, at each position in turn.
pub open spec fn spec_encode_sched(
    msgs: Seq<MessageEnc>,
    chunk: int,
    sched: Seq<int>,
    prog: Seq<int>,
) -> Seq<u8>
    recommends
        prog.len() == msgs.len(),
    decreases sched.len(),
{
    if sched.len() == 0 {
        Seq::<u8>::empty()
    } else {
        let i = sched[0];
        spec_msg_chunk(msgs[i], chunk, prog[i]) + spec_encode_sched(
            msgs,
            chunk,
            sched.drop_first(),
            prog.update(i, prog[i] + 1),
        )
    }
}

/// The messages a schedule completes, in the order of their final chunks.
pub open spec fn spec_sched_emissions(
    msgs: Seq<MessageEnc>,
    chunk: int,
    sched: Seq<int>,
    prog: Seq<int>,
) -> Seq<MessageEnc>
    recommends
        prog.len() == msgs.len(),
    decreases sched.len(),
{
    if sched.len() == 0 {
        Seq::<MessageEnc>::empty()
    } else {
        let i = sched[0];
        let rest = spec_sched_emissions(msgs, chunk, sched.drop_first(), prog.update(
            i,
            prog[i] + 1,
        ));
        if prog[i] + 1 == spec_chunk_count(msgs[i].payload.len() as int, chunk) {
            seq![msgs[i]] + rest
        } else {
            rest
        }
    }
}

/// How many messages have not sent any chunk yet.
pub open spec fn spec_count_unstarted(prog: Seq<int>) -> int
    decreases prog.len(),
{
    if prog.len() == 0 {
        0
    } else {
        (if prog[0] == 0 {
            1int
        } else {
            0int
        }) + spec_count_unstarted(prog.drop_first())
    }
}

/// How many messages will still claim a fresh assembler slot: those not
/// yet started that do not fit a single chunk.
pub open spec fn spec_count_pending(msgs: Seq<MessageEnc>, chunk: int, prog: Seq<int>) -> int
    recommends
        prog.len() == msgs.len(),
    decreases prog.len(),
{
    if prog.len() == 0 || msgs.len() == 0 {
        0
    } else {
        (if prog[0] == 0 && spec_chunk_count(msgs[0].payload.len() as int, chunk) > 1 {
            1int
        } else {
            0int
        }) + spec_count_pending(msgs.drop_first(), chunk, prog.drop_first())
    }
}

proof fn lemma_count_unstarted_update(prog: Seq<int>, i: int, v: int)
    requires
        0 <= i < prog.len(),
        v != 0,
    ensures
        spec_count_unstarted(prog.update(i, v)) == spec_count_unstarted(prog) - (if prog[i] == 0 {
            1int
        } else {
            0int
        }),
        prog[i] == 0 ==> spec_count_unstarted(prog) >= 1,
    decreases prog.len(),
{
    if i == 0 {
        assert(prog.update(0, v).drop_first() =~= prog.drop_first());
        lemma_count_unstarted_nonneg(prog.drop_first());
    } else {
        assert(prog.update(i, v).drop_first() =~= prog.drop_first().update(i - 1, v));
        lemma_count_unstarted_update(prog.drop_first(), i - 1, v);
    }
}

proof fn lemma_count_unstarted_nonneg(prog: Seq<int>)
    ensures
        spec_count_unstarted(prog) >= 0,
    decreases prog.len(),
{
    if prog.len() > 0 {
        lemma_count_unstarted_nonneg(prog.drop_first());
    }
}

proof fn lemma_count_pending_nonneg(msgs: Seq<MessageEnc>, chunk: int, prog: Seq<int>)
    ensures
        spec_count_pending(msgs, chunk, prog) >= 0,
    decreases prog.len(),
{
    if prog.len() > 0 && msgs.len() > 0 {
        lemma_count_pending_nonneg(msgs.drop_first(), chunk, prog.drop_first());
    }
}

proof fn lemma_count_pending_update(msgs: Seq<MessageEnc>, chunk: int, prog: Seq<int>, i: int, v: int)
    requires
        prog.len() == msgs.len(),
        0 <= i < prog.len(),
        v != 0,
    ensures
        spec_count_pending(msgs, chunk, prog.update(i, v)) == spec_count_pending(
            msgs,
            chunk,
            prog,
        ) - (if prog[i] == 0 && spec_chunk_count(msgs[i].payload.len() as int, chunk) > 1 {
            1int
        } else {
            0int
        }),
        prog[i] == 0 && spec_chunk_count(msgs[i].payload.len() as int, chunk) > 1
            ==> spec_count_pending(msgs, chunk, prog) >= 1,
    decreases prog.len(),
{
    if i == 0 {
        assert(prog.update(0, v).drop_first() =~= prog.drop_first());
        lemma_count_pending_nonneg(msgs.drop_first(), chunk, prog.drop_first());
    } else {
        assert(prog.update(i, v).drop_first() =~= prog.drop_first().update(i - 1, v));
        assert(forall|j: int|
            0 <= j < msgs.len() - 1 ==> #[trigger] msgs.drop_first()[j] == msgs[j + 1]);
        lemma_count_pending_update(msgs.drop_first(), chunk, prog.drop_first(), i - 1, v);
    }
}

/// A committed chunk that emits nothing moves a call forward: what the call
/// does from here is what it does from the state and offset just past that
/// chunk.
proof fn lemma_runs_emit_shift(
    s: DecoderModel,
    s2: DecoderModel,
    b: Seq<u8>,
    off: int,
    n: int,
    e: Seq<MessageEnc>,
)
    requires
        spec_step(s, b, off) matches StepResult::Commit { consumed, state, emitted } && consumed
            == n && state == s2 && emitted is None,
        0 < n,
        off + n <= b.len(),
    ensures
        spec_runs_emit(s, b, off, e) == spec_runs_emit(s2, b, off + n, e),
{
    if e.len() > 0 {
        let run = spec_run(s, b, off);
        let rest = spec_run(s2, b, off + n);
        assert(run == (RunResult {
            outcome: rest.outcome,
            consumed: n + rest.consumed,
            state: rest.state,
        }));
        assert(off + run.consumed == off + n + rest.consumed);
    }
}

/// Interleaving, in full: fed the chunks of several concurrent messages on
/// distinct streams, interleaved in any valid schedule, the decoder emits
/// exactly the scheduled messages, each as its final chunk arrives, in that
/// order.
/// One scheduled chunk later, the per-message facts and the cap budgets
/// still hold of the new state and progress.
#[verifier::rlimit(100)]
proof fn lemma_schedule_invariants_preserved(
    s: DecoderModel,
    s2: DecoderModel,
    msgs: Seq<MessageEnc>,
    prog: Seq<int>,
    i: int,
)
    requires
        s.wf(),
        prog.len() == msgs.len(),
        forall|j: int| 0 <= j < msgs.len() ==> spec_message_enc_valid(#[trigger] msgs[j]),
        forall|j: int, l: int|
            0 <= j < l < msgs.len() ==> msgs[j].chunk_stream_id != msgs[l].chunk_stream_id,
        forall|j: int|
            0 <= j < msgs.len() ==> 0 <= #[trigger] prog[j] <= spec_chunk_count(
                msgs[j].payload.len() as int,
                s.max_chunk_size,
            ),
        forall|j: int|
            0 <= j < msgs.len() && !(0 < prog[j] < spec_chunk_count(
                msgs[j].payload.len() as int,
                s.max_chunk_size,
            )) ==> !s.partials.contains_key((#[trigger] msgs[j]).chunk_stream_id),
        forall|j: int|
            0 <= j < msgs.len() && 0 < prog[j] < spec_chunk_count(
                msgs[j].payload.len() as int,
                s.max_chunk_size,
            ) ==> {
                &&& s.partials.contains_key((#[trigger] msgs[j]).chunk_stream_id)
                &&& s.partials[msgs[j].chunk_stream_id] == msgs[j].payload.take(
                    prog[j] * s.max_chunk_size,
                )
                &&& s.headers.contains_key(msgs[j].chunk_stream_id)
                &&& s.headers[msgs[j].chunk_stream_id] == (CachedHeader {
                    header: msgs[j].header,
                    used_extended_timestamp: msgs[j].header.timestamp >= 0xFFFFFF,
                })
            },
        s.partials.len() + spec_count_pending(msgs, s.max_chunk_size, prog)
            <= MAX_PARTIAL_CHUNKS,
        s.headers.len() + spec_count_unstarted(prog) <= MAX_PREVIOUS_CHUNK_HEADERS,
        0 <= i < msgs.len(),
        prog[i] < spec_chunk_count(msgs[i].payload.len() as int, s.max_chunk_size),
        s2.max_chunk_size == s.max_chunk_size,
        s2.headers == s.headers.insert(
            msgs[i].chunk_stream_id,
            CachedHeader {
                header: msgs[i].header,
                used_extended_timestamp: msgs[i].header.timestamp >= 0xFFFFFF,
            },
        ),
        s2.partials == (if prog[i] + 1 == spec_chunk_count(
            msgs[i].payload.len() as int,
            s.max_chunk_size,
        ) {
            s.partials.remove(msgs[i].chunk_stream_id)
        } else {
            s.partials.insert(
                msgs[i].chunk_stream_id,
                msgs[i].payload.take((prog[i] + 1) * s.max_chunk_size),
            )
        }),
    ensures
        ({
            let prog2 = prog.update(i, prog[i] + 1);
            let chunk = s.max_chunk_size;
            &&& forall|j: int|
                0 <= j < msgs.len() ==> 0 <= #[trigger] prog2[j] <= spec_chunk_count(
                    msgs[j].payload.len() as int,
                    chunk,
                )
            &&& forall|j: int|
                0 <= j < msgs.len() && !(0 < prog2[j] < spec_chunk_count(
                    msgs[j].payload.len() as int,
                    chunk,
                )) ==> !s2.partials.contains_key((#[trigger] msgs[j]).chunk_stream_id)
            &&& forall|j: int|
                0 <= j < msgs.len() && 0 < prog2[j] < spec_chunk_count(
                    msgs[j].payload.len() as int,
                    chunk,
                ) ==> {
                    &&& s2.partials.contains_key((#[trigger] msgs[j]).chunk_stream_id)
                    &&& s2.partials[msgs[j].chunk_stream_id] == msgs[j].payload.take(
                        prog2[j] * chunk,
                    )
                    &&& s2.headers.contains_key(msgs[j].chunk_stream_id)
                    &&& s2.headers[msgs[j].chunk_stream_id] == (CachedHeader {
                        header: msgs[j].header,
                        used_extended_timestamp: msgs[j].header.timestamp >= 0xFFFFFF,
                    })
                }
            &&& s2.partials.len() + spec_count_pending(msgs, chunk, prog2) <= MAX_PARTIAL_CHUNKS
            &&& s2.headers.len() + spec_count_unstarted(prog2) <= MAX_PREVIOUS_CHUNK_HEADERS
        }),
{
    let chunk = s.max_chunk_size;
    let m = msgs[i];
    let k = prog[i];
    let cnt = spec_chunk_count(m.payload.len() as int, chunk);
    let csid = m.chunk_stream_id;
    let prog2 = prog.update(i, k + 1);
    assert(forall|j: int|
        0 <= j < msgs.len() && j != i ==> (#[trigger] msgs[j]).chunk_stream_id != csid);
    lemma_count_unstarted_update(prog, i, k + 1);
    lemma_count_pending_update(msgs, chunk, prog, i, k + 1);
    lemma_count_unstarted_nonneg(prog2);
    lemma_count_pending_nonneg(msgs, chunk, prog2);
    if k == 0 && cnt > 1 {
        assert(s2.partials.dom() =~= s.partials.dom().insert(csid));
        vstd::set_lib::lemma_len_union::<u32>(s.partials.dom(), Set::empty().insert(csid));
    } else if k == 0 && cnt == 1 {
        assert(s2.partials =~= s.partials);
    } else if k + 1 < cnt {
        assert(s2.partials.dom() =~= s.partials.dom());
    } else {
        vstd::set_lib::lemma_len_subset::<u32>(s2.partials.dom(), s.partials.dom());
    }
    if s.headers.contains_key(csid) {
        assert(s2.headers.dom() =~= s.headers.dom());
    } else {
        assert(s2.headers.dom() =~= s.headers.dom().insert(csid));
        vstd::set_lib::lemma_len_union::<u32>(s.headers.dom(), Set::empty().insert(csid));
    }
    assert(forall|j: int| 0 <= j < msgs.len() && j != i ==> #[trigger] prog2[j] == prog[j]);
    assert forall|j: int|
        0 <= j < msgs.len() && !(0 < prog2[j] < spec_chunk_count(
            msgs[j].payload.len() as int,
            chunk,
        )) implies !s2.partials.contains_key((#[trigger] msgs[j]).chunk_stream_id) by {
        if j != i {
            assert(!s.partials.contains_key(msgs[j].chunk_stream_id));
        }
    }
    assert forall|j: int|
        0 <= j < msgs.len() && 0 < prog2[j] < spec_chunk_count(
            msgs[j].payload.len() as int,
            chunk,
        ) implies {
        &&& s2.partials.contains_key((#[trigger] msgs[j]).chunk_stream_id)
        &&& s2.partials[msgs[j].chunk_stream_id] == msgs[j].payload.take(prog2[j] * chunk)
        &&& s2.headers.contains_key(msgs[j].chunk_stream_id)
        &&& s2.headers[msgs[j].chunk_stream_id] == (CachedHeader {
            header: msgs[j].header,
            used_extended_timestamp: msgs[j].header.timestamp >= 0xFFFFFF,
        })
    } by {
        if j == i {
            assert(prog2[i] == k + 1);
        } else {
            assert(s.partials.contains_key(msgs[j].chunk_stream_id));
        }
    }
}

#[verifier::rlimit(100)]
proof fn lemma_decode_schedule(
    s: DecoderModel,
    b: Seq<u8>,
    off: int,
    msgs: Seq<MessageEnc>,
    sched: Seq<int>,
    prog: Seq<int>,
)
    requires
        s.wf(),
        prog.len() == msgs.len(),
        forall|i: int| 0 <= i < msgs.len() ==> spec_message_enc_valid(#[trigger] msgs[i]),
        forall|i: int, j: int|
            0 <= i < j < msgs.len() ==> msgs[i].chunk_stream_id != msgs[j].chunk_stream_id,
        spec_sched_valid(msgs, s.max_chunk_size, sched, prog),
        forall|i: int|
            0 <= i < msgs.len() ==> 0 <= #[trigger] prog[i] <= spec_chunk_count(
                msgs[i].payload.len() as int,
                s.max_chunk_size,
            ),
        forall|i: int|
            0 <= i < msgs.len() && !(0 < prog[i] < spec_chunk_count(
                msgs[i].payload.len() as int,
                s.max_chunk_size,
            )) ==> !s.partials.contains_key((#[trigger] msgs[i]).chunk_stream_id),
        forall|i: int|
            0 <= i < msgs.len() && 0 < prog[i] < spec_chunk_count(
                msgs[i].payload.len() as int,
                s.max_chunk_size,
            ) ==> {
                &&& s.partials.contains_key((#[trigger] msgs[i]).chunk_stream_id)
                &&& s.partials[msgs[i].chunk_stream_id] == msgs[i].payload.take(
                    prog[i] * s.max_chunk_size,
                )
                &&& s.headers.contains_key(msgs[i].chunk_stream_id)
                &&& s.headers[msgs[i].chunk_stream_id] == (CachedHeader {
                    header: msgs[i].header,
                    used_extended_timestamp: msgs[i].header.timestamp >= 0xFFFFFF,
                })
            },
        s.partials.len() + spec_count_pending(msgs, s.max_chunk_size, prog)
            <= MAX_PARTIAL_CHUNKS,
        s.headers.len() + spec_count_unstarted(prog) <= MAX_PREVIOUS_CHUNK_HEADERS,
        0 <= off,
        off + spec_encode_sched(msgs, s.max_chunk_size, sched, prog).len() <= b.len(),
        b.subrange(off, off + spec_encode_sched(msgs, s.max_chunk_size, sched, prog).len() as int)
            == spec_encode_sched(msgs, s.max_chunk_size, sched, prog),
    ensures
        spec_runs_emit(s, b, off, spec_sched_emissions(msgs, s.max_chunk_size, sched, prog)),
    decreases sched.len(),
{
    if sched.len() == 0 {
        return ;
    }
    let chunk = s.max_chunk_size;
    let i = sched[0];
    let m = msgs[i];
    let k = prog[i];
    let cnt = spec_chunk_count(m.payload.len() as int, chunk);
    let csid = m.chunk_stream_id;
    let entry = CachedHeader {
        header: m.header,
        used_extended_timestamp: m.header.timestamp >= 0xFFFFFF,
    };
    let prog2 = prog.update(i, k + 1);
    let sched2 = sched.drop_first();
    let enc0 = spec_msg_chunk(m, chunk, k);
    let encs = spec_encode_sched(msgs, chunk, sched, prog);
    let enct = spec_encode_sched(msgs, chunk, sched2, prog2);
    assert(encs == enc0 + enct);
    let elen0 = enc0.len() as int;
    let elen = encs.len() as int;
    lemma_subrange_of_subrange(b, off, elen, 0, elen0);
    assert(b.subrange(off, off + elen).subrange(0, elen0) =~= enc0);
    if k == 0 {
        lemma_count_pending_update(msgs, chunk, prog, i, k + 1);
        lemma_count_unstarted_update(prog, i, k + 1);
        lemma_count_pending_nonneg(msgs, chunk, prog2);
        lemma_count_unstarted_nonneg(prog2);
        lemma_decode_msg_chunk0(s, b, off, m);
    } else {
        lemma_decode_msg_chunk_at(s, b, off, m, k);
    }
    let sr = spec_step(s, b, off);
    let s2 = sr->Commit_state;
    lemma_step_preserves_wf(s, b, off);
    // The rest of the buffer still carries the rest of the schedule.
    lemma_subrange_of_subrange(b, off, elen, elen0, elen);
    assert((enc0 + enct).subrange(elen0, elen) =~= enct);
    assert(b.subrange(off + elen0, off + elen0 + enct.len() as int) == enct);
    if k == 0 && cnt > 1 {
        assert(m.payload.take(chunk) == m.payload.take((k + 1) * chunk));
    }
    lemma_schedule_invariants_preserved(s, s2, msgs, prog, i);
    lemma_decode_schedule(s2, b, off + elen0, msgs, sched2, prog2);
    let emis = spec_sched_emissions(msgs, chunk, sched, prog);
    let emist = spec_sched_emissions(msgs, chunk, sched2, prog2);
    if k + 1 == cnt {
        assert(emis == seq![m] + emist);
        assert(emis.drop_first() =~= emist);
        let run = spec_run(s, b, off);
        assert(run.outcome matches RunOutcome::Emit(c) && c.message_header == m.header
            && c.payload == m.payload && c.basic_header.chunk_stream_id == csid);
        assert(run.state == s2 && run.consumed == elen0);
    } else {
        assert(emis == emist);
        lemma_runs_emit_shift(s, s2, b, off, elen0, emis);
    }
}

/// Interleaving, from a drained decoder: given the chunks of any number of
/// concurrent messages on distinct streams, interleaved in any valid
/// schedule, the decoder emits each message exactly when its final chunk
/// arrives — so every message once, in completion order.
pub proof fn lemma_interleaved_round_trip(
    s: DecoderModel,
    b: Seq<u8>,
    msgs: Seq<MessageEnc>,
    sched: Seq<int>,
)
    requires
        s.wf(),
        s.partials == Map::<u32, Seq<u8>>::empty(),
        forall|i: int| 0 <= i < msgs.len() ==> spec_message_enc_valid(#[trigger] msgs[i]),
        forall|i: int, j: int|
            0 <= i < j < msgs.len() ==> msgs[i].chunk_stream_id != msgs[j].chunk_stream_id,
        msgs.len() <= MAX_PARTIAL_CHUNKS,
        s.headers.len() + msgs.len() <= MAX_PREVIOUS_CHUNK_HEADERS,
        spec_sched_valid(msgs, s.max_chunk_size, sched, Seq::new(msgs.len(), |i: int| 0)),
        b == spec_encode_sched(msgs, s.max_chunk_size, sched, Seq::new(msgs.len(), |i: int| 0)),
    ensures
        spec_runs_emit(
            s,
            b,
            0,
            spec_sched_emissions(msgs, s.max_chunk_size, sched, Seq::new(msgs.len(), |i: int| 0)),
        ),
        spec_sched_emissions(msgs, s.max_chunk_size, sched, Seq::new(msgs.len(), |i: int| 0)).len()
            == msgs.len(),
{
    let zeros = Seq::new(msgs.len(), |i: int| 0int);
    assert(zeros =~= Seq::new(msgs.len(), |i: int| 0));
    lemma_count_bounded(msgs, s.max_chunk_size, zeros);
    assert forall|i: int|
        0 <= i < msgs.len() implies 0 <= #[trigger] zeros[i] <= spec_chunk_count(
        msgs[i].payload.len() as int,
        s.max_chunk_size,
    ) by {
        if msgs[i].payload.len() > 0 {
            lemma_chunk_count_bounds(msgs[i].payload.len() as int, s.max_chunk_size);
        }
    }
    assert(b.subrange(0, b.len() as int) =~= b);
    lemma_decode_schedule(s, b, 0, msgs, sched, zeros);
    lemma_sched_emissions_count(msgs, s.max_chunk_size, sched, zeros);
    assert forall|i: int|
        0 <= i < msgs.len() implies #[trigger] zeros[i] < spec_chunk_count(
        msgs[i].payload.len() as int,
        s.max_chunk_size,
    ) by {
        if msgs[i].payload.len() > 0 {
            lemma_chunk_count_bounds(msgs[i].payload.len() as int, s.max_chunk_size);
        }
    }
    lemma_count_unfinished_extremes(msgs, s.max_chunk_size, zeros);
}

proof fn lemma_count_bounded(msgs: Seq<MessageEnc>, chunk: int, prog: Seq<int>)
    requires
        prog.len() == msgs.len(),
    ensures
        spec_count_pending(msgs, chunk, prog) <= msgs.len(),
        spec_count_unstarted(prog) <= prog.len(),
    decreases prog.len(),
{
    if prog.len() > 0 {
        lemma_count_bounded(msgs.drop_first(), chunk, prog.drop_first());
    }
}

/// How many messages have chunks still to send.
pub open spec fn spec_count_unfinished(msgs: Seq<MessageEnc>, chunk: int, prog: Seq<int>) -> int
    recommends
        prog.len() == msgs.len(),
    decreases prog.len(),
{
    if prog.len() == 0 || msgs.len() == 0 {
        0
    } else {
        (if prog[0] < spec_chunk_count(msgs[0].payload.len() as int, chunk) {
            1int
        } else {
            0int
        }) + spec_count_unfinished(msgs.drop_first(), chunk, prog.drop_first())
    }
}

proof fn lemma_count_unfinished_update(msgs: Seq<MessageEnc>, chunk: int, prog: Seq<int>, i: int)
    requires
        prog.len() == msgs.len(),
        0 <= i < prog.len(),
        prog[i] < spec_chunk_count(msgs[i].payload.len() as int, chunk),
    ensures
        spec_count_unfinished(msgs, chunk, prog.update(i, prog[i] + 1))
            == spec_count_unfinished(msgs, chunk, prog) - (if prog[i] + 1 == spec_chunk_count(
            msgs[i].payload.len() as int,
            chunk,
        ) {
            1int
        } else {
            0int
        }),
    decreases prog.len(),
{
    if i == 0 {
        assert(prog.update(0, prog[0] + 1).drop_first() =~= prog.drop_first());
    } else {
        assert(prog.update(i, prog[i] + 1).drop_first() =~= prog.drop_first().update(
            i - 1,
            prog[i] + 1,
        ));
        assert(forall|j: int|
            0 <= j < msgs.len() - 1 ==> #[trigger] msgs.drop_first()[j] == msgs[j + 1]);
        lemma_count_unfinished_update(msgs.drop_first(), chunk, prog.drop_first(), i - 1);
    }
}

proof fn lemma_count_unfinished_extremes(msgs: Seq<MessageEnc>, chunk: int, prog: Seq<int>)
    requires
        prog.len() == msgs.len(),
    ensures
        (forall|i: int|
            0 <= i < msgs.len() ==> #[trigger] prog[i] >= spec_chunk_count(
                msgs[i].payload.len() as int,
                chunk,
            )) ==> spec_count_unfinished(msgs, chunk, prog) == 0,
        (forall|i: int|
            0 <= i < msgs.len() ==> #[trigger] prog[i] < spec_chunk_count(
                msgs[i].payload.len() as int,
                chunk,
            )) ==> spec_count_unfinished(msgs, chunk, prog) == msgs.len(),
    decreases prog.len(),
{
    if prog.len() > 0 {
        assert(forall|j: int|
            0 <= j < msgs.len() - 1 ==> #[trigger] msgs.drop_first()[j] == msgs[j + 1]);
        assert(forall|j: int|
            0 <= j < prog.len() - 1 ==> #[trigger] prog.drop_first()[j] == prog[j + 1]);
        lemma_count_unfinished_extremes(msgs.drop_first(), chunk, prog.drop_first());
    }
}

/// A valid schedule completes every unfinished message exactly once: the
/// emission sequence holds one entry per message still in play.
pub proof fn lemma_sched_emissions_count(
    msgs: Seq<MessageEnc>,
    chunk: int,
    sched: Seq<int>,
    prog: Seq<int>,
)
    requires
        prog.len() == msgs.len(),
        spec_sched_valid(msgs, chunk, sched, prog),
    ensures
        spec_sched_emissions(msgs, chunk, sched, prog).len() == spec_count_unfinished(
            msgs,
            chunk,
            prog,
        ),
    decreases sched.len(),
{
    if sched.len() == 0 {
        lemma_count_unfinished_extremes(msgs, chunk, prog);
    } else {
        let i = sched[0];
        lemma_count_unfinished_update(msgs, chunk, prog, i);
        lemma_sched_emissions_count(msgs, chunk, sched.drop_first(), prog.update(i, prog[i] + 1));
    }
}

/// The closing chunk of a message mid-assembly on stream `csid`: a
/// format-3 basic header, the re-sent extended timestamp when the cached
/// header used one, and the message's remaining bytes in one fragment.
pub open spec fn spec_encode_finisher(
    headers: Map<u32, CachedHeader>,
    csid: u32,
    rem: Seq<u8>,
) -> Seq<u8>
    recommends
        headers.contains_key(csid),
{
    let p = headers[csid];
    spec_encode_basic(3, csid) + (if p.used_extended_timestamp {
        be32_bytes(p.header.timestamp)
    } else {
        Seq::<u8>::empty()
    }) + rem
}

/// The closing chunks of several messages, one after the other.
pub open spec fn spec_encode_finishers(
    headers: Map<u32, CachedHeader>,
    fins: Seq<u32>,
    rems: Seq<Seq<u8>>,
) -> Seq<u8>
    recommends
        fins.len() == rems.len(),
    decreases fins.len(),
{
    if fins.len() == 0 {
        Seq::<u8>::empty()
    } else {
        spec_encode_finisher(headers, fins[0], rems[0]) + spec_encode_finishers(
            headers,
            fins.drop_first(),
            rems.drop_first(),
        )
    }
}

/// Successive calls starting at `off` emit exactly `expected`, in order.
pub open spec fn spec_runs_emit_chunks(
    s: DecoderModel,
    b: Seq<u8>,
    off: int,
    expected: Seq<ChunkModel>,
) -> bool
    decreases expected.len(),
{
    expected.len() > 0 ==> {
        let run = spec_run(s, b, off);
        &&& run.outcome == RunOutcome::Emit(expected[0])
        &&& spec_runs_emit_chunks(run.state, b, off + run.consumed, expected.drop_first())
    }
}

/// The message that the closing chunk of stream `csid` completes: the
/// stream's cached header and its accumulated payload plus the rest.
pub open spec fn spec_finisher_chunk(s: DecoderModel, csid: u32, rem: Seq<u8>) -> ChunkModel
    recommends
        s.headers.contains_key(csid),
        s.partials.contains_key(csid),
{
    ChunkModel {
        basic_header: BasicHeader { format: 3, chunk_stream_id: csid },
        message_header: s.headers[csid].header,
        payload: s.partials[csid] + rem,
    }
}

/// Decoding one closing chunk emits that stream's message whole and frees
/// its assembler slot; no other stream is touched.
proof fn lemma_decode_finisher(s: DecoderModel, b: Seq<u8>, off: int, csid: u32, rem: Seq<u8>)
    requires
        s.wf(),
        2 <= csid <= 65599,
        s.partials.contains_key(csid),
        s.partials[csid].len() + rem.len() == s.headers[csid].header.msg_length,
        rem.len() <= s.max_chunk_size,
        0 <= off,
        off + spec_encode_finisher(s.headers, csid, rem).len() <= b.len(),
        b.subrange(off, off + spec_encode_finisher(s.headers, csid, rem).len() as int)
            == spec_encode_finisher(s.headers, csid, rem),
    ensures
        ({
            let run = spec_run(s, b, off);
            &&& run.consumed == spec_encode_finisher(s.headers, csid, rem).len()
            &&& run.outcome == RunOutcome::Emit(spec_finisher_chunk(s, csid, rem))
            &&& run.state == (DecoderModel {
                max_chunk_size: s.max_chunk_size,
                headers: s.headers,
                partials: s.partials.remove(csid),
            })
        }),
{
    let enc = spec_encode_finisher(s.headers, csid, rem);
    let p = s.headers[csid];
    let mh = p.header;
    let b3 = spec_encode_basic(3, csid);
    let ep = if p.used_extended_timestamp {
        be32_bytes(mh.timestamp)
    } else {
        Seq::<u8>::empty()
    };
    let bsize = b3.len() as int;
    let esize = ep.len() as int;
    let elen = enc.len() as int;
    lemma_subrange_of_subrange(b, off, elen, 0, bsize);
    assert(b.subrange(off, off + elen).subrange(0, bsize) =~= b3);
    lemma_decode_basic_at(b, off, 3, csid);
    let prev = Some(p);
    let hp = spec_header_parse(3, csid, prev, b, off + bsize);
    assert(hp == (HeaderParse::Parsed {
        header: mh,
        used_extended: p.used_extended_timestamp,
        size: esize,
    }));
    let pstart = off + bsize + esize;
    let take = rem.len() as int;
    lemma_subrange_of_subrange(b, off, elen, bsize + esize, bsize + esize + take);
    assert(b.subrange(off, off + elen).subrange(bsize + esize, bsize + esize + take) =~= rem);
    let acc = s.partials[csid];
    let payload2 = acc + b.subrange(pstart, pstart + take);
    assert(payload2 =~= acc + rem);
    let entry = CachedHeader { header: mh, used_extended_timestamp: p.used_extended_timestamp };
    assert(s.headers.insert(csid, entry) =~= s.headers);
    let sr = spec_step(s, b, off);
    assert(sr is Commit);
    assert(sr->Commit_consumed == elen);
    assert(sr->Commit_emitted is Some);
    let st = sr->Commit_state;
    assert(st == (DecoderModel {
        max_chunk_size: s.max_chunk_size,
        headers: s.headers,
        partials: s.partials.remove(csid),
    }));
}

/// Interleaving: whatever interleaving of fragments brought the decoder to
/// a state with several messages mid-assembly on distinct streams, feeding
/// their closing chunks in any chosen order emits exactly those messages,
/// each once, in the order its closing fragment arrives.
pub proof fn lemma_interleaved_completion_order(
    s: DecoderModel,
    b: Seq<u8>,
    off: int,
    fins: Seq<u32>,
    rems: Seq<Seq<u8>>,
)
    requires
        s.wf(),
        fins.len() == rems.len(),
        forall|i: int, j: int| 0 <= i < j < fins.len() ==> fins[i] != fins[j],
        forall|i: int| 0 <= i < fins.len() ==> 2 <= #[trigger] fins[i] <= 65599,
        forall|i: int| 0 <= i < fins.len() ==> s.partials.contains_key(#[trigger] fins[i]),
        forall|i: int|
            0 <= i < fins.len() ==> s.partials[#[trigger] fins[i]].len() + rems[i].len()
                == s.headers[fins[i]].header.msg_length,
        forall|i: int| 0 <= i < fins.len() ==> (#[trigger] rems[i]).len() <= s.max_chunk_size,
        0 <= off,
        off + spec_encode_finishers(s.headers, fins, rems).len() <= b.len(),
        b.subrange(off, off + spec_encode_finishers(s.headers, fins, rems).len() as int)
            == spec_encode_finishers(s.headers, fins, rems),
    ensures
        spec_runs_emit_chunks(
            s,
            b,
            off,
            Seq::new(fins.len(), |i: int| spec_finisher_chunk(s, fins[i], rems[i])),
        ),
    decreases fins.len(),
{
    let expected = Seq::new(fins.len(), |i: int| spec_finisher_chunk(s, fins[i], rems[i]));
    if fins.len() > 0 {
        let csid = fins[0];
        let enc0 = spec_encode_finisher(s.headers, csid, rems[0]);
        let encs = spec_encode_finishers(s.headers, fins, rems);
        let enct = spec_encode_finishers(s.headers, fins.drop_first(), rems.drop_first());
        assert(encs == enc0 + enct);
        let elen0 = enc0.len() as int;
        let elen = encs.len() as int;
        lemma_subrange_of_subrange(b, off, elen, 0, elen0);
        assert(b.subrange(off, off + elen).subrange(0, elen0) =~= enc0);
        lemma_decode_finisher(s, b, off, csid, rems[0]);
        lemma_run_preserves_wf(s, b, off);
        let run = spec_run(s, b, off);
        let s2 = run.state;
        // The rest of the buffer still carries the remaining closing chunks.
        lemma_subrange_of_subrange(b, off, elen, elen0, elen);
        assert((enc0 + enct).subrange(elen0, elen) =~= enct);
        assert(b.subrange(off + elen0, off + elen) == enct);
        let tail = fins.drop_first();
        let remt = rems.drop_first();
        assert(forall|i: int| 0 <= i < tail.len() ==> tail[i] == fins[i + 1]);
        assert(forall|i: int| 0 <= i < remt.len() ==> remt[i] == rems[i + 1]);
        lemma_interleaved_completion_order(s2, b, off + elen0, tail, remt);
        // The messages the remaining chunks complete are the same whether
        // read off the old state or the new: only stream `csid` changed.
        let exp2 = Seq::new(tail.len(), |i: int| spec_finisher_chunk(s2, tail[i], remt[i]));
        assert(exp2 =~= expected.drop_first());
    }
}

} // verus!
