//! The chunk-stream decoder: an incremental state machine that reassembles
//! RTMP messages from the chunks interleaved on a connection.
//!
//! The behaviour of one decoding attempt is written out by the specification
//! functions [`spec_step`] (consume one `(header, fragment)` pair) and
//! [`spec_run`] (repeat until a message completes, the bytes run out, or a
//! parse fails). [`ChunkDecoder::read_chunk`] is proved to follow
//! [`spec_run`] exactly.

use std::collections::HashMap;

use vstd::prelude::*;

use crate::buffer::{buffered_bytes, bytes_model, consume_front};
use crate::error::ChunkDecodeError;
use crate::header::{
    read_basic_header, read_be24, read_be32, read_le32, spec_basic_header, spec_be24, spec_be32,
    spec_le32, BasicHeader, CachedHeader, MessageHeader,
};
use crate::message::{spec_type_from_byte, MessageTypeId};

verus! {

broadcast use
    vstd::std_specs::hash::group_hash_axioms,
    vstd::map_lib::lemma_map_new_domain,
    vstd::map_lib::lemma_map_new_values,
;

/// The fragment size a fresh decoder starts with, until the peer
/// renegotiates it.
pub const DEFAULT_CHUNK_SIZE: usize = 128;

/// Cap on concurrently in-flight messages: distinct chunk streams with a
/// partial payload mid-assembly.
pub const MAX_PARTIAL_CHUNKS: usize = 4;

/// Cap on distinct chunk stream ids ever cached: the size of the
/// last-header cache.
pub const MAX_PREVIOUS_CHUNK_HEADERS: usize = 100;

/// Bound on a declared message length, so a hostile peer cannot make the
/// decoder buffer an arbitrarily large partial payload.
pub const MAX_PARTIAL_PAYLOAD_SIZE: u32 = 15 * 1024 * 1024;

/// A fully reassembled message, tagged with the headers that framed its
/// final chunk.
#[derive(Clone, Debug)]
pub struct Chunk {
    /// Basic header of the chunk that completed the message.
    pub basic_header: BasicHeader,
    /// The materialized message header.
    pub message_header: MessageHeader,
    /// The complete payload.
    pub payload: Vec<u8>,
}

/// The mathematical value of an emitted [`Chunk`].
pub struct ChunkModel {
    /// Basic header of the chunk that completed the message.
    pub basic_header: BasicHeader,
    /// The materialized message header.
    pub message_header: MessageHeader,
    /// The complete payload.
    pub payload: Seq<u8>,
}

impl View for Chunk {
    type V = ChunkModel;

    open spec fn view(&self) -> ChunkModel {
        ChunkModel {
            basic_header: self.basic_header,
            message_header: self.message_header,
            payload: self.payload@,
        }
    }
}

/// The mathematical state of a decoder: the fragment size and the two
/// per-stream maps.
pub struct DecoderModel {
    /// Fragment size used for the next chunk on any stream.
    pub max_chunk_size: int,
    /// Per-stream cache of the last fully parsed header.
    pub headers: Map<u32, CachedHeader>,
    /// Per-stream partial payload of a message mid-assembly.
    pub partials: Map<u32, Seq<u8>>,
}

impl DecoderModel {
    /// Well-formedness: the caps hold, the chunk size is in its valid range,
    /// and every partial payload belongs to a cached header it is still
    /// shorter than.
    pub open spec fn wf(self) -> bool {
        &&& 1 <= self.max_chunk_size <= 0x7FFF_FFFF
        &&& self.headers.dom().finite()
        &&& self.headers.len() <= MAX_PREVIOUS_CHUNK_HEADERS
        &&& self.partials.dom().finite()
        &&& self.partials.len() <= MAX_PARTIAL_CHUNKS
        &&& forall|k: u32|
            self.headers.contains_key(k) ==> (#[trigger] self.headers[k]).header.msg_length
                <= MAX_PARTIAL_PAYLOAD_SIZE
        &&& forall|k: u32|
            #[trigger] self.partials.dom().contains(k) ==> self.headers.contains_key(k)
                && self.partials[k].len() < self.headers[k].header.msg_length
    }
}

/// The state of a fresh decoder.
pub open spec fn spec_initial_decoder() -> DecoderModel {
    DecoderModel {
        max_chunk_size: DEFAULT_CHUNK_SIZE as int,
        headers: Map::empty(),
        partials: Map::empty(),
    }
}

/// Result of materializing a message header (everything after the basic
/// header, extended timestamp included).
pub enum HeaderParse {
    /// The buffer ends before the message header (or its extended
    /// timestamp) is complete.
    NeedBytes,
    /// The header is invalid; nothing may be consumed.
    Bad {
        /// Why the header is invalid.
        error: ChunkDecodeError,
    },
    /// A fully materialized header.
    Parsed {
        /// The materialized header, with omitted fields filled in from the
        /// cached one.
        header: MessageHeader,
        /// Whether this header carried (or, for format 3, skipped) the
        /// four-byte extended timestamp.
        used_extended: bool,
        /// Bytes occupied after the basic header: the message-header bytes
        /// plus the extended timestamp when present.
        size: int,
    },
}

/// Materializes the message header for `fmt` at offset `off` (just past the
/// basic header), filling omitted fields from `prev`, the cached header of
/// chunk stream `csid`.
///
/// Formats 1, 2 and 3 require a cached header. A 24-bit timestamp field of
/// `0xFFFFFF` escapes to a four-byte extended timestamp; a format-3 chunk
/// carries those four bytes exactly when the cached header did, and they are
/// skipped. Timestamp deltas (formats 1 and 2) are added to the cached
/// timestamp with a checked 32-bit addition.
pub open spec fn spec_header_parse(
    fmt: u8,
    csid: u32,
    prev: Option<CachedHeader>,
    b: Seq<u8>,
    off: int,
) -> HeaderParse
    recommends
        0 <= off <= b.len(),
{
    if fmt == 0 {
        if b.len() < off + 11 {
            HeaderParse::NeedBytes
        } else {
            let tsf = spec_be24(b, off);
            let len = spec_be24(b, off + 3);
            let tb = b[off + 6];
            let sid = spec_le32(b, off + 7);
            let ext = tsf == 0xFFFFFF;
            if ext && b.len() < off + 15 {
                HeaderParse::NeedBytes
            } else {
                let ts = if ext {
                    spec_be32(b, off + 11)
                } else {
                    tsf
                };
                match spec_type_from_byte(tb) {
                    None => HeaderParse::Bad {
                        error: ChunkDecodeError::InvalidMessageTypeID(tb),
                    },
                    Some(t) => HeaderParse::Parsed {
                        header: MessageHeader {
                            timestamp: ts,
                            msg_length: len,
                            msg_type_id: t,
                            msg_stream_id: sid,
                        },
                        used_extended: ext,
                        size: if ext {
                            15
                        } else {
                            11
                        },
                    },
                }
            }
        }
    } else if fmt == 1 {
        if b.len() < off + 7 {
            HeaderParse::NeedBytes
        } else {
            match prev {
                None => HeaderParse::Bad {
                    error: ChunkDecodeError::MissingPreviousChunkHeader(csid),
                },
                Some(p) => {
                    let tsf = spec_be24(b, off);
                    let ext = tsf == 0xFFFFFF;
                    if ext && b.len() < off + 11 {
                        HeaderParse::NeedBytes
                    } else {
                        let delta = if ext {
                            spec_be32(b, off + 7)
                        } else {
                            tsf
                        };
                        if p.header.timestamp + delta > 0xFFFF_FFFF {
                            HeaderParse::Bad {
                                error: ChunkDecodeError::TimestampOverflow(
                                    p.header.timestamp,
                                    delta,
                                ),
                            }
                        } else {
                            let len = spec_be24(b, off + 3);
                            let tb = b[off + 6];
                            match spec_type_from_byte(tb) {
                                None => HeaderParse::Bad {
                                    error: ChunkDecodeError::InvalidMessageTypeID(tb),
                                },
                                Some(t) => HeaderParse::Parsed {
                                    header: MessageHeader {
                                        timestamp: (p.header.timestamp + delta) as u32,
                                        msg_length: len,
                                        msg_type_id: t,
                                        msg_stream_id: p.header.msg_stream_id,
                                    },
                                    used_extended: ext,
                                    size: if ext {
                                        11
                                    } else {
                                        7
                                    },
                                },
                            }
                        }
                    }
                },
            }
        }
    } else if fmt == 2 {
        if b.len() < off + 3 {
            HeaderParse::NeedBytes
        } else {
            match prev {
                None => HeaderParse::Bad {
                    error: ChunkDecodeError::MissingPreviousChunkHeader(csid),
                },
                Some(p) => {
                    let tsf = spec_be24(b, off);
                    let ext = tsf == 0xFFFFFF;
                    if ext && b.len() < off + 7 {
                        HeaderParse::NeedBytes
                    } else {
                        let delta = if ext {
                            spec_be32(b, off + 3)
                        } else {
                            tsf
                        };
                        if p.header.timestamp + delta > 0xFFFF_FFFF {
                            HeaderParse::Bad {
                                error: ChunkDecodeError::TimestampOverflow(
                                    p.header.timestamp,
                                    delta,
                                ),
                            }
                        } else {
                            HeaderParse::Parsed {
                                header: MessageHeader {
                                    timestamp: (p.header.timestamp + delta) as u32,
                                    msg_length: p.header.msg_length,
                                    msg_type_id: p.header.msg_type_id,
                                    msg_stream_id: p.header.msg_stream_id,
                                },
                                used_extended: ext,
                                size: if ext {
                                    7
                                } else {
                                    3
                                },
                            }
                        }
                    }
                },
            }
        }
    } else {
        match prev {
            None => HeaderParse::Bad {
                error: ChunkDecodeError::MissingPreviousChunkHeader(csid),
            },
            Some(p) => {
                if p.used_extended_timestamp {
                    if b.len() < off + 4 {
                        HeaderParse::NeedBytes
                    } else {
                        HeaderParse::Parsed {
                            header: p.header,
                            used_extended: true,
                            size: 4,
                        }
                    }
                } else {
                    HeaderParse::Parsed { header: p.header, used_extended: false, size: 0 }
                }
            },
        }
    }
}

/// Result of one decoding attempt at a buffer offset.
pub enum StepResult {
    /// The buffer ends before one whole `(header, fragment)` pair; nothing
    /// is consumed and the state is unchanged.
    NeedMore,
    /// The chunk is invalid; nothing is consumed and the state is unchanged.
    Fail {
        /// Why the chunk is invalid.
        error: ChunkDecodeError,
    },
    /// One whole `(header, fragment)` pair was consumed.
    Commit {
        /// Bytes consumed: basic header, message header, extended timestamp
        /// and payload fragment together.
        consumed: int,
        /// The decoder state afterwards.
        state: DecoderModel,
        /// The reassembled message, when this fragment completed one.
        emitted: Option<ChunkModel>,
    },
}

/// The payload phase of one decoding attempt: with the header `mh` of chunk
/// stream `bh.chunk_stream_id` materialized and its fragment starting at
/// `pstart`, takes `min(max_chunk_size, msg_length - accumulated)` payload
/// bytes, enforces the two caps, and either emits the completed message or
/// stores the grown partial payload.
pub open spec fn spec_payload_step(
    s: DecoderModel,
    b: Seq<u8>,
    off: int,
    bh: BasicHeader,
    mh: MessageHeader,
    used_ext: bool,
    pstart: int,
) -> StepResult
    recommends
        off <= pstart <= b.len(),
{
    let csid = bh.chunk_stream_id;
    let acc = if s.partials.contains_key(csid) {
        s.partials[csid]
    } else {
        Seq::<u8>::empty()
    };
    let take = if acc.len() < mh.msg_length {
        if s.max_chunk_size < mh.msg_length - acc.len() {
            s.max_chunk_size
        } else {
            mh.msg_length - acc.len()
        }
    } else {
        0
    };
    if b.len() < pstart + take {
        StepResult::NeedMore
    } else if !s.headers.contains_key(csid) && s.headers.len() >= MAX_PREVIOUS_CHUNK_HEADERS {
        StepResult::Fail { error: ChunkDecodeError::TooManyPreviousChunkHeaders }
    } else {
        let payload = acc + b.subrange(pstart, pstart + take);
        let complete = payload.len() >= mh.msg_length;
        if !complete && !s.partials.contains_key(csid) && s.partials.len() >= MAX_PARTIAL_CHUNKS {
            StepResult::Fail { error: ChunkDecodeError::TooManyPartialChunks }
        } else {
            let entry = CachedHeader { header: mh, used_extended_timestamp: used_ext };
            let s2 = DecoderModel {
                max_chunk_size: s.max_chunk_size,
                headers: s.headers.insert(csid, entry),
                partials: if complete {
                    s.partials.remove(csid)
                } else {
                    s.partials.insert(csid, payload)
                },
            };
            StepResult::Commit {
                consumed: pstart + take - off,
                state: s2,
                emitted: if complete {
                    Some(ChunkModel { basic_header: bh, message_header: mh, payload })
                } else {
                    None
                },
            }
        }
    }
}

/// One decoding attempt at offset `off`: basic header, message header (with
/// cache fill-in), the bound on the declared length, then the payload phase.
pub open spec fn spec_step(s: DecoderModel, b: Seq<u8>, off: int) -> StepResult
    recommends
        0 <= off <= b.len(),
{
    match spec_basic_header(b, off) {
        None => StepResult::NeedMore,
        Some(bp) => {
            let bh = bp.header;
            let csid = bh.chunk_stream_id;
            let prev = if s.headers.contains_key(csid) {
                Some(s.headers[csid])
            } else {
                None
            };
            match spec_header_parse(bh.format, csid, prev, b, off + bp.size) {
                HeaderParse::NeedBytes => StepResult::NeedMore,
                HeaderParse::Bad { error } => StepResult::Fail { error },
                HeaderParse::Parsed { header, used_extended, size } => {
                    if header.msg_length > MAX_PARTIAL_PAYLOAD_SIZE {
                        StepResult::Fail {
                            error: ChunkDecodeError::PartialChunkTooLarge(header.msg_length),
                        }
                    } else {
                        spec_payload_step(s, b, off, bh, header, used_extended, off + bp.size
                            + size)
                    }
                },
            }
        },
    }
}

/// How one call of [`ChunkDecoder::read_chunk`] ends.
pub enum RunOutcome {
    /// More bytes are needed before the next message can complete.
    NeedMore,
    /// A message was reassembled.
    Emit(ChunkModel),
    /// A chunk was invalid.
    Fail(ChunkDecodeError),
}

/// What one call of [`ChunkDecoder::read_chunk`] does: its outcome, the
/// bytes it consumes from the front of the buffer, and the state it leaves.
pub struct RunResult {
    /// The outcome of the call.
    pub outcome: RunOutcome,
    /// Bytes consumed from the front of the buffer: those of every committed
    /// `(header, fragment)` pair.
    pub consumed: int,
    /// The decoder state after the call.
    pub state: DecoderModel,
}

/// Repeats [`spec_step`] from offset `off` until a step emits a message,
/// needs more bytes, or fails; whole committed pairs stay consumed in every
/// case.
pub open spec fn spec_run(s: DecoderModel, b: Seq<u8>, off: int) -> RunResult
    recommends
        0 <= off <= b.len(),
    decreases b.len() - off,
{
    match spec_step(s, b, off) {
        StepResult::NeedMore => RunResult { outcome: RunOutcome::NeedMore, consumed: 0, state: s },
        StepResult::Fail { error } => RunResult {
            outcome: RunOutcome::Fail(error),
            consumed: 0,
            state: s,
        },
        StepResult::Commit { consumed, state, emitted } => match emitted {
            Some(c) => RunResult { outcome: RunOutcome::Emit(c), consumed, state },
            None => if 0 < consumed && off + consumed <= b.len() {
                let rest = spec_run(state, b, off + consumed);
                RunResult {
                    outcome: rest.outcome,
                    consumed: consumed + rest.consumed,
                    state: rest.state,
                }
            } else {
                // Unreachable: a committed step always consumes at least its
                // basic header and never runs past the buffer.
                RunResult { outcome: RunOutcome::NeedMore, consumed, state }
            },
        },
    }
}

/// The per-stream maps of the executable decoder hold `Vec<u8>` payloads;
/// this lifts such a map to the model's `Map<u32, Seq<u8>>`.
pub open spec fn vec_view_map(m: Map<u32, Vec<u8>>) -> Map<u32, Seq<u8>> {
    Map::new(|k: u32| m.contains_key(k), |k: u32| m[k]@)
}

proof fn lemma_vvm_basics(m: Map<u32, Vec<u8>>)
    ensures
        vec_view_map(m).dom() == m.dom(),
        vec_view_map(m).len() == m.len(),
        forall|k: u32| #[trigger] vec_view_map(m).contains_key(k) <==> m.contains_key(k),
        forall|k: u32| m.contains_key(k) ==> #[trigger] vec_view_map(m)[k] == m[k]@,
{
    assert(vec_view_map(m).dom() =~= m.dom());
}

proof fn lemma_vvm_insert(m: Map<u32, Vec<u8>>, k: u32, v: Vec<u8>)
    ensures
        vec_view_map(m.insert(k, v)) == vec_view_map(m).insert(k, v@),
{
    lemma_vvm_basics(m);
    lemma_vvm_basics(m.insert(k, v));
    assert(vec_view_map(m.insert(k, v)) =~= vec_view_map(m).insert(k, v@));
}

proof fn lemma_vvm_remove(m: Map<u32, Vec<u8>>, k: u32)
    ensures
        vec_view_map(m.remove(k)) == vec_view_map(m).remove(k),
{
    lemma_vvm_basics(m);
    lemma_vvm_basics(m.remove(k));
    assert(vec_view_map(m.remove(k)) =~= vec_view_map(m).remove(k));
}

fn copy_range(data: &Vec<u8>, from: usize, to: usize) -> (r: Vec<u8>)
    requires
        from <= to <= data@.len(),
    ensures
        r@ == data@.subrange(from as int, to as int),
{
    let mut r: Vec<u8> = Vec::new();
    let mut i: usize = from;
    while i < to
        invariant
            from <= i <= to <= data@.len(),
            r@ == data@.subrange(from as int, i as int),
        decreases to - i,
    {
        r.push(data[i]);
        i = i + 1;
        proof {
            assert(data@.subrange(from as int, i as int) =~= data@.subrange(
                from as int,
                i as int - 1,
            ) + seq![data@[i as int - 1]]);
        }
    }
    r
}

/// Executable counterpart of [`HeaderParse`].
enum HeaderOutcome {
    /// The buffer ends before the message header is complete.
    NeedBytes,
    /// The header is invalid.
    Bad(ChunkDecodeError),
    /// The materialized header, whether it used the extended timestamp, and
    /// the bytes it occupies after the basic header.
    Parsed(MessageHeader, bool, usize),
}

/// Outcome of one executable decoding attempt.
enum StepOutcome {
    /// The buffer ends before one whole `(header, fragment)` pair.
    NeedMore,
    /// The chunk is invalid.
    Failed(ChunkDecodeError),
    /// Consumed that many bytes; carries the completed message if this
    /// fragment finished one.
    Committed(usize, Option<Chunk>),
}

/// The incremental RTMP chunk-stream decoder.
///
/// One instance serves one connection. The caller repeatedly presents its
/// receive buffer to [`ChunkDecoder::read_chunk`]; each call consumes whole
/// `(header, fragment)` pairs from the front and yields at most one
/// reassembled message.
pub struct ChunkDecoder {
    max_chunk_size: usize,
    previous_headers: HashMap<u32, CachedHeader>,
    partial_payloads: HashMap<u32, Vec<u8>>,
}

impl View for ChunkDecoder {
    type V = DecoderModel;

    closed spec fn view(&self) -> DecoderModel {
        DecoderModel {
            max_chunk_size: self.max_chunk_size as int,
            headers: self.previous_headers@,
            partials: vec_view_map(self.partial_payloads@),
        }
    }
}

impl Default for ChunkDecoder {
    /// A fresh decoder: chunk size 128, empty header cache, empty assembler.
    fn default() -> (d: ChunkDecoder)
        ensures
            d@ == spec_initial_decoder(),
            d@.wf(),
    {
        ChunkDecoder::new()
    }
}

impl ChunkDecoder {
    /// A fresh decoder: chunk size 128, empty header cache, empty assembler.
    pub fn new() -> (d: ChunkDecoder)
        ensures
            d@ == spec_initial_decoder(),
            d@.wf(),
    {
        let d = ChunkDecoder {
            max_chunk_size: DEFAULT_CHUNK_SIZE,
            previous_headers: HashMap::new(),
            partial_payloads: HashMap::new(),
        };
        proof {
            lemma_vvm_basics(d.partial_payloads@);
            assert(vec_view_map(d.partial_payloads@) =~= Map::<u32, Seq<u8>>::empty());
        }
        d
    }

    /// Replaces the fragment size used for the next chunk on any stream.
    /// In-flight assembly is not disturbed. The valid range is
    /// `[1, 2^31 - 1]`.
    pub fn update_max_chunk_size(&mut self, chunk_size: usize)
        requires
            1 <= chunk_size <= 0x7FFF_FFFF,
        ensures
            final(self)@ == (DecoderModel { max_chunk_size: chunk_size as int, ..old(self)@ }),
            old(self)@.wf() ==> final(self)@.wf(),
    {
        self.max_chunk_size = chunk_size;
    }

    /// One executable decoding attempt at `off`, following
    /// [`spec_step`] exactly.
    #[verifier::rlimit(60)]
    fn step(&mut self, data: &Vec<u8>, off: usize) -> (out: StepOutcome)
        requires
            old(self)@.wf(),
            off <= data@.len(),
        ensures
            ({
                let sr = spec_step(old(self)@, data@, off as int);
                match sr {
                    StepResult::NeedMore => (out is NeedMore) && final(self)@ == old(self)@,
                    StepResult::Fail { error } => (out matches StepOutcome::Failed(e) && e
                        == error) && final(self)@ == old(self)@,
                    StepResult::Commit { consumed, state, emitted } => {
                        &&& final(self)@ == state
                        &&& state.wf()
                        &&& 1 <= consumed
                        &&& off + consumed <= data@.len()
                        &&& match (out, emitted) {
                            (StepOutcome::Committed(n, Some(c)), Some(cm)) => n as int == consumed
                                && c@ == cm,
                            (StepOutcome::Committed(n, None), None) => n as int == consumed,
                            _ => false,
                        }
                    },
                }
            }),
    {
        let ghost s0 = self@;
        let ghost b = data@;
        let ghost o = off as int;
        let dlen: usize = data.len();
        proof {
            lemma_vvm_basics(self.partial_payloads@);
        }
        let bh_parse = read_basic_header(data, off);
        let (bh, bsize) = match bh_parse {
            None => { return StepOutcome::NeedMore; },
            Some(p) => p,
        };
        let csid = bh.chunk_stream_id;
        let prev: Option<CachedHeader> = match self.previous_headers.get(&csid) {
            Some(c) => Some(*c),
            None => None,
        };
        proof {
            assert(prev == (if s0.headers.contains_key(csid) {
                Some(s0.headers[csid])
            } else {
                None::<CachedHeader>
            }));
        }
        let hp = self.read_message_header(bh.format, csid, prev, data, off + bsize);
        let (mh, used_ext, hsize) = match hp {
            HeaderOutcome::NeedBytes => { return StepOutcome::NeedMore; },
            HeaderOutcome::Bad(e) => { return StepOutcome::Failed(e); },
            HeaderOutcome::Parsed(mh, ue, hs) => (mh, ue, hs),
        };
        if mh.msg_length > MAX_PARTIAL_PAYLOAD_SIZE {
            return StepOutcome::Failed(ChunkDecodeError::PartialChunkTooLarge(mh.msg_length));
        }
        let ghost pstart_g = o + bsize + hsize;
        let pstart = off + bsize + hsize;
        // Payload phase, following spec_payload_step.
        let ghost acc = if s0.partials.contains_key(csid) {
            s0.partials[csid]
        } else {
            Seq::<u8>::empty()
        };
        let acc_len: usize = match self.partial_payloads.get(&csid) {
            Some(v) => v.len(),
            None => 0,
        };
        proof {
            assert(acc_len as int == acc.len());
            assert(acc.len() < 0x1000000 || acc.len() == 0);
        }
        let take: usize = if acc_len < mh.msg_length as usize {
            let rem = mh.msg_length as usize - acc_len;
            if self.max_chunk_size < rem {
                self.max_chunk_size
            } else {
                rem
            }
        } else {
            0
        };
        if dlen - pstart < take {
            return StepOutcome::NeedMore;
        }
        if !self.previous_headers.contains_key(&csid) && self.previous_headers.len()
            >= MAX_PREVIOUS_CHUNK_HEADERS {
            return StepOutcome::Failed(ChunkDecodeError::TooManyPreviousChunkHeaders);
        }
        let complete = acc_len + take >= mh.msg_length as usize;
        if !complete && !self.partial_payloads.contains_key(&csid) && self.partial_payloads.len()
            >= MAX_PARTIAL_CHUNKS {
            return StepOutcome::Failed(ChunkDecodeError::TooManyPartialChunks);
        }
        let ghost payload_spec = acc + b.subrange(pstart_g, pstart_g + take);
        let mut payload: Vec<u8> = match self.partial_payloads.remove(&csid) {
            Some(v) => v,
            None => Vec::new(),
        };
        let fragment = copy_range(data, pstart, pstart + take);
        payload.extend_from_slice(fragment.as_slice());
        proof {
            assert(payload@ == payload_spec);
            lemma_vvm_remove(old(self).partial_payloads@, csid);
        }
        self.previous_headers.insert(
            csid,
            CachedHeader { header: mh, used_extended_timestamp: used_ext },
        );
        let n = bsize + hsize + take;
        if complete {
            proof {
                lemma_payload_commit_wf(s0, b, o, bh, mh, used_ext, pstart_g);
            }
            StepOutcome::Committed(
                n,
                Some(Chunk { basic_header: bh, message_header: mh, payload }),
            )
        } else {
            let ghost m_removed = self.partial_payloads@;
            self.partial_payloads.insert(csid, payload);
            proof {
                lemma_vvm_insert(m_removed, csid, payload);
                assert(vec_view_map(m_removed).insert(csid, payload_spec) =~= vec_view_map(
                    old(self).partial_payloads@,
                ).insert(csid, payload_spec));
                lemma_payload_commit_wf(s0, b, o, bh, mh, used_ext, pstart_g);
            }
            StepOutcome::Committed(n, None)
        }
    }
}

/// A committed payload phase leaves the state well-formed: the caps still
/// hold and every partial payload is still shorter than its stream's cached
/// message length.
pub(crate) proof fn lemma_payload_commit_wf(
    s0: DecoderModel,
    b: Seq<u8>,
    off: int,
    bh: BasicHeader,
    mh: MessageHeader,
    used_ext: bool,
    pstart: int,
)
    requires
        s0.wf(),
        mh.msg_length <= MAX_PARTIAL_PAYLOAD_SIZE,
        spec_payload_step(s0, b, off, bh, mh, used_ext, pstart) is Commit,
    ensures
        (spec_payload_step(s0, b, off, bh, mh, used_ext, pstart)->Commit_state).wf(),
{
    let csid = bh.chunk_stream_id;
    let s2 = spec_payload_step(s0, b, off, bh, mh, used_ext, pstart)->Commit_state;
    assert(s2.headers.dom() =~= s0.headers.dom().insert(csid));
    if s0.headers.contains_key(csid) {
        assert(s2.headers.dom() =~= s0.headers.dom());
    } else {
        vstd::set_lib::lemma_len_union::<u32>(s0.headers.dom(), Set::empty().insert(csid));
    }
    assert(s2.headers.len() <= MAX_PREVIOUS_CHUNK_HEADERS);
    let acc = if s0.partials.contains_key(csid) {
        s0.partials[csid]
    } else {
        Seq::<u8>::empty()
    };
    let take = if acc.len() < mh.msg_length {
        if s0.max_chunk_size < mh.msg_length - acc.len() {
            s0.max_chunk_size
        } else {
            mh.msg_length - acc.len()
        }
    } else {
        0
    };
    let payload = acc + b.subrange(pstart, pstart + take);
    let complete = payload.len() >= mh.msg_length;
    if complete {
        assert(s2.partials =~= s0.partials.remove(csid));
        vstd::set_lib::lemma_len_subset::<u32>(s2.partials.dom(), s0.partials.dom());
    } else {
        assert(s2.partials =~= s0.partials.insert(csid, payload));
        assert(s2.partials.dom() =~= s0.partials.dom().insert(csid));
        if !s0.partials.contains_key(csid) {
            vstd::set_lib::lemma_len_union::<u32>(s0.partials.dom(), Set::empty().insert(csid));
        } else {
            assert(s2.partials.dom() =~= s0.partials.dom());
        }
    }
    assert forall|k: u32| #[trigger]
        s2.partials.dom().contains(k) implies s2.headers.contains_key(k) && s2.partials[k].len()
        < s2.headers[k].header.msg_length by {
        if k == csid {
            assert(!complete);
            assert(s2.partials[k] == payload);
            assert(s2.headers[k].header == mh);
        } else {
            assert(s0.partials.contains_key(k));
            assert(s2.partials[k] == s0.partials[k]);
            assert(s0.headers.contains_key(k));
            assert(s2.headers[k] == s0.headers[k]);
        }
    }
}

impl ChunkDecoder {
    /// Outcome of materializing a message header, following
    /// [`spec_header_parse`] exactly.
    fn read_message_header(
        &self,
        fmt: u8,
        csid: u32,
        prev: Option<CachedHeader>,
        data: &Vec<u8>,
        off: usize,
    ) -> (r: HeaderOutcome)
        requires
            off <= data@.len(),
            fmt <= 3,
        ensures
            ({
                let hp = spec_header_parse(fmt, csid, prev, data@, off as int);
                match hp {
                    HeaderParse::NeedBytes => r is NeedBytes,
                    HeaderParse::Bad { error } => r matches HeaderOutcome::Bad(e) && e == error,
                    HeaderParse::Parsed { header, used_extended, size } => r matches
                        HeaderOutcome::Parsed(mh, ue, sz) && mh == header && ue == used_extended
                        && sz as int == size && 0 <= size <= 15 && off + size <= data@.len(),
                }
            }),
    {
        let n = data.len();
        if fmt == 0 {
            if n - off < 11 {
                return HeaderOutcome::NeedBytes;
            }
            let tsf = read_be24(data, off);
            let len = read_be24(data, off + 3);
            let tb = data[off + 6];
            let sid = read_le32(data, off + 7);
            let ext = tsf == 0xFFFFFF;
            if ext && n - off < 15 {
                return HeaderOutcome::NeedBytes;
            }
            let ts = if ext {
                read_be32(data, off + 11)
            } else {
                tsf
            };
            match MessageTypeId::from_byte(tb) {
                None => HeaderOutcome::Bad(ChunkDecodeError::InvalidMessageTypeID(tb)),
                Some(t) => HeaderOutcome::Parsed(
                    MessageHeader {
                        timestamp: ts,
                        msg_length: len,
                        msg_type_id: t,
                        msg_stream_id: sid,
                    },
                    ext,
                    if ext {
                        15
                    } else {
                        11
                    },
                ),
            }
        } else if fmt == 1 {
            if n - off < 7 {
                return HeaderOutcome::NeedBytes;
            }
            match prev {
                None => HeaderOutcome::Bad(ChunkDecodeError::MissingPreviousChunkHeader(csid)),
                Some(p) => {
                    let tsf = read_be24(data, off);
                    let ext = tsf == 0xFFFFFF;
                    if ext && n - off < 11 {
                        return HeaderOutcome::NeedBytes;
                    }
                    let delta = if ext {
                        read_be32(data, off + 7)
                    } else {
                        tsf
                    };
                    if delta > u32::MAX - p.header.timestamp {
                        return HeaderOutcome::Bad(
                            ChunkDecodeError::TimestampOverflow(p.header.timestamp, delta),
                        );
                    }
                    let len = read_be24(data, off + 3);
                    let tb = data[off + 6];
                    match MessageTypeId::from_byte(tb) {
                        None => HeaderOutcome::Bad(ChunkDecodeError::InvalidMessageTypeID(tb)),
                        Some(t) => HeaderOutcome::Parsed(
                            MessageHeader {
                                timestamp: p.header.timestamp + delta,
                                msg_length: len,
                                msg_type_id: t,
                                msg_stream_id: p.header.msg_stream_id,
                            },
                            ext,
                            if ext {
                                11
                            } else {
                                7
                            },
                        ),
                    }
                },
            }
        } else if fmt == 2 {
            if n - off < 3 {
                return HeaderOutcome::NeedBytes;
            }
            match prev {
                None => HeaderOutcome::Bad(ChunkDecodeError::MissingPreviousChunkHeader(csid)),
                Some(p) => {
                    let tsf = read_be24(data, off);
                    let ext = tsf == 0xFFFFFF;
                    if ext && n - off < 7 {
                        return HeaderOutcome::NeedBytes;
                    }
                    let delta = if ext {
                        read_be32(data, off + 3)
                    } else {
                        tsf
                    };
                    if delta > u32::MAX - p.header.timestamp {
                        return HeaderOutcome::Bad(
                            ChunkDecodeError::TimestampOverflow(p.header.timestamp, delta),
                        );
                    }
                    HeaderOutcome::Parsed(
                        MessageHeader {
                            timestamp: p.header.timestamp + delta,
                            msg_length: p.header.msg_length,
                            msg_type_id: p.header.msg_type_id,
                            msg_stream_id: p.header.msg_stream_id,
                        },
                        ext,
                        if ext {
                            7
                        } else {
                            3
                        },
                    )
                },
            }
        } else {
            match prev {
                None => HeaderOutcome::Bad(ChunkDecodeError::MissingPreviousChunkHeader(csid)),
                Some(p) => {
                    if p.used_extended_timestamp {
                        if n - off < 4 {
                            return HeaderOutcome::NeedBytes;
                        }
                        HeaderOutcome::Parsed(p.header, true, 4)
                    } else {
                        HeaderOutcome::Parsed(p.header, false, 0)
                    }
                },
            }
        }
    }

    /// Attempts one step of decoding against the bytes buffered in
    /// `buffer`.
    ///
    /// Returns `Ok(Some(chunk))` when a message completed, `Ok(None)` when
    /// more bytes are needed, and `Err` when a chunk was invalid — fatally
    /// for the connection. Whole `(header, fragment)` pairs are consumed
    /// from the front of the buffer; a trailing incomplete pair is left
    /// untouched, so the caller can retry once more bytes arrive. The
    /// behaviour is exactly [`spec_run`] on the decoder state and the
    /// buffered bytes.
    #[verifier::loop_isolation(false)]
    pub fn read_chunk(&mut self, buffer: &mut bytes::BytesMut) -> (r: Result<
        Option<Chunk>,
        ChunkDecodeError,
    >)
        requires
            old(self)@.wf(),
        ensures
            final(self)@.wf(),
            ({
                let run = spec_run(old(self)@, bytes_model(*old(buffer)), 0);
                &&& final(self)@ == run.state
                &&& bytes_model(*final(buffer)) == bytes_model(*old(buffer)).skip(run.consumed)
                &&& match r {
                    Ok(None) => run.outcome is NeedMore,
                    Ok(Some(c)) => run.outcome == RunOutcome::Emit(c@),
                    Err(e) => run.outcome == RunOutcome::Fail(e),
                }
            }),
    {
        let ghost init = self@;
        let data = buffered_bytes(buffer);
        let mut consumed: usize = 0;
        loop
            invariant
                self@.wf(),
                consumed <= data@.len(),
                *buffer == *old(buffer),
                spec_run(init, data@, 0).outcome == spec_run(self@, data@, consumed as int).outcome,
                spec_run(init, data@, 0).consumed == consumed + spec_run(
                    self@,
                    data@,
                    consumed as int,
                ).consumed,
                spec_run(init, data@, 0).state == spec_run(self@, data@, consumed as int).state,
            decreases data@.len() - consumed,
        {
            let ghost pre = self@;
            let out = self.step(&data, consumed);
            match out {
                StepOutcome::NeedMore => {
                    consume_front(buffer, consumed);
                    return Ok(None);
                },
                StepOutcome::Failed(e) => {
                    consume_front(buffer, consumed);
                    return Err(e);
                },
                StepOutcome::Committed(n, emitted) => {
                    proof {
                        assert(spec_step(pre, data@, consumed as int) is Commit);
                    }
                    consumed = consumed + n;
                    match emitted {
                        Some(c) => {
                            consume_front(buffer, consumed);
                            return Ok(Some(c));
                        },
                        None => {},
                    }
                },
            }
        }
    }
}

} // verus!
