//! On-the-wire codec for per-origin counter gossip frames.
//!
//! Each packet is self-describing: a receiver can decode any packet by itself,
//! whether earlier or later packets of the same batch arrived or not.
//!
//! - Frames are little-endian, headers exactly [`HEADER_LEN`] bytes.
//! - The encoder never writes past `FrameLimits::max_payload_bytes`.
//! - Decoders enforce the limits before any work.
//! - Authenticated frames are checked against their tag before the header is
//!   read.
//! - The counter width is strict: the decoder's must be the sender's.

pub mod auth;
pub mod body;
pub mod header;
pub mod laws;

pub use auth::HmacKey;
pub use body::{WireCell, WireScratch};
pub use header::{Header, FLAG_AUTHENTICATED, FLAG_MORE, HEADER_LEN, MAGIC, VERSION};

use crate::crdt::{CellHandle, CellRow, CellStore, Count, Observation, ObservationBatch, StoreState};
use auth::{hmac_sha256, AUTH_TAG_LEN};
use body::{
    body_bytes, body_cells, body_outcome, body_size, cells_of, decode_body_visit, distinct,
    encode_packet_body, lemma_body_roundtrip, max_sequence, min_sequence,
    node_slots, rows_fit, rows_of, rule_slots, run_rows, saturated_u32, takes, DICT_LEN_BYTES,
    MAX_DICT_SLOTS, PER_CELL_IDENT_BYTES,
};
use header::{header_bytes, lemma_header_roundtrip, parsed_header, patch_header, read_header};
use vstd::prelude::*;

verus! {

/// Why a frame was refused.
#[derive(Clone, Copy, Debug, PartialEq, Eq, Structural)]
pub enum DecodeError {
    /// The frame is shorter than the fixed framing overhead.
    TooShort,
    /// The magic number is another.
    BadMagic,
    /// The version is not supported.
    BadVersion,
    /// The counter width is not the local one.
    BadCountWidth,
    /// The frame exceeds the payload limit.
    PayloadTooLarge,
    /// The declared cell count exceeds the cell limit.
    CapacityExceeded,
    /// The declared body length does not match the frame.
    BodyLenMismatch,
    /// A slot index is out of range for the packet's dictionary.
    BadSlot,
    /// The authentication tag does not match.
    AuthenticationFailed,
    /// Bytes follow the body.
    Trailing,
}

/// Limits applied at frame boundaries.
#[derive(Clone, Copy, Debug, PartialEq, Eq, Structural)]
pub struct FrameLimits {
    pub max_payload_bytes: usize,
    pub max_cells: u32,
}

impl Default for FrameLimits {
    fn default() -> (limits: FrameLimits)
        ensures
            limits == (FrameLimits { max_payload_bytes: 262144, max_cells: 4096 }),
    {
        FrameLimits { max_payload_bytes: 256 * 1024, max_cells: 4096 }
    }
}

/// What [`Packets::next_into`] wrote.
#[derive(Clone, Copy, Debug, PartialEq, Eq, Structural)]
pub struct PacketWritten {
    /// Cells encoded into this packet.
    pub cells_emitted: u32,
    /// Handles used up by this packet that did not resolve any more.
    pub cells_dropped: u32,
    /// Flags as written to the packet header.
    pub flags: u16,
}

/// Outcome of a successful decode.
#[derive(Clone, Copy, Debug, PartialEq, Eq, Structural)]
pub struct DecodedSummary {
    pub header: Header,
    pub cell_count: u32,
    /// The header's flags.
    pub flags: u16,
}

/// Why packets cannot be encoded.
#[derive(Clone, Copy, Debug, PartialEq, Eq, Structural)]
pub enum EncodeError {
    /// The payload limit is below the fixed framing overhead and one cell.
    BudgetTooSmall,
}

// -- send-side buffer -------------------------------------------------------

/// A packet under construction, bounded by the payload limit.
#[derive(Debug)]
pub struct PacketBuf {
    inner: Vec<u8>,
    capacity: usize,
}

impl PacketBuf {
    /// The packet's bytes.
    pub closed spec fn view(&self) -> Seq<u8> {
        self.inner@
    }

    pub closed spec fn spec_capacity(&self) -> usize {
        self.capacity
    }

    /// An empty buffer for packets under these limits.
    pub fn for_limits(limits: FrameLimits) -> (buf: PacketBuf)
        ensures
            buf@ == Seq::<u8>::empty(),
            buf.spec_capacity() == limits.max_payload_bytes,
    {
        PacketBuf {
            inner: Vec::with_capacity(limits.max_payload_bytes),
            capacity: limits.max_payload_bytes,
        }
    }

    /// The encoded packet.
    pub fn as_bytes(&self) -> (bytes: &[u8])
        ensures
            bytes@ == self@,
    {
        self.inner.as_slice()
    }

    /// Most bytes a packet may have, fixed at construction.
    pub fn capacity(&self) -> (capacity: usize)
        ensures
            capacity == self.spec_capacity(),
    {
        self.capacity
    }
}

// -- packets ----------------------------------------------------------------

/// Bytes the tag takes.
pub open spec fn tag_len(auth: bool) -> nat {
    if auth {
        AUTH_TAG_LEN as nat
    } else {
        0
    }
}

/// Bytes of the smallest packet with a cell: two dictionaries of one entry and
/// one row.
pub open spec fn spec_min_payload_bytes(count_size: nat, auth: bool) -> nat {
    HEADER_LEN as nat + DICT_LEN_BYTES as nat + 16 + 16 + PER_CELL_IDENT_BYTES as nat + count_size
        + tag_len(auth)
}

fn min_payload_bytes(count_size: usize, auth: bool) -> (bytes: usize)
    requires
        count_size <= 8,
    ensures
        bytes == spec_min_payload_bytes(count_size as nat, auth),
{
    let tag: usize = if auth { AUTH_TAG_LEN } else { 0 };
    HEADER_LEN + DICT_LEN_BYTES + 16 + 16 + PER_CELL_IDENT_BYTES + count_size + tag
}

/// The caller's flags with the codec's two bits set as the packet needs them.
pub open spec fn packet_flags(flags: u16, more: bool, auth: bool) -> u16 {
    let marked = if more {
        flags | FLAG_MORE
    } else {
        flags & !FLAG_MORE
    };
    if auth {
        marked | FLAG_AUTHENTICATED
    } else {
        marked & !FLAG_AUTHENTICATED
    }
}

/// The header of a packet that carries `rows`.
pub open spec fn packet_header<C: Count>(
    header: Header,
    rows: Seq<CellRow<C>>,
    more: bool,
    auth: bool,
) -> Header {
    Header {
        flags: packet_flags(header.flags, more, auth),
        count_width: C::width() as u32,
        cell_count: rows.len() as u32,
        body_len: body_size(rows) as u32,
        min_origin_sequence: if rows.len() == 0 {
            0
        } else {
            min_sequence(rows)
        },
        max_origin_sequence: max_sequence(rows),
        ..header
    }
}

/// A packet without its tag.
pub open spec fn packet_frame<C: Count>(
    state: StoreState<C>,
    header: Header,
    rows: Seq<CellRow<C>>,
    more: bool,
    auth: bool,
) -> Seq<u8> {
    header_bytes(packet_header(header, rows, more, auth)) + body_bytes(state, rows)
}

/// A packet as it is sent.
pub open spec fn packet_bytes<C: Count>(
    state: StoreState<C>,
    header: Header,
    rows: Seq<CellRow<C>>,
    more: bool,
    key: Option<Seq<u8>>,
) -> Seq<u8> {
    let frame = packet_frame(state, header, rows, more, key is Some);
    match key {
        Some(k) => frame + hmac_sha256(k, frame),
        None => frame,
    }
}

pub open spec fn key_view(key: Option<&HmacKey>) -> Option<Seq<u8>> {
    match key {
        Some(k) => Some(k.0@),
        None => None,
    }
}

/// Splits a run of handles into packets. Drain it: handles not yet encoded when
/// it is dropped are not sent.
#[must_use]
pub struct Packets<'a, C: Count> {
    header: Header,
    store: &'a CellStore<C>,
    handles: &'a [CellHandle],
    key: Option<&'a HmacKey>,
    scratch: &'a mut WireScratch,
    limits: FrameLimits,
    cursor: usize,
}

/// The inputs of a packet stream and how far it has come.
pub struct PacketsState<C: Count> {
    pub header: Header,
    pub store: StoreState<C>,
    pub handles: Seq<CellHandle>,
    pub key: Option<Seq<u8>>,
    pub limits: FrameLimits,
    pub cursor: nat,
}

impl<C: Count> PacketsState<C> {
    /// Bytes a packet's body may take.
    pub open spec fn body_budget(self) -> nat {
        (self.limits.max_payload_bytes - HEADER_LEN - tag_len(self.key is Some)) as nat
    }
}

impl<'a, C: Count> Packets<'a, C> {
    pub closed spec fn view(&self) -> PacketsState<C> {
        PacketsState {
            header: self.header,
            store: self.store@,
            handles: self.handles@,
            key: key_view(self.key),
            limits: self.limits,
            cursor: self.cursor as nat,
        }
    }

    pub closed spec fn wf(&self) -> bool {
        &&& self.store.wf()
        &&& self.scratch.sized_for(self.store@)
        &&& self.cursor <= self.handles@.len()
        &&& spec_min_payload_bytes(C::width(), self.key is Some) <= self.limits.max_payload_bytes
        &&& self.limits.max_payload_bytes <= u32::MAX
    }

    fn new(
        header: Header,
        store: &'a CellStore<C>,
        handles: &'a [CellHandle],
        key: Option<&'a HmacKey>,
        scratch: &'a mut WireScratch,
        limits: FrameLimits,
    ) -> (packets: Result<Self, EncodeError>)
        requires
            store.wf(),
            old(scratch).sized_for(store@),
            limits.max_payload_bytes <= u32::MAX,
        ensures
            match packets {
                Ok(p) => {
                    &&& p.wf()
                    &&& p@ == (PacketsState {
                        header,
                        store: store@,
                        handles: handles@,
                        key: key_view(key),
                        limits,
                        cursor: 0,
                    })
                    &&& limits.max_payload_bytes >= spec_min_payload_bytes(C::width(), key is Some)
                },
                Err(e) => e == EncodeError::BudgetTooSmall && limits.max_payload_bytes
                    < spec_min_payload_bytes(C::width(), key is Some),
            },
    {
        if limits.max_payload_bytes < min_payload_bytes(C::width_bytes(), key.is_some()) {
            return Err(EncodeError::BudgetTooSmall);
        }
        Ok(Packets { header, store, handles, key, scratch, limits, cursor: 0 })
    }

    /// Packets without a tag. The identity fields of `header` go into every
    /// packet; the codec sets the others. The payload limit must fit the
    /// 32-bit length field of a frame.
    pub fn unauth(
        header: Header,
        store: &'a CellStore<C>,
        handles: &'a [CellHandle],
        scratch: &'a mut WireScratch,
        limits: FrameLimits,
    ) -> (packets: Result<Self, EncodeError>)
        requires
            store.wf(),
            old(scratch).sized_for(store@),
            limits.max_payload_bytes <= u32::MAX,
        ensures
            match packets {
                Ok(p) => {
                    &&& p.wf()
                    &&& p@ == (PacketsState {
                        header,
                        store: store@,
                        handles: handles@,
                        key: None,
                        limits,
                        cursor: 0,
                    })
                    &&& limits.max_payload_bytes >= spec_min_payload_bytes(C::width(), false)
                },
                Err(e) => e == EncodeError::BudgetTooSmall && limits.max_payload_bytes
                    < spec_min_payload_bytes(C::width(), false),
            },
    {
        Self::new(header, store, handles, None, scratch, limits)
    }

    /// Packets with a tag over header and body.
    pub fn auth(
        header: Header,
        store: &'a CellStore<C>,
        handles: &'a [CellHandle],
        key: &'a HmacKey,
        scratch: &'a mut WireScratch,
        limits: FrameLimits,
    ) -> (packets: Result<Self, EncodeError>)
        requires
            store.wf(),
            old(scratch).sized_for(store@),
            limits.max_payload_bytes <= u32::MAX,
        ensures
            match packets {
                Ok(p) => {
                    &&& p.wf()
                    &&& p@ == (PacketsState {
                        header,
                        store: store@,
                        handles: handles@,
                        key: Some(key.0@),
                        limits,
                        cursor: 0,
                    })
                    &&& limits.max_payload_bytes >= spec_min_payload_bytes(C::width(), true)
                },
                Err(e) => e == EncodeError::BudgetTooSmall && limits.max_payload_bytes
                    < spec_min_payload_bytes(C::width(), true),
            },
    {
        Self::new(header, store, handles, Some(key), scratch, limits)
    }

    /// Handles still to be encoded.
    pub fn remaining(&self) -> (remaining: usize)
        requires
            self.wf(),
        ensures
            remaining == self@.handles.len() - self@.cursor,
    {
        self.handles.len() - self.cursor
    }

    /// Encodes the next packet into `buf`, replacing what it held. `None` once
    /// every handle has been used. Each packet takes at least one handle, and
    /// none is larger than the payload limit.
    #[verifier::rlimit(60)]
    pub fn next_into(&mut self, buf: &mut PacketBuf) -> (written: Result<
        Option<PacketWritten>,
        EncodeError,
    >)
        requires
            old(self).wf(),
        ensures
            final(self).wf(),
            final(self)@ == (PacketsState { cursor: final(self)@.cursor, ..old(self)@ }),
            final(buf).spec_capacity() == old(buf).spec_capacity(),
            final(buf)@.len() <= old(self)@.limits.max_payload_bytes,
            ({
                let was = old(self)@;
                let from = was.cursor as int;
                let k = final(self)@.cursor - was.cursor;
                let rows = run_rows(was.store, was.handles, from, k);
                let more = final(self)@.cursor < was.handles.len();
                if was.cursor == was.handles.len() {
                    &&& written == Ok::<Option<PacketWritten>, EncodeError>(None)
                    &&& k == 0
                    &&& final(buf)@ == Seq::<u8>::empty()
                } else {
                    &&& k >= 1
                    &&& takes(was.store, was.handles, from, k, was.body_budget())
                    &&& final(buf)@ == packet_bytes(was.store, was.header, rows, more, was.key)
                    &&& rows.len() <= was.limits.max_cells ==> {
                        &&& decoded::<C>(final(buf)@, was.key, was.limits) == Ok::<
                            DecodedSummary,
                            DecodeError,
                        >(summary_of(packet_header(was.header, rows, more, was.key is Some)))
                        &&& decoded_cells::<C>(final(buf)@, was.key, was.limits) == cells_of(
                            was.store,
                            rows,
                        )
                    }
                    &&& written == Ok::<Option<PacketWritten>, EncodeError>(
                        Some(
                            PacketWritten {
                                cells_emitted: rows.len() as u32,
                                cells_dropped: saturated_u32(k - rows.len()),
                                flags: packet_flags(was.header.flags, more, was.key is Some),
                            },
                        ),
                    )
                }
            }),
    {
        let ghost was = self@;
        buf.inner.clear();
        if self.cursor >= self.handles.len() {
            return Ok(None);
        }
        let auth: bool = self.key.is_some();
        let tag_bytes: usize = if auth { AUTH_TAG_LEN } else { 0 };
        let body_budget: usize = self.limits.max_payload_bytes - HEADER_LEN - tag_bytes;
        buf.inner.resize(HEADER_LEN, 0);
        let ghost reserved = buf.inner@;
        let encoded = encode_packet_body::<C>(
            self.store,
            self.handles,
            self.cursor,
            body_budget,
            self.scratch,
            &mut buf.inner,
        );
        let ghost rows = run_rows(
            was.store,
            was.handles,
            was.cursor as int,
            encoded.handles_consumed as int,
        );
        proof {
            lemma_progress(was, encoded.handles_consumed as int);
            lemma_body_roundtrip(was.store, rows);
        }
        let next_cursor: usize = self.cursor + encoded.handles_consumed;
        let more: bool = next_cursor < self.handles.len();
        let marked: u16 = if more {
            self.header.flags | FLAG_MORE
        } else {
            self.header.flags & !FLAG_MORE
        };
        let flags: u16 = if auth {
            marked | FLAG_AUTHENTICATED
        } else {
            marked & !FLAG_AUTHENTICATED
        };
        let packet = Header {
            flags,
            count_width: C::width_bytes() as u32,
            cell_count: encoded.cells_emitted,
            body_len: encoded.body_len as u32,
            min_origin_sequence: encoded.min_origin_sequence,
            max_origin_sequence: encoded.max_origin_sequence,
            ..self.header
        };
        patch_header(&mut buf.inner, &packet);
        let ghost frame = packet_frame(was.store, was.header, rows, more, auth);
        proof {
            lemma_header_roundtrip(packet, Seq::empty());
            assert(packet == packet_header(was.header, rows, more, auth));
            assert((reserved + body_bytes(was.store, rows)).skip(HEADER_LEN as int) =~= body_bytes(
                was.store,
                rows,
            ));
            assert(buf.inner@ =~= frame);
        }
        if let Some(key) = self.key {
            let tag = auth::sign(key, buf.inner.as_slice());
            let mut i: usize = 0;
            while i < AUTH_TAG_LEN
                invariant
                    i <= AUTH_TAG_LEN,
                    tag@.len() == AUTH_TAG_LEN,
                    buf.capacity == old(buf).capacity,
                    buf.inner@ == frame + tag@.take(i as int),
                decreases AUTH_TAG_LEN - i,
            {
                buf.inner.push(tag[i]);
                assert(buf.inner@ =~= frame + tag@.take(i + 1));
                i = i + 1;
            }
            assert(tag@.take(i as int) =~= tag@);
        }
        self.cursor = next_cursor;
        proof {
            if rows.len() <= was.limits.max_cells {
                lemma_packet_roundtrip(was.store, was.header, rows, more, was.key, was.limits);
            }
        }
        Ok(
            Some(
                PacketWritten {
                    cells_emitted: encoded.cells_emitted,
                    cells_dropped: encoded.cells_dropped,
                    flags,
                },
            ),
        )
    }
}

/// A packet that may still take handles takes at least one.
proof fn lemma_progress<C: Count>(packets: PacketsState<C>, k: int)
    requires
        packets.cursor < packets.handles.len(),
        spec_min_payload_bytes(C::width(), packets.key is Some)
            <= packets.limits.max_payload_bytes,
        takes(
            packets.store,
            packets.handles,
            packets.cursor as int,
            k,
            packets.body_budget(),
        ),
    ensures
        k >= 1,
{
    if k == 0 {
        body::lemma_one_fits(
            packets.store,
            packets.handles,
            packets.cursor as int,
            packets.body_budget(),
        );
    }
}

/// The flag bits say what they are meant to: more packets follow, a tag is
/// there.
pub proof fn lemma_packet_flags(flags: u16, more: bool, auth: bool)
    ensures
        (packet_flags(flags, more, auth) & FLAG_MORE != 0) == more,
        (packet_flags(flags, more, auth) & FLAG_AUTHENTICATED != 0) == auth,
{
    assert((flags | 1u16) | 2u16 == (flags | 1u16) | 2u16 && ((flags | 1u16) | 2u16) & 1u16 != 0
        && ((flags | 1u16) | 2u16) & 2u16 != 0) by (bit_vector);
    assert(((flags | 1u16) & !2u16) & 1u16 != 0 && ((flags | 1u16) & !2u16) & 2u16 == 0)
        by (bit_vector);
    assert(((flags & !1u16) | 2u16) & 1u16 == 0 && ((flags & !1u16) | 2u16) & 2u16 != 0)
        by (bit_vector);
    assert(((flags & !1u16) & !2u16) & 1u16 == 0 && ((flags & !1u16) & !2u16) & 2u16 == 0)
        by (bit_vector);
}

// -- decode -----------------------------------------------------------------

/// The part of the bytes that the tag covers.
pub open spec fn frame_part(bytes: Seq<u8>, auth: bool) -> Seq<u8> {
    if auth {
        bytes.take(bytes.len() - AUTH_TAG_LEN)
    } else {
        bytes
    }
}

/// Everything a decoder checks before it looks at cells.
pub open spec fn framing<C: Count>(
    bytes: Seq<u8>,
    key: Option<Seq<u8>>,
    limits: FrameLimits,
) -> Result<Header, DecodeError> {
    let frame = frame_part(bytes, key is Some);
    if bytes.len() > limits.max_payload_bytes {
        Err(DecodeError::PayloadTooLarge)
    } else if bytes.len() < HEADER_LEN + tag_len(key is Some) {
        Err(DecodeError::TooShort)
    } else if key is Some && bytes.skip(bytes.len() - AUTH_TAG_LEN) != hmac_sha256(key->0, frame) {
        Err(DecodeError::AuthenticationFailed)
    } else {
        match parsed_header(frame) {
            Err(e) => Err(e),
            Ok(h) => if h.count_width as nat != C::width() {
                Err(DecodeError::BadCountWidth)
            } else if h.cell_count > limits.max_cells {
                Err(DecodeError::CapacityExceeded)
            } else if HEADER_LEN + h.body_len > frame.len() {
                Err(DecodeError::BodyLenMismatch)
            } else if HEADER_LEN + h.body_len < frame.len() {
                Err(DecodeError::Trailing)
            } else {
                Ok(h)
            },
        }
    }
}

/// The body bytes of a frame.
pub open spec fn body_part(bytes: Seq<u8>, auth: bool) -> Seq<u8> {
    frame_part(bytes, auth).skip(HEADER_LEN as int)
}

pub open spec fn summary_of(h: Header) -> DecodedSummary {
    DecodedSummary { header: h, cell_count: h.cell_count, flags: h.flags }
}

/// What decoding comes to when the receiver wants the cells.
pub open spec fn decoded<C: Count>(
    bytes: Seq<u8>,
    key: Option<Seq<u8>>,
    limits: FrameLimits,
) -> Result<DecodedSummary, DecodeError> {
    match framing::<C>(bytes, key, limits) {
        Err(e) => Err(e),
        Ok(h) => match body_outcome::<C>(body_part(bytes, key is Some), h.cell_count as nat) {
            Err(e) => Err(e),
            Ok(_) => Ok(summary_of(h)),
        },
    }
}

/// The cells handed out when the receiver wants them: all of the frame's, or
/// those before the first with a bad slot; none of a frame that is refused.
pub open spec fn decoded_cells<C: Count>(
    bytes: Seq<u8>,
    key: Option<Seq<u8>>,
    limits: FrameLimits,
) -> Seq<WireCell<C>> {
    match framing::<C>(bytes, key, limits) {
        Err(_) => Seq::empty(),
        Ok(h) => body_cells::<C>(body_part(bytes, key is Some), h.cell_count as nat),
    }
}

/// Decodes a frame; `accept_header` says whether its cells are wanted.
fn decode_inner<C: Count, F: FnOnce(&Header) -> bool>(
    bytes: &[u8],
    key: Option<&HmacKey>,
    limits: FrameLimits,
    accept_header: F,
    cells: &mut Vec<WireCell<C>>,
) -> (outcome: Result<DecodedSummary, DecodeError>)
    requires
        framing::<C>(bytes@, key_view(key), limits) matches Ok(h) ==> call_requires(accept_header, (&h,)),
    ensures
        match framing::<C>(bytes@, key_view(key), limits) {
            Err(e) => {
                &&& outcome == Err::<DecodedSummary, DecodeError>(e)
                &&& final(cells)@ == old(cells)@
            },
            Ok(h) => exists|accepted: bool| #[trigger]
                call_ensures(accept_header, (&h,), accepted) && if accepted {
                    &&& outcome == decoded::<C>(bytes@, key_view(key), limits)
                    &&& final(cells)@ == old(cells)@ + decoded_cells::<C>(
                        bytes@,
                        key_view(key),
                        limits,
                    )
                } else {
                    &&& outcome == Ok::<DecodedSummary, DecodeError>(summary_of(h))
                    &&& final(cells)@ == old(cells)@
                },
        },
{
    let len: usize = bytes.len();
    if len > limits.max_payload_bytes {
        return Err(DecodeError::PayloadTooLarge);
    }
    let auth: bool = key.is_some();
    let tag_bytes: usize = if auth { AUTH_TAG_LEN } else { 0 };
    if len < HEADER_LEN + tag_bytes {
        return Err(DecodeError::TooShort);
    }
    let (frame, tag) = bytes.split_at(len - tag_bytes);
    proof {
        assert(frame@ =~= frame_part(bytes@, auth));
        assert(auth ==> tag@ =~= bytes@.skip(len - AUTH_TAG_LEN));
    }
    if let Some(key) = key {
        if auth::verify(key, frame, tag).is_err() {
            return Err(DecodeError::AuthenticationFailed);
        }
    }
    let header = match read_header(frame) {
        Ok(h) => h,
        Err(e) => {
            return Err(e);
        },
    };
    if header.count_width as usize != C::width_bytes() {
        return Err(DecodeError::BadCountWidth);
    }
    if header.cell_count > limits.max_cells {
        return Err(DecodeError::CapacityExceeded);
    }
    let required: u64 = HEADER_LEN as u64 + header.body_len as u64;
    if required != frame.len() as u64 {
        if required > frame.len() as u64 {
            return Err(DecodeError::BodyLenMismatch);
        }
        return Err(DecodeError::Trailing);
    }
    let summary = DecodedSummary {
        header,
        cell_count: header.cell_count,
        flags: header.flags,
    };
    if !accept_header(&header) {
        return Ok(summary);
    }
    let (_head, body) = frame.split_at(HEADER_LEN);
    assert(body@ =~= body_part(bytes@, auth));
    match decode_body_visit::<C>(body, header.cell_count, cells) {
        Ok(_) => Ok(summary),
        Err(e) => Err(e),
    }
}

/// Decodes an unauthenticated frame. `accept_header` is asked about the header
/// of a frame that passes every check, and about nothing else; if it takes the
/// header, the cells are appended to `cells` in order.
pub fn decode_unauth_visit<C: Count, F: FnOnce(&Header) -> bool>(
    bytes: &[u8],
    limits: FrameLimits,
    accept_header: F,
    cells: &mut Vec<WireCell<C>>,
) -> (outcome: Result<DecodedSummary, DecodeError>)
    requires
        framing::<C>(bytes@, None, limits) matches Ok(h) ==> call_requires(accept_header, (&h,)),
    ensures
        match framing::<C>(bytes@, None, limits) {
            Err(e) => {
                &&& outcome == Err::<DecodedSummary, DecodeError>(e)
                &&& final(cells)@ == old(cells)@
            },
            Ok(h) => exists|accepted: bool| #[trigger]
                call_ensures(accept_header, (&h,), accepted) && if accepted {
                    &&& outcome == decoded::<C>(bytes@, None, limits)
                    &&& final(cells)@ == old(cells)@ + decoded_cells::<C>(bytes@, None, limits)
                } else {
                    &&& outcome == Ok::<DecodedSummary, DecodeError>(summary_of(h))
                    &&& final(cells)@ == old(cells)@
                },
        },
{
    decode_inner(bytes, None, limits, accept_header, cells)
}

/// Decodes an authenticated frame. Nothing of a frame with the wrong tag is
/// looked at. `accept_header` is asked about the header of a frame that passes
/// every check, and about nothing else; if it takes the header, the cells are
/// appended to `cells` in order.
pub fn decode_auth_visit<C: Count, F: FnOnce(&Header) -> bool>(
    bytes: &[u8],
    key: &HmacKey,
    limits: FrameLimits,
    accept_header: F,
    cells: &mut Vec<WireCell<C>>,
) -> (outcome: Result<DecodedSummary, DecodeError>)
    requires
        framing::<C>(bytes@, Some(key.0@), limits) matches Ok(h) ==> call_requires(accept_header, (&h,)),
    ensures
        match framing::<C>(bytes@, Some(key.0@), limits) {
            Err(e) => {
                &&& outcome == Err::<DecodedSummary, DecodeError>(e)
                &&& final(cells)@ == old(cells)@
            },
            Ok(h) => exists|accepted: bool| #[trigger]
                call_ensures(accept_header, (&h,), accepted) && if accepted {
                    &&& outcome == decoded::<C>(bytes@, Some(key.0@), limits)
                    &&& final(cells)@ == old(cells)@ + decoded_cells::<C>(
                        bytes@,
                        Some(key.0@),
                        limits,
                    )
                } else {
                    &&& outcome == Ok::<DecodedSummary, DecodeError>(summary_of(h))
                    &&& final(cells)@ == old(cells)@
                },
        },
{
    decode_inner(bytes, Some(key), limits, accept_header, cells)
}

/// A cell as the store takes it.
pub open spec fn observed<C: Count>(cell: WireCell<C>) -> Observation<C> {
    Observation {
        rule_fingerprint: cell.rule_fingerprint,
        key_hash: cell.key_hash,
        bucket: cell.bucket,
        origin: cell.origin_node_id,
        incarnation: cell.origin_incarnation,
        count: cell.count,
        last_update_millis: cell.last_update_millis,
    }
}

/// Cells as the store takes them.
pub open spec fn observed_all<C: Count>(cells: Seq<WireCell<C>>) -> Seq<Observation<C>> {
    Seq::new(cells.len(), |i: int| observed(cells[i]))
}

pub fn observation_from_wire<C: Count>(cell: WireCell<C>) -> (observation: Observation<C>)
    ensures
        observation == observed(cell),
{
    Observation {
        rule_fingerprint: cell.rule_fingerprint,
        key_hash: cell.key_hash,
        bucket: cell.bucket,
        origin: cell.origin_node_id,
        incarnation: cell.origin_incarnation,
        count: cell.count,
        last_update_millis: cell.last_update_millis,
    }
}

/// The sequence numbers of observations that came without any.
pub open spec fn unsequenced(n: nat) -> Seq<u64> {
    Seq::new(n, |i: int| 0u64)
}

fn push_observations<C: Count>(obs: &mut ObservationBatch<C>, cells: &Vec<WireCell<C>>)
    requires
        old(obs).wf(),
    ensures
        final(obs).wf(),
        final(obs)@ == old(obs)@ + observed_all(cells@),
        final(obs).origin_sequences@ == old(obs).origin_sequences@ + unsequenced(cells@.len()),
{
    let mut i: usize = 0;
    assert(obs@ =~= old(obs)@ + observed_all(cells@).take(0));
    assert(obs.origin_sequences@ =~= old(obs).origin_sequences@ + unsequenced(0));
    while i < cells.len()
        invariant
            i <= cells@.len(),
            obs.wf(),
            obs@ == old(obs)@ + observed_all(cells@).take(i as int),
            obs.origin_sequences@ == old(obs).origin_sequences@ + unsequenced(i as nat),
        decreases cells@.len() - i,
    {
        obs.push(observation_from_wire(cells[i]));
        assert(obs@ =~= old(obs)@ + observed_all(cells@).take(i + 1));
        assert(obs.origin_sequences@ =~= old(obs).origin_sequences@ + unsequenced((i + 1) as nat));
        i = i + 1;
    }
    assert(observed_all(cells@).take(i as int) =~= observed_all(cells@));
}

/// Takes every frame's cells.
pub(crate) fn any_header(_header: &Header) -> (wanted: bool)
    ensures
        wanted,
{
    true
}

/// Decodes an unauthenticated frame into observations.
pub fn decode_unauth<C: Count>(
    bytes: &[u8],
    limits: FrameLimits,
    obs: &mut ObservationBatch<C>,
) -> (outcome: Result<DecodedSummary, DecodeError>)
    requires
        old(obs).wf(),
    ensures
        final(obs).wf(),
        outcome == decoded::<C>(bytes@, None, limits),
        final(obs)@ == old(obs)@ + observed_all(decoded_cells::<C>(bytes@, None, limits)),
        final(obs).origin_sequences@ == old(obs).origin_sequences@ + unsequenced(
            decoded_cells::<C>(bytes@, None, limits).len(),
        ),
{
    let mut cells: Vec<WireCell<C>> = Vec::new();
    let outcome = decode_inner(bytes, None, limits, any_header, &mut cells);
    assert(cells@ =~= decoded_cells::<C>(bytes@, None, limits));
    push_observations(obs, &cells);
    outcome
}

/// Decodes an authenticated frame into observations.
pub fn decode_auth<C: Count>(
    bytes: &[u8],
    key: &HmacKey,
    limits: FrameLimits,
    obs: &mut ObservationBatch<C>,
) -> (outcome: Result<DecodedSummary, DecodeError>)
    requires
        old(obs).wf(),
    ensures
        final(obs).wf(),
        outcome == decoded::<C>(bytes@, Some(key.0@), limits),
        final(obs)@ == old(obs)@ + observed_all(decoded_cells::<C>(bytes@, Some(key.0@), limits)),
        final(obs).origin_sequences@ == old(obs).origin_sequences@ + unsequenced(
            decoded_cells::<C>(bytes@, Some(key.0@), limits).len(),
        ),
{
    let mut cells: Vec<WireCell<C>> = Vec::new();
    let outcome = decode_inner(bytes, Some(key), limits, any_header, &mut cells);
    assert(cells@ =~= decoded_cells::<C>(bytes@, Some(key.0@), limits));
    push_observations(obs, &cells);
    outcome
}

// -- laws -------------------------------------------------------------------

/// Packets survive the wire: a packet decodes, by itself and under the limits
/// it was made for, to exactly the cells of its rows and the header it was
/// given. An authenticated packet does so under its own key; tags have
/// [`AUTH_TAG_LEN`] bytes.
pub proof fn lemma_packet_roundtrip<C: Count>(
    state: StoreState<C>,
    header: Header,
    rows: Seq<CellRow<C>>,
    more: bool,
    key: Option<Seq<u8>>,
    limits: FrameLimits,
)
    requires
        distinct(rule_slots(rows)).len() <= MAX_DICT_SLOTS,
        distinct(node_slots(rows)).len() <= MAX_DICT_SLOTS,
        body_size(rows) <= u32::MAX,
        rows.len() <= limits.max_cells,
    ensures
        ({
            let bytes = packet_bytes(state, header, rows, more, key);
            let frame = packet_frame(state, header, rows, more, key is Some);
            let sent = packet_header(header, rows, more, key is Some);
            (key matches Some(k) ==> hmac_sha256(k, frame).len() == AUTH_TAG_LEN) && bytes.len()
                <= limits.max_payload_bytes ==> {
                &&& decoded::<C>(bytes, key, limits) == Ok::<DecodedSummary, DecodeError>(
                    summary_of(sent),
                )
                &&& decoded_cells::<C>(bytes, key, limits) == cells_of(state, rows)
            }
        }),
{
    let bytes = packet_bytes(state, header, rows, more, key);
    let frame = packet_frame(state, header, rows, more, key is Some);
    let sent = packet_header(header, rows, more, key is Some);
    let body = body_bytes(state, rows);
    C::lemma_width();
    lemma_header_roundtrip(sent, body);
    lemma_body_roundtrip(state, rows);
    if (key matches Some(k) ==> hmac_sha256(k, frame).len() == AUTH_TAG_LEN) && bytes.len()
        <= limits.max_payload_bytes {
        assert(frame_part(bytes, key is Some) =~= frame);
        if key is Some {
            assert(bytes.skip(bytes.len() - AUTH_TAG_LEN) =~= hmac_sha256(key->0, frame));
        }
        assert(body_part(bytes, key is Some) =~= body);
    }
}

/// Authentication comes first: a frame of sound size whose last bytes are not
/// the tag of the rest is refused, whatever it holds, and no cell of it is
/// handed out.
pub proof fn lemma_wrong_tag_refused<C: Count>(
    bytes: Seq<u8>,
    key: Seq<u8>,
    limits: FrameLimits,
)
    ensures
        HEADER_LEN + AUTH_TAG_LEN <= bytes.len() <= limits.max_payload_bytes && bytes.skip(
            bytes.len() - AUTH_TAG_LEN,
        ) != hmac_sha256(key, bytes.take(bytes.len() - AUTH_TAG_LEN)) ==> {
            &&& decoded::<C>(bytes, Some(key), limits) == Err::<DecodedSummary, DecodeError>(
                DecodeError::AuthenticationFailed,
            )
            &&& decoded_cells::<C>(bytes, Some(key), limits).len() == 0
        },
{
}

/// Whether a frame is of sound size and ends in the tag of the rest.
pub open spec fn genuine(bytes: Seq<u8>, key: Seq<u8>, limits: FrameLimits) -> bool {
    &&& HEADER_LEN + AUTH_TAG_LEN <= bytes.len() <= limits.max_payload_bytes
    &&& bytes.skip(bytes.len() - AUTH_TAG_LEN) == hmac_sha256(key, frame_part(bytes, true))
}

/// Whether a frame is refused for its tag before its header is looked at, with
/// no cell handed out.
pub open spec fn refused<C: Count>(bytes: Seq<u8>, key: Seq<u8>, limits: FrameLimits) -> bool {
    &&& framing::<C>(bytes, Some(key), limits) == Err::<Header, DecodeError>(
        DecodeError::AuthenticationFailed,
    )
    &&& decoded::<C>(bytes, Some(key), limits) == Err::<DecodedSummary, DecodeError>(
        DecodeError::AuthenticationFailed,
    )
    &&& decoded_cells::<C>(bytes, Some(key), limits).len() == 0
}

/// A frame with one byte changed is refused: always if the byte is of the tag,
/// and otherwise if the changed frame has another tag. That HMAC-SHA256 gives
/// every changed frame another tag is not stated.
pub proof fn lemma_tampering_refused<C: Count>(
    bytes: Seq<u8>,
    at: int,
    value: u8,
    key: Seq<u8>,
    limits: FrameLimits,
)
    requires
        genuine(bytes, key, limits),
        0 <= at < bytes.len(),
        value != bytes[at],
    ensures
        ({
            let changed = bytes.update(at, value);
            at >= bytes.len() - AUTH_TAG_LEN || hmac_sha256(key, frame_part(changed, true))
                != hmac_sha256(key, frame_part(bytes, true)) ==> refused::<C>(
                changed,
                key,
                limits,
            )
        }),
{
    let changed = bytes.update(at, value);
    let split = bytes.len() - AUTH_TAG_LEN;
    if at >= split {
        assert(frame_part(changed, true) =~= frame_part(bytes, true));
        assert(changed.skip(split)[at - split] != bytes.skip(split)[at - split]);
    } else {
        assert(changed.skip(split) =~= bytes.skip(split));
    }
}

/// A frame is refused under every other key that gives it another tag. That all
/// other keys do is not stated.
pub proof fn lemma_other_key_refused<C: Count>(
    bytes: Seq<u8>,
    key: Seq<u8>,
    other: Seq<u8>,
    limits: FrameLimits,
)
    requires
        genuine(bytes, key, limits),
    ensures
        hmac_sha256(other, frame_part(bytes, true)) != hmac_sha256(key, frame_part(bytes, true))
            ==> refused::<C>(bytes, other, limits),
{
}

/// Limits come first: an accepted frame keeps both of them.
pub proof fn lemma_limits_enforced<C: Count>(
    bytes: Seq<u8>,
    key: Option<Seq<u8>>,
    limits: FrameLimits,
)
    ensures
        decoded::<C>(bytes, key, limits) matches Ok(summary) ==> {
            &&& bytes.len() <= limits.max_payload_bytes
            &&& summary.cell_count <= limits.max_cells
            &&& decoded_cells::<C>(bytes, key, limits).len() == summary.cell_count
        },
        decoded_cells::<C>(bytes, key, limits).len() <= limits.max_cells,
{
    match framing::<C>(bytes, key, limits) {
        Ok(h) => {
            body::lemma_body_cells_len::<C>(body_part(bytes, key is Some), h.cell_count as nat);
        },
        Err(_) => {},
    }
}

/// A packet takes a definite number of handles: as many as fit.
pub proof fn lemma_takes_unique<C: Count>(
    state: StoreState<C>,
    handles: Seq<CellHandle>,
    from: int,
    j: int,
    k: int,
    budget: nat,
)
    requires
        0 <= from,
        takes(state, handles, from, j, budget),
        takes(state, handles, from, k, budget),
    ensures
        j == k,
{
    if j < k {
        body::lemma_shorter_fits(state, handles, from, j + 1, k, budget);
    }
    if k < j {
        body::lemma_shorter_fits(state, handles, from, k + 1, j, budget);
    }
}

/// The rows of the packets that a drain from handle `from` on gives.
pub open spec fn drained<C: Count>(
    state: StoreState<C>,
    handles: Seq<CellHandle>,
    from: int,
    budget: nat,
) -> Seq<Seq<CellRow<C>>>
    decreases handles.len() - from,
{
    let k = choose|k: int| 1 <= k && takes(state, handles, from, k, budget);
    if 0 <= from < handles.len() && 1 <= k && takes(state, handles, from, k, budget) {
        seq![run_rows(state, handles, from, k)] + drained(state, handles, from + k, budget)
    } else {
        Seq::empty()
    }
}

/// A drain sends every cell once: the packets' rows, one after the other, are
/// the rows of all handles in order.
pub proof fn lemma_drain_complete<C: Count>(
    state: StoreState<C>,
    handles: Seq<CellHandle>,
    from: int,
    budget: nat,
)
    requires
        0 <= from <= handles.len(),
        spec_min_payload_bytes(C::width(), false) - HEADER_LEN <= budget,
    ensures
        drained(state, handles, from, budget).flatten() == rows_of(state, handles.skip(from)),
        forall|i: int|
            0 <= i < drained(state, handles, from, budget).len() ==> rows_fit(
                #[trigger] drained(state, handles, from, budget)[i],
                budget,
            ),
    decreases handles.len() - from,
{
    let runs = drained(state, handles, from, budget);
    if from == handles.len() {
        assert(handles.skip(from) =~= Seq::<CellHandle>::empty());
        assert(runs =~= Seq::<Seq<CellRow<C>>>::empty());
    } else {
        body::lemma_some_run(state, handles, from, budget);
        let k = choose|k: int| 1 <= k && takes(state, handles, from, k, budget);
        let rest = drained(state, handles, from + k, budget);
        lemma_drain_complete(state, handles, from + k, budget);
        let first = run_rows(state, handles, from, k);
        assert(runs =~= seq![first] + rest);
        assert(runs.first() == first);
        assert(runs.drop_first() =~= rest);
        assert(runs.flatten() == first + rest.flatten());
        body::lemma_rows_concat(state, handles.subrange(from, from + k), handles.skip(from + k));
        assert(handles.subrange(from, from + k) + handles.skip(from + k) =~= handles.skip(from));
        assert forall|i: int| 0 <= i < runs.len() implies rows_fit(#[trigger] runs[i], budget) by {
            if i > 0 {
                assert(runs[i] == rest[i - 1]);
            }
        }
    }
}

} // verus!
