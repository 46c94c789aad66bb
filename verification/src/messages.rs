//! Frames of the digest-based gossip protocol.
//!
//! Layout (little-endian): a header of 68 bytes, digests of 22 bytes each,
//! cells of 72 bytes each, and, in authenticated frames, an HMAC-SHA256 tag of
//! 32 bytes over everything before it.
//!
//! - An encoder never writes past the payload capacity it is given: cells that
//!   do not fit are left out, and the frame is marked truncated.
//! - A decoder checks the payload size and the declared counts before it reads
//!   any digest or cell.
//! - Appending to the caller's vectors reports the same content as decoding
//!   into a message of its own.
//! - A frame whose tag does not match is refused before anything of it is
//!   handed on.

use crate::bytes::{
    bits_of, joined, le, le_at, lemma_joined_number, lemma_le_len, lemma_pow256_values,
    lemma_signed_roundtrip, lemma_start_end, lemma_start_step, of_bits, push_le, read_le,
    signed_bits, signed_of, start,
};
use crate::cells::{CounterCell, NodeId, ShardDigest};
use crate::wire::auth::{hmac_sha256, mac_matches, mac_tag, HmacKey, AUTH_TAG_LEN};
use vstd::prelude::*;

verus! {

pub const MAGIC: u32 = 0x4742_4731;

pub const VERSION: u16 = 1;

pub const HEADER_LEN: usize = 68;

pub const DIGEST_LEN: usize = 22;

pub const CELL_LEN: usize = 72;

/// Who sent a frame, and which buckets it is about.
#[derive(Clone, Copy, Debug, PartialEq, Eq, Structural)]
pub struct GossipHeader {
    pub cluster_id_hash: u64,
    pub sender_node_id: NodeId,
    pub sender_incarnation: u64,
    pub min_bucket: i64,
    pub max_bucket: i64,
    pub flags: u32,
}

/// A decoded frame.
#[derive(Debug, PartialEq, Eq)]
pub struct GossipMessage {
    pub header: GossipHeader,
    pub digests: Vec<ShardDigest>,
    pub cells: Vec<CounterCell>,
    pub truncated: bool,
}

/// What a frame says of itself.
#[derive(Clone, Copy, Debug, PartialEq, Eq, Structural)]
pub struct DecodedMessageSummary {
    pub header: GossipHeader,
    pub digest_count: usize,
    pub cell_count: usize,
    pub truncated: bool,
}

/// What a decoder puts up with.
#[derive(Clone, Copy, Debug, PartialEq, Eq, Structural)]
pub struct GossipLimits {
    pub max_payload_bytes: usize,
    pub max_digests: usize,
    pub max_cells: usize,
}

impl Default for GossipLimits {
    fn default() -> (limits: GossipLimits)
        ensures
            limits == (GossipLimits {
                max_payload_bytes: 262144,
                max_digests: 1024,
                max_cells: 4096,
            }),
    {
        GossipLimits { max_payload_bytes: 256 * 1024, max_digests: 1024, max_cells: 4096 }
    }
}

/// Counters of one node's gossip traffic.
#[derive(Clone, Copy, Debug, PartialEq, Eq, Structural)]
pub struct GossipMetrics {
    pub send_bytes: u64,
    pub recv_bytes: u64,
    pub merge_cells: u64,
    pub digest_mismatch: u64,
    pub truncated: u64,
    pub auth_failures: u64,
    pub decode_errors: u64,
    pub dirty_overflow: u64,
}

impl Default for GossipMetrics {
    fn default() -> (metrics: GossipMetrics)
        ensures
            metrics == (GossipMetrics {
                send_bytes: 0,
                recv_bytes: 0,
                merge_cells: 0,
                digest_mismatch: 0,
                truncated: 0,
                auth_failures: 0,
                decode_errors: 0,
                dirty_overflow: 0,
            }),
    {
        GossipMetrics {
            send_bytes: 0,
            recv_bytes: 0,
            merge_cells: 0,
            digest_mismatch: 0,
            truncated: 0,
            auth_failures: 0,
            decode_errors: 0,
            dirty_overflow: 0,
        }
    }
}

/// A counter raised by `n`, capped at `u64::MAX`.
pub open spec fn raised_by(counter: u64, n: int) -> u64 {
    if counter + n <= u64::MAX {
        (counter + n) as u64
    } else {
        u64::MAX
    }
}

impl GossipMetrics {
    pub open spec fn sent(self, bytes: usize, truncated: bool) -> GossipMetrics {
        GossipMetrics {
            send_bytes: raised_by(self.send_bytes, bytes as int),
            truncated: if truncated {
                raised_by(self.truncated, 1)
            } else {
                self.truncated
            },
            ..self
        }
    }

    pub open spec fn received(self, bytes: usize) -> GossipMetrics {
        GossipMetrics { recv_bytes: raised_by(self.recv_bytes, bytes as int), ..self }
    }

    pub fn record_send(&mut self, bytes: usize, truncated: bool)
        ensures
            *final(self) == old(self).sent(bytes, truncated),
    {
        self.send_bytes = self.send_bytes.saturating_add(bytes as u64);
        if truncated {
            self.truncated = self.truncated.saturating_add(1);
        }
    }

    pub fn record_recv(&mut self, bytes: usize)
        ensures
            *final(self) == old(self).received(bytes),
    {
        self.recv_bytes = self.recv_bytes.saturating_add(bytes as u64);
    }
}

/// Why a frame was refused.
#[derive(Clone, Copy, Debug, PartialEq, Eq, Structural)]
pub enum DecodeError {
    /// Shorter than a header, or than a tag.
    TooShort,
    BadMagic,
    BadVersion,
    /// Not as long as its counts say.
    Truncated,
    /// More digests or cells than the limits allow.
    CapacityExceeded,
    /// Longer than the limits allow.
    PayloadTooLarge,
    AuthenticationFailed,
}

impl DecodeError {
    pub fn message(self) -> (text: &'static str)
        ensures
            text@ == match self {
                DecodeError::TooShort => "payload too short"@,
                DecodeError::BadMagic => "bad magic"@,
                DecodeError::BadVersion => "bad version"@,
                DecodeError::Truncated => "truncated payload"@,
                DecodeError::CapacityExceeded => "decode capacity exceeded"@,
                DecodeError::PayloadTooLarge => "payload size exceeded"@,
                DecodeError::AuthenticationFailed => "authentication failed"@,
            },
    {
        match self {
            DecodeError::TooShort => "payload too short",
            DecodeError::BadMagic => "bad magic",
            DecodeError::BadVersion => "bad version",
            DecodeError::Truncated => "truncated payload",
            DecodeError::CapacityExceeded => "decode capacity exceeded",
            DecodeError::PayloadTooLarge => "payload size exceeded",
            DecodeError::AuthenticationFailed => "authentication failed",
        }
    }
}

// -- layout -----------------------------------------------------------------

/// A header's fields in wire order, with the counts that follow.
pub open spec fn header_parts(h: GossipHeader, digests: nat, cells: nat) -> Seq<Seq<u8>> {
    seq![
        le(MAGIC as nat, 4),
        le(VERSION as nat, 2),
        le(digests, 2),
        le(cells, 4),
        le(h.cluster_id_hash as nat, 8),
        le(h.sender_node_id.hi as nat, 8),
        le(h.sender_node_id.lo as nat, 8),
        le(h.sender_incarnation as nat, 8),
        le(signed_bits(h.min_bucket) as nat, 8),
        le(signed_bits(h.max_bucket) as nat, 8),
        le(h.flags as nat, 4),
        le(0, 4),
    ]
}

pub open spec fn digest_parts(d: ShardDigest) -> Seq<Seq<u8>> {
    seq![
        le(d.shard_id as nat, 2),
        le(d.active_cell_count as nat, 4),
        le(d.max_sequence as nat, 8),
        le(d.checksum as nat, 8),
    ]
}

/// A cell's fields in wire order. Its sequence number is not sent.
pub open spec fn cell_parts(c: CounterCell) -> Seq<Seq<u8>> {
    seq![
        le(c.rule_id as nat, 8),
        le(c.key_hash_hi as nat, 8),
        le(c.key_hash_lo as nat, 8),
        le(signed_bits(c.bucket_start_millis) as nat, 8),
        le(c.origin_node_id.hi as nat, 8),
        le(c.origin_node_id.lo as nat, 8),
        le(c.origin_incarnation as nat, 8),
        le(c.count as nat, 8),
        le(c.last_update_millis as nat, 8),
    ]
}

pub open spec fn digest_rows(digests: Seq<ShardDigest>) -> Seq<u8>
    decreases digests.len(),
{
    if digests.len() == 0 {
        Seq::empty()
    } else {
        digest_rows(digests.drop_last()) + joined(digest_parts(digests.last()))
    }
}

pub open spec fn cell_rows(cells: Seq<CounterCell>) -> Seq<u8>
    decreases cells.len(),
{
    if cells.len() == 0 {
        Seq::empty()
    } else {
        cell_rows(cells.drop_last()) + joined(cell_parts(cells.last()))
    }
}

pub open spec fn smaller(a: int, b: int) -> int {
    if a < b {
        a
    } else {
        b
    }
}

/// How many digests a frame carries.
pub open spec fn digests_sent(digests: Seq<ShardDigest>) -> int {
    smaller(digests.len() as int, u16::MAX as int)
}

/// Length of header and digests.
pub open spec fn fixed_len(digests: Seq<ShardDigest>) -> int {
    HEADER_LEN + digests_sent(digests) * DIGEST_LEN
}

/// How many cells fit into `max` bytes behind header and digests.
pub open spec fn cells_sent(digests: Seq<ShardDigest>, cells: Seq<CounterCell>, max: int) -> int {
    smaller(
        smaller(cells.len() as int, u32::MAX as int),
        (max - fixed_len(digests)) / CELL_LEN as int,
    )
}

/// A frame, and whether it holds less than it was asked to.
pub open spec fn encoded(
    header: GossipHeader,
    digests: Seq<ShardDigest>,
    cells: Seq<CounterCell>,
    truncated: bool,
    max: int,
) -> (Seq<u8>, bool) {
    if fixed_len(digests) > max {
        (Seq::empty(), true)
    } else {
        let dc = digests_sent(digests);
        let cc = cells_sent(digests, cells, max);
        let truncated = truncated || cc < cells.len();
        let header = GossipHeader {
            flags: if truncated {
                header.flags | 1
            } else {
                header.flags
            },
            ..header
        };
        (
            joined(header_parts(header, dc as nat, cc as nat)) + digest_rows(digests.take(dc))
                + cell_rows(cells.take(cc)),
            truncated,
        )
    }
}

/// An authenticated frame: a frame with its tag behind it.
pub open spec fn sealed(
    header: GossipHeader,
    digests: Seq<ShardDigest>,
    cells: Seq<CounterCell>,
    truncated: bool,
    key: Seq<u8>,
    max: int,
) -> (Seq<u8>, bool) {
    if max < AUTH_TAG_LEN {
        (Seq::empty(), true)
    } else {
        let (bytes, truncated) = encoded(header, digests, cells, truncated, max - AUTH_TAG_LEN);
        (bytes + hmac_sha256(key, bytes), truncated)
    }
}

/// A frame's content.
#[verifier::ext_equal]
pub struct Content {
    pub header: GossipHeader,
    pub digests: Seq<ShardDigest>,
    pub cells: Seq<CounterCell>,
    pub truncated: bool,
}

impl GossipMessage {
    pub open spec fn view(&self) -> Content {
        Content {
            header: self.header,
            digests: self.digests@,
            cells: self.cells@,
            truncated: self.truncated,
        }
    }
}

pub open spec fn digests_declared(bytes: Seq<u8>) -> nat {
    le_at(bytes, 6, 2)
}

pub open spec fn cells_declared(bytes: Seq<u8>) -> nat {
    le_at(bytes, 8, 4)
}

pub open spec fn header_of(bytes: Seq<u8>) -> GossipHeader {
    GossipHeader {
        cluster_id_hash: le_at(bytes, 12, 8) as u64,
        sender_node_id: NodeId { hi: le_at(bytes, 20, 8) as u64, lo: le_at(bytes, 28, 8) as u64 },
        sender_incarnation: le_at(bytes, 36, 8) as u64,
        min_bucket: signed_of(le_at(bytes, 44, 8) as u64),
        max_bucket: signed_of(le_at(bytes, 52, 8) as u64),
        flags: le_at(bytes, 60, 4) as u32,
    }
}

/// The digest whose bytes start at `at`.
pub open spec fn digest_at(bytes: Seq<u8>, at: int) -> ShardDigest {
    ShardDigest {
        shard_id: le_at(bytes, at, 2) as u16,
        active_cell_count: le_at(bytes, at + 2, 4) as u32,
        max_sequence: le_at(bytes, at + 6, 8) as u64,
        checksum: le_at(bytes, at + 14, 8) as u64,
    }
}

/// The cell whose bytes start at `at`. Of the rule number the low 32 bits count.
pub open spec fn cell_at(bytes: Seq<u8>, at: int) -> CounterCell {
    CounterCell {
        rule_id: le_at(bytes, at, 8) as u32,
        key_hash_hi: le_at(bytes, at + 8, 8) as u64,
        key_hash_lo: le_at(bytes, at + 16, 8) as u64,
        bucket_start_millis: signed_of(le_at(bytes, at + 24, 8) as u64),
        origin_node_id: NodeId {
            hi: le_at(bytes, at + 32, 8) as u64,
            lo: le_at(bytes, at + 40, 8) as u64,
        },
        origin_incarnation: le_at(bytes, at + 48, 8) as u64,
        count: le_at(bytes, at + 56, 8) as u64,
        last_update_millis: le_at(bytes, at + 64, 8) as u64,
        sequence: 0,
    }
}

/// The first `n` digests of a frame.
pub open spec fn digests_in(bytes: Seq<u8>, n: nat) -> Seq<ShardDigest> {
    Seq::new(n, |i: int| digest_at(bytes, HEADER_LEN + i * DIGEST_LEN))
}

/// The first `n` cells of a frame with `digests` digests.
pub open spec fn cells_in(bytes: Seq<u8>, digests: nat, n: nat) -> Seq<CounterCell> {
    Seq::new(n, |i: int| cell_at(bytes, HEADER_LEN + digests * DIGEST_LEN + i * CELL_LEN))
}

/// The length that a frame's counts ask for.
pub open spec fn declared_len(bytes: Seq<u8>) -> int {
    HEADER_LEN + digests_declared(bytes) * DIGEST_LEN + cells_declared(bytes) * CELL_LEN
}

/// What is wrong with a frame before its digests and cells are looked at.
pub open spec fn preamble_error(bytes: Seq<u8>, limits: GossipLimits) -> Option<DecodeError> {
    if bytes.len() > limits.max_payload_bytes {
        Some(DecodeError::PayloadTooLarge)
    } else if bytes.len() < HEADER_LEN {
        Some(DecodeError::TooShort)
    } else if le_at(bytes, 0, 4) != MAGIC as nat {
        Some(DecodeError::BadMagic)
    } else if le_at(bytes, 4, 2) != VERSION as nat {
        Some(DecodeError::BadVersion)
    } else if digests_declared(bytes) > limits.max_digests || cells_declared(bytes)
        > limits.max_cells {
        Some(DecodeError::CapacityExceeded)
    } else {
        None
    }
}

/// What a frame says.
pub open spec fn decoded(bytes: Seq<u8>, limits: GossipLimits) -> Result<Content, DecodeError> {
    match preamble_error(bytes, limits) {
        Some(error) => Err(error),
        None => if bytes.len() != declared_len(bytes) {
            Err(DecodeError::Truncated)
        } else {
            Ok(
                Content {
                    header: header_of(bytes),
                    digests: digests_in(bytes, digests_declared(bytes)),
                    cells: cells_in(bytes, digests_declared(bytes), cells_declared(bytes)),
                    truncated: header_of(bytes).flags & 1 == 1,
                },
            )
        },
    }
}

/// How many whole digests of the declared ones a frame holds.
pub open spec fn digests_present(bytes: Seq<u8>) -> int {
    smaller(
        digests_declared(bytes) as int,
        (bytes.len() - HEADER_LEN) / DIGEST_LEN as int,
    )
}

/// How many whole cells of the declared ones a frame holds behind its digests.
pub open spec fn cells_present(bytes: Seq<u8>) -> int {
    let rest = bytes.len() - HEADER_LEN - digests_declared(bytes) * DIGEST_LEN;
    if rest < 0 {
        0
    } else {
        smaller(cells_declared(bytes) as int, rest / CELL_LEN as int)
    }
}

pub open spec fn summary_of(bytes: Seq<u8>) -> DecodedMessageSummary {
    DecodedMessageSummary {
        header: header_of(bytes),
        digest_count: digests_declared(bytes) as usize,
        cell_count: cells_declared(bytes) as usize,
        truncated: header_of(bytes).flags & 1 == 1,
    }
}

/// What a frame is answered once its preamble is in order.
pub open spec fn visited(bytes: Seq<u8>, accepted: bool) -> Result<
    DecodedMessageSummary,
    DecodeError,
> {
    if accepted && bytes.len() != declared_len(bytes) {
        Err(DecodeError::Truncated)
    } else {
        Ok(summary_of(bytes))
    }
}

/// Splits an authenticated frame into payload and tag, or says why not.
pub open spec fn seal_error(bytes: Seq<u8>, key: Seq<u8>, limits: GossipLimits) -> Option<
    DecodeError,
> {
    if bytes.len() > limits.max_payload_bytes {
        Some(DecodeError::PayloadTooLarge)
    } else if bytes.len() < AUTH_TAG_LEN {
        Some(DecodeError::TooShort)
    } else if bytes.skip(bytes.len() - AUTH_TAG_LEN) != hmac_sha256(
        key,
        bytes.take(bytes.len() - AUTH_TAG_LEN),
    ) {
        Some(DecodeError::AuthenticationFailed)
    } else {
        None
    }
}

/// What of an authenticated frame its tag covers.
pub open spec fn sealed_payload(bytes: Seq<u8>) -> Seq<u8> {
    bytes.take(bytes.len() - AUTH_TAG_LEN)
}

// -- encoding ---------------------------------------------------------------

fn push_header(out: &mut Vec<u8>, h: GossipHeader, digests: usize, cells: usize)
    requires
        old(out)@.len() == 0,
    ensures
        final(out)@ == joined(header_parts(h, digests as nat, cells as nat)),
{
    let ghost parts = header_parts(h, digests as nat, cells as nat);
    push_le(out, MAGIC as u128, 4);
    push_le(out, VERSION as u128, 2);
    push_le(out, digests as u128, 2);
    push_le(out, cells as u128, 4);
    push_le(out, h.cluster_id_hash as u128, 8);
    push_le(out, h.sender_node_id.hi as u128, 8);
    push_le(out, h.sender_node_id.lo as u128, 8);
    push_le(out, h.sender_incarnation as u128, 8);
    push_le(out, bits_of(h.min_bucket) as u128, 8);
    push_le(out, bits_of(h.max_bucket) as u128, 8);
    push_le(out, h.flags as u128, 4);
    push_le(out, 0, 4);
    proof {
        assert(parts.take(0) =~= Seq::<Seq<u8>>::empty());
        lemma_start_step(parts, 0);
        lemma_start_step(parts, 1);
        lemma_start_step(parts, 2);
        lemma_start_step(parts, 3);
        lemma_start_step(parts, 4);
        lemma_start_step(parts, 5);
        lemma_start_step(parts, 6);
        lemma_start_step(parts, 7);
        lemma_start_step(parts, 8);
        lemma_start_step(parts, 9);
        lemma_start_step(parts, 10);
        lemma_start_step(parts, 11);
        assert(parts.take(12) =~= parts);
        assert(out@ =~= joined(parts));
    }
}

fn push_digest(out: &mut Vec<u8>, d: ShardDigest)
    ensures
        final(out)@ == old(out)@ + joined(digest_parts(d)),
{
    let ghost parts = digest_parts(d);
    let ghost before = out@;
    push_le(out, d.shard_id as u128, 2);
    push_le(out, d.active_cell_count as u128, 4);
    push_le(out, d.max_sequence as u128, 8);
    push_le(out, d.checksum as u128, 8);
    proof {
        assert(parts.take(0) =~= Seq::<Seq<u8>>::empty());
        lemma_start_step(parts, 0);
        lemma_start_step(parts, 1);
        lemma_start_step(parts, 2);
        lemma_start_step(parts, 3);
        assert(parts.take(4) =~= parts);
        assert(out@ =~= before + joined(parts));
    }
}

fn push_cell(out: &mut Vec<u8>, c: CounterCell)
    ensures
        final(out)@ == old(out)@ + joined(cell_parts(c)),
{
    let ghost parts = cell_parts(c);
    let ghost before = out@;
    push_le(out, c.rule_id as u128, 8);
    push_le(out, c.key_hash_hi as u128, 8);
    push_le(out, c.key_hash_lo as u128, 8);
    push_le(out, bits_of(c.bucket_start_millis) as u128, 8);
    push_le(out, c.origin_node_id.hi as u128, 8);
    push_le(out, c.origin_node_id.lo as u128, 8);
    push_le(out, c.origin_incarnation as u128, 8);
    push_le(out, c.count as u128, 8);
    push_le(out, c.last_update_millis as u128, 8);
    proof {
        assert(parts.take(0) =~= Seq::<Seq<u8>>::empty());
        lemma_start_step(parts, 0);
        lemma_start_step(parts, 1);
        lemma_start_step(parts, 2);
        lemma_start_step(parts, 3);
        lemma_start_step(parts, 4);
        lemma_start_step(parts, 5);
        lemma_start_step(parts, 6);
        lemma_start_step(parts, 7);
        lemma_start_step(parts, 8);
        assert(parts.take(9) =~= parts);
        assert(out@ =~= before + joined(parts));
    }
}

/// Writes a frame of at most `max_payload_bytes` into `buffer`, in place of
/// what is there. Cells that do not fit are left out. Returns whether the frame
/// holds less than it was asked to; where not even header and digests fit it
/// stays empty.
pub fn encode_message_parts(
    header: GossipHeader,
    digests: &[ShardDigest],
    cells: &[CounterCell],
    truncated: bool,
    buffer: &mut Vec<u8>,
    max_payload_bytes: usize,
) -> (cut: bool)
    ensures
        (final(buffer)@, cut) == encoded(
            header,
            digests@,
            cells@,
            truncated,
            max_payload_bytes as int,
        ),
{
    buffer.clear();
    let digest_len: usize = digests.len();
    let digest_count: usize = if digest_len < u16::MAX as usize {
        digest_len
    } else {
        u16::MAX as usize
    };
    let fixed: usize = HEADER_LEN + digest_count * DIGEST_LEN;
    if fixed > max_payload_bytes {
        assert(buffer@ =~= Seq::<u8>::empty());
        return true;
    }
    let cell_len: usize = cells.len();
    let by_count: usize = if cell_len < u32::MAX as usize { cell_len } else { u32::MAX as usize };
    let by_size: usize = (max_payload_bytes - fixed) / CELL_LEN;
    let cell_count: usize = if by_count < by_size { by_count } else { by_size };
    let cut: bool = truncated || cell_count < cell_len;
    let mut header = header;
    if cut {
        header.flags = header.flags | 1;
    }
    push_header(buffer, header, digest_count, cell_count);
    let ghost head = buffer@;
    let ghost sent = digests@.take(digest_count as int);
    let mut i: usize = 0;
    assert(sent.take(0) =~= Seq::<ShardDigest>::empty());
    assert(buffer@ =~= head + digest_rows(sent.take(0)));
    while i < digest_count
        invariant
            i <= digest_count <= digests@.len(),
            sent == digests@.take(digest_count as int),
            buffer@ == head + digest_rows(sent.take(i as int)),
        decreases digest_count - i,
    {
        push_digest(buffer, digests[i]);
        proof {
            assert(sent.take(i + 1).drop_last() =~= sent.take(i as int));
            assert(buffer@ =~= head + digest_rows(sent.take(i + 1)));
        }
        i = i + 1;
    }
    assert(sent.take(digest_count as int) =~= sent);
    let ghost front = buffer@;
    let ghost sent_cells = cells@.take(cell_count as int);
    let mut i: usize = 0;
    assert(sent_cells.take(0) =~= Seq::<CounterCell>::empty());
    assert(buffer@ =~= front + cell_rows(sent_cells.take(0)));
    while i < cell_count
        invariant
            i <= cell_count <= cells@.len(),
            sent_cells == cells@.take(cell_count as int),
            buffer@ == front + cell_rows(sent_cells.take(i as int)),
        decreases cell_count - i,
    {
        push_cell(buffer, cells[i]);
        proof {
            assert(sent_cells.take(i + 1).drop_last() =~= sent_cells.take(i as int));
            assert(buffer@ =~= front + cell_rows(sent_cells.take(i + 1)));
        }
        i = i + 1;
    }
    assert(sent_cells.take(cell_count as int) =~= sent_cells);
    cut
}

/// Writes a message as a frame of at most `max_payload_bytes` into `buffer`.
pub fn encode_message(
    message: &GossipMessage,
    buffer: &mut Vec<u8>,
    max_payload_bytes: usize,
) -> (cut: bool)
    ensures
        (final(buffer)@, cut) == encoded(
            message.header,
            message.digests@,
            message.cells@,
            message.truncated,
            max_payload_bytes as int,
        ),
{
    encode_message_parts(
        message.header,
        message.digests.as_slice(),
        message.cells.as_slice(),
        message.truncated,
        buffer,
        max_payload_bytes,
    )
}

/// Writes an authenticated frame of at most `limits.max_payload_bytes` into
/// `buffer`, tag included.
pub fn encode_authenticated_message_parts(
    header: GossipHeader,
    digests: &[ShardDigest],
    cells: &[CounterCell],
    truncated: bool,
    key: HmacKey,
    buffer: &mut Vec<u8>,
    limits: GossipLimits,
) -> (cut: bool)
    ensures
        (final(buffer)@, cut) == sealed(
            header,
            digests@,
            cells@,
            truncated,
            key.0@,
            limits.max_payload_bytes as int,
        ),
{
    if limits.max_payload_bytes < AUTH_TAG_LEN {
        buffer.clear();
        assert(buffer@ =~= Seq::<u8>::empty());
        return true;
    }
    let cut: bool = encode_message_parts(
        header,
        digests,
        cells,
        truncated,
        buffer,
        limits.max_payload_bytes - AUTH_TAG_LEN,
    );
    let ghost payload = buffer@;
    let tag = mac_tag(&key.0, buffer.as_slice());
    let mut i: usize = 0;
    assert(payload + tag@.take(0) =~= payload);
    while i < 32
        invariant
            i <= 32,
            tag@.len() == 32,
            buffer@ == payload + tag@.take(i as int),
        decreases 32 - i,
    {
        buffer.push(tag[i]);
        assert(buffer@ =~= payload + tag@.take(i + 1));
        i = i + 1;
    }
    assert(tag@.take(32) =~= tag@);
    cut
}

/// Writes a message as an authenticated frame into `buffer`.
pub fn encode_authenticated_message(
    message: &GossipMessage,
    key: HmacKey,
    buffer: &mut Vec<u8>,
    limits: GossipLimits,
) -> (cut: bool)
    ensures
        (final(buffer)@, cut) == sealed(
            message.header,
            message.digests@,
            message.cells@,
            message.truncated,
            key.0@,
            limits.max_payload_bytes as int,
        ),
{
    encode_authenticated_message_parts(
        message.header,
        message.digests.as_slice(),
        message.cells.as_slice(),
        message.truncated,
        key,
        buffer,
        limits,
    )
}

// -- decoding ---------------------------------------------------------------

fn check_preamble(bytes: &[u8], limits: GossipLimits) -> (outcome: Result<
    (usize, usize),
    DecodeError,
>)
    ensures
        match preamble_error(bytes@, limits) {
            Some(error) => outcome == Err::<(usize, usize), DecodeError>(error),
            None => outcome == Ok::<(usize, usize), DecodeError>(
                (digests_declared(bytes@) as usize, cells_declared(bytes@) as usize),
            ) && digests_declared(bytes@) <= u16::MAX && cells_declared(bytes@) <= u32::MAX
                && bytes@.len() >= HEADER_LEN,
        },
{
    proof {
        lemma_pow256_values();
    }
    let len: usize = bytes.len();
    if len > limits.max_payload_bytes {
        return Err(DecodeError::PayloadTooLarge);
    }
    if len < HEADER_LEN {
        return Err(DecodeError::TooShort);
    }
    if read_le(bytes, 0, 4) != MAGIC as u128 {
        return Err(DecodeError::BadMagic);
    }
    if read_le(bytes, 4, 2) != VERSION as u128 {
        return Err(DecodeError::BadVersion);
    }
    let digests: usize = read_le(bytes, 6, 2) as usize;
    let cells: usize = read_le(bytes, 8, 4) as usize;
    if digests > limits.max_digests || cells > limits.max_cells {
        return Err(DecodeError::CapacityExceeded);
    }
    Ok((digests, cells))
}

fn read_header(bytes: &[u8]) -> (header: GossipHeader)
    requires
        bytes@.len() >= HEADER_LEN,
    ensures
        header == header_of(bytes@),
{
    proof {
        lemma_pow256_values();
    }
    GossipHeader {
        cluster_id_hash: read_le(bytes, 12, 8) as u64,
        sender_node_id: NodeId {
            hi: read_le(bytes, 20, 8) as u64,
            lo: read_le(bytes, 28, 8) as u64,
        },
        sender_incarnation: read_le(bytes, 36, 8) as u64,
        min_bucket: of_bits(read_le(bytes, 44, 8) as u64),
        max_bucket: of_bits(read_le(bytes, 52, 8) as u64),
        flags: read_le(bytes, 60, 4) as u32,
    }
}

fn read_digest(bytes: &[u8], at: usize) -> (digest: ShardDigest)
    requires
        at + DIGEST_LEN <= bytes@.len(),
    ensures
        digest == digest_at(bytes@, at as int),
{
    let _end: usize = bytes.len();
    ShardDigest {
        shard_id: read_le(bytes, at, 2) as u16,
        active_cell_count: read_le(bytes, at + 2, 4) as u32,
        max_sequence: read_le(bytes, at + 6, 8) as u64,
        checksum: read_le(bytes, at + 14, 8) as u64,
    }
}

fn read_cell(bytes: &[u8], at: usize) -> (cell: CounterCell)
    requires
        at + CELL_LEN <= bytes@.len(),
    ensures
        cell == cell_at(bytes@, at as int),
{
    let _end: usize = bytes.len();
    let rule: u128 = read_le(bytes, at, 8);
    CounterCell {
        rule_id: #[verifier::truncate]
        (rule as u32),
        key_hash_hi: read_le(bytes, at + 8, 8) as u64,
        key_hash_lo: read_le(bytes, at + 16, 8) as u64,
        bucket_start_millis: of_bits(read_le(bytes, at + 24, 8) as u64),
        origin_node_id: NodeId {
            hi: read_le(bytes, at + 32, 8) as u64,
            lo: read_le(bytes, at + 40, 8) as u64,
        },
        origin_incarnation: read_le(bytes, at + 48, 8) as u64,
        count: read_le(bytes, at + 56, 8) as u64,
        last_update_millis: read_le(bytes, at + 64, 8) as u64,
        sequence: 0,
    }
}

/// Appends the whole digests and cells of a frame whose preamble is in order,
/// and says whether the frame is exactly as long as its counts ask for.
fn read_rows(
    bytes: &[u8],
    digest_count: usize,
    cell_count: usize,
    digests: &mut Vec<ShardDigest>,
    cells: &mut Vec<CounterCell>,
) -> (whole: bool)
    requires
        bytes@.len() >= HEADER_LEN,
        digest_count == digests_declared(bytes@),
        cell_count == cells_declared(bytes@),
        digest_count <= u16::MAX,
    ensures
        whole == (bytes@.len() == declared_len(bytes@)),
        final(digests)@ == old(digests)@ + digests_in(
            bytes@,
            digests_present(bytes@) as nat,
        ),
        final(cells)@ == old(cells)@ + cells_in(
            bytes@,
            digests_declared(bytes@),
            cells_present(bytes@) as nat,
        ),
        0 <= digests_present(bytes@),
        0 <= cells_present(bytes@),
{
    let end: usize = bytes.len();
    let ghost digests_before = digests@;
    let ghost cells_before = cells@;
    let mut at: usize = HEADER_LEN;
    let mut i: usize = 0;
    assert(digests@ =~= digests_before + digests_in(bytes@, 0));
    while i < digest_count
        invariant
            i <= digest_count,
            end == bytes@.len(),
            at == HEADER_LEN + i * DIGEST_LEN,
            at <= end,
            digest_count == digests_declared(bytes@),
            digests@ == digests_before + digests_in(bytes@, i as nat),
            cells@ == cells_before,
            digests_before == old(digests)@,
            cells_before == old(cells)@,
        decreases digest_count - i,
    {
        if end - at < DIGEST_LEN {
            proof {
                assert((end - HEADER_LEN) / DIGEST_LEN as int == i) by (nonlinear_arith)
                    requires
                        at == 68 + i * 22,
                        at <= end,
                        end - at < 22,
                        HEADER_LEN == 68,
                        DIGEST_LEN == 22,
                ;
                assert(digest_count * DIGEST_LEN >= (i + 1) * DIGEST_LEN) by (nonlinear_arith)
                    requires
                        digest_count >= i + 1,
                ;
                assert(cells@ =~= cells_before + cells_in(
                    bytes@,
                    digests_declared(bytes@),
                    0,
                ));
                assert(cells_declared(bytes@) * CELL_LEN >= 0) by (nonlinear_arith)
                    requires
                        cells_declared(bytes@) >= 0,
                ;
            }
            return false;
        }
        let digest = read_digest(bytes, at);
        digests.push(digest);
        proof {
            assert(digests@ =~= digests_before + digests_in(bytes@, (i + 1) as nat));
            assert((i + 1) * DIGEST_LEN == i * DIGEST_LEN + DIGEST_LEN) by (nonlinear_arith);
        }
        at = at + DIGEST_LEN;
        i = i + 1;
    }
    proof {
        assert((end - HEADER_LEN) / DIGEST_LEN as int >= digest_count) by (nonlinear_arith)
            requires
                at == 68 + digest_count * 22,
                at <= end,
                HEADER_LEN == 68,
                DIGEST_LEN == 22,
        ;
    }
    let base: usize = at;
    let mut i: usize = 0;
    assert(cells@ =~= cells_before + cells_in(bytes@, digest_count as nat, 0));
    while i < cell_count
        invariant
            i <= cell_count,
            end == bytes@.len(),
            base == HEADER_LEN + digest_count * DIGEST_LEN,
            at == base + i * CELL_LEN,
            at <= end,
            cell_count == cells_declared(bytes@),
            digest_count == digests_declared(bytes@),
            cells@ == cells_before + cells_in(bytes@, digest_count as nat, i as nat),
            digests@ == digests_before + digests_in(bytes@, digests_present(bytes@) as nat),
            digests_present(bytes@) == digest_count,
            digests_before == old(digests)@,
            cells_before == old(cells)@,
        decreases cell_count - i,
    {
        if end - at < CELL_LEN {
            proof {
                assert((end - base) / CELL_LEN as int == i) by (nonlinear_arith)
                    requires
                        at == base + i * 72,
                        at <= end,
                        end - at < 72,
                        CELL_LEN == 72,
                ;
                assert(cell_count * CELL_LEN >= (i + 1) * CELL_LEN) by (nonlinear_arith)
                    requires
                        cell_count >= i + 1,
                ;
                assert((i + 1) * CELL_LEN == i * CELL_LEN + CELL_LEN) by (nonlinear_arith);
            }
            return false;
        }
        let cell = read_cell(bytes, at);
        cells.push(cell);
        proof {
            assert(cells@ =~= cells_before + cells_in(
                bytes@,
                digest_count as nat,
                (i + 1) as nat,
            ));
            assert((i + 1) * CELL_LEN == i * CELL_LEN + CELL_LEN) by (nonlinear_arith);
        }
        at = at + CELL_LEN;
        i = i + 1;
    }
    proof {
        assert((end - base) / CELL_LEN as int >= cell_count) by (nonlinear_arith)
            requires
                at == base + cell_count * 72,
                at <= end,
                CELL_LEN == 72,
        ;
    }
    at == end
}

/// Reads a frame, with no limit on its size.
pub fn decode_message(bytes: &[u8], max_digests: usize, max_cells: usize) -> (message: Result<
    GossipMessage,
    DecodeError,
>)
    ensures
        outcome_view(message) == decoded(
            bytes@,
            (GossipLimits { max_payload_bytes: usize::MAX, max_digests, max_cells }),
        ),
{
    decode_message_with_limits(
        bytes,
        GossipLimits { max_payload_bytes: usize::MAX, max_digests, max_cells },
    )
}

/// A decoding result with its content spelled out.
pub open spec fn outcome_view(outcome: Result<GossipMessage, DecodeError>) -> Result<
    Content,
    DecodeError,
> {
    match outcome {
        Ok(message) => Ok(message@),
        Err(error) => Err(error),
    }
}

/// Reads a frame.
pub fn decode_message_with_limits(bytes: &[u8], limits: GossipLimits) -> (message: Result<
    GossipMessage,
    DecodeError,
>)
    ensures
        outcome_view(message) == decoded(bytes@, limits),
{
    let (digest_count, cell_count) = match check_preamble(bytes, limits) {
        Ok(counts) => counts,
        Err(error) => {
            return Err(error);
        },
    };
    let header = read_header(bytes);
    let mut digests: Vec<ShardDigest> = Vec::new();
    let mut cells: Vec<CounterCell> = Vec::new();
    if !read_rows(bytes, digest_count, cell_count, &mut digests, &mut cells) {
        return Err(DecodeError::Truncated);
    }
    proof {
        lemma_whole_frame(bytes@);
        assert(digests@ =~= digests_in(bytes@, digests_declared(bytes@)));
        assert(cells@ =~= cells_in(bytes@, digests_declared(bytes@), cells_declared(bytes@)));
    }
    Ok(GossipMessage { truncated: header.flags & 1 == 1, header, digests, cells })
}

/// A frame as long as its counts ask for holds all it declares.
proof fn lemma_whole_frame(bytes: Seq<u8>)
    requires
        bytes.len() >= HEADER_LEN,
        bytes.len() == declared_len(bytes),
    ensures
        digests_present(bytes) == digests_declared(bytes),
        cells_present(bytes) == cells_declared(bytes),
{
    let d = digests_declared(bytes) as int;
    let c = cells_declared(bytes) as int;
    assert((d * 22 + c * 72) / 22 >= d) by (nonlinear_arith)
        requires
            d >= 0,
            c >= 0,
    ;
    assert((c * 72) / 72 == c) by (nonlinear_arith)
        requires
            c >= 0,
    ;
}

/// Reads a frame, and appends its digests and cells to the caller's vectors.
pub fn decode_message_visit(
    bytes: &[u8],
    limits: GossipLimits,
    digests: &mut Vec<ShardDigest>,
    cells: &mut Vec<CounterCell>,
) -> (summary: Result<DecodedMessageSummary, DecodeError>)
    ensures
        visit_result(
            bytes@,
            limits,
            true,
            summary,
            (old(digests)@, final(digests)@),
            (old(cells)@, final(cells)@),
        ),
{
    decode_message_visit_checked(bytes, limits, every_header, digests, cells)
}

fn every_header(_header: GossipHeader) -> (accepted: bool)
    ensures
        accepted,
{
    true
}

/// What reading a frame returns and appends. With a bad preamble, or a header
/// that was turned down, nothing is appended. Otherwise the whole digests and
/// cells are, even those before a cut.
pub open spec fn visit_result(
    bytes: Seq<u8>,
    limits: GossipLimits,
    accepted: bool,
    summary: Result<DecodedMessageSummary, DecodeError>,
    digests: (Seq<ShardDigest>, Seq<ShardDigest>),
    cells: (Seq<CounterCell>, Seq<CounterCell>),
) -> bool {
    match preamble_error(bytes, limits) {
        Some(error) => {
            &&& summary == Err::<DecodedMessageSummary, DecodeError>(error)
            &&& digests.1 == digests.0
            &&& cells.1 == cells.0
        },
        None => {
            &&& summary == visited(bytes, accepted)
            &&& digests.1 == if accepted {
                digests.0 + digests_in(bytes, digests_present(bytes) as nat)
            } else {
                digests.0
            }
            &&& cells.1 == if accepted {
                cells.0 + cells_in(bytes, digests_declared(bytes), cells_present(bytes) as nat)
            } else {
                cells.0
            }
        },
    }
}

/// Reads a frame whose header `accept_header` agrees to, and appends its
/// digests and cells to the caller's vectors. A frame with a bad preamble is
/// refused unasked. A header that is turned down ends the reading: its summary
/// is returned, and nothing is appended.
pub fn decode_message_visit_checked<F: FnOnce(GossipHeader) -> bool>(
    bytes: &[u8],
    limits: GossipLimits,
    accept_header: F,
    digests: &mut Vec<ShardDigest>,
    cells: &mut Vec<CounterCell>,
) -> (summary: Result<DecodedMessageSummary, DecodeError>)
    requires
        preamble_error(bytes@, limits) is None ==> call_requires(
            accept_header,
            (header_of(bytes@),),
        ),
    ensures
        exists|accepted: bool|
            {
                &&& preamble_error(bytes@, limits) is None ==> call_ensures(
                    accept_header,
                    (header_of(bytes@),),
                    accepted,
                )
                &&& #[trigger] visit_result(
                    bytes@,
                    limits,
                    accepted,
                    summary,
                    (old(digests)@, final(digests)@),
                    (old(cells)@, final(cells)@),
                )
            },
{
    let ghost d = digests@;
    let ghost c = cells@;
    let (digest_count, cell_count) = match check_preamble(bytes, limits) {
        Ok(counts) => counts,
        Err(error) => {
            let refused: Result<DecodedMessageSummary, DecodeError> = Err(error);
            assert(visit_result(bytes@, limits, true, refused, (d, digests@), (c, cells@)));
            return refused;
        },
    };
    let header = read_header(bytes);
    let summary = DecodedMessageSummary {
        header,
        digest_count,
        cell_count,
        truncated: header.flags & 1 == 1,
    };
    if !accept_header(header) {
        let passed: Result<DecodedMessageSummary, DecodeError> = Ok(summary);
        assert(visit_result(bytes@, limits, false, passed, (d, digests@), (c, cells@)));
        return passed;
    }
    let whole: bool = read_rows(bytes, digest_count, cell_count, digests, cells);
    let outcome: Result<DecodedMessageSummary, DecodeError> = if whole {
        Ok(summary)
    } else {
        Err(DecodeError::Truncated)
    };
    assert(visit_result(bytes@, limits, true, outcome, (d, digests@), (c, cells@)));
    outcome
}

fn open_seal<'a>(bytes: &'a [u8], key: HmacKey, limits: GossipLimits) -> (payload: Result<
    &'a [u8],
    DecodeError,
>)
    ensures
        match seal_error(bytes@, key.0@, limits) {
            Some(error) => payload == Err::<&'a [u8], DecodeError>(error),
            None => payload matches Ok(p) && p@ == sealed_payload(bytes@),
        },
{
    let len: usize = bytes.len();
    if len > limits.max_payload_bytes {
        return Err(DecodeError::PayloadTooLarge);
    }
    if len < AUTH_TAG_LEN {
        return Err(DecodeError::TooShort);
    }
    let (payload, tag) = bytes.split_at(len - AUTH_TAG_LEN);
    assert(payload@ =~= bytes@.take(bytes@.len() - AUTH_TAG_LEN));
    assert(tag@ =~= bytes@.skip(bytes@.len() - AUTH_TAG_LEN));
    if !mac_matches(&key.0, payload, tag) {
        return Err(DecodeError::AuthenticationFailed);
    }
    Ok(payload)
}

/// Reads an authenticated frame.
pub fn decode_authenticated_message(bytes: &[u8], key: HmacKey, limits: GossipLimits) -> (message:
    Result<GossipMessage, DecodeError>)
    ensures
        outcome_view(message) == unsealed(bytes@, key.0@, limits),
{
    match open_seal(bytes, key, limits) {
        Ok(payload) => decode_message_with_limits(payload, limits),
        Err(error) => Err(error),
    }
}

/// What an authenticated frame says.
pub open spec fn unsealed(bytes: Seq<u8>, key: Seq<u8>, limits: GossipLimits) -> Result<
    Content,
    DecodeError,
> {
    match seal_error(bytes, key, limits) {
        Some(error) => Err(error),
        None => decoded(sealed_payload(bytes), limits),
    }
}

/// Reads an authenticated frame whose header `accept_header` agrees to, and
/// appends its digests and cells to the caller's vectors. Where the tag does
/// not match, nothing is asked and nothing appended.
pub fn decode_authenticated_message_visit_checked<F: FnOnce(GossipHeader) -> bool>(
    bytes: &[u8],
    key: HmacKey,
    limits: GossipLimits,
    accept_header: F,
    digests: &mut Vec<ShardDigest>,
    cells: &mut Vec<CounterCell>,
) -> (summary: Result<DecodedMessageSummary, DecodeError>)
    requires
        seal_error(bytes@, key.0@, limits) is None && preamble_error(
            sealed_payload(bytes@),
            limits,
        ) is None ==> call_requires(accept_header, (header_of(sealed_payload(bytes@)),)),
    ensures
        match seal_error(bytes@, key.0@, limits) {
            Some(error) => {
                &&& summary == Err::<DecodedMessageSummary, DecodeError>(error)
                &&& final(digests)@ == old(digests)@
                &&& final(cells)@ == old(cells)@
            },
            None => exists|accepted: bool|
                {
                    &&& preamble_error(sealed_payload(bytes@), limits) is None ==> call_ensures(
                        accept_header,
                        (header_of(sealed_payload(bytes@)),),
                        accepted,
                    )
                    &&& #[trigger] visit_result(
                        sealed_payload(bytes@),
                        limits,
                        accepted,
                        summary,
                        (old(digests)@, final(digests)@),
                        (old(cells)@, final(cells)@),
                    )
                },
        },
{
    match open_seal(bytes, key, limits) {
        Ok(payload) => decode_message_visit_checked(
            payload,
            limits,
            accept_header,
            digests,
            cells,
        ),
        Err(error) => Err(error),
    }
}

// -- laws -------------------------------------------------------------------

proof fn lemma_header_layout(h: GossipHeader, digests: nat, cells: nat)
    ensures
        start(header_parts(h, digests, cells), 0) == 0,
        start(header_parts(h, digests, cells), 1) == 4,
        start(header_parts(h, digests, cells), 2) == 6,
        start(header_parts(h, digests, cells), 3) == 8,
        start(header_parts(h, digests, cells), 4) == 12,
        start(header_parts(h, digests, cells), 5) == 20,
        start(header_parts(h, digests, cells), 6) == 28,
        start(header_parts(h, digests, cells), 7) == 36,
        start(header_parts(h, digests, cells), 8) == 44,
        start(header_parts(h, digests, cells), 9) == 52,
        start(header_parts(h, digests, cells), 10) == 60,
        start(header_parts(h, digests, cells), 11) == 64,
        joined(header_parts(h, digests, cells)).len() == HEADER_LEN,
{
    let parts = header_parts(h, digests, cells);
    lemma_le_len(MAGIC as nat, 4);
    lemma_le_len(VERSION as nat, 2);
    lemma_le_len(digests, 2);
    lemma_le_len(cells, 4);
    lemma_le_len(h.cluster_id_hash as nat, 8);
    lemma_le_len(h.sender_node_id.hi as nat, 8);
    lemma_le_len(h.sender_node_id.lo as nat, 8);
    lemma_le_len(h.sender_incarnation as nat, 8);
    lemma_le_len(signed_bits(h.min_bucket) as nat, 8);
    lemma_le_len(signed_bits(h.max_bucket) as nat, 8);
    lemma_le_len(h.flags as nat, 4);
    lemma_le_len(0, 4);
    lemma_start_step(parts, 0);
    lemma_start_step(parts, 1);
    lemma_start_step(parts, 2);
    lemma_start_step(parts, 3);
    lemma_start_step(parts, 4);
    lemma_start_step(parts, 5);
    lemma_start_step(parts, 6);
    lemma_start_step(parts, 7);
    lemma_start_step(parts, 8);
    lemma_start_step(parts, 9);
    lemma_start_step(parts, 10);
    lemma_start_step(parts, 11);
    lemma_start_end(parts);
}

proof fn lemma_digest_layout(d: ShardDigest)
    ensures
        start(digest_parts(d), 0) == 0,
        start(digest_parts(d), 1) == 2,
        start(digest_parts(d), 2) == 6,
        start(digest_parts(d), 3) == 14,
        joined(digest_parts(d)).len() == DIGEST_LEN,
{
    let parts = digest_parts(d);
    lemma_le_len(d.shard_id as nat, 2);
    lemma_le_len(d.active_cell_count as nat, 4);
    lemma_le_len(d.max_sequence as nat, 8);
    lemma_le_len(d.checksum as nat, 8);
    lemma_start_step(parts, 0);
    lemma_start_step(parts, 1);
    lemma_start_step(parts, 2);
    lemma_start_step(parts, 3);
    lemma_start_end(parts);
}

proof fn lemma_cell_layout(c: CounterCell)
    ensures
        start(cell_parts(c), 0) == 0,
        start(cell_parts(c), 1) == 8,
        start(cell_parts(c), 2) == 16,
        start(cell_parts(c), 3) == 24,
        start(cell_parts(c), 4) == 32,
        start(cell_parts(c), 5) == 40,
        start(cell_parts(c), 6) == 48,
        start(cell_parts(c), 7) == 56,
        start(cell_parts(c), 8) == 64,
        joined(cell_parts(c)).len() == CELL_LEN,
{
    let parts = cell_parts(c);
    lemma_le_len(c.rule_id as nat, 8);
    lemma_le_len(c.key_hash_hi as nat, 8);
    lemma_le_len(c.key_hash_lo as nat, 8);
    lemma_le_len(signed_bits(c.bucket_start_millis) as nat, 8);
    lemma_le_len(c.origin_node_id.hi as nat, 8);
    lemma_le_len(c.origin_node_id.lo as nat, 8);
    lemma_le_len(c.origin_incarnation as nat, 8);
    lemma_le_len(c.count as nat, 8);
    lemma_le_len(c.last_update_millis as nat, 8);
    lemma_start_step(parts, 0);
    lemma_start_step(parts, 1);
    lemma_start_step(parts, 2);
    lemma_start_step(parts, 3);
    lemma_start_step(parts, 4);
    lemma_start_step(parts, 5);
    lemma_start_step(parts, 6);
    lemma_start_step(parts, 7);
    lemma_start_step(parts, 8);
    lemma_start_end(parts);
}

/// A number read at `at` from bytes that hold `parts` from `from` on.
proof fn lemma_number_within(
    bytes: Seq<u8>,
    from: int,
    parts: Seq<Seq<u8>>,
    k: int,
    v: nat,
    width: nat,
)
    requires
        0 <= from,
        from + joined(parts).len() <= bytes.len(),
        bytes.subrange(from, from + joined(parts).len()) == joined(parts),
        0 <= k < parts.len(),
        parts[k] == le(v, width),
        v < crate::bytes::pow256(width),
    ensures
        le_at(bytes, from + start(parts, k), width) == v,
{
    lemma_joined_number(parts, k, v, width);
    let s = start(parts, k);
    assert(bytes.subrange(from + s, from + s + width) =~= joined(parts).subrange(s, s + width));
}

proof fn lemma_header_roundtrip(bytes: Seq<u8>, h: GossipHeader, digests: nat, cells: nat)
    requires
        bytes.len() >= HEADER_LEN,
        bytes.take(HEADER_LEN as int) == joined(header_parts(h, digests, cells)),
        digests <= u16::MAX,
        cells <= u32::MAX,
    ensures
        le_at(bytes, 0, 4) == MAGIC as nat,
        le_at(bytes, 4, 2) == VERSION as nat,
        digests_declared(bytes) == digests,
        cells_declared(bytes) == cells,
        header_of(bytes) == h,
{
    let parts = header_parts(h, digests, cells);
    lemma_header_layout(h, digests, cells);
    lemma_pow256_values();
    assert(bytes.subrange(0, HEADER_LEN as int) =~= joined(parts));
    lemma_number_within(bytes, 0, parts, 0, MAGIC as nat, 4);
    lemma_number_within(bytes, 0, parts, 1, VERSION as nat, 2);
    lemma_number_within(bytes, 0, parts, 2, digests, 2);
    lemma_number_within(bytes, 0, parts, 3, cells, 4);
    lemma_number_within(bytes, 0, parts, 4, h.cluster_id_hash as nat, 8);
    lemma_number_within(bytes, 0, parts, 5, h.sender_node_id.hi as nat, 8);
    lemma_number_within(bytes, 0, parts, 6, h.sender_node_id.lo as nat, 8);
    lemma_number_within(bytes, 0, parts, 7, h.sender_incarnation as nat, 8);
    lemma_number_within(bytes, 0, parts, 8, signed_bits(h.min_bucket) as nat, 8);
    lemma_number_within(bytes, 0, parts, 9, signed_bits(h.max_bucket) as nat, 8);
    lemma_number_within(bytes, 0, parts, 10, h.flags as nat, 4);
    lemma_signed_roundtrip(h.min_bucket);
    lemma_signed_roundtrip(h.max_bucket);
}

proof fn lemma_digest_roundtrip(bytes: Seq<u8>, at: int, d: ShardDigest)
    requires
        0 <= at,
        at + DIGEST_LEN <= bytes.len(),
        bytes.subrange(at, at + DIGEST_LEN) == joined(digest_parts(d)),
    ensures
        digest_at(bytes, at) == d,
{
    let parts = digest_parts(d);
    lemma_digest_layout(d);
    lemma_pow256_values();
    lemma_number_within(bytes, at, parts, 0, d.shard_id as nat, 2);
    lemma_number_within(bytes, at, parts, 1, d.active_cell_count as nat, 4);
    lemma_number_within(bytes, at, parts, 2, d.max_sequence as nat, 8);
    lemma_number_within(bytes, at, parts, 3, d.checksum as nat, 8);
}

/// A cell as it arrives: without its sequence number.
pub open spec fn unsequenced(c: CounterCell) -> CounterCell {
    CounterCell { sequence: 0, ..c }
}

proof fn lemma_cell_roundtrip(bytes: Seq<u8>, at: int, c: CounterCell)
    requires
        0 <= at,
        at + CELL_LEN <= bytes.len(),
        bytes.subrange(at, at + CELL_LEN) == joined(cell_parts(c)),
    ensures
        cell_at(bytes, at) == unsequenced(c),
{
    let parts = cell_parts(c);
    lemma_cell_layout(c);
    lemma_pow256_values();
    lemma_number_within(bytes, at, parts, 0, c.rule_id as nat, 8);
    lemma_number_within(bytes, at, parts, 1, c.key_hash_hi as nat, 8);
    lemma_number_within(bytes, at, parts, 2, c.key_hash_lo as nat, 8);
    lemma_number_within(bytes, at, parts, 3, signed_bits(c.bucket_start_millis) as nat, 8);
    lemma_number_within(bytes, at, parts, 4, c.origin_node_id.hi as nat, 8);
    lemma_number_within(bytes, at, parts, 5, c.origin_node_id.lo as nat, 8);
    lemma_number_within(bytes, at, parts, 6, c.origin_incarnation as nat, 8);
    lemma_number_within(bytes, at, parts, 7, c.count as nat, 8);
    lemma_number_within(bytes, at, parts, 8, c.last_update_millis as nat, 8);
    lemma_signed_roundtrip(c.bucket_start_millis);
}

proof fn lemma_digest_rows(digests: Seq<ShardDigest>, i: int)
    requires
        0 <= i < digests.len(),
    ensures
        digest_rows(digests).len() == digests.len() * DIGEST_LEN,
        i * DIGEST_LEN + DIGEST_LEN <= digest_rows(digests).len(),
        digest_rows(digests).subrange(i * DIGEST_LEN, i * DIGEST_LEN + DIGEST_LEN) == joined(
            digest_parts(digests[i]),
        ),
    decreases digests.len(),
{
    let front = digests.drop_last();
    let n = front.len() as int;
    lemma_digest_layout(digests.last());
    if n > 0 {
        lemma_digest_rows(front, if i < n {
            i
        } else {
            0
        });
    } else {
        assert(digest_rows(front).len() == 0);
    }
    assert((n + 1) * DIGEST_LEN == n * DIGEST_LEN + DIGEST_LEN) by (nonlinear_arith);
    if i < n {
        assert(digest_rows(digests).subrange(i * DIGEST_LEN, i * DIGEST_LEN + DIGEST_LEN)
            =~= digest_rows(front).subrange(i * DIGEST_LEN, i * DIGEST_LEN + DIGEST_LEN));
    } else {
        assert(digest_rows(digests).subrange(i * DIGEST_LEN, i * DIGEST_LEN + DIGEST_LEN)
            =~= joined(digest_parts(digests.last())));
    }
}

proof fn lemma_digest_rows_len(digests: Seq<ShardDigest>)
    ensures
        digest_rows(digests).len() == digests.len() * DIGEST_LEN,
{
    if digests.len() > 0 {
        lemma_digest_rows(digests, 0);
    }
}

proof fn lemma_cell_rows(cells: Seq<CounterCell>, i: int)
    requires
        0 <= i < cells.len(),
    ensures
        cell_rows(cells).len() == cells.len() * CELL_LEN,
        i * CELL_LEN + CELL_LEN <= cell_rows(cells).len(),
        cell_rows(cells).subrange(i * CELL_LEN, i * CELL_LEN + CELL_LEN) == joined(
            cell_parts(cells[i]),
        ),
    decreases cells.len(),
{
    let front = cells.drop_last();
    let n = front.len() as int;
    lemma_cell_layout(cells.last());
    if n > 0 {
        lemma_cell_rows(front, if i < n {
            i
        } else {
            0
        });
    } else {
        assert(cell_rows(front).len() == 0);
    }
    assert((n + 1) * CELL_LEN == n * CELL_LEN + CELL_LEN) by (nonlinear_arith);
    if i < n {
        assert(cell_rows(cells).subrange(i * CELL_LEN, i * CELL_LEN + CELL_LEN) =~= cell_rows(
            front,
        ).subrange(i * CELL_LEN, i * CELL_LEN + CELL_LEN));
    } else {
        assert(cell_rows(cells).subrange(i * CELL_LEN, i * CELL_LEN + CELL_LEN) =~= joined(
            cell_parts(cells.last()),
        ));
    }
}

proof fn lemma_cell_rows_len(cells: Seq<CounterCell>)
    ensures
        cell_rows(cells).len() == cells.len() * CELL_LEN,
{
    if cells.len() > 0 {
        lemma_cell_rows(cells, 0);
    }
}

/// A frame never outgrows the payload capacity it was written for.
pub proof fn lemma_payload_bounded(
    header: GossipHeader,
    digests: Seq<ShardDigest>,
    cells: Seq<CounterCell>,
    truncated: bool,
    max: int,
)
    requires
        0 <= max,
    ensures
        encoded(header, digests, cells, truncated, max).0.len() <= max,
        fixed_len(digests) <= max ==> encoded(header, digests, cells, truncated, max).0.len()
            == fixed_len(digests) + cells_sent(digests, cells, max) * CELL_LEN,
{
    if fixed_len(digests) <= max {
        let dc = digests_sent(digests);
        let cc = cells_sent(digests, cells, max);
        let room = max - fixed_len(digests);
        assert(cc * 72 <= room && 0 <= cc) by (nonlinear_arith)
            requires
                cc <= room / 72,
                cc == room / 72 || cc >= 0,
                room >= 0,
        ;
        let cut = truncated || cc < cells.len();
        let h = GossipHeader {
            flags: if cut {
                header.flags | 1
            } else {
                header.flags
            },
            ..header
        };
        lemma_header_layout(h, dc as nat, cc as nat);
        lemma_digest_rows_len(digests.take(dc));
        lemma_cell_rows_len(cells.take(cc));
    }
}

/// Reading a frame gives back what was written: the header with its truncation
/// mark, all digests, and the cells that fit, without their sequence numbers.
/// The frame must hold at most 65535 digests, and be within the reader's limits.
pub proof fn lemma_message_roundtrip(
    header: GossipHeader,
    digests: Seq<ShardDigest>,
    cells: Seq<CounterCell>,
    truncated: bool,
    max: int,
    limits: GossipLimits,
)
    requires
        fixed_len(digests) <= max,
        digests.len() <= u16::MAX,
        digests.len() <= limits.max_digests,
        cells_sent(digests, cells, max) <= limits.max_cells,
        encoded(header, digests, cells, truncated, max).0.len() <= limits.max_payload_bytes,
    ensures
        ({
            let (bytes, cut) = encoded(header, digests, cells, truncated, max);
            let sent = cells.take(cells_sent(digests, cells, max));
            &&& decoded(bytes, limits) matches Ok(content)
            &&& content.digests == digests
            &&& content.cells == sent.map_values(|c: CounterCell| unsequenced(c))
            &&& content.header == (GossipHeader {
                flags: if cut {
                    header.flags | 1
                } else {
                    header.flags
                },
                ..header
            })
            &&& content.truncated == (cut || header.flags & 1 == 1)
        }),
{
    let (bytes, cut) = encoded(header, digests, cells, truncated, max);
    let dc = digests_sent(digests);
    let cc = cells_sent(digests, cells, max);
    let sent = cells.take(cc);
    let h = GossipHeader {
        flags: if cut {
            header.flags | 1
        } else {
            header.flags
        },
        ..header
    };
    lemma_payload_bounded(header, digests, cells, truncated, max);
    lemma_header_layout(h, dc as nat, cc as nat);
    assert(digests.take(dc) =~= digests);
    lemma_digest_rows_len(digests);
    lemma_cell_rows_len(sent);
    let head = joined(header_parts(h, dc as nat, cc as nat));
    assert(bytes == head + digest_rows(digests) + cell_rows(sent));
    assert(0 <= cc);
    assert(bytes.take(HEADER_LEN as int) =~= head);
    lemma_header_roundtrip(bytes, h, dc as nat, cc as nat);
    assert forall|i: int| 0 <= i < digests.len() implies #[trigger] digest_at(
        bytes,
        HEADER_LEN + i * DIGEST_LEN,
    ) == digests[i] by {
        lemma_digest_rows(digests, i);
        let at = HEADER_LEN + i * DIGEST_LEN;
        assert(0 <= i * DIGEST_LEN) by (nonlinear_arith)
            requires
                0 <= i,
        ;
        assert(bytes.subrange(at, at + DIGEST_LEN) =~= digest_rows(digests).subrange(
            i * DIGEST_LEN,
            i * DIGEST_LEN + DIGEST_LEN,
        ));
        lemma_digest_roundtrip(bytes, at, digests[i]);
    }
    let base = HEADER_LEN + dc * DIGEST_LEN;
    assert forall|i: int| 0 <= i < sent.len() implies #[trigger] cell_at(bytes, base + i * CELL_LEN)
        == unsequenced(sent[i]) by {
        lemma_cell_rows(sent, i);
        let at = base + i * CELL_LEN;
        assert(0 <= i * CELL_LEN) by (nonlinear_arith)
            requires
                0 <= i,
        ;
        assert(bytes.subrange(at, at + CELL_LEN) =~= cell_rows(sent).subrange(
            i * CELL_LEN,
            i * CELL_LEN + CELL_LEN,
        ));
        lemma_cell_roundtrip(bytes, at, sent[i]);
    }
    assert(digests_in(bytes, dc as nat) =~= digests);
    assert(cells_in(bytes, dc as nat, cc as nat) =~= sent.map_values(
        |c: CounterCell| unsequenced(c),
    ));
    let flags = header.flags;
    assert((flags | 1) & 1 == 1) by (bit_vector);
}

/// An authenticated frame opens under its own key, and says what it was written
/// to say.
pub proof fn lemma_seal_roundtrip(
    header: GossipHeader,
    digests: Seq<ShardDigest>,
    cells: Seq<CounterCell>,
    truncated: bool,
    key: Seq<u8>,
    max: int,
    limits: GossipLimits,
)
    requires
        max >= AUTH_TAG_LEN,
        max <= limits.max_payload_bytes,
    ensures
        ({
            let payload = encoded(header, digests, cells, truncated, max - AUTH_TAG_LEN).0;
            let frame = sealed(header, digests, cells, truncated, key, max).0;
            hmac_sha256(key, payload).len() == AUTH_TAG_LEN ==> unsealed(frame, key, limits)
                == decoded(payload, limits)
        }),
{
    let payload = encoded(header, digests, cells, truncated, max - AUTH_TAG_LEN).0;
    let frame = sealed(header, digests, cells, truncated, key, max).0;
    if hmac_sha256(key, payload).len() == AUTH_TAG_LEN {
        lemma_payload_bounded(header, digests, cells, truncated, max - AUTH_TAG_LEN);
        assert(frame.take(frame.len() - AUTH_TAG_LEN) =~= payload);
        assert(frame.skip(frame.len() - AUTH_TAG_LEN) =~= hmac_sha256(key, payload));
    }
}

/// A frame with anything but the tag of its payload is refused: any change of
/// the tag alone, and any change of the payload that changes its tag.
pub proof fn lemma_wrong_tag_refused(bytes: Seq<u8>, key: Seq<u8>, limits: GossipLimits)
    requires
        AUTH_TAG_LEN <= bytes.len() <= limits.max_payload_bytes,
    ensures
        bytes.skip(bytes.len() - AUTH_TAG_LEN) != hmac_sha256(key, sealed_payload(bytes))
            ==> unsealed(bytes, key, limits) == Err::<Content, DecodeError>(
            DecodeError::AuthenticationFailed,
        ),
{
}

/// An authenticated frame with one byte changed is refused: always if the byte
/// is of the tag, and otherwise if the changed payload has another tag. That
/// HMAC-SHA256 gives every changed payload another tag is not stated.
pub proof fn lemma_tampering_refused(
    bytes: Seq<u8>,
    at: int,
    value: u8,
    key: Seq<u8>,
    limits: GossipLimits,
)
    requires
        seal_error(bytes, key, limits) is None,
        0 <= at < bytes.len(),
        value != bytes[at],
    ensures
        ({
            let changed = bytes.update(at, value);
            at >= bytes.len() - AUTH_TAG_LEN || hmac_sha256(key, sealed_payload(changed))
                != hmac_sha256(key, sealed_payload(bytes)) ==> {
                &&& seal_error(changed, key, limits) == Some(DecodeError::AuthenticationFailed)
                &&& unsealed(changed, key, limits) == Err::<Content, DecodeError>(
                    DecodeError::AuthenticationFailed,
                )
            }
        }),
{
    let changed = bytes.update(at, value);
    let split = bytes.len() - AUTH_TAG_LEN;
    if at >= split {
        assert(sealed_payload(changed) =~= sealed_payload(bytes));
        assert(changed.skip(split)[at - split] != bytes.skip(split)[at - split]);
    } else {
        assert(changed.skip(split) =~= bytes.skip(split));
    }
}

/// An authenticated frame is refused under every other key that gives its
/// payload another tag. That all other keys do is not stated.
pub proof fn lemma_other_key_refused(
    bytes: Seq<u8>,
    key: Seq<u8>,
    other: Seq<u8>,
    limits: GossipLimits,
)
    requires
        seal_error(bytes, key, limits) is None,
    ensures
        hmac_sha256(other, sealed_payload(bytes)) != hmac_sha256(key, sealed_payload(bytes)) ==> {
            &&& seal_error(bytes, other, limits) == Some(DecodeError::AuthenticationFailed)
            &&& unsealed(bytes, other, limits) == Err::<Content, DecodeError>(
                DecodeError::AuthenticationFailed,
            )
        },
{
}

/// Appending to the caller's vectors reports what decoding into a message does:
/// it succeeds on the same frames, with the same digests, cells and header.
pub proof fn lemma_visit_matches_decode(
    bytes: Seq<u8>,
    limits: GossipLimits,
    summary: Result<DecodedMessageSummary, DecodeError>,
    digests: Seq<ShardDigest>,
    cells: Seq<CounterCell>,
)
    requires
        visit_result(
            bytes,
            limits,
            true,
            summary,
            (Seq::empty(), digests),
            (Seq::empty(), cells),
        ),
    ensures
        match decoded(bytes, limits) {
            Ok(content) => {
                &&& summary matches Ok(s)
                &&& s.header == content.header
                &&& s.truncated == content.truncated
                &&& digests == content.digests
                &&& cells == content.cells
            },
            Err(error) => summary == Err::<DecodedMessageSummary, DecodeError>(error),
        },
{
    if decoded(bytes, limits) is Ok {
        lemma_whole_frame(bytes);
        assert(digests =~= digests_in(bytes, digests_declared(bytes)));
        assert(cells =~= cells_in(bytes, digests_declared(bytes), cells_declared(bytes)));
    }
}

/// Limits hold before anything is read: a frame over a limit is refused, and
/// nothing of it is handed on.
pub proof fn lemma_limits_first(
    bytes: Seq<u8>,
    limits: GossipLimits,
    accepted: bool,
    summary: Result<DecodedMessageSummary, DecodeError>,
    digests: (Seq<ShardDigest>, Seq<ShardDigest>),
    cells: (Seq<CounterCell>, Seq<CounterCell>),
)
    requires
        visit_result(bytes, limits, accepted, summary, digests, cells),
        bytes.len() > limits.max_payload_bytes || (bytes.len() >= HEADER_LEN && (digests_declared(
            bytes,
        ) > limits.max_digests || cells_declared(bytes) > limits.max_cells)),
    ensures
        summary is Err,
        decoded(bytes, limits) is Err,
        digests.1 == digests.0,
        cells.1 == cells.0,
{
}

// -- layout -----------------------------------------------------------------

/// A frame's header is its fields, one after the other: a mark, a version, how many
/// digests and cells follow, the cluster, the sender and its incarnation, the first
/// and the last bucket, flags, and room.
pub proof fn lemma_header_stands(h: GossipHeader, digests: nat, cells: nat)
    ensures
        joined(header_parts(h, digests, cells)) == le(0x4742_4731, 4) + le(1, 2) + le(digests, 2)
            + le(cells, 4) + le(h.cluster_id_hash as nat, 8) + le(h.sender_node_id.hi as nat, 8)
            + le(h.sender_node_id.lo as nat, 8) + le(h.sender_incarnation as nat, 8) + le(
            signed_bits(h.min_bucket) as nat,
            8,
        ) + le(signed_bits(h.max_bucket) as nat, 8) + le(h.flags as nat, 4) + le(0, 4),
{
    let parts = header_parts(h, digests, cells);
    lemma_start_step(parts, 0);
    lemma_start_step(parts, 1);
    lemma_start_step(parts, 2);
    lemma_start_step(parts, 3);
    lemma_start_step(parts, 4);
    lemma_start_step(parts, 5);
    lemma_start_step(parts, 6);
    lemma_start_step(parts, 7);
    lemma_start_step(parts, 8);
    lemma_start_step(parts, 9);
    lemma_start_step(parts, 10);
    lemma_start_step(parts, 11);
    assert(parts.take(0) =~= Seq::<Seq<u8>>::empty());
    assert(parts.take(12) =~= parts);
    assert(Seq::<u8>::empty() + parts[0] =~= parts[0]);
}

/// A digest is its shard, how many cells it has, the last of their sequences, and
/// their checksum.
pub proof fn lemma_digest_stands(d: ShardDigest)
    ensures
        joined(digest_parts(d)) == le(d.shard_id as nat, 2) + le(d.active_cell_count as nat, 4)
            + le(d.max_sequence as nat, 8) + le(d.checksum as nat, 8),
{
    let parts = digest_parts(d);
    lemma_start_step(parts, 0);
    lemma_start_step(parts, 1);
    lemma_start_step(parts, 2);
    lemma_start_step(parts, 3);
    assert(parts.take(0) =~= Seq::<Seq<u8>>::empty());
    assert(parts.take(4) =~= parts);
    assert(Seq::<u8>::empty() + parts[0] =~= parts[0]);
}

/// A cell is its rule, its key, its bucket, where it comes from, its count, and when
/// that last changed.
pub proof fn lemma_cell_stands(c: CounterCell)
    ensures
        joined(cell_parts(c)) == le(c.rule_id as nat, 8) + le(c.key_hash_hi as nat, 8) + le(
            c.key_hash_lo as nat,
            8,
        ) + le(signed_bits(c.bucket_start_millis) as nat, 8) + le(c.origin_node_id.hi as nat, 8)
            + le(c.origin_node_id.lo as nat, 8) + le(c.origin_incarnation as nat, 8) + le(
            c.count as nat,
            8,
        ) + le(c.last_update_millis as nat, 8),
{
    let parts = cell_parts(c);
    lemma_start_step(parts, 0);
    lemma_start_step(parts, 1);
    lemma_start_step(parts, 2);
    lemma_start_step(parts, 3);
    lemma_start_step(parts, 4);
    lemma_start_step(parts, 5);
    lemma_start_step(parts, 6);
    lemma_start_step(parts, 7);
    lemma_start_step(parts, 8);
    assert(parts.take(0) =~= Seq::<Seq<u8>>::empty());
    assert(parts.take(9) =~= parts);
    assert(Seq::<u8>::empty() + parts[0] =~= parts[0]);
}

/// Digests and cells stand one after the other.
pub proof fn lemma_rows_stand(digests: Seq<ShardDigest>, cells: Seq<CounterCell>)
    ensures
        digest_rows(digests) == digests.map_values(
            |d: ShardDigest| joined(digest_parts(d)),
        ).flatten_alt(),
        cell_rows(cells) == cells.map_values(
            |c: CounterCell| joined(cell_parts(c)),
        ).flatten_alt(),
    decreases digests.len() + cells.len(),
{
    let f = |d: ShardDigest| joined(digest_parts(d));
    let g = |c: CounterCell| joined(cell_parts(c));
    if digests.len() > 0 {
        lemma_rows_stand(digests.drop_last(), cells);
        assert(digests.map_values(f).drop_last() =~= digests.drop_last().map_values(f));
    }
    if cells.len() > 0 {
        lemma_rows_stand(digests, cells.drop_last());
        assert(cells.map_values(g).drop_last() =~= cells.drop_last().map_values(g));
    }
}

/// A frame holds as many cells as fit: all of them, or one more would be too long
/// for it.
pub proof fn lemma_frame_filled(digests: Seq<ShardDigest>, cells: Seq<CounterCell>, max: int)
    requires
        digests.len() <= u16::MAX,
        cells.len() <= u32::MAX,
        68 + 22 * digests.len() <= max,
    ensures
        ({
            let sent = cells_sent(digests, cells, max);
            &&& 0 <= sent <= cells.len()
            &&& 68 + 22 * digests.len() + 72 * sent <= max
            &&& sent < cells.len() ==> 68 + 22 * digests.len() + 72 * (sent + 1) > max
        }),
{
    assert(digests.len() * 22 == 22 * digests.len());
    let room = max - fixed_len(digests);
    assert(room == max - 68 - 22 * digests.len());
    assert(72 * (room / 72) <= room < 72 * (room / 72 + 1));
}

/// A frame that is read is as long as what it says it holds, to the byte.
pub proof fn lemma_read_frame_is_whole(bytes: Seq<u8>, limits: GossipLimits)
    requires
        decoded(bytes, limits) is Ok,
    ensures
        ({
            let content = decoded(bytes, limits)->Ok_0;
            &&& bytes.len() == 68 + 22 * content.digests.len() + 72 * content.cells.len()
            &&& bytes.len() <= limits.max_payload_bytes
            &&& content.digests.len() <= limits.max_digests
            &&& content.cells.len() <= limits.max_cells
            &&& content.digests.len() == le_at(bytes, 6, 2)
            &&& content.cells.len() == le_at(bytes, 8, 4)
        }),
{
    let d = digests_declared(bytes);
    let c = cells_declared(bytes);
    assert(d * 22 == 22 * d && c * 72 == 72 * c);
}

/// Counters go up by what they count, and stay at the largest number that there is.
pub proof fn lemma_counters_go_up(metrics: GossipMetrics, bytes: usize, truncated: bool)
    ensures
        metrics.sent(bytes, truncated).send_bytes == vstd::math::min(
            metrics.send_bytes + bytes,
            u64::MAX as int,
        ),
        metrics.sent(bytes, true).truncated == vstd::math::min(
            metrics.truncated + 1,
            u64::MAX as int,
        ),
        metrics.sent(bytes, false).truncated == metrics.truncated,
        metrics.sent(bytes, truncated).recv_bytes == metrics.recv_bytes,
        metrics.received(bytes).recv_bytes == vstd::math::min(
            metrics.recv_bytes + bytes,
            u64::MAX as int,
        ),
        metrics.received(bytes).send_bytes == metrics.send_bytes,
        metrics.received(bytes).truncated == metrics.truncated,
{
}

/// A frame is turned away for the first thing that is wrong with it: it is longer
/// than allowed, too short for a header, does not begin with the mark or tells of
/// another version, tells of more digests or cells than allowed, or is not as long as
/// it tells. A frame without any of these is read.
pub proof fn lemma_frame_turned_away(bytes: Seq<u8>, limits: GossipLimits)
    ensures
        ({
            let n = bytes.len() as int;
            let digests = le_at(bytes, 6, 2) as int;
            let cells = le_at(bytes, 8, 4) as int;
            let result = decoded(bytes, limits);
            &&& n > limits.max_payload_bytes <==> result == Err::<Content, _>(
                DecodeError::PayloadTooLarge,
            )
            &&& n <= limits.max_payload_bytes && n < 68 <==> result == Err::<Content, _>(
                DecodeError::TooShort,
            )
            &&& 68 <= n <= limits.max_payload_bytes ==> {
                &&& le_at(bytes, 0, 4) != 0x4742_4731 <==> result == Err::<Content, _>(
                    DecodeError::BadMagic,
                )
                &&& le_at(bytes, 0, 4) == 0x4742_4731 && le_at(bytes, 4, 2) != 1 <==> result
                    == Err::<Content, _>(DecodeError::BadVersion)
                &&& le_at(bytes, 0, 4) == 0x4742_4731 && le_at(bytes, 4, 2) == 1 ==> {
                    let fits = digests <= limits.max_digests && cells <= limits.max_cells;
                    &&& !fits <==> result == Err::<Content, _>(DecodeError::CapacityExceeded)
                    &&& fits && n != 68 + 22 * digests + 72 * cells <==> result
                        == Err::<Content, _>(DecodeError::Truncated)
                    &&& fits && n == 68 + 22 * digests + 72 * cells <==> result is Ok
                }
            }
        }),
{
    let d = digests_declared(bytes);
    let c = cells_declared(bytes);
    assert(d * 22 == 22 * d && c * 72 == 72 * c);
}

/// A sealed frame is turned away exactly if it is longer than allowed, has no room for
/// a tag, or has another tag than its bytes and the key give.
pub proof fn lemma_seal_checked(bytes: Seq<u8>, key: Seq<u8>, limits: GossipLimits)
    ensures
        ({
            let n = bytes.len() as int;
            let genuine = bytes.skip(n - 32) == hmac_sha256(key, bytes.take(n - 32));
            let fault = seal_error(bytes, key, limits);
            &&& fault is None <==> 32 <= n <= limits.max_payload_bytes && genuine
            &&& n > limits.max_payload_bytes ==> fault == Some(DecodeError::PayloadTooLarge)
            &&& n <= limits.max_payload_bytes && n < 32 ==> fault == Some(DecodeError::TooShort)
            &&& 32 <= n <= limits.max_payload_bytes && !genuine ==> fault == Some(
                DecodeError::AuthenticationFailed,
            )
            &&& n >= 32 ==> sealed_payload(bytes) == bytes.take(n - 32)
        }),
{
}

/// A frame says that it is cut exactly if it was asked to, or if not all cells have
/// room.
pub proof fn lemma_cut_is_told(
    header: GossipHeader,
    digests: Seq<ShardDigest>,
    cells: Seq<CounterCell>,
    truncated: bool,
    max: int,
)
    requires
        digests.len() <= u16::MAX,
        cells.len() <= u32::MAX,
        68 + 22 * digests.len() <= max,
    ensures
        encoded(header, digests, cells, truncated, max).1 <==> truncated || 68 + 22 * digests.len()
            + 72 * cells.len() > max,
{
    assert(digests.len() * 22 == 22 * digests.len());
    lemma_frame_filled(digests, cells, max);
}

} // verus!
