//! Fixed-length frame header: little-endian, exactly 72 bytes.

use super::DecodeError;
use crate::bytes::{
    joined, le, le_at, lemma_joined_number, lemma_le_len, lemma_pow256_values, lemma_start_end,
    lemma_start_step, push_le, read_le, start,
};
use vstd::prelude::*;

verus! {

pub const HEADER_LEN: usize = 72;

pub const MAGIC: u32 = 0x4742_4732;

pub const VERSION: u16 = 1;

/// Set on every packet but the last of a batch. Each packet is decodable on its
/// own; the bit is only a hint that more is on the way.
pub const FLAG_MORE: u16 = 0x01;

/// Set on packets that carry an authentication tag.
pub const FLAG_AUTHENTICATED: u16 = 0x02;

#[derive(Clone, Copy, Debug, PartialEq, Eq, Structural)]
pub struct Header {
    pub cluster_id_hash: u128,
    pub sender_node_id: u128,
    pub sender_incarnation: u32,
    pub count_width: u32,
    pub cell_count: u32,
    pub body_len: u32,
    pub min_origin_sequence: u64,
    pub max_origin_sequence: u64,
    pub flags: u16,
}

impl Default for Header {
    fn default() -> (header: Header)
        ensures
            header == (Header {
                cluster_id_hash: 0,
                sender_node_id: 0,
                sender_incarnation: 0,
                count_width: 0,
                cell_count: 0,
                body_len: 0,
                min_origin_sequence: 0,
                max_origin_sequence: 0,
                flags: 0,
            }),
    {
        Header {
            cluster_id_hash: 0,
            sender_node_id: 0,
            sender_incarnation: 0,
            count_width: 0,
            cell_count: 0,
            body_len: 0,
            min_origin_sequence: 0,
            max_origin_sequence: 0,
            flags: 0,
        }
    }
}

/// The header's fields in wire order.
pub open spec fn header_parts(h: Header) -> Seq<Seq<u8>> {
    seq![
        le(MAGIC as nat, 4),
        le(VERSION as nat, 2),
        le(h.flags as nat, 2),
        le(h.cluster_id_hash as nat, 16),
        le(h.sender_node_id as nat, 16),
        le(h.sender_incarnation as nat, 4),
        le(h.count_width as nat, 4),
        le(h.cell_count as nat, 4),
        le(h.body_len as nat, 4),
        le(h.min_origin_sequence as nat, 8),
        le(h.max_origin_sequence as nat, 8),
    ]
}

/// The 72 bytes of a header.
pub open spec fn header_bytes(h: Header) -> Seq<u8> {
    joined(header_parts(h))
}

/// The fields that the first 72 bytes of a frame declare.
pub open spec fn header_of(bytes: Seq<u8>) -> Header {
    Header {
        flags: le_at(bytes, 6, 2) as u16,
        cluster_id_hash: le_at(bytes, 8, 16) as u128,
        sender_node_id: le_at(bytes, 24, 16) as u128,
        sender_incarnation: le_at(bytes, 40, 4) as u32,
        count_width: le_at(bytes, 44, 4) as u32,
        cell_count: le_at(bytes, 48, 4) as u32,
        body_len: le_at(bytes, 52, 4) as u32,
        min_origin_sequence: le_at(bytes, 56, 8) as u64,
        max_origin_sequence: le_at(bytes, 64, 8) as u64,
    }
}

/// What reading a header gives.
pub open spec fn parsed_header(bytes: Seq<u8>) -> Result<Header, DecodeError> {
    if bytes.len() < HEADER_LEN {
        Err(DecodeError::TooShort)
    } else if le_at(bytes, 0, 4) != MAGIC as nat {
        Err(DecodeError::BadMagic)
    } else if le_at(bytes, 4, 2) != VERSION as nat {
        Err(DecodeError::BadVersion)
    } else {
        Ok(header_of(bytes))
    }
}

proof fn lemma_header_starts(h: Header)
    ensures
        start(header_parts(h), 0) == 0,
        start(header_parts(h), 1) == 4,
        start(header_parts(h), 2) == 6,
        start(header_parts(h), 3) == 8,
        start(header_parts(h), 4) == 24,
        start(header_parts(h), 5) == 40,
        start(header_parts(h), 6) == 44,
        start(header_parts(h), 7) == 48,
        start(header_parts(h), 8) == 52,
        start(header_parts(h), 9) == 56,
        start(header_parts(h), 10) == 64,
        header_bytes(h).len() == HEADER_LEN,
{
    let parts = header_parts(h);
    lemma_le_len(MAGIC as nat, 4);
    lemma_le_len(VERSION as nat, 2);
    lemma_le_len(h.flags as nat, 2);
    lemma_le_len(h.cluster_id_hash as nat, 16);
    lemma_le_len(h.sender_node_id as nat, 16);
    lemma_le_len(h.sender_incarnation as nat, 4);
    lemma_le_len(h.count_width as nat, 4);
    lemma_le_len(h.cell_count as nat, 4);
    lemma_le_len(h.body_len as nat, 4);
    lemma_le_len(h.min_origin_sequence as nat, 8);
    lemma_le_len(h.max_origin_sequence as nat, 8);
    lemma_start_step(parts, 0);
    lemma_start_step(parts, 1);
    lemma_start_step(parts, 2);
    lemma_start_step(parts, 3);
    lemma_start_step(parts, 4);
    lemma_start_step(parts, 5);
    lemma_start_step(parts, 6);
    lemma_start_step(parts, 7);
    lemma_start_step(parts, 8);
    lemma_start_step(parts, 9);
    lemma_start_step(parts, 10);
    lemma_start_end(parts);
}

/// Headers survive the wire: whatever follows the 72 bytes of a header, reading
/// gives the header back.
pub proof fn lemma_header_roundtrip(h: Header, rest: Seq<u8>)
    ensures
        header_bytes(h).len() == HEADER_LEN,
        parsed_header(header_bytes(h) + rest) == Ok::<Header, DecodeError>(h),
{
    let parts = header_parts(h);
    let bytes = header_bytes(h);
    let all = bytes + rest;
    lemma_header_starts(h);
    lemma_pow256_values();
    lemma_joined_number(parts, 0, MAGIC as nat, 4);
    lemma_joined_number(parts, 1, VERSION as nat, 2);
    lemma_joined_number(parts, 2, h.flags as nat, 2);
    lemma_joined_number(parts, 3, h.cluster_id_hash as nat, 16);
    lemma_joined_number(parts, 4, h.sender_node_id as nat, 16);
    lemma_joined_number(parts, 5, h.sender_incarnation as nat, 4);
    lemma_joined_number(parts, 6, h.count_width as nat, 4);
    lemma_joined_number(parts, 7, h.cell_count as nat, 4);
    lemma_joined_number(parts, 8, h.body_len as nat, 4);
    lemma_joined_number(parts, 9, h.min_origin_sequence as nat, 8);
    lemma_joined_number(parts, 10, h.max_origin_sequence as nat, 8);
    assert forall|at: int, width: nat| 0 <= at && at + width <= HEADER_LEN implies
        #[trigger] le_at(all, at, width) == le_at(bytes, at, width) by {
        assert(all.subrange(at, at + width) =~= bytes.subrange(at, at + width));
    }
}

/// Writes the header over the first 72 bytes of `buf`.
pub fn patch_header(buf: &mut Vec<u8>, hdr: &Header)
    requires
        old(buf)@.len() >= HEADER_LEN,
    ensures
        final(buf)@ == header_bytes(*hdr) + old(buf)@.skip(HEADER_LEN as int),
{
    let mut bytes: Vec<u8> = Vec::with_capacity(HEADER_LEN);
    push_le(&mut bytes, MAGIC as u128, 4);
    push_le(&mut bytes, VERSION as u128, 2);
    push_le(&mut bytes, hdr.flags as u128, 2);
    push_le(&mut bytes, hdr.cluster_id_hash, 16);
    push_le(&mut bytes, hdr.sender_node_id, 16);
    push_le(&mut bytes, hdr.sender_incarnation as u128, 4);
    push_le(&mut bytes, hdr.count_width as u128, 4);
    push_le(&mut bytes, hdr.cell_count as u128, 4);
    push_le(&mut bytes, hdr.body_len as u128, 4);
    push_le(&mut bytes, hdr.min_origin_sequence as u128, 8);
    push_le(&mut bytes, hdr.max_origin_sequence as u128, 8);
    proof {
        let parts = header_parts(*hdr);
        lemma_header_starts(*hdr);
        lemma_start_step(parts, 0);
        lemma_start_step(parts, 1);
        lemma_start_step(parts, 2);
        lemma_start_step(parts, 3);
        lemma_start_step(parts, 4);
        lemma_start_step(parts, 5);
        lemma_start_step(parts, 6);
        lemma_start_step(parts, 7);
        lemma_start_step(parts, 8);
        lemma_start_step(parts, 9);
        lemma_start_step(parts, 10);
        assert(parts.take(0) =~= Seq::<Seq<u8>>::empty());
        assert(parts.take(11) =~= parts);
        assert(bytes@ =~= header_bytes(*hdr));
    }
    let mut i: usize = 0;
    while i < HEADER_LEN
        invariant
            i <= HEADER_LEN,
            bytes@ == header_bytes(*hdr),
            bytes@.len() == HEADER_LEN,
            buf@.len() == old(buf)@.len() >= HEADER_LEN,
            forall|j: int| 0 <= j < i ==> buf@[j] == bytes@[j],
            forall|j: int| i <= j < buf@.len() ==> buf@[j] == old(buf)@[j],
        decreases HEADER_LEN - i,
    {
        buf.set(i, bytes[i]);
        i = i + 1;
    }
    assert(buf@ =~= header_bytes(*hdr) + old(buf)@.skip(HEADER_LEN as int));
}

/// Reads a header from the start of a frame.
pub fn read_header(bytes: &[u8]) -> (header: Result<Header, DecodeError>)
    ensures
        header == parsed_header(bytes@),
{
    if bytes.len() < HEADER_LEN {
        return Err(DecodeError::TooShort);
    }
    proof {
        lemma_pow256_values();
    }
    let magic: u128 = read_le(bytes, 0, 4);
    if magic != MAGIC as u128 {
        return Err(DecodeError::BadMagic);
    }
    let version: u128 = read_le(bytes, 4, 2);
    if version != VERSION as u128 {
        return Err(DecodeError::BadVersion);
    }
    Ok(
        Header {
            flags: read_le(bytes, 6, 2) as u16,
            cluster_id_hash: read_le(bytes, 8, 16),
            sender_node_id: read_le(bytes, 24, 16),
            sender_incarnation: read_le(bytes, 40, 4) as u32,
            count_width: read_le(bytes, 44, 4) as u32,
            cell_count: read_le(bytes, 48, 4) as u32,
            body_len: read_le(bytes, 52, 4) as u32,
            min_origin_sequence: read_le(bytes, 56, 8) as u64,
            max_origin_sequence: read_le(bytes, 64, 8) as u64,
        },
    )
}

} // verus!
