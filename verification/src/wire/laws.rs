//! Where the bytes of a packet stand, and what fills it.

use super::auth::hmac_sha256;
use super::body::{
    body_bytes, body_parts, distinct, fields, lemma_distinct, max_sequence, min_sequence,
    node_slots, rows_fit, rows_of, rule_slots, takes, Column,
};
use super::header::{header_bytes, header_parts, parsed_header, Header};
use super::{framing, observed_all, packet_header, DecodeError, FrameLimits, WireCell};
use crate::bytes::{column, le, le_at, lemma_start_step};
use crate::crdt::{CellHandle, CellRow, Count, StoreState};
use vstd::prelude::*;

verus! {

/// A header is its fields, one after the other: a mark, a version, flags, the
/// cluster, the sender and its incarnation, how wide counts are, how many cells
/// follow in how many bytes, and the first and the last of their sequences.
pub proof fn lemma_header_layout(h: Header)
    ensures
        header_bytes(h) == le(0x4742_4732, 4) + le(1, 2) + le(h.flags as nat, 2) + le(
            h.cluster_id_hash as nat,
            16,
        ) + le(h.sender_node_id as nat, 16) + le(h.sender_incarnation as nat, 4) + le(
            h.count_width as nat,
            4,
        ) + le(h.cell_count as nat, 4) + le(h.body_len as nat, 4) + le(
            h.min_origin_sequence as nat,
            8,
        ) + le(h.max_origin_sequence as nat, 8),
{
    let parts = header_parts(h);
    lemma_start_step(parts, 0);
    lemma_start_step(parts, 1);
    lemma_start_step(parts, 2);
    lemma_start_step(parts, 3);
    lemma_start_step(parts, 4);
    lemma_start_step(parts, 5);
    lemma_start_step(parts, 6);
    lemma_start_step(parts, 7);
    lemma_start_step(parts, 8);
    lemma_start_step(parts, 9);
    lemma_start_step(parts, 10);
    assert(parts.take(0) =~= Seq::<Seq<u8>>::empty());
    assert(parts.take(11) =~= parts);
    assert(Seq::<u8>::empty() + parts[0] =~= parts[0]);
}

/// A header is refused if it is too short, then if its mark is another, then if its
/// version is; otherwise it is read.
pub proof fn lemma_header_refused(bytes: Seq<u8>)
    ensures
        parsed_header(bytes) == Err::<Header, DecodeError>(DecodeError::TooShort) <==> bytes.len()
            < 72,
        parsed_header(bytes) == Err::<Header, DecodeError>(DecodeError::BadMagic) <==> bytes.len()
            >= 72 && le_at(bytes, 0, 4) != 0x4742_4732,
        parsed_header(bytes) == Err::<Header, DecodeError>(DecodeError::BadVersion) <==> bytes.len()
            >= 72 && le_at(bytes, 0, 4) == 0x4742_4732 && le_at(bytes, 4, 2) != 1,
        parsed_header(bytes) is Ok <==> bytes.len() >= 72 && le_at(bytes, 0, 4) == 0x4742_4732
            && le_at(bytes, 4, 2) == 1,
{
}

/// A body holds the rules and the nodes that its cells are of, each once, and then
/// one column after the other of what it says of the cells.
pub proof fn lemma_body_layout<C: Count>(state: StoreState<C>, rows: Seq<CellRow<C>>)
    requires
        rows.len() > 0,
    ensures
        ({
            let rules = distinct(rule_slots(rows));
            let nodes = distinct(node_slots(rows));
            body_bytes(state, rows) == le(rules.len(), 1) + column(
                Seq::new(
                    rules.len(),
                    |i: int| state.rules[rules[i] as int].fingerprint as nat,
                ),
                16,
            ) + le(nodes.len(), 1) + column(
                Seq::new(nodes.len(), |i: int| state.nodes[nodes[i] as int].node_id.0 as nat),
                16,
            ) + column(
                Seq::new(rows.len(), |i: int| rules.index_of(rows[i].key.rule) as nat),
                1,
            ) + column(Seq::new(rows.len(), |i: int| rows[i].key.key_hash.0 as nat), 16) + column(
                Seq::new(rows.len(), |i: int| rows[i].key.bucket as nat),
                4,
            ) + column(
                Seq::new(rows.len(), |i: int| nodes.index_of(rows[i].key.origin) as nat),
                1,
            ) + column(Seq::new(rows.len(), |i: int| rows[i].key.incarnation as nat), 4) + column(
                Seq::new(rows.len(), |i: int| rows[i].last_update_millis as nat),
                8,
            ) + column(Seq::new(rows.len(), |i: int| rows[i].origin_sequence as nat), 8) + column(
                Seq::new(rows.len(), |i: int| rows[i].count.value()),
                C::width(),
            )
        }),
{
    let parts = body_parts(state, rows);
    let rules = distinct(rule_slots(rows));
    let nodes = distinct(node_slots(rows));
    lemma_start_step(parts, 0);
    lemma_start_step(parts, 1);
    lemma_start_step(parts, 2);
    lemma_start_step(parts, 3);
    lemma_start_step(parts, 4);
    lemma_start_step(parts, 5);
    lemma_start_step(parts, 6);
    lemma_start_step(parts, 7);
    lemma_start_step(parts, 8);
    lemma_start_step(parts, 9);
    lemma_start_step(parts, 10);
    lemma_start_step(parts, 11);
    assert(parts.take(0) =~= Seq::<Seq<u8>>::empty());
    assert(parts.take(12) =~= parts);
    assert(Seq::<u8>::empty() + parts[0] =~= parts[0]);
    assert(fields(rows, Column::RuleSlot, rules, nodes) =~= Seq::new(
        rows.len(),
        |i: int| rules.index_of(rows[i].key.rule) as nat,
    ));
    assert(fields(rows, Column::KeyHash, rules, nodes) =~= Seq::new(
        rows.len(),
        |i: int| rows[i].key.key_hash.0 as nat,
    ));
    assert(fields(rows, Column::Bucket, rules, nodes) =~= Seq::new(
        rows.len(),
        |i: int| rows[i].key.bucket as nat,
    ));
    assert(fields(rows, Column::NodeSlot, rules, nodes) =~= Seq::new(
        rows.len(),
        |i: int| nodes.index_of(rows[i].key.origin) as nat,
    ));
    assert(fields(rows, Column::Incarnation, rules, nodes) =~= Seq::new(
        rows.len(),
        |i: int| rows[i].key.incarnation as nat,
    ));
    assert(fields(rows, Column::LastUpdate, rules, nodes) =~= Seq::new(
        rows.len(),
        |i: int| rows[i].last_update_millis as nat,
    ));
    assert(fields(rows, Column::Sequence, rules, nodes) =~= Seq::new(
        rows.len(),
        |i: int| rows[i].origin_sequence as nat,
    ));
    assert(fields(rows, Column::Count, rules, nodes) =~= Seq::new(
        rows.len(),
        |i: int| rows[i].count.value(),
    ));
}

/// The rows of some handles are those of all that still resolve, in order.
pub proof fn lemma_rows_resolved<C: Count>(state: StoreState<C>, handles: Seq<CellHandle>)
    ensures
        rows_of(state, handles) == handles.filter_map(
            |h: CellHandle|
                if h.index < state.slots.len() && state.slots[h.index as int].generation
                    == h.generation {
                    state.slots[h.index as int].row
                } else {
                    None
                },
        ),
    decreases handles.len(),
{
    if handles.len() > 0 {
        lemma_rows_resolved(state, handles.drop_last());
    }
}

/// A packet names the first and the last of its cells' sequences: no cell has an
/// earlier or a later one, and some cell has each.
pub proof fn lemma_sequences_named<C: Count>(rows: Seq<CellRow<C>>)
    requires
        rows.len() > 0,
    ensures
        forall|i: int|
            0 <= i < rows.len() ==> min_sequence(rows) <= (#[trigger] rows[i]).origin_sequence
                <= max_sequence(rows),
        exists|i: int|
            0 <= i < rows.len() && (#[trigger] rows[i]).origin_sequence == min_sequence(rows),
        exists|i: int|
            0 <= i < rows.len() && (#[trigger] rows[i]).origin_sequence == max_sequence(rows),
    decreases rows.len(),
{
    let front = rows.drop_last();
    assert(rows[rows.len() - 1] == rows.last());
    if front.len() > 0 {
        lemma_sequences_named(front);
        let a = choose|i: int|
            0 <= i < front.len() && (#[trigger] front[i]).origin_sequence == min_sequence(front);
        let b = choose|i: int|
            0 <= i < front.len() && (#[trigger] front[i]).origin_sequence == max_sequence(front);
        assert(rows[a] == front[a] && rows[b] == front[b]);
        assert forall|i: int| 0 <= i < rows.len() implies min_sequence(rows) <= (
        #[trigger] rows[i]).origin_sequence <= max_sequence(rows) by {
            if i < front.len() {
                assert(front[i] == rows[i]);
            }
        }
    } else {
        assert(min_sequence(front) == u64::MAX && max_sequence(front) == 0);
    }
}

/// What a packet says of itself is true of its cells: how many they are, how wide
/// their counts, and which sequences they span.
pub proof fn lemma_header_of_packet<C: Count>(
    header: Header,
    rows: Seq<CellRow<C>>,
    more: bool,
    auth: bool,
)
    requires
        rows.len() <= u32::MAX,
    ensures
        ({
            let h = packet_header(header, rows, more, auth);
            &&& h.cell_count == rows.len()
            &&& C::width() <= u32::MAX ==> h.count_width == C::width()
            &&& h.cluster_id_hash == header.cluster_id_hash
            &&& h.sender_node_id == header.sender_node_id
            &&& h.sender_incarnation == header.sender_incarnation
            &&& rows.len() == 0 ==> h.min_origin_sequence == 0 && h.max_origin_sequence == 0
            &&& rows.len() > 0 ==> forall|i: int|
                0 <= i < rows.len() ==> h.min_origin_sequence <= (#[trigger] rows[i]).origin_sequence
                    <= h.max_origin_sequence
        }),
{
    if rows.len() > 0 {
        lemma_sequences_named(rows);
    }
}

/// Rows fit a packet if its bytes hold their rules, their nodes and what is said of
/// each of them, and no more rules or nodes are named than a byte can count.
pub proof fn lemma_fitting_rows<C: Count>(rows: Seq<CellRow<C>>, budget: nat)
    requires
        rows.len() > 0,
    ensures
        ({
            let rules = rows.map_values(|row: CellRow<C>| row.key.rule).to_set();
            let nodes = rows.map_values(|row: CellRow<C>| row.key.origin).to_set();
            rows_fit(rows, budget) <==> {
                &&& rules.len() <= 255
                &&& nodes.len() <= 255
                &&& 2 + 16 * rules.len() + 16 * nodes.len() + rows.len() * (42 + C::width())
                    <= budget
            }
        }),
{
    let f = |row: CellRow<C>| row.key.rule;
    let g = |row: CellRow<C>| row.key.origin;
    assert(rule_slots(rows) =~= rows.map_values(f));
    assert(node_slots(rows) =~= rows.map_values(g));
    lemma_distinct_counts(rows.map_values(f));
    lemma_distinct_counts(rows.map_values(g));
}

proof fn lemma_distinct_counts(s: Seq<u16>)
    ensures
        distinct(s).len() == s.to_set().len(),
{
    lemma_distinct(s);
    distinct(s).unique_seq_to_set();
    assert(distinct(s).to_set() =~= s.to_set()) by {
        assert forall|x: u16| distinct(s).to_set().contains(x) <==> s.to_set().contains(x) by {
            assert(distinct(s).contains(x) <==> s.contains(x));
        }
    }
}

/// A packet takes as many handles as fit: all that are left, or the next would not
/// fit with them.
pub proof fn lemma_packets_filled<C: Count>(
    state: StoreState<C>,
    handles: Seq<CellHandle>,
    from: int,
    k: int,
    budget: nat,
)
    requires
        0 <= from <= handles.len(),
        takes(state, handles, from, k, budget),
    ensures
        0 <= k <= handles.len() - from,
        rows_fit(rows_of(state, handles.subrange(from, from + k)), budget),
        k < handles.len() - from ==> !rows_fit(
            rows_of(state, handles.subrange(from, from + k + 1)),
            budget,
        ),
{
}

/// A frame is turned away for the first thing that is wrong with it: it is longer
/// than allowed, has no room for a header and a tag, has another tag than its bytes
/// and the key give, has a header that is turned away or that tells of counts of
/// another width or of more cells than allowed, or has fewer or more bytes than its
/// header tells of.
pub proof fn lemma_frame_checked<C: Count>(
    bytes: Seq<u8>,
    key: Option<Seq<u8>>,
    limits: FrameLimits,
)
    ensures
        ({
            let tag: int = if key is Some {
                32
            } else {
                0
            };
            let n = bytes.len() as int;
            let frame = bytes.take(n - tag);
            let genuine = key matches Some(secret) ==> bytes.skip(n - 32) == hmac_sha256(
                secret,
                frame,
            );
            let result = framing::<C>(bytes, key, limits);
            &&& n > limits.max_payload_bytes <==> result == Err::<Header, _>(
                DecodeError::PayloadTooLarge,
            )
            &&& n <= limits.max_payload_bytes && n < 72 + tag ==> result == Err::<Header, _>(
                DecodeError::TooShort,
            )
            &&& 72 + tag <= n <= limits.max_payload_bytes ==> {
                &&& !genuine ==> result == Err::<Header, _>(DecodeError::AuthenticationFailed)
                &&& genuine && parsed_header(frame) is Err ==> result == parsed_header(frame)
                &&& genuine && parsed_header(frame) is Ok ==> {
                    let h = parsed_header(frame)->Ok_0;
                    &&& h.count_width != C::width() ==> result == Err::<Header, _>(
                        DecodeError::BadCountWidth,
                    )
                    &&& h.count_width == C::width() && h.cell_count > limits.max_cells ==> result
                        == Err::<Header, _>(DecodeError::CapacityExceeded)
                    &&& h.count_width == C::width() && h.cell_count <= limits.max_cells ==> {
                        &&& 72 + h.body_len + tag > n ==> result == Err::<Header, _>(
                            DecodeError::BodyLenMismatch,
                        )
                        &&& 72 + h.body_len + tag < n ==> result == Err::<Header, _>(
                            DecodeError::Trailing,
                        )
                        &&& 72 + h.body_len + tag == n ==> result == Ok::<_, DecodeError>(h)
                    }
                }
            }
        }),
{
    if key is None {
        assert(bytes.take(bytes.len() as int) =~= bytes);
    }
}

/// A cell is taken in with what was sent of it.
pub proof fn lemma_taken_in_as_sent<C: Count>(cells: Seq<WireCell<C>>, i: int)
    requires
        0 <= i < cells.len(),
    ensures
        observed_all(cells).len() == cells.len(),
        observed_all(cells)[i].rule_fingerprint == cells[i].rule_fingerprint,
        observed_all(cells)[i].key_hash == cells[i].key_hash,
        observed_all(cells)[i].bucket == cells[i].bucket,
        observed_all(cells)[i].origin == cells[i].origin_node_id,
        observed_all(cells)[i].incarnation == cells[i].origin_incarnation,
        observed_all(cells)[i].count == cells[i].count,
        observed_all(cells)[i].last_update_millis == cells[i].last_update_millis,
{
}

} // verus!
