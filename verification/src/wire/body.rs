//! Body codec: columns with per-packet dictionaries.
//!
//! Every packet carries its own small dictionaries of rule fingerprints and
//! origin node ids, so a receiver can decode any packet by itself.
//!
//! Layout when there are `N > 0` cells, all integers little-endian:
//!
//! ```text
//! [ rule_dict_len      : u8     ]    R, 1..=255
//! [ rule_dict          : u128×R ]    in slot order
//! [ node_dict_len      : u8     ]    D, 1..=255
//! [ node_dict          : u128×D ]    in slot order
//! [ rule_slot          : u8 ×N  ]    each < R
//! [ key_hash           : u128×N ]
//! [ bucket             : u32 ×N ]
//! [ node_slot          : u8 ×N  ]    each < D
//! [ origin_incarnation : u32 ×N ]
//! [ last_update_millis : u64 ×N ]
//! [ origin_sequence    : u64 ×N ]
//! [ count              : C  ×N  ]
//! ```
//!
//! Without cells the body is empty.

use super::DecodeError;
use crate::bytes::{
    column, joined, le, le_at, lemma_column_len, lemma_joined_column, lemma_joined_number,
    lemma_le_at_byte, lemma_le_len, lemma_pow256_monotone, lemma_pow256_values, lemma_start_end,
    lemma_start_step, push_le, read_le, start,
};
use crate::crdt::state::resolve;
use crate::crdt::{
    BucketEpoch, CellHandle, CellRow, CellStore, Count, Incarnation, KeyHash, NodeId, StoreState,
};
use vstd::prelude::*;

verus! {

/// Bytes a cell takes besides its count: the two slot indices and the five
/// identity and bookkeeping fields.
pub const PER_CELL_IDENT_BYTES: usize = 42;

/// The two dictionary length bytes.
pub const DICT_LEN_BYTES: usize = 2;

/// Most slots a packet dictionary can have; slot indices are single bytes.
pub const MAX_DICT_SLOTS: usize = 255;

/// A cell as the wire carries it.
#[derive(Copy, Debug, PartialEq, Eq)]
pub struct WireCell<C: Count> {
    pub rule_fingerprint: u128,
    pub key_hash: KeyHash,
    pub bucket: BucketEpoch,
    pub origin_node_id: NodeId,
    pub origin_incarnation: Incarnation,
    pub count: C,
    pub last_update_millis: u64,
    pub origin_sequence: u64,
}

impl<C: Count> Clone for WireCell<C> {
    fn clone(&self) -> (cell: Self)
        ensures
            cell == *self,
    {
        *self
    }
}

// -- what a packet holds ----------------------------------------------------

/// The rows that a run of handles resolves to; stale handles add none.
pub open spec fn rows_of<C: Count>(state: StoreState<C>, handles: Seq<CellHandle>) -> Seq<
    CellRow<C>,
>
    decreases handles.len(),
{
    if handles.len() == 0 {
        Seq::empty()
    } else {
        let before = rows_of(state, handles.drop_last());
        match resolve(state.slots, handles.last()) {
            Some(row) => before.push(row),
            None => before,
        }
    }
}

/// The values of `s` in order of first appearance.
pub open spec fn distinct(s: Seq<u16>) -> Seq<u16>
    decreases s.len(),
{
    if s.len() == 0 {
        Seq::empty()
    } else {
        let before = distinct(s.drop_last());
        if before.contains(s.last()) {
            before
        } else {
            before.push(s.last())
        }
    }
}

/// The rule slots of the rows, one per row.
pub open spec fn rule_slots<C: Count>(rows: Seq<CellRow<C>>) -> Seq<u16> {
    Seq::new(rows.len(), |i: int| rows[i].key.rule)
}

/// The origin slots of the rows, one per row.
pub open spec fn node_slots<C: Count>(rows: Seq<CellRow<C>>) -> Seq<u16> {
    Seq::new(rows.len(), |i: int| rows[i].key.origin)
}

/// Bytes the body of these rows takes.
pub open spec fn body_size<C: Count>(rows: Seq<CellRow<C>>) -> nat {
    if rows.len() == 0 {
        0
    } else {
        DICT_LEN_BYTES as nat + 16 * distinct(rule_slots(rows)).len() + 16 * distinct(
            node_slots(rows),
        ).len() + rows.len() * (PER_CELL_IDENT_BYTES as nat + C::width())
    }
}

/// Whether one packet can carry these rows.
pub open spec fn rows_fit<C: Count>(rows: Seq<CellRow<C>>, budget: nat) -> bool {
    &&& distinct(rule_slots(rows)).len() <= MAX_DICT_SLOTS
    &&& distinct(node_slots(rows)).len() <= MAX_DICT_SLOTS
    &&& body_size(rows) <= budget
}

/// The rows of the `k` handles from `from` on.
pub open spec fn run_rows<C: Count>(
    state: StoreState<C>,
    handles: Seq<CellHandle>,
    from: int,
    k: int,
) -> Seq<CellRow<C>> {
    rows_of(state, handles.subrange(from, from + k))
}

/// Whether a packet that starts at handle `from` takes exactly the next `k`
/// handles: they fit, and one more does not or is not there.
pub open spec fn takes<C: Count>(
    state: StoreState<C>,
    handles: Seq<CellHandle>,
    from: int,
    k: int,
    budget: nat,
) -> bool {
    &&& 0 <= k <= handles.len() - from
    &&& rows_fit(run_rows(state, handles, from, k), budget)
    &&& from + k == handles.len() || !rows_fit(run_rows(state, handles, from, k + 1), budget)
}

/// The columns of the body, in wire order.
#[derive(Clone, Copy, Debug, PartialEq, Eq, Structural)]
pub enum Column {
    RuleSlot,
    KeyHash,
    Bucket,
    NodeSlot,
    Incarnation,
    LastUpdate,
    Sequence,
    Count,
}

/// The number a row puts into a column. Slot columns hold positions in the
/// packet's dictionaries `rules` and `nodes`.
pub open spec fn field<C: Count>(
    row: CellRow<C>,
    col: Column,
    rules: Seq<u16>,
    nodes: Seq<u16>,
) -> nat {
    match col {
        Column::RuleSlot => rules.index_of(row.key.rule) as nat,
        Column::KeyHash => row.key.key_hash.0 as nat,
        Column::Bucket => row.key.bucket as nat,
        Column::NodeSlot => nodes.index_of(row.key.origin) as nat,
        Column::Incarnation => row.key.incarnation as nat,
        Column::LastUpdate => row.last_update_millis as nat,
        Column::Sequence => row.origin_sequence as nat,
        Column::Count => row.count.value(),
    }
}

/// Bytes an entry of the column takes.
pub open spec fn field_width<C: Count>(col: Column) -> nat {
    match col {
        Column::RuleSlot => 1,
        Column::KeyHash => 16,
        Column::Bucket => 4,
        Column::NodeSlot => 1,
        Column::Incarnation => 4,
        Column::LastUpdate => 8,
        Column::Sequence => 8,
        Column::Count => C::width(),
    }
}

/// A whole column.
pub open spec fn fields<C: Count>(
    rows: Seq<CellRow<C>>,
    col: Column,
    rules: Seq<u16>,
    nodes: Seq<u16>,
) -> Seq<nat> {
    Seq::new(rows.len(), |i: int| field(rows[i], col, rules, nodes))
}

/// The fingerprints of a packet's rule dictionary.
pub open spec fn dict_fingerprints<C: Count>(state: StoreState<C>, rules: Seq<u16>) -> Seq<nat> {
    Seq::new(rules.len(), |i: int| state.rules[rules[i] as int].fingerprint as nat)
}

/// The node ids of a packet's node dictionary.
pub open spec fn dict_node_ids<C: Count>(state: StoreState<C>, nodes: Seq<u16>) -> Seq<nat> {
    Seq::new(nodes.len(), |i: int| state.nodes[nodes[i] as int].node_id.0 as nat)
}

/// The sections of a body, in wire order.
pub open spec fn body_parts<C: Count>(state: StoreState<C>, rows: Seq<CellRow<C>>) -> Seq<
    Seq<u8>,
> {
    let rules = distinct(rule_slots(rows));
    let nodes = distinct(node_slots(rows));
    seq![
        le(rules.len(), 1),
        column(dict_fingerprints(state, rules), 16),
        le(nodes.len(), 1),
        column(dict_node_ids(state, nodes), 16),
        column(fields(rows, Column::RuleSlot, rules, nodes), 1),
        column(fields(rows, Column::KeyHash, rules, nodes), 16),
        column(fields(rows, Column::Bucket, rules, nodes), 4),
        column(fields(rows, Column::NodeSlot, rules, nodes), 1),
        column(fields(rows, Column::Incarnation, rules, nodes), 4),
        column(fields(rows, Column::LastUpdate, rules, nodes), 8),
        column(fields(rows, Column::Sequence, rules, nodes), 8),
        column(fields(rows, Column::Count, rules, nodes), C::width()),
    ]
}

/// The body of a packet that carries these rows.
pub open spec fn body_bytes<C: Count>(state: StoreState<C>, rows: Seq<CellRow<C>>) -> Seq<u8> {
    if rows.len() == 0 {
        Seq::empty()
    } else {
        joined(body_parts(state, rows))
    }
}

/// What the wire says of a row.
pub open spec fn cell_of<C: Count>(state: StoreState<C>, row: CellRow<C>) -> WireCell<C> {
    WireCell {
        rule_fingerprint: state.rules[row.key.rule as int].fingerprint,
        key_hash: row.key.key_hash,
        bucket: row.key.bucket,
        origin_node_id: state.nodes[row.key.origin as int].node_id,
        origin_incarnation: row.key.incarnation,
        count: row.count,
        last_update_millis: row.last_update_millis,
        origin_sequence: row.origin_sequence,
    }
}

/// The cells of the rows.
pub open spec fn cells_of<C: Count>(state: StoreState<C>, rows: Seq<CellRow<C>>) -> Seq<
    WireCell<C>,
> {
    Seq::new(rows.len(), |i: int| cell_of(state, rows[i]))
}

/// Lowest origin sequence of the rows, `u64::MAX` if there are none.
pub open spec fn min_sequence<C: Count>(rows: Seq<CellRow<C>>) -> u64
    decreases rows.len(),
{
    if rows.len() == 0 {
        u64::MAX
    } else {
        let before = min_sequence(rows.drop_last());
        if rows.last().origin_sequence < before {
            rows.last().origin_sequence
        } else {
            before
        }
    }
}

/// Highest origin sequence of the rows, zero if there are none.
pub open spec fn max_sequence<C: Count>(rows: Seq<CellRow<C>>) -> u64
    decreases rows.len(),
{
    if rows.len() == 0 {
        0
    } else {
        let before = max_sequence(rows.drop_last());
        if rows.last().origin_sequence > before {
            rows.last().origin_sequence
        } else {
            before
        }
    }
}

// -- what a body says -------------------------------------------------------

/// Where the node dictionary's length byte stands.
pub open spec fn node_len_at(bytes: Seq<u8>) -> int {
    1 + 16 * bytes[0] as int
}

/// Where the columns start.
pub open spec fn columns_at(bytes: Seq<u8>) -> int {
    node_len_at(bytes) + 1 + 16 * bytes[node_len_at(bytes)] as int
}

/// Whether the body has both dictionaries and exactly the columns of `n` cells.
pub open spec fn body_sized<C: Count>(bytes: Seq<u8>, n: nat) -> bool {
    &&& bytes.len() > 0
    &&& bytes[0] > 0
    &&& bytes.len() > node_len_at(bytes)
    &&& bytes[node_len_at(bytes)] > 0
    &&& bytes.len() == columns_at(bytes) + n * (PER_CELL_IDENT_BYTES as nat + C::width())
}

/// The rule slot of cell `i`.
pub open spec fn rule_slot_at(bytes: Seq<u8>, i: int) -> u8 {
    bytes[columns_at(bytes) + i]
}

/// The node slot of cell `i` of `n`.
pub open spec fn node_slot_at(bytes: Seq<u8>, n: nat, i: int) -> u8 {
    bytes[columns_at(bytes) + 21 * n + i]
}

/// Whether both slots of cell `i` are in their dictionaries.
pub open spec fn slots_valid(bytes: Seq<u8>, n: nat, i: int) -> bool {
    &&& rule_slot_at(bytes, i) < bytes[0]
    &&& node_slot_at(bytes, n, i) < bytes[node_len_at(bytes)]
}

/// Cell `i` of `n`.
pub open spec fn cell_at<C: Count>(bytes: Seq<u8>, n: nat, i: int) -> WireCell<C> {
    let at = columns_at(bytes);
    let w = C::width();
    WireCell {
        rule_fingerprint: le_at(bytes, 1 + 16 * rule_slot_at(bytes, i) as int, 16) as u128,
        key_hash: KeyHash(le_at(bytes, at + n + 16 * i, 16) as u128),
        bucket: le_at(bytes, at + 17 * n + 4 * i, 4) as u32,
        origin_node_id: NodeId(
            le_at(
                bytes,
                node_len_at(bytes) + 1 + 16 * node_slot_at(bytes, n, i) as int,
                16,
            ) as u128,
        ),
        origin_incarnation: le_at(bytes, at + 22 * n + 4 * i, 4) as u32,
        last_update_millis: le_at(bytes, at + 26 * n + 8 * i, 8) as u64,
        origin_sequence: le_at(bytes, at + 34 * n + 8 * i, 8) as u64,
        count: C::of(le_at(bytes, at + 42 * n + w * i, w)),
    }
}

/// How many cells from `k` on have valid slots before the first that has not.
pub open spec fn valid_until(bytes: Seq<u8>, n: nat, k: nat) -> nat
    decreases n - k,
{
    if k >= n || !slots_valid(bytes, n, k as int) {
        k
    } else {
        valid_until(bytes, n, k + 1)
    }
}

/// The cells a decoder hands out before it is done or gives up.
pub open spec fn body_cells<C: Count>(bytes: Seq<u8>, n: nat) -> Seq<WireCell<C>> {
    if n == 0 || !body_sized::<C>(bytes, n) {
        Seq::empty()
    } else {
        Seq::new(valid_until(bytes, n, 0), |i: int| cell_at::<C>(bytes, n, i))
    }
}

/// What decoding a body of `n` cells comes to.
pub open spec fn body_outcome<C: Count>(bytes: Seq<u8>, n: nat) -> Result<(), DecodeError> {
    if n == 0 {
        if bytes.len() == 0 {
            Ok(())
        } else {
            Err(DecodeError::BodyLenMismatch)
        }
    } else if !body_sized::<C>(bytes, n) {
        Err(DecodeError::BodyLenMismatch)
    } else if valid_until(bytes, n, 0) < n {
        Err(DecodeError::BadSlot)
    } else {
        Ok(())
    }
}

// -- decoding ---------------------------------------------------------------

fn read_count<C: Count>(src: &[u8], at: usize) -> (count: C)
    requires
        at + C::width() <= src@.len(),
    ensures
        count == C::of(le_at(src@, at as int, C::width())),
{
    let w: usize = C::width_bytes();
    let v: u128 = read_le(src, at, w);
    proof {
        lemma_pow256_values();
        lemma_pow256_monotone(w as nat, 8);
    }
    C::saturating_from_u64(v as u64)
}

fn read_u32(src: &[u8], at: usize) -> (v: u32)
    requires
        at + 4 <= src@.len(),
    ensures
        v == le_at(src@, at as int, 4),
{
    let v: u128 = read_le(src, at, 4);
    proof {
        lemma_pow256_values();
    }
    v as u32
}

fn read_u64(src: &[u8], at: usize) -> (v: u64)
    requires
        at + 8 <= src@.len(),
    ensures
        v == le_at(src@, at as int, 8),
{
    let v: u128 = read_le(src, at, 8);
    proof {
        lemma_pow256_values();
    }
    v as u64
}

fn read_u128(src: &[u8], at: usize) -> (v: u128)
    requires
        at + 16 <= src@.len(),
    ensures
        v == le_at(src@, at as int, 16),
{
    read_le(src, at, 16)
}

proof fn lemma_valid_until(bytes: Seq<u8>, n: nat, k: nat)
    requires
        k <= n,
    ensures
        k <= valid_until(bytes, n, k) <= n,
        forall|i: int| k <= i < valid_until(bytes, n, k) ==> slots_valid(bytes, n, i),
    decreases n - k,
{
    if k < n && slots_valid(bytes, n, k as int) {
        lemma_valid_until(bytes, n, k + 1);
    }
}

/// Decodes the body of a packet, appending its cells to `cells` in order. A
/// cell with a slot outside its dictionary ends the decode; the cells before
/// it have been appended.
pub fn decode_body_visit<C: Count>(
    bytes: &[u8],
    cell_count: u32,
    cells: &mut Vec<WireCell<C>>,
) -> (outcome: Result<(), DecodeError>)
    ensures
        outcome == body_outcome::<C>(bytes@, cell_count as nat),
        final(cells)@ == old(cells)@ + body_cells::<C>(bytes@, cell_count as nat),
{
    let ghost n = cell_count as nat;
    assert(cells@ =~= old(cells)@ + Seq::<WireCell<C>>::empty());
    let len: usize = bytes.len();
    if cell_count == 0 {
        if len != 0 {
            return Err(DecodeError::BodyLenMismatch);
        }
        return Ok(());
    }
    if len == 0 {
        return Err(DecodeError::BodyLenMismatch);
    }
    let rule_dict_len: usize = bytes[0] as usize;
    if rule_dict_len == 0 {
        return Err(DecodeError::BodyLenMismatch);
    }
    let node_len: usize = 1 + 16 * rule_dict_len;
    if len <= node_len {
        return Err(DecodeError::BodyLenMismatch);
    }
    let node_dict_len: usize = bytes[node_len] as usize;
    if node_dict_len == 0 {
        return Err(DecodeError::BodyLenMismatch);
    }
    let at: usize = node_len + 1 + 16 * node_dict_len;
    let w: usize = C::width_bytes();
    proof {
        assert(cell_count * (42 + w) <= 0xffff_ffff * 50) by (nonlinear_arith)
            requires
                cell_count <= 0xffff_ffff,
                0 <= w <= 8,
        ;
    }
    let expected: u128 = at as u128 + (cell_count as u128) * ((PER_CELL_IDENT_BYTES + w) as u128);
    if len as u128 != expected {
        return Err(DecodeError::BodyLenMismatch);
    }
    let count: usize = cell_count as usize;
    proof {
        assert(n * (42 + w) == 42 * n + w * n) by (nonlinear_arith);
    }
    let mut i: usize = 0;
    while i < count
        invariant
            i <= count == n == cell_count,
            w == C::width(),
            1 <= w <= 8,
            len == bytes@.len(),
            body_sized::<C>(bytes@, n),
            rule_dict_len == bytes@[0],
            node_len == node_len_at(bytes@),
            node_dict_len == bytes@[node_len as int],
            at == columns_at(bytes@),
            len == at + 42 * n + w * n,
            valid_until(bytes@, n, i as nat) == valid_until(bytes@, n, 0),
            cells@.len() == old(cells)@.len() + i,
            forall|j: int| 0 <= j < old(cells)@.len() ==> cells@[j] == old(cells)@[j],
            forall|j: int|
                old(cells)@.len() <= j < cells@.len() ==> #[trigger] cells@[j] == cell_at::<C>(
                    bytes@,
                    n,
                    j - old(cells)@.len(),
                ),
        decreases count - i,
    {
        proof {
            assert(w * i + w <= w * n) by (nonlinear_arith)
                requires
                    i + 1 <= n,
                    w >= 0,
            ;
            assert(0 <= w * i) by (nonlinear_arith);
            lemma_valid_until(bytes@, n, i as nat);
        }
        let rule_slot: usize = bytes[at + i] as usize;
        if rule_slot >= rule_dict_len {
            proof {
                assert(!slots_valid(bytes@, n, i as int));
                assert(cells@ =~= old(cells)@ + body_cells::<C>(bytes@, n));
            }
            return Err(DecodeError::BadSlot);
        }
        let node_slot: usize = bytes[at + 21 * count + i] as usize;
        if node_slot >= node_dict_len {
            proof {
                assert(!slots_valid(bytes@, n, i as int));
                assert(cells@ =~= old(cells)@ + body_cells::<C>(bytes@, n));
            }
            return Err(DecodeError::BadSlot);
        }
        let cell = WireCell::<C> {
            rule_fingerprint: read_u128(bytes, 1 + 16 * rule_slot),
            key_hash: KeyHash(read_u128(bytes, at + count + 16 * i)),
            bucket: read_u32(bytes, at + 17 * count + 4 * i),
            origin_node_id: NodeId(read_u128(bytes, node_len + 1 + 16 * node_slot)),
            origin_incarnation: read_u32(bytes, at + 22 * count + 4 * i),
            count: read_count::<C>(bytes, at + 42 * count + w * i),
            last_update_millis: read_u64(bytes, at + 26 * count + 8 * i),
            origin_sequence: read_u64(bytes, at + 34 * count + 8 * i),
        };
        cells.push(cell);
        i = i + 1;
    }
    proof {
        lemma_valid_until(bytes@, n, n);
        assert(cells@ =~= old(cells)@ + body_cells::<C>(bytes@, n));
    }
    Ok(())
}

// -- round trip -------------------------------------------------------------

pub proof fn lemma_distinct(s: Seq<u16>)
    ensures
        distinct(s).no_duplicates(),
        distinct(s).len() <= s.len(),
        s.len() > 0 ==> distinct(s).len() > 0,
        forall|x: u16|
            #![trigger distinct(s).contains(x)]
            #![trigger s.contains(x)]
            distinct(s).contains(x) <==> s.contains(x),
    decreases s.len(),
{
    if s.len() > 0 {
        let prefix = s.drop_last();
        let before = distinct(prefix);
        lemma_distinct(prefix);
        assert forall|x: u16|
            #![trigger distinct(s).contains(x)]
            #![trigger s.contains(x)]
            distinct(s).contains(x) <==> s.contains(x) by {
            if s.contains(x) {
                let i = choose|i: int| 0 <= i < s.len() && s[i] == x;
                if i < prefix.len() {
                    assert(prefix[i] == x);
                    assert(prefix.contains(x));
                    let k = choose|k: int| 0 <= k < before.len() && before[k] == x;
                    assert(distinct(s)[k] == x);
                } else if !before.contains(x) {
                    assert(distinct(s)[before.len() as int] == x);
                }
            }
            if distinct(s).contains(x) {
                let k = choose|k: int| 0 <= k < distinct(s).len() && distinct(s)[k] == x;
                if k < before.len() {
                    assert(before[k] == x);
                    assert(prefix.contains(x));
                    let i = choose|i: int| 0 <= i < prefix.len() && prefix[i] == x;
                    assert(s[i] == x);
                } else {
                    assert(s[s.len() - 1] == x);
                }
            }
        }
    }
}

/// Where the sections of a body start.
proof fn lemma_body_starts<C: Count>(state: StoreState<C>, rows: Seq<CellRow<C>>)
    requires
        rows.len() > 0,
    ensures
        ({
            let parts = body_parts(state, rows);
            let n = rows.len() as int;
            let r = distinct(rule_slots(rows)).len() as int;
            let d = distinct(node_slots(rows)).len() as int;
            let at = 2 + 16 * r + 16 * d;
            &&& start(parts, 0) == 0
            &&& start(parts, 1) == 1
            &&& start(parts, 2) == 1 + 16 * r
            &&& start(parts, 3) == 2 + 16 * r
            &&& start(parts, 4) == at
            &&& start(parts, 5) == at + n
            &&& start(parts, 6) == at + 17 * n
            &&& start(parts, 7) == at + 21 * n
            &&& start(parts, 8) == at + 22 * n
            &&& start(parts, 9) == at + 26 * n
            &&& start(parts, 10) == at + 34 * n
            &&& start(parts, 11) == at + 42 * n
            &&& body_bytes(state, rows).len() == body_size(rows)
            &&& body_size(rows) == at + 42 * n + n * C::width()
        }),
{
    let parts = body_parts(state, rows);
    let rules = distinct(rule_slots(rows));
    let nodes = distinct(node_slots(rows));
    lemma_le_len(rules.len(), 1);
    lemma_le_len(nodes.len(), 1);
    lemma_column_len(dict_fingerprints(state, rules), 16);
    lemma_column_len(dict_node_ids(state, nodes), 16);
    lemma_column_len(fields(rows, Column::RuleSlot, rules, nodes), 1);
    lemma_column_len(fields(rows, Column::KeyHash, rules, nodes), 16);
    lemma_column_len(fields(rows, Column::Bucket, rules, nodes), 4);
    lemma_column_len(fields(rows, Column::NodeSlot, rules, nodes), 1);
    lemma_column_len(fields(rows, Column::Incarnation, rules, nodes), 4);
    lemma_column_len(fields(rows, Column::LastUpdate, rules, nodes), 8);
    lemma_column_len(fields(rows, Column::Sequence, rules, nodes), 8);
    lemma_column_len(fields(rows, Column::Count, rules, nodes), C::width());
    lemma_start_step(parts, 0);
    lemma_start_step(parts, 1);
    lemma_start_step(parts, 2);
    lemma_start_step(parts, 3);
    lemma_start_step(parts, 4);
    lemma_start_step(parts, 5);
    lemma_start_step(parts, 6);
    lemma_start_step(parts, 7);
    lemma_start_step(parts, 8);
    lemma_start_step(parts, 9);
    lemma_start_step(parts, 10);
    lemma_start_step(parts, 11);
    lemma_start_end(parts);
    assert(rows.len() * (42 + C::width()) == 42 * rows.len() + rows.len() * C::width())
        by (nonlinear_arith);
}

/// The dictionary length bytes of a body.
proof fn lemma_body_lengths<C: Count>(state: StoreState<C>, rows: Seq<CellRow<C>>)
    requires
        rows.len() > 0,
        distinct(rule_slots(rows)).len() <= MAX_DICT_SLOTS,
        distinct(node_slots(rows)).len() <= MAX_DICT_SLOTS,
    ensures
        body_sized::<C>(body_bytes(state, rows), rows.len()),
        body_bytes(state, rows)[0] == distinct(rule_slots(rows)).len(),
        node_len_at(body_bytes(state, rows)) == 1 + 16 * distinct(rule_slots(rows)).len(),
        body_bytes(state, rows)[node_len_at(body_bytes(state, rows))] == distinct(
            node_slots(rows),
        ).len(),
        columns_at(body_bytes(state, rows)) == 2 + 16 * distinct(rule_slots(rows)).len() + 16
            * distinct(node_slots(rows)).len(),
{
    let parts = body_parts(state, rows);
    let bytes = body_bytes(state, rows);
    let rules = distinct(rule_slots(rows));
    let nodes = distinct(node_slots(rows));
    lemma_body_starts(state, rows);
    lemma_distinct(rule_slots(rows));
    lemma_distinct(node_slots(rows));
    lemma_pow256_values();
    lemma_joined_number(parts, 0, rules.len(), 1);
    lemma_joined_number(parts, 2, nodes.len(), 1);
    lemma_le_at_byte(bytes, 0);
    lemma_le_at_byte(bytes, 1 + 16 * rules.len() as int);
    assert(rows.len() * (42 + C::width()) == 42 * rows.len() + rows.len() * C::width())
        by (nonlinear_arith);
}

/// One cell survives the wire.
#[verifier::spinoff_prover]
proof fn lemma_cell_roundtrip<C: Count>(state: StoreState<C>, rows: Seq<CellRow<C>>, i: int)
    requires
        0 <= i < rows.len(),
        distinct(rule_slots(rows)).len() <= MAX_DICT_SLOTS,
        distinct(node_slots(rows)).len() <= MAX_DICT_SLOTS,
    ensures
        slots_valid(body_bytes(state, rows), rows.len(), i),
        cell_at::<C>(body_bytes(state, rows), rows.len(), i) == cell_of(state, rows[i]),
{
    let parts = body_parts(state, rows);
    let bytes = body_bytes(state, rows);
    let n = rows.len();
    let w = C::width();
    let rules = distinct(rule_slots(rows));
    let nodes = distinct(node_slots(rows));
    let row = rows[i];
    lemma_body_starts(state, rows);
    lemma_body_lengths(state, rows);
    lemma_distinct(rule_slots(rows));
    lemma_distinct(node_slots(rows));
    lemma_pow256_values();
    assert(rule_slots(rows)[i] == row.key.rule);
    assert(node_slots(rows)[i] == row.key.origin);
    assert(rule_slots(rows).contains(row.key.rule));
    assert(node_slots(rows).contains(row.key.origin));
    let rs = rules.index_of(row.key.rule);
    let ns = nodes.index_of(row.key.origin);
    assert(0 <= rs < rules.len() && rules[rs] == row.key.rule);
    assert(0 <= ns < nodes.len() && nodes[ns] == row.key.origin);
    assert(rule_slot_at(bytes, i) == rs) by {
        lemma_joined_column(parts, 4, fields(rows, Column::RuleSlot, rules, nodes), 1, i);
        lemma_le_at_byte(bytes, columns_at(bytes) + i);
    }
    assert(node_slot_at(bytes, n, i) == ns) by {
        lemma_joined_column(parts, 7, fields(rows, Column::NodeSlot, rules, nodes), 1, i);
        lemma_le_at_byte(bytes, columns_at(bytes) + 21 * n + i);
    }
    let cell = cell_at::<C>(bytes, n, i);
    let want = cell_of(state, row);
    assert(cell.rule_fingerprint == want.rule_fingerprint) by {
        lemma_joined_column(parts, 1, dict_fingerprints(state, rules), 16, rs);
    }
    assert(cell.origin_node_id == want.origin_node_id) by {
        lemma_joined_column(parts, 3, dict_node_ids(state, nodes), 16, ns);
    }
    assert(cell.key_hash == want.key_hash) by {
        lemma_joined_column(parts, 5, fields(rows, Column::KeyHash, rules, nodes), 16, i);
    }
    assert(cell.bucket == want.bucket) by {
        lemma_joined_column(parts, 6, fields(rows, Column::Bucket, rules, nodes), 4, i);
    }
    assert(cell.origin_incarnation == want.origin_incarnation) by {
        lemma_joined_column(parts, 8, fields(rows, Column::Incarnation, rules, nodes), 4, i);
    }
    assert(cell.last_update_millis == want.last_update_millis) by {
        lemma_joined_column(parts, 9, fields(rows, Column::LastUpdate, rules, nodes), 8, i);
    }
    assert(cell.origin_sequence == want.origin_sequence) by {
        lemma_joined_column(parts, 10, fields(rows, Column::Sequence, rules, nodes), 8, i);
    }
    assert(cell.count == want.count) by {
        row.count.lemma_value();
        lemma_joined_column(parts, 11, fields(rows, Column::Count, rules, nodes), w, i);
        assert(w * i == i * w) by (nonlinear_arith);
    }
}

/// Bodies survive the wire: decoding the body of some rows gives exactly the
/// cells of those rows, in order.
pub proof fn lemma_body_roundtrip<C: Count>(state: StoreState<C>, rows: Seq<CellRow<C>>)
    requires
        distinct(rule_slots(rows)).len() <= MAX_DICT_SLOTS,
        distinct(node_slots(rows)).len() <= MAX_DICT_SLOTS,
    ensures
        body_bytes(state, rows).len() == body_size(rows),
        body_outcome::<C>(body_bytes(state, rows), rows.len()) == Ok::<(), DecodeError>(()),
        body_cells::<C>(body_bytes(state, rows), rows.len()) == cells_of(state, rows),
{
    let bytes = body_bytes(state, rows);
    let n = rows.len();
    if n == 0 {
        assert(body_cells::<C>(bytes, n) =~= cells_of(state, rows));
    } else {
        lemma_body_starts(state, rows);
        lemma_body_lengths(state, rows);
        assert forall|i: int| 0 <= i < n implies slots_valid(bytes, n, i) && #[trigger] cell_at::<
            C,
        >(bytes, n, i) == cell_of(state, rows[i]) by {
            lemma_cell_roundtrip(state, rows, i);
        }
        lemma_valid_until(bytes, n, 0);
        if valid_until(bytes, n, 0) < n {
            lemma_valid_stops(bytes, n, 0);
            let k = valid_until(bytes, n, 0) as int;
            lemma_cell_roundtrip(state, rows, k);
        }
        assert(body_cells::<C>(bytes, n) =~= cells_of(state, rows));
    }
}

proof fn lemma_valid_stops(bytes: Seq<u8>, n: nat, k: nat)
    requires
        k <= n,
        valid_until(bytes, n, k) < n,
    ensures
        !slots_valid(bytes, n, valid_until(bytes, n, k) as int),
    decreases n - k,
{
    if k < n && slots_valid(bytes, n, k as int) {
        lemma_valid_stops(bytes, n, k + 1);
    }
}

// -- encoding ---------------------------------------------------------------

/// Encoder scratch, sized to one store's dictionaries and reused for every
/// packet.
pub struct WireScratch {
    /// Packet slot of each of the store's rule slots, `u8::MAX` if it has none.
    pub rule_remap: Vec<u8>,
    /// Packet slot of each of the store's node slots, `u8::MAX` if it has none.
    pub node_remap: Vec<u8>,
    /// The packet's rule dictionary, in slot order.
    pub rule_fps: Vec<u128>,
    /// The packet's node dictionary, in slot order.
    pub node_ids: Vec<u128>,
}

/// Whether `remap` sends each store slot in `d` to its position there, and
/// every other slot to `u8::MAX`.
pub open spec fn remaps(remap: Seq<u8>, d: Seq<u16>) -> bool {
    &&& d.no_duplicates()
    &&& d.len() <= MAX_DICT_SLOTS
    &&& forall|i: int|
        0 <= i < d.len() ==> (#[trigger] d[i]) < remap.len() && remap[d[i] as int] == i
    &&& forall|s: int|
        0 <= s < remap.len() && #[trigger] remap[s] != u8::MAX ==> remap[s] < d.len()
            && d[remap[s] as int] == s
}

impl WireScratch {
    /// Whether the scratch has room for the store's dictionaries.
    pub open spec fn sized_for<C: Count>(&self, state: StoreState<C>) -> bool {
        &&& self.rule_remap@.len() == state.config.rule_dictionary_capacity
        &&& self.node_remap@.len() == state.config.node_dictionary_capacity
    }

    /// Whether the scratch holds the dictionaries of a packet with these rows.
    pub open spec fn holds<C: Count>(&self, state: StoreState<C>, rows: Seq<CellRow<C>>) -> bool {
        let rules = distinct(rule_slots(rows));
        let nodes = distinct(node_slots(rows));
        &&& remaps(self.rule_remap@, rules)
        &&& remaps(self.node_remap@, nodes)
        &&& self.rule_fps@.len() == rules.len()
        &&& self.node_ids@.len() == nodes.len()
        &&& forall|i: int|
            0 <= i < rules.len() ==> #[trigger] self.rule_fps@[i]
                == state.rules[rules[i] as int].fingerprint
        &&& forall|i: int|
            0 <= i < nodes.len() ==> #[trigger] self.node_ids@[i]
                == state.nodes[nodes[i] as int].node_id.0
    }

    /// Scratch for one store, with nothing interned.
    pub fn for_store<C: Count>(store: &CellStore<C>) -> (scratch: WireScratch)
        requires
            store.wf(),
        ensures
            scratch.sized_for(store@),
            scratch.rule_remap@ == Seq::new(
                store@.config.rule_dictionary_capacity as nat,
                |i: int| u8::MAX,
            ),
            scratch.node_remap@ == Seq::new(
                store@.config.node_dictionary_capacity as nat,
                |i: int| u8::MAX,
            ),
            scratch.rule_fps@.len() == 0,
            scratch.node_ids@.len() == 0,
    {
        let rule_capacity: usize = store.rule_dictionary().capacity() as usize;
        let node_capacity: usize = store.node_dictionary().capacity() as usize;
        let scratch = WireScratch {
            rule_remap: vec![u8::MAX; rule_capacity],
            node_remap: vec![u8::MAX; node_capacity],
            rule_fps: Vec::with_capacity(MAX_DICT_SLOTS),
            node_ids: Vec::with_capacity(MAX_DICT_SLOTS),
        };
        assert(scratch.rule_remap@ =~= Seq::new(rule_capacity as nat, |i: int| u8::MAX));
        assert(scratch.node_remap@ =~= Seq::new(node_capacity as nat, |i: int| u8::MAX));
        scratch
    }

    /// Forgets everything interned, keeping the sizes.
    pub fn reset(&mut self)
        ensures
            final(self).rule_remap@ == Seq::new(old(self).rule_remap@.len(), |i: int| u8::MAX),
            final(self).node_remap@ == Seq::new(old(self).node_remap@.len(), |i: int| u8::MAX),
            final(self).rule_fps@.len() == 0,
            final(self).node_ids@.len() == 0,
    {
        fill_max(&mut self.rule_remap);
        fill_max(&mut self.node_remap);
        self.rule_fps.clear();
        self.node_ids.clear();
    }
}

fn fill_max(v: &mut Vec<u8>)
    ensures
        final(v)@ == Seq::new(old(v)@.len(), |i: int| u8::MAX),
{
    let mut i: usize = 0;
    while i < v.len()
        invariant
            i <= v@.len() == old(v)@.len(),
            forall|j: int| 0 <= j < i ==> v@[j] == u8::MAX,
        decreases v@.len() - i,
    {
        v.set(i, u8::MAX);
        i = i + 1;
    }
    assert(v@ =~= Seq::new(old(v)@.len(), |j: int| u8::MAX));
}

/// What the next packet will carry.
struct Plan<C: Count> {
    rows: Vec<CellRow<C>>,
    /// Handles looked at: one per row, and the stale ones.
    consumed: usize,
    cells_dropped: u32,
    min_sequence: u64,
    max_sequence: u64,
}

/// What was put into a packet.
#[derive(Clone, Copy, Debug, PartialEq, Eq, Structural)]
pub struct EncodedBody {
    pub body_len: usize,
    pub cells_emitted: u32,
    /// Handles that no longer resolve. They are used up with this packet.
    pub cells_dropped: u32,
    /// Lowest origin sequence of the packet, zero if it carries no cell.
    pub min_origin_sequence: u64,
    /// Highest origin sequence of the packet, zero if it carries no cell.
    pub max_origin_sequence: u64,
    pub handles_consumed: usize,
}

/// One more row in the books.
proof fn lemma_rows_push<C: Count>(rows: Seq<CellRow<C>>, row: CellRow<C>)
    ensures
        rule_slots(rows.push(row)) == rule_slots(rows).push(row.key.rule),
        node_slots(rows.push(row)) == node_slots(rows).push(row.key.origin),
        distinct(rule_slots(rows.push(row))) == if distinct(rule_slots(rows)).contains(
            row.key.rule,
        ) {
            distinct(rule_slots(rows))
        } else {
            distinct(rule_slots(rows)).push(row.key.rule)
        },
        distinct(node_slots(rows.push(row))) == if distinct(node_slots(rows)).contains(
            row.key.origin,
        ) {
            distinct(node_slots(rows))
        } else {
            distinct(node_slots(rows)).push(row.key.origin)
        },
        min_sequence(rows.push(row)) == if row.origin_sequence < min_sequence(rows) {
            row.origin_sequence
        } else {
            min_sequence(rows)
        },
        max_sequence(rows.push(row)) == if row.origin_sequence > max_sequence(rows) {
            row.origin_sequence
        } else {
            max_sequence(rows)
        },
{
    let all = rows.push(row);
    assert(rule_slots(all) =~= rule_slots(rows).push(row.key.rule));
    assert(node_slots(all) =~= node_slots(rows).push(row.key.origin));
    assert(rule_slots(all).drop_last() =~= rule_slots(rows));
    assert(node_slots(all).drop_last() =~= node_slots(rows));
    assert(all.drop_last() =~= rows);
}

/// Handles are looked at one by one.
proof fn lemma_run_step<C: Count>(
    state: StoreState<C>,
    handles: Seq<CellHandle>,
    from: int,
    k: int,
)
    requires
        0 <= from,
        0 <= k,
        from + k < handles.len(),
    ensures
        run_rows(state, handles, from, k + 1) == match resolve(state.slots, handles[from + k]) {
            Some(row) => run_rows(state, handles, from, k).push(row),
            None => run_rows(state, handles, from, k),
        },
{
    let longer = handles.subrange(from, from + k + 1);
    assert(longer.drop_last() =~= handles.subrange(from, from + k));
    assert(longer.last() == handles[from + k]);
}

/// Gives a store slot the packet slot `next` if it has none yet.
fn assign_slot(remap: &mut Vec<u8>, slot: u16, next: usize, Ghost(d): Ghost<Seq<u16>>) -> (added:
    bool)
    requires
        remaps(old(remap)@, d),
        slot < old(remap)@.len(),
        next == d.len(),
        !d.contains(slot) ==> next < MAX_DICT_SLOTS,
    ensures
        final(remap)@.len() == old(remap)@.len(),
        added == !d.contains(slot),
        remaps(
            final(remap)@,
            if d.contains(slot) {
                d
            } else {
                d.push(slot)
            },
        ),
{
    proof {
        if d.contains(slot) {
            let k = choose|k: int| 0 <= k < d.len() && d[k] == slot;
            assert(remap@[d[k] as int] == k);
        }
    }
    if remap[slot as usize] == u8::MAX {
        let ghost before = remap@;
        remap.set(slot as usize, next as u8);
        proof {
            let grown = d.push(slot);
            assert forall|i: int| 0 <= i < grown.len() implies (#[trigger] grown[i]) < remap@.len()
                && remap@[grown[i] as int] == i by {
                if i < d.len() {
                    assert(d[i] != slot);
                    assert(before[d[i] as int] == i);
                }
            }
            assert forall|s: int| 0 <= s < remap@.len() && #[trigger] remap@[s] != u8::MAX implies
                remap@[s] < grown.len() && grown[remap@[s] as int] == s by {
                if s != slot {
                    assert(before[s] != u8::MAX);
                }
            }
        }
        true
    } else {
        proof {
            assert(d[remap@[slot as int] as int] == slot);
        }
        false
    }
}

/// Decides how many handles the next packet takes, and builds its dictionaries
/// in `scratch`. Nothing is written yet.
fn plan_packet<C: Count>(
    store: &CellStore<C>,
    handles: &[CellHandle],
    start_at: usize,
    body_budget: usize,
    scratch: &mut WireScratch,
) -> (plan: Plan<C>)
    requires
        store.wf(),
        start_at <= handles@.len(),
        old(scratch).sized_for(store@),
        old(scratch).holds(store@, Seq::<CellRow<C>>::empty()),
    ensures
        final(scratch).sized_for(store@),
        final(scratch).holds(store@, plan.rows@),
        takes(
            store@,
            handles@,
            start_at as int,
            plan.consumed as int,
            body_budget as nat,
        ),
        plan.rows@ == run_rows(store@, handles@, start_at as int, plan.consumed as int),
        plan.cells_dropped == saturated_u32(plan.consumed - plan.rows@.len()),
        plan.min_sequence == min_sequence(plan.rows@),
        plan.max_sequence == max_sequence(plan.rows@),
{
    let ghost state = store@;
    let ghost from = start_at as int;
    let end: usize = handles.len();
    let w: usize = C::width_bytes();
    let per_cell: u128 = (PER_CELL_IDENT_BYTES + w) as u128;
    let mut rows: Vec<CellRow<C>> = Vec::new();
    let mut cursor: usize = start_at;
    let mut cells_dropped: u32 = 0;
    let mut min_seq: u64 = u64::MAX;
    let mut max_seq: u64 = 0;
    let mut full: bool = false;
    proof {
        assert(handles@.subrange(from, from) =~= Seq::<CellHandle>::empty());
        assert(rule_slots(rows@) =~= Seq::<u16>::empty());
        assert(node_slots(rows@) =~= Seq::<u16>::empty());
        assert(rows@ =~= Seq::<CellRow<C>>::empty());
    }
    while !full && cursor < end
        invariant
            state == store@,
            from == start_at,
            store.wf(),
            end == handles@.len(),
            start_at <= cursor <= end,
            w == C::width(),
            1 <= w <= 8,
            per_cell == 42 + w,
            scratch.sized_for(state),
            scratch.holds(state, rows@),
            rows@ == run_rows(state, handles@, from, cursor - from),
            rows@.len() <= cursor - from,
            rows_fit(rows@, body_budget as nat),
            cells_dropped == saturated_u32(cursor - from - rows@.len()),
            min_seq == min_sequence(rows@),
            max_seq == max_sequence(rows@),
            full ==> cursor < end && !rows_fit(
                run_rows(state, handles@, from, cursor - from + 1),
                body_budget as nat,
            ),
        decreases
                end - cursor + if full {
                    0int
                } else {
                    1
                },
    {
        let handle = handles[cursor];
        proof {
            lemma_run_step(state, handles@, from, cursor - from);
            store.lemma_wf();
        }
        match store.get(handle) {
            None => {
                cursor = cursor + 1;
                if cells_dropped < u32::MAX {
                    cells_dropped = cells_dropped + 1;
                }
            },
            Some(row) => {
                let ghost rules = distinct(rule_slots(rows@));
                let ghost nodes = distinct(node_slots(rows@));
                let ghost grown = rows@.push(row);
                proof {
                    lemma_rows_push(rows@, row);
                    lemma_row_in_store(state, handle);
                }
                let r: usize = scratch.rule_fps.len();
                let d: usize = scratch.node_ids.len();
                let rule_unseen: bool = scratch.rule_remap[row.key.rule as usize] == u8::MAX;
                let node_unseen: bool = scratch.node_remap[row.key.origin as usize] == u8::MAX;
                proof {
                    lemma_remap_seen(scratch.rule_remap@, rules, row.key.rule);
                    lemma_remap_seen(scratch.node_remap@, nodes, row.key.origin);
                }
                let new_r: usize = if rule_unseen { r + 1 } else { r };
                let new_d: usize = if node_unseen { d + 1 } else { d };
                proof {
                    assert((rows@.len() + 1) * per_cell <= 0x1_0000_0000_0000_0000 * 50)
                        by (nonlinear_arith)
                        requires
                            rows@.len() + 1 <= 0x1_0000_0000_0000_0000,
                            0 <= per_cell <= 50,
                    ;
                }
                let projected: u128 = DICT_LEN_BYTES as u128 + 16 * (new_r as u128) + 16 * (
                new_d as u128) + (rows.len() as u128 + 1) * per_cell;
                if new_r > MAX_DICT_SLOTS || new_d > MAX_DICT_SLOTS || projected
                    > body_budget as u128 {
                    full = true;
                } else {
                    let ghost old_fps = scratch.rule_fps@;
                    let ghost old_ids = scratch.node_ids@;
                    if assign_slot(&mut scratch.rule_remap, row.key.rule, r, Ghost(rules)) {
                        if let Some(rule) = store.rule_dictionary().descriptor(row.key.rule) {
                            scratch.rule_fps.push(rule.fingerprint);
                        }
                    }
                    if assign_slot(&mut scratch.node_remap, row.key.origin, d, Ghost(nodes)) {
                        if let Some(node) = store.node_dictionary().descriptor(row.key.origin) {
                            scratch.node_ids.push(node.node_id.0);
                        }
                    }
                    if row.origin_sequence < min_seq {
                        min_seq = row.origin_sequence;
                    }
                    if row.origin_sequence > max_seq {
                        max_seq = row.origin_sequence;
                    }
                    rows.push(row);
                    cursor = cursor + 1;
                }
            },
        }
    }
    Plan {
        rows,
        consumed: cursor - start_at,
        cells_dropped,
        min_sequence: min_seq,
        max_sequence: max_seq,
    }
}

/// A count as the 32-bit field that reports it.
pub open spec fn saturated_u32(v: int) -> u32 {
    if v <= u32::MAX {
        v as u32
    } else {
        u32::MAX
    }
}

proof fn lemma_remap_seen(remap: Seq<u8>, d: Seq<u16>, slot: u16)
    requires
        remaps(remap, d),
        slot < remap.len(),
    ensures
        remap[slot as int] == u8::MAX <==> !d.contains(slot),
{
    if d.contains(slot) {
        let k = choose|k: int| 0 <= k < d.len() && d[k] == slot;
        assert(remap[d[k] as int] == k);
    }
    if remap[slot as int] != u8::MAX {
        assert(d[remap[slot as int] as int] == slot);
    }
}

proof fn lemma_row_in_store<C: Count>(state: StoreState<C>, handle: CellHandle)
    requires
        state.rows_wf(),
    ensures
        resolve(state.slots, handle) matches Some(row) ==> row.key.rule < state.rules.len()
            && row.key.origin < state.nodes.len() && state.nodes[row.key.origin as int].incarnation
            == row.key.incarnation,
{
}

fn push_words(out: &mut Vec<u8>, words: &Vec<u128>, width: usize)
    ensures
        final(out)@ == old(out)@ + column(
            Seq::new(words@.len(), |i: int| words@[i] as nat),
            width as nat,
        ),
{
    let ghost vals = Seq::new(words@.len(), |i: int| words@[i] as nat);
    let mut i: usize = 0;
    assert(vals.take(0) =~= Seq::<nat>::empty());
    assert(out@ =~= old(out)@ + column(vals.take(0), width as nat));
    while i < words.len()
        invariant
            i <= words@.len() == vals.len(),
            vals == Seq::new(words@.len(), |j: int| words@[j] as nat),
            out@ == old(out)@ + column(vals.take(i as int), width as nat),
        decreases words@.len() - i,
    {
        push_le(out, words[i], width);
        proof {
            assert(vals.take(i + 1).drop_last() =~= vals.take(i as int));
            assert(out@ =~= old(out)@ + column(vals.take(i + 1), width as nat));
        }
        i = i + 1;
    }
    assert(vals.take(i as int) =~= vals);
}

proof fn lemma_remap_index(remap: Seq<u8>, d: Seq<u16>, slot: u16)
    requires
        remaps(remap, d),
        slot < remap.len(),
        d.contains(slot),
    ensures
        remap[slot as int] == d.index_of(slot),
{
    lemma_remap_seen(remap, d, slot);
    let k = d.index_of(slot);
    assert(0 <= k < d.len() && d[k] == slot);
    assert(remap[d[k] as int] == k);
}

/// The number row `i` puts into a column.
fn field_value<C: Count>(
    row: CellRow<C>,
    col: Column,
    scratch: &WireScratch,
    Ghost(rules): Ghost<Seq<u16>>,
    Ghost(nodes): Ghost<Seq<u16>>,
) -> (v: u128)
    requires
        remaps(scratch.rule_remap@, rules),
        remaps(scratch.node_remap@, nodes),
        row.key.rule < scratch.rule_remap@.len(),
        row.key.origin < scratch.node_remap@.len(),
        rules.contains(row.key.rule),
        nodes.contains(row.key.origin),
    ensures
        v as nat == field(row, col, rules, nodes),
{
    proof {
        lemma_remap_index(scratch.rule_remap@, rules, row.key.rule);
        lemma_remap_index(scratch.node_remap@, nodes, row.key.origin);
    }
    match col {
        Column::RuleSlot => scratch.rule_remap[row.key.rule as usize] as u128,
        Column::KeyHash => row.key.key_hash.0,
        Column::Bucket => row.key.bucket as u128,
        Column::NodeSlot => scratch.node_remap[row.key.origin as usize] as u128,
        Column::Incarnation => row.key.incarnation as u128,
        Column::LastUpdate => row.last_update_millis as u128,
        Column::Sequence => row.origin_sequence as u128,
        Column::Count => row.count.get() as u128,
    }
}

fn column_width<C: Count>(col: Column) -> (w: usize)
    ensures
        w == field_width::<C>(col),
{
    match col {
        Column::RuleSlot => 1,
        Column::KeyHash => 16,
        Column::Bucket => 4,
        Column::NodeSlot => 1,
        Column::Incarnation => 4,
        Column::LastUpdate => 8,
        Column::Sequence => 8,
        Column::Count => C::width_bytes(),
    }
}

fn push_column<C: Count>(
    out: &mut Vec<u8>,
    rows: &Vec<CellRow<C>>,
    col: Column,
    scratch: &WireScratch,
    Ghost(state): Ghost<StoreState<C>>,
)
    requires
        scratch.holds(state, rows@),
        forall|i: int|
            0 <= i < rows@.len() ==> (#[trigger] rows@[i]).key.rule < scratch.rule_remap@.len()
                && rows@[i].key.origin < scratch.node_remap@.len(),
    ensures
        final(out)@ == old(out)@ + column(
            fields(rows@, col, distinct(rule_slots(rows@)), distinct(node_slots(rows@))),
            field_width::<C>(col),
        ),
{
    let ghost rules = distinct(rule_slots(rows@));
    let ghost nodes = distinct(node_slots(rows@));
    let ghost vals = fields(rows@, col, rules, nodes);
    let w: usize = column_width::<C>(col);
    proof {
        lemma_distinct(rule_slots(rows@));
        lemma_distinct(node_slots(rows@));
        assert(vals.take(0) =~= Seq::<nat>::empty());
        assert(out@ =~= old(out)@ + column(vals.take(0), w as nat));
    }
    let mut i: usize = 0;
    while i < rows.len()
        invariant
            i <= rows@.len() == vals.len(),
            w == field_width::<C>(col),
            rules == distinct(rule_slots(rows@)),
            nodes == distinct(node_slots(rows@)),
            vals == fields(rows@, col, rules, nodes),
            scratch.holds(state, rows@),
            forall|x: u16| rules.contains(x) <==> #[trigger] rule_slots(rows@).contains(x),
            forall|x: u16| nodes.contains(x) <==> #[trigger] node_slots(rows@).contains(x),
            forall|j: int|
                0 <= j < rows@.len() ==> (#[trigger] rows@[j]).key.rule < scratch.rule_remap@.len()
                    && rows@[j].key.origin < scratch.node_remap@.len(),
            out@ == old(out)@ + column(vals.take(i as int), w as nat),
        decreases rows@.len() - i,
    {
        let row = rows[i];
        proof {
            assert(rule_slots(rows@)[i as int] == row.key.rule);
            assert(node_slots(rows@)[i as int] == row.key.origin);
            assert(rule_slots(rows@).contains(row.key.rule));
            assert(node_slots(rows@).contains(row.key.origin));
        }
        let v: u128 = field_value(row, col, scratch, Ghost(rules), Ghost(nodes));
        push_le(out, v, w);
        proof {
            assert(vals.take(i + 1).drop_last() =~= vals.take(i as int));
            assert(out@ =~= old(out)@ + column(vals.take(i + 1), w as nat));
        }
        i = i + 1;
    }
    assert(vals.take(i as int) =~= vals);
}

/// Appends the body of the planned rows.
fn write_body<C: Count>(
    out: &mut Vec<u8>,
    rows: &Vec<CellRow<C>>,
    scratch: &WireScratch,
    Ghost(state): Ghost<StoreState<C>>,
)
    requires
        rows@.len() > 0,
        scratch.holds(state, rows@),
        forall|i: int|
            0 <= i < rows@.len() ==> (#[trigger] rows@[i]).key.rule < scratch.rule_remap@.len()
                && rows@[i].key.origin < scratch.node_remap@.len(),
    ensures
        final(out)@ == old(out)@ + body_bytes(state, rows@),
{
    let ghost parts = body_parts(state, rows@);
    let ghost rules = distinct(rule_slots(rows@));
    let ghost nodes = distinct(node_slots(rows@));
    proof {
        assert(Seq::new(scratch.rule_fps@.len(), |i: int| scratch.rule_fps@[i] as nat)
            =~= dict_fingerprints(state, rules));
        assert(Seq::new(scratch.node_ids@.len(), |i: int| scratch.node_ids@[i] as nat)
            =~= dict_node_ids(state, nodes));
    }
    push_le(out, scratch.rule_fps.len() as u128, 1);
    push_words(out, &scratch.rule_fps, 16);
    push_le(out, scratch.node_ids.len() as u128, 1);
    push_words(out, &scratch.node_ids, 16);
    push_column(out, rows, Column::RuleSlot, scratch, Ghost(state));
    push_column(out, rows, Column::KeyHash, scratch, Ghost(state));
    push_column(out, rows, Column::Bucket, scratch, Ghost(state));
    push_column(out, rows, Column::NodeSlot, scratch, Ghost(state));
    push_column(out, rows, Column::Incarnation, scratch, Ghost(state));
    push_column(out, rows, Column::LastUpdate, scratch, Ghost(state));
    push_column(out, rows, Column::Sequence, scratch, Ghost(state));
    push_column(out, rows, Column::Count, scratch, Ghost(state));
    proof {
        lemma_start_step(parts, 0);
        lemma_start_step(parts, 1);
        lemma_start_step(parts, 2);
        lemma_start_step(parts, 3);
        lemma_start_step(parts, 4);
        lemma_start_step(parts, 5);
        lemma_start_step(parts, 6);
        lemma_start_step(parts, 7);
        lemma_start_step(parts, 8);
        lemma_start_step(parts, 9);
        lemma_start_step(parts, 10);
        lemma_start_step(parts, 11);
        assert(parts.take(0) =~= Seq::<Seq<u8>>::empty());
        assert(parts.take(12) =~= parts);
        assert(out@ =~= old(out)@ + joined(parts));
    }
}

/// Appends the body of the next packet to `out`. The packet starts at handle
/// `start_at` and takes as many handles as fit into `body_budget` bytes and two
/// dictionaries of at most 255 entries.
pub fn encode_packet_body<C: Count>(
    store: &CellStore<C>,
    handles: &[CellHandle],
    start_at: usize,
    body_budget: usize,
    scratch: &mut WireScratch,
    out: &mut Vec<u8>,
) -> (encoded: EncodedBody)
    requires
        store.wf(),
        start_at <= handles@.len(),
        body_budget <= u32::MAX,
        old(scratch).sized_for(store@),
    ensures
        final(scratch).sized_for(store@),
        takes(
            store@,
            handles@,
            start_at as int,
            encoded.handles_consumed as int,
            body_budget as nat,
        ),
        ({
            let rows = run_rows(
                store@,
                handles@,
                start_at as int,
                encoded.handles_consumed as int,
            );
            &&& final(out)@ == old(out)@ + body_bytes(store@, rows)
            &&& encoded.body_len == body_size(rows)
            &&& encoded.cells_emitted == rows.len()
            &&& encoded.cells_dropped == saturated_u32(encoded.handles_consumed - rows.len())
            &&& encoded.min_origin_sequence == if rows.len() == 0 {
                0
            } else {
                min_sequence(rows)
            }
            &&& encoded.max_origin_sequence == max_sequence(rows)
        }),
{
    scratch.reset();
    let ghost none = Seq::<CellRow<C>>::empty();
    proof {
        assert(rule_slots(none) =~= Seq::<u16>::empty());
        assert(node_slots(none) =~= Seq::<u16>::empty());
    }
    let plan = plan_packet(store, handles, start_at, body_budget, scratch);
    let base: usize = out.len();
    let ghost rows = plan.rows@;
    if plan.rows.len() == 0 {
        assert(out@ =~= old(out)@ + body_bytes(store@, rows));
        return EncodedBody {
            body_len: 0,
            cells_emitted: 0,
            cells_dropped: plan.cells_dropped,
            min_origin_sequence: 0,
            max_origin_sequence: 0,
            handles_consumed: plan.consumed,
        };
    }
    proof {
        store.lemma_wf();
        lemma_run_in_store(store@, handles@.subrange(
            start_at as int,
            start_at + plan.consumed,
        ));
        lemma_body_starts(store@, rows);
        assert(rows.len() <= body_size(rows)) by (nonlinear_arith)
            requires
                body_size(rows) == 2 + 16 * distinct(rule_slots(rows)).len() + 16 * distinct(
                    node_slots(rows),
                ).len() + 42 * rows.len() + rows.len() * C::width(),
        ;
    }
    write_body(out, &plan.rows, scratch, Ghost(store@));
    EncodedBody {
        body_len: out.len() - base,
        cells_emitted: plan.rows.len() as u32,
        cells_dropped: plan.cells_dropped,
        min_origin_sequence: plan.min_sequence,
        max_origin_sequence: plan.max_sequence,
        handles_consumed: plan.consumed,
    }
}

/// Rows of a run are rows of the store.
pub proof fn lemma_run_in_store<C: Count>(state: StoreState<C>, handles: Seq<CellHandle>)
    requires
        state.rows_wf(),
    ensures
        rows_of(state, handles).len() <= handles.len(),
        forall|i: int|
            0 <= i < rows_of(state, handles).len() ==> {
                let row = #[trigger] rows_of(state, handles)[i];
                row.key.rule < state.rules.len() && row.key.origin < state.nodes.len()
            },
    decreases handles.len(),
{
    if handles.len() > 0 {
        lemma_run_in_store(state, handles.drop_last());
        lemma_row_in_store(state, handles.last());
    }
}

// -- runs of handles --------------------------------------------------------

/// A body hands out no more cells than it declares, and all of them if it
/// decodes.
pub proof fn lemma_body_cells_len<C: Count>(bytes: Seq<u8>, n: nat)
    ensures
        body_cells::<C>(bytes, n).len() <= n,
        body_outcome::<C>(bytes, n) is Ok ==> body_cells::<C>(bytes, n).len() == n,
{
    lemma_valid_until(bytes, n, 0);
}

pub proof fn lemma_rows_concat<C: Count>(
    state: StoreState<C>,
    a: Seq<CellHandle>,
    b: Seq<CellHandle>,
)
    ensures
        rows_of(state, a + b) == rows_of(state, a) + rows_of(state, b),
    decreases b.len(),
{
    if b.len() == 0 {
        assert(a + b =~= a);
        assert(rows_of(state, a) + rows_of(state, b) =~= rows_of(state, a));
    } else {
        lemma_rows_concat(state, a, b.drop_last());
        assert((a + b).drop_last() =~= a + b.drop_last());
        assert(rows_of(state, a + b) =~= rows_of(state, a) + rows_of(state, b));
    }
}

proof fn lemma_fewer_fit<C: Count>(rows: Seq<CellRow<C>>, row: CellRow<C>, budget: nat)
    requires
        rows_fit(rows.push(row), budget),
    ensures
        rows_fit(rows, budget),
{
    lemma_rows_push(rows, row);
    let per_cell = PER_CELL_IDENT_BYTES as nat + C::width();
    assert(rows.len() * per_cell <= (rows.len() + 1) * per_cell) by (nonlinear_arith);
}

/// If a run of handles fits, so does every shorter one.
pub proof fn lemma_shorter_fits<C: Count>(
    state: StoreState<C>,
    handles: Seq<CellHandle>,
    from: int,
    j: int,
    k: int,
    budget: nat,
)
    requires
        0 <= from,
        0 <= j <= k <= handles.len() - from,
        rows_fit(run_rows(state, handles, from, k), budget),
    ensures
        rows_fit(run_rows(state, handles, from, j), budget),
    decreases k - j,
{
    if j < k {
        lemma_run_step(state, handles, from, k - 1);
        match resolve(state.slots, handles[from + k - 1]) {
            Some(row) => {
                lemma_fewer_fit(run_rows(state, handles, from, k - 1), row, budget);
            },
            None => {},
        }
        lemma_shorter_fits(state, handles, from, j, k - 1, budget);
    }
}

/// The run that starts with `j` handles that fit can be grown to one that a
/// packet takes.
proof fn lemma_grow_run<C: Count>(
    state: StoreState<C>,
    handles: Seq<CellHandle>,
    from: int,
    j: int,
    budget: nat,
)
    requires
        0 <= from,
        1 <= j <= handles.len() - from,
        rows_fit(run_rows(state, handles, from, j), budget),
    ensures
        exists|k: int| 1 <= k && takes(state, handles, from, k, budget),
    decreases handles.len() - from - j,
{
    if from + j == handles.len() || !rows_fit(run_rows(state, handles, from, j + 1), budget) {
        assert(takes(state, handles, from, j, budget));
    } else {
        lemma_grow_run(state, handles, from, j + 1, budget);
    }
}

/// Where there are handles left, a packet with room for one cell takes some.
pub proof fn lemma_some_run<C: Count>(
    state: StoreState<C>,
    handles: Seq<CellHandle>,
    from: int,
    budget: nat,
)
    requires
        0 <= from < handles.len(),
        DICT_LEN_BYTES + 32 + PER_CELL_IDENT_BYTES + C::width() <= budget,
    ensures
        exists|k: int| 1 <= k && takes(state, handles, from, k, budget),
{
    lemma_one_fits(state, handles, from, budget);
    lemma_grow_run(state, handles, from, 1, budget);
}

/// One handle always fits into a packet with room for one cell.
pub proof fn lemma_one_fits<C: Count>(
    state: StoreState<C>,
    handles: Seq<CellHandle>,
    from: int,
    budget: nat,
)
    requires
        0 <= from < handles.len(),
        DICT_LEN_BYTES + 32 + PER_CELL_IDENT_BYTES + C::width() <= budget,
    ensures
        rows_fit(run_rows(state, handles, from, 1), budget),
{
    let one = handles.subrange(from, from + 1);
    let rows = run_rows(state, handles, from, 1);
    reveal_with_fuel(rows_of, 2);
    assert(one.drop_last() =~= Seq::<CellHandle>::empty());
    let per_cell = PER_CELL_IDENT_BYTES as nat + C::width();
    assert(rows.len() * per_cell <= per_cell) by (nonlinear_arith)
        requires
            rows.len() <= 1,
    ;
    lemma_distinct(rule_slots(rows));
    lemma_distinct(node_slots(rows));
}

} // verus!
