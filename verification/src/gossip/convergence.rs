//! Why gossip converges.
//!
//! Hearing of cells takes the larger count, cell by cell, so what a store comes
//! to count depends on what it has heard of and not on when, in what order or
//! how often. Two stores that tell each other everything agree.

use crate::crdt::dictionary::{same_node, same_rule};
use crate::crdt::laws::{
    counted, has_room, lemma_ingest_adds, lemma_merge_keeps_tables, lemma_merge_takes_larger,
    origin_of, same_cell, tables_wf,
};
use crate::crdt::state::{holds_key, CellSlot};
use crate::crdt::{CellRow, CellStore, Count, Observation, StoreState};
use crate::discovery::PeerAddr;
use crate::gossip::node::{hit_observation, sequences_of, LimitHit, NodeState};
use crate::seqs::{first_where, lemma_first_where, lemma_first_where_at};
use crate::wire::auth::{hmac_sha256, AUTH_TAG_LEN};
use crate::wire::body::{
    body_size, cell_of, cells_of, distinct, node_slots, rule_slots, MAX_DICT_SLOTS,
};
use crate::wire::{
    decoded, decoded_cells, lemma_packet_roundtrip, observed, observed_all, packet_bytes,
    packet_frame, FrameLimits, Header,
};
use vstd::prelude::*;

verus! {

pub open spec fn larger(a: nat, b: nat) -> nat {
    if a < b {
        b
    } else {
        a
    }
}

/// The largest count that some observations report of a cell, zero if none does.
pub open spec fn heard<C: Count>(batch: Seq<Observation<C>>, p: Observation<C>) -> nat
    decreases batch.len(),
{
    if batch.len() == 0 {
        0
    } else {
        let before = heard(batch.drop_last(), p);
        if same_cell(batch.last(), p) {
            larger(before, batch.last().count.value())
        } else {
            before
        }
    }
}

/// Whether there is room for everything that some observations bring.
pub open spec fn room_for<C: Count>(
    state: StoreState<C>,
    batch: Seq<Observation<C>>,
    sequences: Seq<u64>,
) -> bool
    decreases batch.len(),
{
    batch.len() > 0 ==> {
        &&& room_for(state, batch.drop_last(), sequences)
        &&& has_room(state.merged(batch.drop_last(), sequences).state, batch.last())
    }
}

/// What a store counts after hearing some observations is, of every cell, the
/// larger of what it counted and what was reported: neither order nor
/// repetition matters.
pub proof fn lemma_hearing_joins<C: Count>(
    state: StoreState<C>,
    batch: Seq<Observation<C>>,
    sequences: Seq<u64>,
    p: Observation<C>,
)
    requires
        tables_wf(state),
        room_for(state, batch, sequences),
    ensures
        tables_wf(state.merged(batch, sequences).state),
        counted(state.merged(batch, sequences).state, p) == larger(
            counted(state, p),
            heard(batch, p),
        ),
    decreases batch.len(),
{
    if batch.len() > 0 {
        lemma_hearing_joins(state, batch.drop_last(), sequences, p);
        let before = state.merged(batch.drop_last(), sequences).state;
        let sequence = sequences[batch.len() - 1];
        lemma_merge_takes_larger(before, batch.last(), sequence, p);
        lemma_merge_keeps_tables(before, batch.last(), sequence);
    }
}

// -- telling everything -----------------------------------------------------

/// The live rows of the first `n` slots.
pub open spec fn live_rows<C: Count>(slots: Seq<CellSlot<C>>, n: nat) -> Seq<CellRow<C>>
    decreases n,
{
    if n == 0 {
        Seq::empty()
    } else {
        let before = live_rows(slots, (n - 1) as nat);
        match slots[n - 1].row {
            Some(row) => before.push(row),
            None => before,
        }
    }
}

/// All that a store has to tell: every live cell.
pub open spec fn told<C: Count>(state: StoreState<C>) -> Seq<Observation<C>> {
    observed_all(cells_of(state, live_rows(state.slots, state.slots.len())))
}

/// Tables that give no rule and no node two slots.
pub open spec fn tables_unique<C: Count>(state: StoreState<C>) -> bool {
    &&& tables_wf(state)
    &&& forall|i: int, j: int|
        #![trigger state.rules[i], state.rules[j]]
        0 <= i < j < state.rules.len() ==> state.rules[i].fingerprint
            != state.rules[j].fingerprint
    &&& forall|i: int, j: int|
        #![trigger state.nodes[i], state.nodes[j]]
        0 <= i < j < state.nodes.len() ==> state.nodes[i] != state.nodes[j]
}

/// Every store is like that.
pub proof fn lemma_store_tables<C: Count>(store: &CellStore<C>)
    requires
        store.wf(),
    ensures
        tables_unique(store@),
{
    store.lemma_wf();
}

/// A row is told of as the cell that it is.
proof fn lemma_row_named<C: Count>(state: StoreState<C>, i: int, p: Observation<C>)
    requires
        tables_unique(state),
        0 <= i < state.slots.len(),
        state.slots[i].row is Some,
    ensures
        ({
            let row = state.slots[i].row->0;
            let told_of = observed(cell_of(state, row));
            same_cell(told_of, p) == (state.key_of(p, origin_of(p)) == Some(row.key))
        }),
{
    let row = state.slots[i].row->0;
    let told_of = observed(cell_of(state, row));
    let rule = state.rules[row.key.rule as int];
    let node = state.nodes[row.key.origin as int];
    let r = same_rule(p.rule_fingerprint);
    let o = same_node(origin_of(p));
    lemma_first_where(state.rules, r);
    lemma_first_where(state.nodes, o);
    if rule.fingerprint == p.rule_fingerprint {
        assert(r(rule));
        assert forall|j: int| 0 <= j < row.key.rule implies !r(#[trigger] state.rules[j]) by {
            assert(state.rules[j].fingerprint != state.rules[row.key.rule as int].fingerprint);
        }
        lemma_first_where_at(state.rules, r, row.key.rule as int);
    }
    if node == origin_of(p) {
        assert(o(node));
        assert forall|j: int| 0 <= j < row.key.origin implies !o(#[trigger] state.nodes[j]) by {
            assert(state.nodes[j] != state.nodes[row.key.origin as int]);
        }
        lemma_first_where_at(state.nodes, o, row.key.origin as int);
    }
}

/// What the first `n` slots tell of a cell.
proof fn lemma_tells<C: Count>(state: StoreState<C>, n: nat, p: Observation<C>)
    requires
        tables_unique(state),
        n <= state.slots.len(),
    ensures
        ({
            let batch = observed_all(cells_of(state, live_rows(state.slots, n)));
            &&& forall|i: int|
                0 <= i < n && (#[trigger] state.slots[i]).row is Some && state.key_of(
                    p,
                    origin_of(p),
                ) == Some(state.slots[i].row->0.key) ==> heard(batch, p)
                    == state.slots[i].row->0.count.value()
            &&& (forall|i: int|
                0 <= i < n && (#[trigger] state.slots[i]).row is Some ==> state.key_of(
                    p,
                    origin_of(p),
                ) != Some(state.slots[i].row->0.key)) ==> heard(batch, p) == 0
        }),
    decreases n,
{
    if n > 0 {
        let m = (n - 1) as nat;
        lemma_tells(state, m, p);
        let rows = live_rows(state.slots, n);
        let batch = observed_all(cells_of(state, rows));
        let before = observed_all(cells_of(state, live_rows(state.slots, m)));
        if state.slots[m as int].row is Some {
            lemma_row_named(state, m as int, p);
            assert(batch.drop_last() =~= before);
            assert(batch.last() == observed(
                cell_of(state, state.slots[m as int].row->0),
            ));
            if state.key_of(p, origin_of(p)) == Some(state.slots[m as int].row->0.key) {
                assert forall|i: int|
                    0 <= i < m && (#[trigger] state.slots[i]).row is Some implies state.key_of(
                    p,
                    origin_of(p),
                ) != Some(state.slots[i].row->0.key) by {
                    assert(state.slots[i].row->0.key != state.slots[m as int].row->0.key);
                }
            }
        } else {
            assert(batch =~= before);
        }
    }
}

/// A store tells of every cell exactly what it counts.
pub proof fn lemma_tells_what_it_counts<C: Count>(state: StoreState<C>, p: Observation<C>)
    requires
        tables_unique(state),
    ensures
        heard(told(state), p) == counted(state, p),
{
    let n = state.slots.len();
    lemma_tells(state, n, p);
    match state.key_of(p, origin_of(p)) {
        Some(key) => {
            let q = holds_key::<C>(key);
            lemma_first_where(state.slots, q);
            match first_where(state.slots, q) {
                Some(i) => {
                    assert(q(state.slots[i]));
                    assert(state.slots[i].row is Some);
                },
                None => {
                    assert forall|i: int|
                        0 <= i < n && (#[trigger] state.slots[i]).row is Some implies Some(key)
                        != Some(state.slots[i].row->0.key) by {
                        assert(!q(state.slots[i]));
                    }
                },
            }
        },
        None => {},
    }
}

/// Two stores that tell each other everything agree on every cell, and on no
/// less than either counted before.
pub proof fn lemma_exchange_converges<C: Count>(
    a: StoreState<C>,
    b: StoreState<C>,
    a_sequences: Seq<u64>,
    b_sequences: Seq<u64>,
    p: Observation<C>,
)
    requires
        tables_unique(a),
        tables_unique(b),
        room_for(a, told(b), b_sequences),
        room_for(b, told(a), a_sequences),
    ensures
        counted(a.merged(told(b), b_sequences).state, p) == larger(counted(a, p), counted(b, p)),
        counted(b.merged(told(a), a_sequences).state, p) == larger(counted(a, p), counted(b, p)),
{
    lemma_hearing_joins(a, told(b), b_sequences, p);
    lemma_hearing_joins(b, told(a), a_sequences, p);
    lemma_tells_what_it_counts(a, p);
    lemma_tells_what_it_counts(b, p);
}

// -- hits -------------------------------------------------------------------

/// A hit as the node that takes it reports it.
pub open spec fn own_hit<C: Count>(state: StoreState<C>, hit: LimitHit) -> Observation<C> {
    Observation {
        origin: state.identity.node_id,
        incarnation: state.identity.incarnation,
        ..hit_observation(hit)
    }
}

/// Hits are added to the node's own cell, up to the largest count, and to no
/// other.
pub proof fn lemma_hit_adds<C: Count>(state: StoreState<C>, hit: LimitHit, p: Observation<C>)
    requires
        tables_wf(state),
        has_room(state, own_hit(state, hit)),
    ensures
        counted(state.ingested(seq![hit_observation::<C>(hit)]).state, p) == if same_cell(
            own_hit(state, hit),
            p,
        ) {
            C::of(counted(state, p) + C::of(hit.hits as nat).value()).value()
        } else {
            counted(state, p)
        },
{
    let o = hit_observation::<C>(hit);
    let batch = seq![o];
    assert(batch.drop_last() =~= Seq::<Observation<C>>::empty());
    reveal_with_fuel(StoreState::ingested, 2);
    lemma_ingest_adds(state, o, own_hit(state, hit), p);
}

// -- packets ----------------------------------------------------------------

/// A node that takes a packet of another's rows counts, of every cell, the
/// larger of what it counted and what the rows say.
pub proof fn lemma_packet_replicates<C: Count>(
    receiver: NodeState<C>,
    sender: StoreState<C>,
    header: Header,
    rows: Seq<CellRow<C>>,
    more: bool,
    key: Option<Seq<u8>>,
    limits: FrameLimits,
    src: PeerAddr,
    p: Observation<C>,
)
    requires
        tables_wf(receiver.store),
        distinct(rule_slots(rows)).len() <= MAX_DICT_SLOTS,
        distinct(node_slots(rows)).len() <= MAX_DICT_SLOTS,
        body_size(rows) <= u32::MAX,
        rows.len() <= limits.max_cells,
        packet_bytes(sender, header, rows, more, key).len() <= limits.max_payload_bytes,
        key matches Some(k) ==> hmac_sha256(
            k,
            packet_frame(sender, header, rows, more, true),
        ).len() == AUTH_TAG_LEN,
        room_for(
            receiver.store,
            observed_all(cells_of(sender, rows)),
            sequences_of(cells_of(sender, rows)),
        ),
    ensures
        counted(
            receiver.packet_taken(
                key,
                limits,
                packet_bytes(sender, header, rows, more, key),
                src,
            ).store,
            p,
        ) == larger(
            counted(receiver.store, p),
            heard(observed_all(cells_of(sender, rows)), p),
        ),
{
    let bytes = packet_bytes(sender, header, rows, more, key);
    lemma_packet_roundtrip(sender, header, rows, more, key, limits);
    let cells = cells_of(sender, rows);
    assert(decoded_cells::<C>(bytes, key, limits) == cells);
    assert(decoded::<C>(bytes, key, limits) is Ok);
    lemma_hearing_joins(receiver.store, observed_all(cells), sequences_of(cells), p);
    let merged = receiver.store.merged(observed_all(cells), sequences_of(cells)).state;
    let after = receiver.packet_taken(key, limits, bytes, src).store;
    assert(after.rules == merged.rules && after.nodes == merged.nodes && after.slots
        == merged.slots);
    assert(after.key_of(p, origin_of(p)) == merged.key_of(p, origin_of(p)));
}

} // verus!
