//! What a store's cells add up to, key by key.
//!
//! Whoever adds up the deltas that a store reports and takes off its
//! expirations has the sum of the counts of all origins.

use super::dictionary::same_rule;
use super::laws::{origin_of, tables_wf};
use super::state::{aggregate_key, free_slot, holds_key, is_free, with_row};
use super::{
    AggregateKey, CellKey, CellRow, CellSlot, Count, NodeDescriptor, Observation, RuleDescriptor,
    StoreState,
};
use crate::seqs::lemma_first_where;
use vstd::prelude::*;

verus! {

/// What some rows carry for a key.
pub open spec fn sum_for<C: Count>(rows: Seq<(AggregateKey, C)>, key: AggregateKey) -> nat
    decreases rows.len(),
{
    if rows.len() == 0 {
        0
    } else {
        sum_for(rows.drop_last(), key) + if rows.last().0 == key {
            rows.last().1.value()
        } else {
            0
        }
    }
}

/// The downstream key of a cell.
pub open spec fn key_under(rules: Seq<RuleDescriptor>, cell: CellKey) -> AggregateKey {
    AggregateKey {
        rule_fingerprint: rules[cell.rule as int].fingerprint,
        key_hash: cell.key_hash,
        bucket: cell.bucket,
    }
}

/// What a slot counts of a key.
pub open spec fn slot_share<C: Count>(
    rules: Seq<RuleDescriptor>,
    slot: CellSlot<C>,
    key: AggregateKey,
) -> nat {
    match slot.row {
        Some(row) => if key_under(rules, row.key) == key {
            row.count.value()
        } else {
            0
        },
        None => 0,
    }
}

/// What some slots count of a key, over all origins.
pub open spec fn slots_sum<C: Count>(
    rules: Seq<RuleDescriptor>,
    slots: Seq<CellSlot<C>>,
    key: AggregateKey,
) -> nat
    decreases slots.len(),
{
    if slots.len() == 0 {
        0
    } else {
        slots_sum(rules, slots.drop_last(), key) + slot_share(rules, slots.last(), key)
    }
}

/// What a store counts of a key, over all origins.
pub open spec fn cells_sum<C: Count>(state: StoreState<C>, key: AggregateKey) -> nat {
    slots_sum(state.rules, state.slots, key)
}

pub proof fn lemma_sum_joined<C: Count>(
    a: Seq<(AggregateKey, C)>,
    b: Seq<(AggregateKey, C)>,
    key: AggregateKey,
)
    ensures
        sum_for(a + b, key) == sum_for(a, key) + sum_for(b, key),
    decreases b.len(),
{
    if b.len() == 0 {
        assert(a + b =~= a);
    } else {
        assert((a + b).drop_last() =~= a + b.drop_last());
        lemma_sum_joined(a, b.drop_last(), key);
    }
}

proof fn lemma_sum_of_one<C: Count>(row: (AggregateKey, C), key: AggregateKey)
    ensures
        sum_for(seq![row], key) == if row.0 == key {
            row.1.value()
        } else {
            0
        },
{
    assert(seq![row].drop_last() =~= Seq::<(AggregateKey, C)>::empty());
    reveal_with_fuel(sum_for, 2);
}

/// A slot that changes takes its share along and brings its own.
proof fn lemma_slot_changed<C: Count>(
    rules: Seq<RuleDescriptor>,
    slots: Seq<CellSlot<C>>,
    i: int,
    slot: CellSlot<C>,
    key: AggregateKey,
)
    requires
        0 <= i < slots.len(),
    ensures
        slots_sum(rules, slots.update(i, slot), key) + slot_share(rules, slots[i], key)
            == slots_sum(rules, slots, key) + slot_share(rules, slot, key),
    decreases slots.len(),
{
    let prefix = slots.drop_last();
    if i == slots.len() - 1 {
        assert(slots.update(i, slot).drop_last() =~= prefix);
    } else {
        lemma_slot_changed(rules, prefix, i, slot, key);
        assert(slots.update(i, slot).drop_last() =~= prefix.update(i, slot));
    }
}

/// A row placed takes the place of what was there.
proof fn lemma_row_changed<C: Count>(
    rules: Seq<RuleDescriptor>,
    slots: Seq<CellSlot<C>>,
    i: int,
    row: CellRow<C>,
    key: AggregateKey,
)
    requires
        0 <= i <= slots.len(),
    ensures
        slots_sum(rules, with_row(slots, i, row), key) + (if i < slots.len() {
            slot_share(rules, slots[i], key)
        } else {
            0
        }) == slots_sum(rules, slots, key) + if key_under(rules, row.key) == key {
            row.count.value()
        } else {
            0
        },
{
    let after = with_row(slots, i, row);
    if i < slots.len() {
        lemma_slot_changed(rules, slots, i, after[i], key);
    } else {
        assert(after.drop_last() =~= slots);
    }
}

/// More rules change nothing for the cells of those that were there.
proof fn lemma_rule_added<C: Count>(
    rules: Seq<RuleDescriptor>,
    rule: RuleDescriptor,
    slots: Seq<CellSlot<C>>,
    key: AggregateKey,
)
    requires
        forall|i: int|
            0 <= i < slots.len() && (#[trigger] slots[i]).row is Some ==> slots[i].row->0.key.rule
                < rules.len(),
    ensures
        slots_sum(rules.push(rule), slots, key) == slots_sum(rules, slots, key),
    decreases slots.len(),
{
    if slots.len() > 0 {
        let prefix = slots.drop_last();
        assert forall|i: int| 0 <= i < prefix.len() && (#[trigger] prefix[i]).row is Some implies
            prefix[i].row->0.key.rule < rules.len() by {
            assert(slots[i] == prefix[i]);
        }
        lemma_rule_added(rules, rule, prefix, key);
        assert(slots[slots.len() - 1] == slots.last());
    }
}

/// Raising a cell adds exactly what is reported.
proof fn lemma_raised_sum<C: Count>(
    state: StoreState<C>,
    cell: CellKey,
    aggregate: AggregateKey,
    count: C,
    millis: u64,
    sequence: u64,
    local: bool,
    key: AggregateKey,
)
    requires
        aggregate == key_under(state.rules, cell),
    ensures
        ({
            let applied = state.raised(cell, aggregate, count, millis, sequence, local);
            cells_sum(applied.state, key) == cells_sum(state, key) + sum_for(applied.deltas, key)
        }),
{
    let applied = state.raised(cell, aggregate, count, millis, sequence, local);
    let slots = state.slots;
    let capacity = state.config.cell_capacity as nat;
    lemma_first_where(slots, holds_key::<C>(cell));
    lemma_first_where(slots, is_free::<C>());
    count.lemma_value();
    match state.position(cell) {
        Some(i) => {
            let row = slots[i].row->0;
            if row.count.value() < count.value() {
                lemma_row_changed(state.rules, slots, i, applied.state.slots[i].row->0, key);
                C::lemma_of((count.value() - row.count.value()) as nat);
                lemma_sum_of_one(applied.deltas[0], key);
            }
        },
        None => match free_slot(slots, capacity) {
            Some(i) => {
                lemma_row_changed(state.rules, slots, i, applied.state.slots[i].row->0, key);
                if count.value() > 0 {
                    lemma_sum_of_one(applied.deltas[0], key);
                }
            },
            None => {},
        },
    }
}

/// Giving out slots changes no sum.
proof fn lemma_interned_sum<C: Count>(
    state: StoreState<C>,
    o: Observation<C>,
    node: NodeDescriptor,
    key: AggregateKey,
)
    requires
        tables_wf(state),
    ensures
        cells_sum(state.interned(o, node), key) == cells_sum(state, key),
        state.interned(o, node).key_of(o, node) matches Some(cell) ==> aggregate_key(o)
            == key_under(state.interned(o, node).rules, cell),
{
    let d = RuleDescriptor::spec_wire_only(o.rule_fingerprint);
    let ready = state.interned(o, node);
    lemma_rule_added(state.rules, d, state.slots, key);
    lemma_first_where(ready.rules, same_rule(o.rule_fingerprint));
    assert(ready.rules.len() <= state.config.rule_dictionary_capacity);
}

/// Merging an observation adds exactly what is reported.
proof fn lemma_merged_one_sum<C: Count>(
    state: StoreState<C>,
    o: Observation<C>,
    sequence: u64,
    key: AggregateKey,
)
    requires
        tables_wf(state),
    ensures
        cells_sum(state.merged_one(o, sequence).state, key) == cells_sum(state, key) + sum_for(
            state.merged_one(o, sequence).deltas,
            key,
        ),
{
    let node = origin_of(o);
    let ready = state.interned(o, node);
    lemma_interned_sum(state, o, node, key);
    if let Some(cell) = ready.key_of(o, node) {
        lemma_raised_sum(
            ready,
            cell,
            aggregate_key(o),
            o.count,
            o.last_update_millis,
            sequence,
            false,
            key,
        );
    }
}

/// Merging adds to each key's sum exactly the deltas it reports for the key.
pub proof fn lemma_merged_sum<C: Count>(
    state: StoreState<C>,
    batch: Seq<Observation<C>>,
    sequences: Seq<u64>,
    key: AggregateKey,
)
    requires
        tables_wf(state),
    ensures
        tables_wf(state.merged(batch, sequences).state),
        cells_sum(state.merged(batch, sequences).state, key) == cells_sum(state, key) + sum_for(
            state.merged(batch, sequences).deltas,
            key,
        ),
    decreases batch.len(),
{
    if batch.len() > 0 {
        let before = state.merged(batch.drop_last(), sequences);
        let o = batch.last();
        let sequence = sequences[batch.len() - 1];
        lemma_merged_sum(state, batch.drop_last(), sequences, key);
        super::laws::lemma_merge_keeps_tables(before.state, o, sequence);
        lemma_merged_one_sum(before.state, o, sequence, key);
        lemma_sum_joined(before.deltas, before.state.merged_one(o, sequence).deltas, key);
    }
}

/// Counting hits adds exactly what is reported.
proof fn lemma_ingested_one_sum<C: Count>(
    state: StoreState<C>,
    o: Observation<C>,
    key: AggregateKey,
)
    requires
        tables_wf(state),
    ensures
        tables_wf(state.ingested_one(o).state),
        cells_sum(state.ingested_one(o).state, key) == cells_sum(state, key) + sum_for(
            state.ingested_one(o).deltas,
            key,
        ),
{
    let node = NodeDescriptor {
        node_id: state.identity.node_id,
        incarnation: state.identity.incarnation,
    };
    let ready = state.interned(o, node);
    lemma_interned_sum(state, o, node, key);
    let after = state.ingested_one(o).state;
    if let Some(cell) = ready.key_of(o, node) {
        let stamped = StoreState {
            next_sequence: if ready.next_sequence < u64::MAX {
                (ready.next_sequence + 1) as u64
            } else {
                u64::MAX
            },
            ..ready
        };
        assert(cells_sum(stamped, key) == cells_sum(ready, key));
        let count = C::of(stamped.count_of(cell) + o.count.value());
        lemma_raised_sum(
            stamped,
            cell,
            aggregate_key(o),
            count,
            o.last_update_millis,
            ready.next_sequence,
            true,
            key,
        );
        // The same cells as if the count had been heard of.
        let heard = Observation {
            origin: node.node_id,
            incarnation: node.incarnation,
            count,
            ..o
        };
        super::laws::lemma_merge_keeps_tables(state, heard, ready.next_sequence);
        let merged = state.merged_one(heard, ready.next_sequence).state;
        assert(state.interned(heard, node) == ready);
        assert(ready.key_of(heard, node) == Some(cell));
        assert(merged.slots =~= after.slots);
        assert(merged.rules == after.rules && merged.nodes == after.nodes);
    } else {
        let heard = Observation { origin: node.node_id, incarnation: node.incarnation, ..o };
        super::laws::lemma_merge_keeps_tables(state, heard, 0);
        assert(state.interned(heard, node) == ready);
        assert(ready.key_of(heard, node) is None);
    }
}

/// Counting hits adds to each key's sum exactly the deltas it reports for the
/// key.
pub proof fn lemma_ingested_sum<C: Count>(
    state: StoreState<C>,
    batch: Seq<Observation<C>>,
    key: AggregateKey,
)
    requires
        tables_wf(state),
    ensures
        tables_wf(state.ingested(batch).state),
        cells_sum(state.ingested(batch).state, key) == cells_sum(state, key) + sum_for(
            state.ingested(batch).deltas,
            key,
        ),
    decreases batch.len(),
{
    if batch.len() > 0 {
        let before = state.ingested(batch.drop_last());
        lemma_ingested_sum(state, batch.drop_last(), key);
        lemma_ingested_one_sum(before.state, batch.last(), key);
        lemma_sum_joined(before.deltas, before.state.ingested_one(batch.last()).deltas, key);
    }
}

proof fn lemma_swept_prefix<C: Count>(state: StoreState<C>, now: u64, n: nat, key: AggregateKey)
    requires
        n <= state.slots.len(),
    ensures
        ({
            let after = Seq::new(
                state.slots.len(),
                |i: int| state.swept(state.slots[i], now),
            );
            slots_sum(state.rules, after.take(n as int), key) + sum_for(
                state.expirations(n, now),
                key,
            ) == slots_sum(state.rules, state.slots.take(n as int), key)
        }),
    decreases n,
{
    let after = Seq::new(state.slots.len(), |i: int| state.swept(state.slots[i], now));
    if n > 0 {
        let m = (n - 1) as nat;
        lemma_swept_prefix(state, now, m, key);
        assert(after.take(n as int).drop_last() =~= after.take(m as int));
        assert(state.slots.take(n as int).drop_last() =~= state.slots.take(m as int));
        let slot = state.slots[n - 1];
        if state.expired(slot, now) {
            let gone = state.expirations(n, now);
            assert(gone.drop_last() =~= state.expirations(m, now));
        }
    }
}

/// What ages out takes off each key's sum exactly the expirations reported for
/// the key.
pub proof fn lemma_swept_sum<C: Count>(state: StoreState<C>, now: u64, key: AggregateKey)
    ensures
        ({
            let after = Seq::new(
                state.slots.len(),
                |i: int| state.swept(state.slots[i], now),
            );
            slots_sum(state.rules, after, key) + sum_for(
                state.expirations(state.slots.len(), now),
                key,
            ) == cells_sum(state, key)
        }),
{
    let after = Seq::new(state.slots.len(), |i: int| state.swept(state.slots[i], now));
    lemma_swept_prefix(state, now, state.slots.len(), key);
    assert(after.take(after.len() as int) =~= after);
    assert(state.slots.take(state.slots.len() as int) =~= state.slots);
}

} // verus!
