//! What merging and counting keep.

use super::dictionary::{node_position, rule_position, same_node, same_rule};
use super::state::{free_slot, holds_key, is_free, with_row, CellKey, CellSlot, StoreState};
use super::{
    AggregateKey, CellRow, Count, NodeDescriptor, NodeDictionary, Observation, RuleDescriptor,
    RuleDictionary,
};
use crate::seqs::{first_where, lemma_first_where, lemma_first_where_at, lemma_first_where_none};
use vstd::prelude::*;

verus! {

/// Whether two states agree on all that merging and counting leave alone.
pub open spec fn same_frame<C: Count>(a: StoreState<C>, b: StoreState<C>) -> bool {
    &&& a.config == b.config
    &&& a.identity == b.identity
    &&& a.frontiers == b.frontiers
    &&& a.repair_cursor == b.repair_cursor
}

/// Merging touches neither configuration nor identity nor frontiers.
pub proof fn lemma_merged_frame<C: Count>(
    state: StoreState<C>,
    batch: Seq<Observation<C>>,
    sequences: Seq<u64>,
)
    ensures
        same_frame(state.merged(batch, sequences).state, state),
        state.merged(batch, sequences).state.next_sequence == state.next_sequence,
    decreases batch.len(),
{
    if batch.len() > 0 {
        lemma_merged_frame(state, batch.drop_last(), sequences);
    }
}

/// Counting local hits touches neither configuration nor identity nor
/// frontiers.
pub proof fn lemma_ingested_frame<C: Count>(state: StoreState<C>, batch: Seq<Observation<C>>)
    ensures
        same_frame(state.ingested(batch).state, state),
    decreases batch.len(),
{
    if batch.len() > 0 {
        lemma_ingested_frame(state, batch.drop_last());
    }
}

proof fn lemma_rule_interned(entries: Seq<RuleDescriptor>, capacity: nat, d: RuleDescriptor)
    ensures
        RuleDictionary::interned(
            RuleDictionary::interned(entries, capacity, d),
            capacity,
            d,
        ) == RuleDictionary::interned(entries, capacity, d),
{
    let p = same_rule(d.fingerprint);
    if rule_position(entries, d.fingerprint) is None && entries.len() < capacity {
        lemma_first_where(entries, p);
        let with = entries.push(d);
        assert forall|j: int| 0 <= j < entries.len() implies !p(#[trigger] with[j]) by {
            assert(!p(entries[j]));
        }
        lemma_first_where_at(with, p, entries.len() as int);
    }
}

proof fn lemma_node_interned(entries: Seq<NodeDescriptor>, capacity: nat, d: NodeDescriptor)
    ensures
        NodeDictionary::interned(
            NodeDictionary::interned(entries, capacity, d),
            capacity,
            d,
        ) == NodeDictionary::interned(entries, capacity, d),
{
    let p = same_node(d);
    if node_position(entries, d) is None && entries.len() < capacity {
        lemma_first_where(entries, p);
        let with = entries.push(d);
        assert forall|j: int| 0 <= j < entries.len() implies !p(#[trigger] with[j]) by {
            assert(!p(entries[j]));
        }
        lemma_first_where_at(with, p, entries.len() as int);
    }
}

/// Where a row goes: its own slot if it has one, otherwise a free one.
proof fn lemma_row_placed<C: Count>(
    slots: Seq<CellSlot<C>>,
    capacity: nat,
    key: CellKey,
    row: CellRow<C>,
    i: int,
)
    requires
        row.key == key,
        first_where(slots, holds_key::<C>(key)) == Some(i) || (first_where(
            slots,
            holds_key::<C>(key),
        ) is None && free_slot(slots, capacity) == Some(i)),
    ensures
        0 <= i <= slots.len(),
        first_where(with_row(slots, i, row), holds_key::<C>(key)) == Some(i),
        with_row(slots, i, row)[i].row == Some(row),
        forall|other: CellKey|
            other != key ==> first_where(with_row(slots, i, row), #[trigger] holds_key::<C>(other))
                == first_where(slots, holds_key::<C>(other)),
{
    let p = holds_key::<C>(key);
    let after = with_row(slots, i, row);
    lemma_first_where(slots, p);
    lemma_first_where(slots, is_free::<C>());
    assert forall|j: int| 0 <= j < i implies !p(#[trigger] after[j]) by {
        assert(!p(slots[j]));
    }
    lemma_first_where_at(after, p, i);
    assert forall|other: CellKey| other != key implies first_where(
        after,
        #[trigger] holds_key::<C>(other),
    ) == first_where(slots, holds_key::<C>(other)) by {
        let q = holds_key::<C>(other);
        lemma_first_where(slots, q);
        assert forall|j: int| 0 <= j < slots.len() implies q(#[trigger] after[j]) == q(slots[j]) by {
            if j == i {
                assert(slots[i].row is None || slots[i].row->0.key == key);
            }
        }
        match first_where(slots, q) {
            Some(k) => {
                assert forall|j: int| 0 <= j < k implies !q(#[trigger] after[j]) by {
                    assert(!q(slots[j]));
                }
                assert(q(after[k]));
                lemma_first_where_at(after, q, k);
            },
            None => {
                assert forall|j: int| 0 <= j < after.len() implies !q(#[trigger] after[j]) by {
                    if j < slots.len() {
                        assert(!q(slots[j]));
                    }
                }
                lemma_first_where_none(after, q);
            },
        }
    }
}

/// Raising a cell takes the larger of the two counts and touches no other cell:
/// no count ever falls. Only a new cell for which no slot is free stays out.
pub proof fn lemma_raise_takes_larger<C: Count>(
    state: StoreState<C>,
    key: CellKey,
    aggregate: AggregateKey,
    count: C,
    millis: u64,
    sequence: u64,
    local: bool,
)
    ensures
        ({
            let after = state.raised(key, aggregate, count, millis, sequence, local).state;
            let fits = state.position(key) is Some || free_slot(
                state.slots,
                state.config.cell_capacity as nat,
            ) is Some;
            &&& after.count_of(key) >= state.count_of(key)
            &&& fits ==> after.count_of(key) == if state.count_of(key) < count.value() {
                count.value()
            } else {
                state.count_of(key)
            }
            &&& forall|other: CellKey|
                other != key ==> #[trigger] after.count_of(other) == state.count_of(other)
        }),
{
    let applied = state.raised(key, aggregate, count, millis, sequence, local);
    let slots = state.slots;
    lemma_first_where(slots, holds_key::<C>(key));
    lemma_first_where(slots, is_free::<C>());
    match state.position(key) {
        Some(i) => {
            let row = slots[i].row->0;
            if row.count.value() < count.value() {
                let placed = CellRow {
                    key,
                    count,
                    last_update_millis: super::state::larger(row.last_update_millis, millis),
                    origin_sequence: super::state::larger(row.origin_sequence, sequence),
                };
                lemma_row_placed(slots, state.config.cell_capacity as nat, key, placed, i);
                lemma_others_kept(state, key, placed, i);
            }
        },
        None => match free_slot(slots, state.config.cell_capacity as nat) {
            Some(i) => {
                let placed = CellRow {
                    key,
                    count,
                    last_update_millis: millis,
                    origin_sequence: sequence,
                };
                lemma_row_placed(slots, state.config.cell_capacity as nat, key, placed, i);
                lemma_others_kept(state, key, placed, i);
            },
            None => {},
        },
    }
}

/// All that some deltas add downstream.
pub open spec fn rise<C: Count>(deltas: Seq<(AggregateKey, C)>) -> nat
    decreases deltas.len(),
{
    if deltas.len() == 0 {
        0
    } else {
        rise(deltas.drop_last()) + deltas.last().1.value()
    }
}

/// What is handed on for a cell that is raised is exactly what its count rose
/// by, under the cell's own key: whoever adds it up has the cell's count.
pub proof fn lemma_raise_reports_rise<C: Count>(
    state: StoreState<C>,
    key: CellKey,
    aggregate: AggregateKey,
    count: C,
    millis: u64,
    sequence: u64,
    local: bool,
)
    ensures
        ({
            let applied = state.raised(key, aggregate, count, millis, sequence, local);
            &&& state.count_of(key) + rise(applied.deltas) == applied.state.count_of(key)
            &&& forall|i: int|
                0 <= i < applied.deltas.len() ==> (#[trigger] applied.deltas[i]).0 == aggregate
        }),
{
    let applied = state.raised(key, aggregate, count, millis, sequence, local);
    lemma_raise_takes_larger(state, key, aggregate, count, millis, sequence, local);
    reveal_with_fuel(rise, 2);
    if applied.deltas.len() > 0 {
        assert(applied.deltas.drop_last() =~= Seq::<(AggregateKey, C)>::empty());
        match state.position(key) {
            Some(i) => {
                let was = state.slots[i].row->0.count.value();
                count.lemma_value();
                C::lemma_of((count.value() - was) as nat);
            },
            None => {},
        }
    } else {
        count.lemma_value();
    }
}

proof fn lemma_others_kept<C: Count>(
    state: StoreState<C>,
    key: CellKey,
    row: CellRow<C>,
    i: int,
)
    requires
        row.key == key,
        0 <= i <= state.slots.len(),
        i < state.slots.len() ==> state.slots[i].row is None || state.slots[i].row->0.key == key,
        forall|other: CellKey|
            other != key ==> first_where(
                with_row(state.slots, i, row),
                #[trigger] holds_key::<C>(other),
            ) == first_where(state.slots, holds_key::<C>(other)),
    ensures
        forall|other: CellKey, local: bool|
            other != key ==> #[trigger] state.placed(i, row, local).count_of(other)
                == state.count_of(other),
{
    assert forall|other: CellKey, local: bool|
        other != key implies #[trigger] state.placed(i, row, local).count_of(other)
        == state.count_of(other) by {
        let q = holds_key::<C>(other);
        lemma_first_where(state.slots, q);
        match first_where(state.slots, q) {
            Some(k) => {
                assert(q(state.slots[k]));
                assert(k != i);
                assert(with_row(state.slots, i, row)[k] == state.slots[k]);
            },
            None => {},
        }
    }
}

/// Hearing the same thing again changes nothing, and nothing is handed on.
pub proof fn lemma_merge_twice<C: Count>(
    state: StoreState<C>,
    observation: Observation<C>,
    sequence: u64,
)
    ensures
        ({
            let once = state.merged_one(observation, sequence).state;
            let again = once.merged_one(observation, sequence);
            again.state == once && again.deltas.len() == 0
        }),
{
    let node = NodeDescriptor {
        node_id: observation.origin,
        incarnation: observation.incarnation,
    };
    let ready = state.interned(observation, node);
    let once = state.merged_one(observation, sequence).state;
    let descriptor = RuleDescriptor::spec_wire_only(observation.rule_fingerprint);
    let ruled = state.with_rule(descriptor);
    lemma_rule_interned(state.rules, state.config.rule_dictionary_capacity as nat, descriptor);
    lemma_node_interned(state.nodes, state.config.node_dictionary_capacity as nat, node);
    assert(ready.rules == ruled.rules);
    assert(once.rules == ready.rules && once.nodes == ready.nodes && once.config == ready.config);
    assert(once.interned(observation, node) =~= once);
    assert(once.key_of(observation, node) == ready.key_of(observation, node));
    if let Some(key) = ready.key_of(observation, node) {
        lemma_first_where(ready.slots, holds_key::<C>(key));
        lemma_first_where(ready.slots, is_free::<C>());
        lemma_raise_twice(
            ready,
            key,
            super::state::aggregate_key(observation),
            observation.count,
            observation.last_update_millis,
            sequence,
        );
    }
}

proof fn lemma_raise_twice<C: Count>(
    state: StoreState<C>,
    key: CellKey,
    aggregate: AggregateKey,
    count: C,
    millis: u64,
    sequence: u64,
)
    ensures
        ({
            let once = state.raised(key, aggregate, count, millis, sequence, false).state;
            let again = once.raised(key, aggregate, count, millis, sequence, false);
            again.state == once && again.deltas.len() == 0
        }),
{
    let slots = state.slots;
    lemma_first_where(slots, holds_key::<C>(key));
    lemma_first_where(slots, is_free::<C>());
    match state.position(key) {
        Some(i) => {
            let row = slots[i].row->0;
            if row.count.value() < count.value() {
                let placed = CellRow {
                    key,
                    count,
                    last_update_millis: super::state::larger(row.last_update_millis, millis),
                    origin_sequence: super::state::larger(row.origin_sequence, sequence),
                };
                lemma_row_placed(slots, state.config.cell_capacity as nat, key, placed, i);
            }
        },
        None => match free_slot(slots, state.config.cell_capacity as nat) {
            Some(i) => {
                let placed = CellRow {
                    key,
                    count,
                    last_update_millis: millis,
                    origin_sequence: sequence,
                };
                lemma_row_placed(slots, state.config.cell_capacity as nat, key, placed, i);
            },
            None => {},
        },
    }
}

/// No count ever falls by merging.
pub proof fn lemma_merge_never_lowers<C: Count>(
    state: StoreState<C>,
    batch: Seq<Observation<C>>,
    sequences: Seq<u64>,
    key: CellKey,
)
    ensures
        state.merged(batch, sequences).state.count_of(key) >= state.count_of(key),
    decreases batch.len(),
{
    if batch.len() > 0 {
        lemma_merge_never_lowers(state, batch.drop_last(), sequences, key);
        let before = state.merged(batch.drop_last(), sequences).state;
        let o = batch.last();
        let node = NodeDescriptor { node_id: o.origin, incarnation: o.incarnation };
        let ready = before.interned(o, node);
        if let Some(k) = ready.key_of(o, node) {
            lemma_raise_takes_larger(
                ready,
                k,
                super::state::aggregate_key(o),
                o.count,
                o.last_update_millis,
                sequences[batch.len() - 1],
                false,
            );
        }
    }
}

/// Where an observation comes from.
pub open spec fn origin_of<C: Count>(o: Observation<C>) -> NodeDescriptor {
    NodeDescriptor { node_id: o.origin, incarnation: o.incarnation }
}

/// Whether two observations are of the same cell.
pub open spec fn same_cell<C: Count>(a: Observation<C>, b: Observation<C>) -> bool {
    &&& a.rule_fingerprint == b.rule_fingerprint
    &&& a.key_hash == b.key_hash
    &&& a.bucket == b.bucket
    &&& origin_of(a) == origin_of(b)
}

/// The count held of the cell that an observation is of, zero if there is none.
pub open spec fn counted<C: Count>(state: StoreState<C>, o: Observation<C>) -> nat {
    match state.key_of(o, origin_of(o)) {
        Some(key) => state.count_of(key),
        None => 0,
    }
}

/// Whether there is room for what an observation brings: slots for its rule and
/// its origin, and a cell.
pub open spec fn has_room<C: Count>(state: StoreState<C>, o: Observation<C>) -> bool {
    let ready = state.interned(o, origin_of(o));
    match ready.key_of(o, origin_of(o)) {
        Some(key) => ready.position(key) is Some || free_slot(
            ready.slots,
            ready.config.cell_capacity as nat,
        ) is Some,
        None => false,
    }
}

/// What every store keeps of its tables.
pub open spec fn tables_wf<C: Count>(state: StoreState<C>) -> bool {
    &&& state.rows_wf()
    &&& state.rules.len() <= state.config.rule_dictionary_capacity
    &&& state.nodes.len() <= state.config.node_dictionary_capacity
}

proof fn lemma_rule_pushed(entries: Seq<RuleDescriptor>, d: RuleDescriptor, fingerprint: u128)
    ensures
        rule_position(entries.push(d), fingerprint) == match rule_position(entries, fingerprint) {
            Some(i) => Some(i),
            None => if d.fingerprint == fingerprint {
                Some(entries.len() as int)
            } else {
                None
            },
        },
        rule_position(entries, fingerprint) matches Some(i) ==> 0 <= i < entries.len()
            && entries[i].fingerprint == fingerprint,
{
    let p = same_rule(fingerprint);
    let then = entries.push(d);
    lemma_first_where(entries, p);
    match rule_position(entries, fingerprint) {
        Some(i) => {
            assert forall|j: int| 0 <= j < i implies !p(#[trigger] then[j]) by {
                assert(!p(entries[j]));
            }
            assert(p(then[i]));
            lemma_first_where_at(then, p, i);
        },
        None => {
            assert forall|j: int| 0 <= j < entries.len() implies !p(#[trigger] then[j]) by {
                assert(!p(entries[j]));
            }
            if d.fingerprint == fingerprint {
                lemma_first_where_at(then, p, entries.len() as int);
            } else {
                lemma_first_where_none(then, p);
            }
        },
    }
}

proof fn lemma_node_pushed(entries: Seq<NodeDescriptor>, d: NodeDescriptor, node: NodeDescriptor)
    ensures
        node_position(entries.push(d), node) == match node_position(entries, node) {
            Some(i) => Some(i),
            None => if d == node {
                Some(entries.len() as int)
            } else {
                None
            },
        },
        node_position(entries, node) matches Some(i) ==> 0 <= i < entries.len() && entries[i]
            == node,
{
    let p = same_node(node);
    let then = entries.push(d);
    lemma_first_where(entries, p);
    match node_position(entries, node) {
        Some(i) => {
            assert forall|j: int| 0 <= j < i implies !p(#[trigger] then[j]) by {
                assert(!p(entries[j]));
            }
            assert(p(then[i]));
            lemma_first_where_at(then, p, i);
        },
        None => {
            assert forall|j: int| 0 <= j < entries.len() implies !p(#[trigger] then[j]) by {
                assert(!p(entries[j]));
            }
            if d == node {
                lemma_first_where_at(then, p, entries.len() as int);
            } else {
                lemma_first_where_none(then, p);
            }
        },
    }
}

/// A key whose rule or origin has no slot yet names no cell.
proof fn lemma_no_such_row<C: Count>(state: StoreState<C>, key: CellKey)
    requires
        state.rows_wf(),
        key.rule >= state.rules.len() || key.origin >= state.nodes.len(),
    ensures
        state.count_of(key) == 0,
{
    let p = holds_key::<C>(key);
    assert forall|j: int| 0 <= j < state.slots.len() implies !p(#[trigger] state.slots[j]) by {}
    lemma_first_where_none(state.slots, p);
}

/// Giving out slots changes no count.
proof fn lemma_interning_keeps_counts<C: Count>(
    state: StoreState<C>,
    o: Observation<C>,
    p: Observation<C>,
)
    requires
        tables_wf(state),
    ensures
        tables_wf(state.interned(o, origin_of(o))),
        counted(state.interned(o, origin_of(o)), p) == counted(state, p),
{
    let d = RuleDescriptor::spec_wire_only(o.rule_fingerprint);
    let ready = state.interned(o, origin_of(o));
    lemma_rule_pushed(state.rules, d, p.rule_fingerprint);
    lemma_rule_pushed(state.rules, d, o.rule_fingerprint);
    lemma_node_pushed(state.nodes, origin_of(o), origin_of(p));
    assert(ready.slots == state.slots);
    match (state.key_of(p, origin_of(p)), ready.key_of(p, origin_of(p))) {
        (Some(k), Some(l)) => {
            assert(k == l);
        },
        (None, Some(l)) => {
            lemma_no_such_row(state, l);
            assert(ready.count_of(l) == state.count_of(l));
        },
        (Some(k), None) => {
            assert(false);
        },
        (None, None) => {},
    }
    assert forall|i: int| 0 <= i < ready.slots.len() && (#[trigger] ready.slots[i]).row is Some implies ({
        &&& ready.slots[i].row->0.key.rule < ready.rules.len()
        &&& ready.slots[i].row->0.key.origin < ready.nodes.len()
        &&& ready.nodes[ready.slots[i].row->0.key.origin as int].incarnation
            == ready.slots[i].row->0.key.incarnation
    }) by {
        assert(state.slots[i].row is Some);
    }
}

/// Merging an observation takes, of its own cell, the larger of the two counts,
/// and leaves every other cell alone. So in whatever order and however often
/// things are heard, the counts come out the same.
pub proof fn lemma_merge_takes_larger<C: Count>(
    state: StoreState<C>,
    o: Observation<C>,
    sequence: u64,
    p: Observation<C>,
)
    requires
        tables_wf(state),
        has_room(state, o),
    ensures
        counted(state.merged_one(o, sequence).state, p) == if same_cell(o, p) && counted(state, p)
            < o.count.value() {
            o.count.value()
        } else {
            counted(state, p)
        },
{
    let ready = state.interned(o, origin_of(o));
    let after = state.merged_one(o, sequence).state;
    lemma_interning_keeps_counts(state, o, p);
    let d = RuleDescriptor::spec_wire_only(o.rule_fingerprint);
    lemma_rule_pushed(ready.rules, d, p.rule_fingerprint);
    lemma_rule_pushed(ready.rules, d, o.rule_fingerprint);
    lemma_node_pushed(ready.nodes, origin_of(o), origin_of(p));
    lemma_node_pushed(ready.nodes, origin_of(o), origin_of(o));
    let key = ready.key_of(o, origin_of(o))->0;
    lemma_raise_takes_larger(
        ready,
        key,
        super::state::aggregate_key(o),
        o.count,
        o.last_update_millis,
        sequence,
        false,
    );
    assert(after.rules == ready.rules && after.nodes == ready.nodes);
    assert(after.key_of(p, origin_of(p)) == ready.key_of(p, origin_of(p)));
    if let Some(k) = ready.key_of(p, origin_of(p)) {
        assert(k == key <==> same_cell(o, p));
    }
}

/// Merging keeps the tables sound.
pub proof fn lemma_merge_keeps_tables<C: Count>(
    state: StoreState<C>,
    o: Observation<C>,
    sequence: u64,
)
    requires
        tables_wf(state),
    ensures
        tables_wf(state.merged_one(o, sequence).state),
{
    let ready = state.interned(o, origin_of(o));
    let after = state.merged_one(o, sequence).state;
    lemma_interning_keeps_counts(state, o, o);
    lemma_rule_pushed(
        ready.rules,
        RuleDescriptor::spec_wire_only(o.rule_fingerprint),
        o.rule_fingerprint,
    );
    lemma_node_pushed(ready.nodes, origin_of(o), origin_of(o));
    if let Some(key) = ready.key_of(o, origin_of(o)) {
        lemma_first_where(ready.slots, holds_key::<C>(key));
        lemma_first_where(ready.slots, is_free::<C>());
        assert forall|i: int, j: int|
            0 <= i < j < after.slots.len() && (#[trigger] after.slots[i]).row is Some && (
            #[trigger] after.slots[j]).row is Some implies after.slots[i].row->0.key
            != after.slots[j].row->0.key by {
            if j < ready.slots.len() {
                assert(holds_key::<C>(key)(ready.slots[i]) == (ready.slots[i].row is Some
                    && ready.slots[i].row->0.key == key));
                assert(holds_key::<C>(key)(ready.slots[j]) == (ready.slots[j].row is Some
                    && ready.slots[j].row->0.key == key));
            } else {
                assert(holds_key::<C>(key)(ready.slots[i]) == (ready.slots[i].row is Some
                    && ready.slots[i].row->0.key == key));
            }
        }
    }
}

/// Counting local hits adds them to the local origin's own cell, as far as a
/// count goes, and leaves every other cell alone. `own` is `o` under the local
/// origin.
pub proof fn lemma_ingest_adds<C: Count>(
    state: StoreState<C>,
    o: Observation<C>,
    own: Observation<C>,
    p: Observation<C>,
)
    requires
        tables_wf(state),
        own == (Observation {
            origin: state.identity.node_id,
            incarnation: state.identity.incarnation,
            ..o
        }),
        has_room(state, own),
    ensures
        counted(state.ingested_one(o).state, p) == if same_cell(own, p) {
            C::of(counted(state, p) + o.count.value()).value()
        } else {
            counted(state, p)
        },
{
    let node = origin_of(own);
    let ready = state.interned(own, node);
    assert(ready == state.interned(o, node));
    let after = state.ingested_one(o).state;
    lemma_interning_keeps_counts(state, own, p);
    let d = RuleDescriptor::spec_wire_only(o.rule_fingerprint);
    lemma_rule_pushed(ready.rules, d, p.rule_fingerprint);
    lemma_rule_pushed(ready.rules, d, o.rule_fingerprint);
    lemma_node_pushed(ready.nodes, node, origin_of(p));
    lemma_node_pushed(ready.nodes, node, node);
    let key = ready.key_of(own, node)->0;
    assert(ready.key_of(o, node) == Some(key));
    let stamped = StoreState {
        next_sequence: if ready.next_sequence < u64::MAX {
            (ready.next_sequence + 1) as u64
        } else {
            u64::MAX
        },
        ..ready
    };
    assert(forall|k: CellKey| stamped.count_of(k) == #[trigger] ready.count_of(k));
    let sum = stamped.count_of(key) + o.count.value();
    lemma_raise_takes_larger(
        stamped,
        key,
        super::state::aggregate_key(o),
        C::of(sum),
        o.last_update_millis,
        ready.next_sequence,
        true,
    );
    C::lemma_of(sum);
    C::of(sum).lemma_value();
    assert(after.rules == ready.rules && after.nodes == ready.nodes);
    assert(after.key_of(p, origin_of(p)) == ready.key_of(p, origin_of(p)));
    if let Some(k) = ready.key_of(p, origin_of(p)) {
        assert(k == key <==> same_cell(own, p));
    }
    match stamped.position(key) {
        Some(i) => {
            stamped.slots[i].row->0.count.lemma_value();
        },
        None => {},
    }
}

/// Two observations can be heard in either order.
pub proof fn lemma_merge_order_free<C: Count>(
    state: StoreState<C>,
    a: Observation<C>,
    b: Observation<C>,
    a_sequence: u64,
    b_sequence: u64,
    p: Observation<C>,
)
    requires
        tables_wf(state),
        has_room(state, a),
        has_room(state, b),
        has_room(state.merged_one(a, a_sequence).state, b),
        has_room(state.merged_one(b, b_sequence).state, a),
    ensures
        counted(state.merged_one(a, a_sequence).state.merged_one(b, b_sequence).state, p)
            == counted(state.merged_one(b, b_sequence).state.merged_one(a, a_sequence).state, p),
{
    lemma_merge_keeps_tables(state, a, a_sequence);
    lemma_merge_keeps_tables(state, b, b_sequence);
    lemma_merge_takes_larger(state, a, a_sequence, p);
    lemma_merge_takes_larger(state, b, b_sequence, p);
    lemma_merge_takes_larger(state.merged_one(a, a_sequence).state, b, b_sequence, p);
    lemma_merge_takes_larger(state.merged_one(b, b_sequence).state, a, a_sequence, p);
}

} // verus!
