//! Downstream counts are what a node's cells add up to.
//!
//! Whatever happens to a node, the rows applied downstream keep the counts
//! there in step with the node's cells, summed over all origins.

use crate::crdt::laws::tables_wf;
use crate::crdt::totals::{
    cells_sum, lemma_ingested_sum, lemma_merged_sum, lemma_swept_sum, sum_for,
};
use crate::crdt::{AggregateKey, Count, KeyHash, StoreState};
use crate::gossip::aggregate::{all_lowered, all_raised, applied, lowered, raised, row_of, TotalRow};
use crate::gossip::events::{deltas_of, event_taken, expirations_of, NodeEvent};
use crate::gossip::node::{
    effective_fanout, hit_observation, node_header, sequences_of, served_through, turn_taken,
    GossipConfig, NodeState, PeerEntry,
};
use crate::seqs::{first_where, lemma_first_where, lemma_first_where_at, lemma_first_where_none};
use crate::wire::{decoded, decoded_cells, observed_all, FrameLimits, Header};
use vstd::prelude::*;

verus! {

/// The count that some rows hold of a key, zero if none does.
pub open spec fn total_of(rows: Seq<TotalRow>, key: AggregateKey) -> nat {
    match first_where(rows, row_of(key)) {
        Some(i) => rows[i].1 as nat,
        None => 0,
    }
}

/// Whether each key has one row at most.
pub open spec fn keys_once(rows: Seq<TotalRow>) -> bool {
    forall|i: int, j: int| 0 <= i < j < rows.len() ==> (#[trigger] rows[i]).0 != (#[trigger] rows[j]).0
}

/// Whether downstream counts are what a store's cells add up to.
pub open spec fn mirrors<C: Count>(rows: Seq<TotalRow>, store: StoreState<C>) -> bool {
    &&& keys_once(rows)
    &&& forall|key: AggregateKey| #[trigger] total_of(rows, key) == cells_sum(store, key)
}

/// A key's count is that of any row that holds the key.
proof fn lemma_total_at(rows: Seq<TotalRow>, i: int)
    requires
        keys_once(rows),
        0 <= i < rows.len(),
    ensures
        total_of(rows, rows[i].0) == rows[i].1,
        first_where(rows, row_of(rows[i].0)) == Some(i),
{
    let p = row_of(rows[i].0);
    assert forall|j: int| 0 <= j < i implies !p(#[trigger] rows[j]) by {}
    lemma_first_where_at(rows, p, i);
}

proof fn lemma_total_none(rows: Seq<TotalRow>, key: AggregateKey)
    requires
        forall|i: int| 0 <= i < rows.len() ==> (#[trigger] rows[i]).0 != key,
    ensures
        total_of(rows, key) == 0,
        first_where(rows, row_of(key)) is None,
{
    let p = row_of(key);
    assert forall|j: int| 0 <= j < rows.len() implies !p(#[trigger] rows[j]) by {}
    lemma_first_where_none(rows, p);
}

/// Two lists of rows that hold the same of a key.
proof fn lemma_same_total(a: Seq<TotalRow>, b: Seq<TotalRow>, key: AggregateKey)
    requires
        keys_once(a),
        keys_once(b),
        forall|i: int| 0 <= i < a.len() && (#[trigger] a[i]).0 == key ==> b.contains(a[i]),
        forall|i: int| 0 <= i < b.len() && (#[trigger] b[i]).0 == key ==> a.contains(b[i]),
    ensures
        total_of(a, key) == total_of(b, key),
{
    lemma_first_where(a, row_of(key));
    match first_where(a, row_of(key)) {
        Some(i) => {
            let j = choose|j: int| 0 <= j < b.len() && b[j] == a[i];
            assert(row_of(key)(a[i]));
            lemma_total_at(b, j);
        },
        None => {
            assert forall|j: int| 0 <= j < b.len() implies (#[trigger] b[j]).0 != key by {
                if b[j].0 == key {
                    let i = choose|i: int| 0 <= i < a.len() && a[i] == b[j];
                    assert(!row_of(key)(a[i]));
                }
            }
            lemma_total_none(b, key);
        },
    }
}

/// Raising a key's count raises it and no other.
proof fn lemma_raised_total(rows: Seq<TotalRow>, key: AggregateKey, delta: nat, k: AggregateKey)
    requires
        keys_once(rows),
    ensures
        keys_once(raised(rows, key, delta)),
        k != key ==> total_of(raised(rows, key, delta), k) == total_of(rows, k),
        total_of(rows, key) + delta <= u64::MAX ==> total_of(raised(rows, key, delta), key)
            == total_of(rows, key) + delta,
{
    let after = raised(rows, key, delta);
    lemma_first_where(rows, row_of(key));
    match first_where(rows, row_of(key)) {
        Some(i) => {
            assert(row_of(key)(rows[i]));
            lemma_total_at(after, i);
            if k != key {
                assert forall|j: int| 0 <= j < rows.len() && (#[trigger] rows[j]).0 == k implies
                    after.contains(rows[j]) by {
                    assert(after[j] == rows[j]);
                }
                assert forall|j: int| 0 <= j < after.len() && (#[trigger] after[j]).0 == k implies
                    rows.contains(after[j]) by {
                    assert(after[j] == rows[j]);
                }
                lemma_same_total(after, rows, k);
            }
        },
        None => {
            assert forall|i: int, j: int| 0 <= i < j < after.len() implies (#[trigger] after[i]).0
                != (#[trigger] after[j]).0 by {
                assert(!row_of(key)(rows[i]));
            }
            lemma_total_at(after, rows.len() as int);
            if k != key {
                assert forall|j: int| 0 <= j < rows.len() && (#[trigger] rows[j]).0 == k implies
                    after.contains(rows[j]) by {
                    assert(after[j] == rows[j]);
                }
                assert forall|j: int| 0 <= j < after.len() && (#[trigger] after[j]).0 == k implies
                    rows.contains(after[j]) by {
                    assert(after[j] == rows[j]);
                }
                lemma_same_total(after, rows, k);
            }
        },
    }
}

/// Lowering a key's count lowers it and no other.
proof fn lemma_lowered_total(rows: Seq<TotalRow>, key: AggregateKey, count: nat, k: AggregateKey)
    requires
        keys_once(rows),
    ensures
        keys_once(lowered(rows, key, count)),
        k != key ==> total_of(lowered(rows, key, count), k) == total_of(rows, k),
        count <= total_of(rows, key) ==> total_of(lowered(rows, key, count), key) + count
            == total_of(rows, key),
{
    let after = lowered(rows, key, count);
    lemma_first_where(rows, row_of(key));
    match first_where(rows, row_of(key)) {
        Some(i) => {
            assert(row_of(key)(rows[i]));
            if rows[i].1 <= count {
                assert forall|j: int| 0 <= j < after.len() implies (#[trigger] after[j]) == if j < i {
                    rows[j]
                } else {
                    rows[j + 1]
                } by {}
                assert forall|j: int| 0 <= j < after.len() implies (#[trigger] after[j]).0 != key by {
                    if j < i {
                        assert(after[j] == rows[j]);
                    } else {
                        assert(after[j] == rows[j + 1]);
                    }
                }
                lemma_total_none(after, key);
                if k != key {
                    assert forall|j: int| 0 <= j < rows.len() && (#[trigger] rows[j]).0 == k implies
                        after.contains(rows[j]) by {
                        if j < i {
                            assert(after[j] == rows[j]);
                        } else {
                            assert(after[j - 1] == rows[j]);
                        }
                    }
                    assert forall|j: int| 0 <= j < after.len() && (#[trigger] after[j]).0 == k implies
                        rows.contains(after[j]) by {
                        if j < i {
                            assert(after[j] == rows[j]);
                        } else {
                            assert(after[j] == rows[j + 1]);
                        }
                    }
                    lemma_same_total(after, rows, k);
                }
            } else {
                lemma_total_at(after, i);
                if k != key {
                    assert forall|j: int| 0 <= j < rows.len() && (#[trigger] rows[j]).0 == k implies
                        after.contains(rows[j]) by {
                        assert(after[j] == rows[j]);
                    }
                    assert forall|j: int| 0 <= j < after.len() && (#[trigger] after[j]).0 == k implies
                        rows.contains(after[j]) by {
                        assert(after[j] == rows[j]);
                    }
                    lemma_same_total(after, rows, k);
                }
            }
        },
        None => {},
    }
}

proof fn lemma_all_raised_total<C: Count>(
    rows: Seq<TotalRow>,
    deltas: Seq<(AggregateKey, C)>,
    key: AggregateKey,
)
    requires
        keys_once(rows),
    ensures
        keys_once(all_raised(rows, deltas)),
        total_of(rows, key) + sum_for(deltas, key) <= u64::MAX ==> total_of(
            all_raised(rows, deltas),
            key,
        ) == total_of(rows, key) + sum_for(deltas, key),
    decreases deltas.len(),
{
    if deltas.len() > 0 {
        lemma_all_raised_total(rows, deltas.drop_last(), key);
        lemma_raised_total(
            all_raised(rows, deltas.drop_last()),
            deltas.last().0,
            deltas.last().1.value(),
            key,
        );
    }
}

proof fn lemma_all_lowered_total<C: Count>(
    rows: Seq<TotalRow>,
    expirations: Seq<(AggregateKey, C)>,
    key: AggregateKey,
)
    requires
        keys_once(rows),
    ensures
        keys_once(all_lowered(rows, expirations)),
        sum_for(expirations, key) <= total_of(rows, key) ==> total_of(
            all_lowered(rows, expirations),
            key,
        ) + sum_for(expirations, key) == total_of(rows, key),
    decreases expirations.len(),
{
    if expirations.len() > 0 {
        lemma_all_lowered_total(rows, expirations.drop_last(), key);
        lemma_lowered_total(
            all_lowered(rows, expirations.drop_last()),
            expirations.last().0,
            expirations.last().1.value(),
            key,
        );
    }
}

/// Applying rows moves each key's count by what the rows carry for it: deltas
/// up, expirations down. No more may expire than was counted, and the counts
/// must fit.
pub proof fn lemma_applied_total<C: Count>(
    rows: Seq<TotalRow>,
    deltas: Seq<(AggregateKey, C)>,
    expirations: Seq<(AggregateKey, C)>,
    key: AggregateKey,
)
    requires
        keys_once(rows),
        total_of(rows, key) + sum_for(deltas, key) <= u64::MAX,
        sum_for(expirations, key) <= total_of(rows, key) + sum_for(deltas, key),
    ensures
        keys_once(applied(rows, deltas, expirations)),
        total_of(applied(rows, deltas, expirations), key) + sum_for(expirations, key) == total_of(
            rows,
            key,
        ) + sum_for(deltas, key),
{
    lemma_all_raised_total(rows, deltas, key);
    lemma_all_lowered_total(all_raised(rows, deltas), expirations, key);
}

/// Sending changes no cell.
proof fn lemma_served_keeps_cells<C: Count>(
    states: Seq<NodeState<C>>,
    max_cells: nat,
    header: Header,
    key: Option<Seq<u8>>,
    limits: FrameLimits,
    peers: Seq<PeerEntry>,
    n: int,
)
    requires
        served_through(states, max_cells, header, key, limits, peers),
        0 <= n < states.len(),
    ensures
        states[n].store.slots == states[0].store.slots,
        states[n].store.rules == states[0].store.rules,
    decreases n,
{
    if n > 0 {
        lemma_served_keeps_cells(states, max_cells, header, key, limits, peers, n - 1);
        let peer = peers[n - 1];
        assert(turn_taken(states[n - 1], states[n], max_cells, header, key, limits, peer));
    }
}

/// A store without cells and no counts downstream are in step.
pub proof fn lemma_fresh_mirrored<C: Count>(store: StoreState<C>)
    requires
        store.slots.len() == 0,
    ensures
        mirrors(Seq::<TotalRow>::empty(), store),
{
}

/// Downstream counts stay what a node's cells add up to: if they are before an
/// event, they are after its rows have been applied. So an acknowledged hit is
/// in them, and what has aged out is not. Every key's sum must fit a machine
/// word.
pub proof fn lemma_turn_mirrored<C: Count>(
    before: NodeState<C>,
    after: NodeState<C>,
    config: GossipConfig,
    auth: Option<Seq<u8>>,
    event: NodeEvent<'_>,
    clock_millis: u64,
    rows: Seq<TotalRow>,
)
    requires
        tables_wf(before.store),
        mirrors(rows, before.store),
        event_taken(before, after, config, auth, event, clock_millis),
        forall|key: AggregateKey| #[trigger] cells_sum(after.store, key) <= u64::MAX,
    ensures
        mirrors(
            applied(
                rows,
                deltas_of(before, auth, config.wire_limits, event),
                expirations_of(before, event, clock_millis),
            ),
            after.store,
        ),
{
    let deltas = deltas_of(before, auth, config.wire_limits, event);
    let expirations = expirations_of(before, event, clock_millis);
    let then = applied(rows, deltas, expirations);
    assert forall|key: AggregateKey| #[trigger] total_of(then, key) == cells_sum(after.store, key)
        && keys_once(then) by {
        assert(total_of(rows, key) == cells_sum(before.store, key));
        assert(cells_sum(after.store, key) <= u64::MAX);
        lemma_event_sum(before, after, config, auth, event, clock_millis, key);
        lemma_all_raised_total(rows, deltas, key);
        lemma_all_lowered_total(all_raised(rows, deltas), expirations, key);
    }
    let key = AggregateKey {
        rule_fingerprint: 0,
        key_hash: KeyHash(0),
        bucket: 0,
    };
    assert(total_of(then, key) == cells_sum(after.store, key) && keys_once(then));
}

/// An event moves what a node's cells add up to by the rows that come of it.
proof fn lemma_event_sum<C: Count>(
    before: NodeState<C>,
    after: NodeState<C>,
    config: GossipConfig,
    auth: Option<Seq<u8>>,
    event: NodeEvent<'_>,
    clock_millis: u64,
    key: AggregateKey,
)
    requires
        tables_wf(before.store),
        event_taken(before, after, config, auth, event, clock_millis),
    ensures
        cells_sum(after.store, key) + sum_for(expirations_of(before, event, clock_millis), key)
            == cells_sum(before.store, key) + sum_for(
            deltas_of(before, auth, config.wire_limits, event),
            key,
        ),
        deltas_of(before, auth, config.wire_limits, event).len() == 0 || expirations_of(
            before,
            event,
            clock_millis,
        ).len() == 0,
{
    match event {
        NodeEvent::Hit(hit) => {
            lemma_ingested_sum(before.store, seq![hit_observation::<C>(hit)], key);
        },
        NodeEvent::Packet { bytes, src } => {
            if decoded::<C>(bytes@, auth, config.wire_limits) is Ok {
                let cells = decoded_cells::<C>(bytes@, auth, config.wire_limits);
                let batch = observed_all(cells);
                lemma_merged_sum(before.store, batch, sequences_of(cells), key);
            }
        },
        NodeEvent::SendDone(_) => {},
        NodeEvent::PeerChange(_) => {},
        NodeEvent::Tick { coverage } => {
            lemma_swept_sum(before.store, clock_millis, key);
            let begun = before.tick_begun(clock_millis);
            if begun.tick_sends() {
                let drawn = begun.tick_drawn(config.fanout, coverage);
                let header = node_header(
                    config.cluster_id_hash,
                    before.store.identity,
                );
                let picks = effective_fanout(
                    config.fanout,
                    coverage,
                    begun.peers.len(),
                );
                let states = choose|states: Seq<NodeState<C>>|
                    {
                        &&& #[trigger] served_through(
                            states,
                            config.max_cells_per_tick as nat,
                            header,
                            auth,
                            config.wire_limits,
                            drawn.peers.take(picks),
                        )
                        &&& states[0] == drawn
                        &&& after == states.last().emit_stamped(clock_millis)
                    };
                lemma_served_keeps_cells(
                    states,
                    config.max_cells_per_tick as nat,
                    header,
                    auth,
                    config.wire_limits,
                    drawn.peers.take(picks),
                    states.len() - 1,
                );
            }
        },
    }
}

} // verus!
