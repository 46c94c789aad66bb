//! What a node shows of itself.

use crate::crdt::dictionary::RULE_FLAG_WIRE_ONLY;
use crate::crdt::state::resolve;
use crate::crdt::{
    BucketEpoch, CellRow, CellSlot, CellStore, CellStoreStats, Count, Incarnation, NodeIdentity,
    StoreState,
};
use crate::gossip::node::PeerEntry;
use vstd::prelude::*;

verus! {

/// A node at one moment.
#[derive(Debug)]
pub struct AdminSnapshot {
    pub local_identity: NodeIdentity,
    pub peers: Vec<PeerEntry>,
    pub store_stats: CellStoreStats,
    pub local_dirty_len: u32,
    pub forwarded_dirty_len: u32,
    pub send_pending_depth: usize,
    /// Packets refused.
    pub decode_reject_count: u64,
    /// The most packets that ever waited.
    pub max_send_pending_depth: usize,
    /// Ticks, early ones included.
    pub ticks_total: u64,
    /// Ticks brought forward because a rule's error budget was passed.
    pub threshold_fires: u64,
    /// Ticks that had something to send.
    pub dirty_ticks: u64,
    /// Peers the last tick that sent chose.
    pub last_effective_fanout: usize,
    /// The most peers a tick ever chose.
    pub peak_effective_fanout: usize,
    /// Hits that the rule last counted may hold back.
    pub last_error_budget: u64,
}

/// Every live cell of a node.
#[derive(Debug)]
pub struct CellDumpSnapshot {
    pub local_identity: NodeIdentity,
    pub cells: Vec<CellDumpEntry>,
}

/// One live cell, with its rule and its origin looked up.
#[derive(Clone, Copy, Debug, PartialEq, Eq, Structural)]
pub struct CellDumpEntry {
    pub rule_fingerprint: u128,
    pub key_hash: u128,
    pub bucket: BucketEpoch,
    pub count: u64,
    pub last_update_millis: u64,
    pub origin_sequence: u64,
    pub origin_node_id: Option<u128>,
    pub origin_incarnation: Option<Incarnation>,
    pub rule_window_millis: u32,
    pub rule_bucket_millis: u32,
    pub rule_limit: u64,
    /// Whether this node has the rule configured.
    pub applies_locally: bool,
}

/// A cell as it is shown. Every live cell's rule and origin are known.
pub open spec fn entry_of<C: Count>(state: StoreState<C>, row: CellRow<C>) -> CellDumpEntry {
    let rule = state.rules[row.key.rule as int];
    let node = state.nodes[row.key.origin as int];
    CellDumpEntry {
        rule_fingerprint: rule.fingerprint,
        key_hash: row.key.key_hash.0,
        bucket: row.key.bucket,
        count: row.count.value() as u64,
        last_update_millis: row.last_update_millis,
        origin_sequence: row.origin_sequence,
        origin_node_id: Some(node.node_id.0),
        origin_incarnation: Some(node.incarnation),
        rule_window_millis: rule.window_millis,
        rule_bucket_millis: rule.bucket_millis,
        rule_limit: rule.limit,
        applies_locally: rule.flags & RULE_FLAG_WIRE_ONLY == 0,
    }
}

/// All live cells as they are shown, in slot order.
pub open spec fn entries_of<C: Count>(state: StoreState<C>, n: nat) -> Seq<CellDumpEntry>
    decreases n,
{
    if n == 0 {
        Seq::empty()
    } else {
        let before = entries_of(state, (n - 1) as nat);
        match state.slots[n - 1].row {
            Some(row) => before.push(entry_of(state, row)),
            None => before,
        }
    }
}

/// Shows every live cell of a store.
pub fn dump_cells<C: Count>(store: &CellStore<C>) -> (dump: CellDumpSnapshot)
    requires
        store.wf(),
    ensures
        dump.local_identity == store@.identity,
        dump.cells@ == entries_of(store@, store@.slots.len()),
{
    let ghost state = store@;
    proof {
        store.lemma_wf();
    }
    let handles = store.active_handles();
    let mut cells: Vec<CellDumpEntry> = Vec::new();
    let mut i: usize = 0;
    proof {
        lemma_live_entries(state, state.slots.len());
    }
    while i < handles.len()
        invariant
            state == store@,
            store.wf(),
            state.rows_wf(),
            handles@ == state.live_handles(state.slots.len()),
            i <= handles@.len(),
            entries_of(state, state.slots.len()).len() == handles@.len(),
            forall|j: int|
                #![trigger handles@[j]]
                0 <= j < handles@.len() ==> {
                    &&& resolve(state.slots, handles@[j]) is Some
                    &&& entries_of(state, state.slots.len())[j] == entry_of(
                        state,
                        resolve(state.slots, handles@[j])->0,
                    )
                },
            cells@ =~= entries_of(state, state.slots.len()).take(i as int),
        decreases handles@.len() - i,
    {
        if let Some(row) = store.get(handles[i]) {
            proof {
                row.count.lemma_value();
            }
            if let (Some(rule), Some(node)) = (
                store.rule_dictionary().descriptor(row.key.rule),
                store.node_dictionary().descriptor(row.key.origin),
            ) {
                cells.push(
                    CellDumpEntry {
                        rule_fingerprint: rule.fingerprint,
                        key_hash: row.key.key_hash.0,
                        bucket: row.key.bucket,
                        count: row.count.get(),
                        last_update_millis: row.last_update_millis,
                        origin_sequence: row.origin_sequence,
                        origin_node_id: Some(node.node_id.0),
                        origin_incarnation: Some(node.incarnation),
                        rule_window_millis: rule.window_millis,
                        rule_bucket_millis: rule.bucket_millis,
                        rule_limit: rule.limit,
                        applies_locally: rule.flags & RULE_FLAG_WIRE_ONLY == 0,
                    },
                );
            }
        }
        i = i + 1;
    }
    assert(cells@ =~= entries_of(state, state.slots.len()));
    CellDumpSnapshot { local_identity: store.local_identity(), cells }
}

/// The entries and the live handles name the same rows in the same order.
proof fn lemma_live_entries<C: Count>(state: StoreState<C>, n: nat)
    requires
        n <= state.slots.len(),
        state.slots.len() <= u32::MAX,
    ensures
        entries_of(state, n).len() == state.live_handles(n).len(),
        forall|j: int|
            #![trigger state.live_handles(n)[j]]
            0 <= j < state.live_handles(n).len() ==> {
                &&& resolve(state.slots, state.live_handles(n)[j]) is Some
                &&& entries_of(state, n)[j] == entry_of(
                    state,
                    resolve(state.slots, state.live_handles(n)[j])->0,
                )
            },
    decreases n,
{
    if n > 0 {
        lemma_live_entries(state, (n - 1) as nat);
        assert forall|j: int|
            #![trigger state.live_handles(n)[j]]
            0 <= j < state.live_handles(n).len() implies {
            &&& resolve(state.slots, state.live_handles(n)[j]) is Some
            &&& entries_of(state, n)[j] == entry_of(
                state,
                resolve(state.slots, state.live_handles(n)[j])->0,
            )
        } by {
            if j < state.live_handles((n - 1) as nat).len() {
                assert(state.live_handles(n)[j] == state.live_handles((n - 1) as nat)[j]);
            }
        }
    }
}

/// The dump holds an entry for every live cell, in the order of their places, that
/// says of it what the store does.
pub proof fn lemma_dump_complete<C: Count>(state: StoreState<C>, n: nat)
    requires
        n <= state.slots.len(),
    ensures
        entries_of(state, n).len() == state.slots.take(n as int).filter(
            |slot: CellSlot<C>| slot.row is Some,
        ).len(),
        forall|k: int|
            0 <= k < entries_of(state, n).len() ==> {
                let entry = #[trigger] entries_of(state, n)[k];
                let row = state.slots.take(n as int).filter(
                    |slot: CellSlot<C>| slot.row is Some,
                )[k].row->0;
                let rule = state.rules[row.key.rule as int];
                let node = state.nodes[row.key.origin as int];
                &&& entry.rule_fingerprint == rule.fingerprint
                &&& entry.key_hash == row.key.key_hash.0
                &&& entry.bucket == row.key.bucket
                &&& entry.last_update_millis == row.last_update_millis
                &&& entry.origin_sequence == row.origin_sequence
                &&& row.count.value() <= u64::MAX ==> entry.count == row.count.value()
                &&& entry.origin_node_id == Some(node.node_id.0)
                &&& entry.origin_incarnation == Some(node.incarnation)
                &&& entry.rule_window_millis == rule.window_millis
                &&& entry.rule_bucket_millis == rule.bucket_millis
                &&& entry.rule_limit == rule.limit
                &&& entry.applies_locally <==> rule.flags & 0x8000_0000u32 == 0
            },
    decreases n,
{
    reveal(Seq::filter);
    if n > 0 {
        lemma_dump_complete(state, (n - 1) as nat);
        assert(state.slots.take(n as int).drop_last() =~= state.slots.take(n - 1));
        let p = |slot: CellSlot<C>| slot.row is Some;
        let was = state.slots.take(n - 1).filter(p);
        let now = state.slots.take(n as int).filter(p);
        let before = entries_of(state, (n - 1) as nat);
        let after = entries_of(state, n);
        assert forall|k: int| 0 <= k < before.len() implies after[k] == #[trigger] before[k]
            && now[k] == was[k] by {}
    }
}

} // verus!
