//! What a cell store holds, and what each of its operations makes of it.

use super::batch::{AggregateKey, Observation};
use super::dictionary::{
    node_position, rule_position, NodeDescriptor, NodeDictionary, RuleDescriptor, RuleDictionary,
};
use super::frontier::FrontierRow;
use super::{BucketEpoch, Count, Incarnation, KeyHash, NodeIdentity, NodeSlot, RuleSlot};
use crate::seqs::first_where;
use vstd::prelude::*;

verus! {

/// Sizes of a store, fixed for its lifetime.
#[derive(Clone, Copy, Debug, PartialEq, Eq, Structural)]
pub struct CellStoreConfig {
    pub cell_capacity: u32,
    pub rule_dictionary_capacity: u16,
    pub node_dictionary_capacity: u16,
    pub local_dirty_capacity: u32,
    pub forwarded_dirty_capacity: u32,
    pub peer_capacity: u16,
}

impl Default for CellStoreConfig {
    fn default() -> (config: CellStoreConfig)
        ensures
            config == (CellStoreConfig {
                cell_capacity: 4096,
                rule_dictionary_capacity: 64,
                node_dictionary_capacity: 256,
                local_dirty_capacity: 1024,
                forwarded_dirty_capacity: 1024,
                peer_capacity: 256,
            }),
    {
        CellStoreConfig {
            cell_capacity: 4096,
            rule_dictionary_capacity: 64,
            node_dictionary_capacity: 256,
            local_dirty_capacity: 1024,
            forwarded_dirty_capacity: 1024,
            peer_capacity: 256,
        }
    }
}

/// Identity of a cell inside one store: dictionary slots in place of the wide
/// identifiers.
#[derive(Clone, Copy, Debug, PartialEq, Eq, Structural)]
pub struct CellKey {
    pub rule: RuleSlot,
    pub key_hash: KeyHash,
    pub bucket: BucketEpoch,
    pub origin: NodeSlot,
    pub incarnation: Incarnation,
}

/// One live cell.
#[derive(Copy, Debug)]
pub struct CellRow<C: Count> {
    pub key: CellKey,
    pub count: C,
    pub last_update_millis: u64,
    pub origin_sequence: u64,
}

impl<C: Count> Clone for CellRow<C> {
    fn clone(&self) -> (row: Self)
        ensures
            row == *self,
    {
        *self
    }
}

/// A place for a cell. The generation changes when a cell leaves, so a handle
/// to the old cell no longer resolves.
#[derive(Copy, Debug)]
pub struct CellSlot<C: Count> {
    pub generation: u32,
    pub row: Option<CellRow<C>>,
}

impl<C: Count> Clone for CellSlot<C> {
    fn clone(&self) -> (slot: Self)
        ensures
            slot == *self,
    {
        *self
    }
}

/// Names a cell for as long as it lives.
#[derive(Clone, Copy, Debug, PartialEq, Eq, Structural)]
pub struct CellHandle {
    pub index: u32,
    pub generation: u32,
}

/// Occupancy of a store.
#[derive(Clone, Copy, Debug, PartialEq, Eq, Structural)]
pub struct CellStoreStats {
    pub active_cells: u32,
    pub cell_capacity: u32,
    pub rules: u32,
    pub nodes: u32,
}

pub open spec fn holds_key<C: Count>(key: CellKey) -> spec_fn(CellSlot<C>) -> bool {
    |slot: CellSlot<C>| slot.row is Some && slot.row->0.key == key
}

pub open spec fn is_free<C: Count>() -> spec_fn(CellSlot<C>) -> bool {
    |slot: CellSlot<C>| slot.row is None
}

/// Where a new cell would go: the first free slot, else a new one if the store
/// may still grow.
pub open spec fn free_slot<C: Count>(slots: Seq<CellSlot<C>>, capacity: nat) -> Option<int> {
    match first_where(slots, is_free::<C>()) {
        Some(i) => Some(i),
        None => if slots.len() < capacity {
            Some(slots.len() as int)
        } else {
            None
        },
    }
}

/// The slots with `row` in slot `i`, which is one of them or the next.
pub open spec fn with_row<C: Count>(slots: Seq<CellSlot<C>>, i: int, row: CellRow<C>) -> Seq<
    CellSlot<C>,
> {
    if i < slots.len() {
        slots.update(i, CellSlot { generation: slots[i].generation, row: Some(row) })
    } else {
        slots.push(CellSlot { generation: 0, row: Some(row) })
    }
}

/// The handle of the cell in slot `i`.
pub open spec fn handle_at<C: Count>(slots: Seq<CellSlot<C>>, i: int) -> CellHandle {
    CellHandle { index: i as u32, generation: slots[i].generation }
}

/// The row a handle resolves to.
pub open spec fn resolve<C: Count>(slots: Seq<CellSlot<C>>, handle: CellHandle) -> Option<
    CellRow<C>,
> {
    if handle.index < slots.len() && slots[handle.index as int].generation == handle.generation {
        slots[handle.index as int].row
    } else {
        None
    }
}

/// A bounded ring of handles takes a handle once, and nothing when full.
pub open spec fn ring_with(ring: Seq<CellHandle>, capacity: nat, handle: CellHandle) -> Seq<
    CellHandle,
> {
    if ring.contains(handle) || ring.len() >= capacity {
        ring
    } else {
        ring.push(handle)
    }
}

pub open spec fn larger(a: u64, b: u64) -> u64 {
    if a < b {
        b
    } else {
        a
    }
}

/// A store as contracts speak of it.
#[verifier::ext_equal]
pub struct StoreState<C: Count> {
    pub config: CellStoreConfig,
    pub identity: NodeIdentity,
    pub rules: Seq<RuleDescriptor>,
    pub nodes: Seq<NodeDescriptor>,
    pub slots: Seq<CellSlot<C>>,
    pub local_dirty: Seq<CellHandle>,
    pub forwarded_dirty: Seq<CellHandle>,
    pub frontiers: Seq<FrontierRow>,
    pub next_sequence: u64,
    pub repair_cursor: nat,
}

/// A state together with the count increases that led to it.
#[verifier::ext_equal]
pub struct Applied<C: Count> {
    pub state: StoreState<C>,
    pub deltas: Seq<(AggregateKey, C)>,
}

impl<C: Count> StoreState<C> {
    /// The slot of the cell with this key.
    pub open spec fn position(self, key: CellKey) -> Option<int> {
        first_where(self.slots, holds_key::<C>(key))
    }

    /// The count the cell with this key holds, zero if there is none.
    pub open spec fn count_of(self, key: CellKey) -> nat {
        match self.position(key) {
            Some(i) => self.slots[i].row->0.count.value(),
            None => 0,
        }
    }

    /// The state after slot `i` took `row`, marked dirty in the local or the
    /// forwarded ring.
    pub open spec fn placed(self, i: int, row: CellRow<C>, local: bool) -> StoreState<C> {
        let slots = with_row(self.slots, i, row);
        let handle = handle_at(slots, i);
        StoreState {
            slots,
            local_dirty: if local {
                ring_with(self.local_dirty, self.config.local_dirty_capacity as nat, handle)
            } else {
                self.local_dirty
            },
            forwarded_dirty: if local {
                self.forwarded_dirty
            } else {
                ring_with(self.forwarded_dirty, self.config.forwarded_dirty_capacity as nat, handle)
            },
            ..self
        }
    }

    /// Raises the cell to `count`. A cell that already holds as much stays as
    /// it is; a missing cell is created while a slot is free.
    pub open spec fn raised(
        self,
        key: CellKey,
        aggregate: AggregateKey,
        count: C,
        millis: u64,
        sequence: u64,
        local: bool,
    ) -> Applied<C> {
        match self.position(key) {
            Some(i) => {
                let row = self.slots[i].row->0;
                if row.count.value() < count.value() {
                    Applied {
                        state: self.placed(
                            i,
                            CellRow {
                                key,
                                count,
                                last_update_millis: larger(row.last_update_millis, millis),
                                origin_sequence: larger(row.origin_sequence, sequence),
                            },
                            local,
                        ),
                        deltas: seq![
                            (aggregate, C::of((count.value() - row.count.value()) as nat)),
                        ],
                    }
                } else {
                    Applied { state: self, deltas: Seq::empty() }
                }
            },
            None => match free_slot(self.slots, self.config.cell_capacity as nat) {
                Some(i) => Applied {
                    state: self.placed(
                        i,
                        CellRow {
                            key,
                            count,
                            last_update_millis: millis,
                            origin_sequence: sequence,
                        },
                        local,
                    ),
                    deltas: if count.value() == 0 {
                        Seq::empty()
                    } else {
                        seq![(aggregate, count)]
                    },
                },
                None => Applied { state: self, deltas: Seq::empty() },
            },
        }
    }

    /// The state after interning a rule.
    pub open spec fn with_rule(self, descriptor: RuleDescriptor) -> StoreState<C> {
        StoreState {
            rules: RuleDictionary::interned(
                self.rules,
                self.config.rule_dictionary_capacity as nat,
                descriptor,
            ),
            ..self
        }
    }

    /// The state after interning a node.
    pub open spec fn with_node(self, node: NodeDescriptor) -> StoreState<C> {
        StoreState {
            nodes: NodeDictionary::interned(
                self.nodes,
                self.config.node_dictionary_capacity as nat,
                node,
            ),
            ..self
        }
    }

    /// The cell key of an observation, once its rule and origin have slots.
    pub open spec fn key_of(
        self,
        observation: Observation<C>,
        node: NodeDescriptor,
    ) -> Option<CellKey> {
        match (
            rule_position(self.rules, observation.rule_fingerprint),
            node_position(self.nodes, node),
        ) {
            (Some(rule), Some(origin)) => Some(
                CellKey {
                    rule: rule as u16,
                    key_hash: observation.key_hash,
                    bucket: observation.bucket,
                    origin: origin as u16,
                    incarnation: node.incarnation,
                },
            ),
            _ => None,
        }
    }

    /// The state once the rule, and then the origin, of an observation have
    /// been interned. Without a rule slot the origin is not looked at.
    pub open spec fn interned(self, observation: Observation<C>, node: NodeDescriptor) -> StoreState<
        C,
    > {
        let ruled = self.with_rule(RuleDescriptor::spec_wire_only(observation.rule_fingerprint));
        if rule_position(ruled.rules, observation.rule_fingerprint) is Some {
            ruled.with_node(node)
        } else {
            ruled
        }
    }

    /// One remote observation merged.
    pub open spec fn merged_one(self, observation: Observation<C>, sequence: u64) -> Applied<C> {
        let node = NodeDescriptor {
            node_id: observation.origin,
            incarnation: observation.incarnation,
        };
        let ready = self.interned(observation, node);
        match ready.key_of(observation, node) {
            Some(key) => ready.raised(
                key,
                aggregate_key(observation),
                observation.count,
                observation.last_update_millis,
                sequence,
                false,
            ),
            None => Applied { state: ready, deltas: Seq::empty() },
        }
    }

    /// Remote observations merged one after the other.
    pub open spec fn merged(self, batch: Seq<Observation<C>>, sequences: Seq<u64>) -> Applied<C>
        decreases batch.len(),
    {
        if batch.len() == 0 {
            Applied { state: self, deltas: Seq::empty() }
        } else {
            let before = self.merged(batch.drop_last(), sequences);
            let step = before.state.merged_one(batch.last(), sequences[batch.len() - 1]);
            Applied { state: step.state, deltas: before.deltas + step.deltas }
        }
    }

    /// One local hit batch added to the local origin's cell.
    pub open spec fn ingested_one(self, observation: Observation<C>) -> Applied<C> {
        let node = NodeDescriptor {
            node_id: self.identity.node_id,
            incarnation: self.identity.incarnation,
        };
        let ready = self.interned(observation, node);
        match ready.key_of(observation, node) {
            Some(key) => {
                let stamped = StoreState {
                    next_sequence: if ready.next_sequence < u64::MAX {
                        (ready.next_sequence + 1) as u64
                    } else {
                        u64::MAX
                    },
                    ..ready
                };
                stamped.raised(
                    key,
                    aggregate_key(observation),
                    C::of(stamped.count_of(key) + observation.count.value()),
                    observation.last_update_millis,
                    ready.next_sequence,
                    true,
                )
            },
            None => Applied { state: ready, deltas: Seq::empty() },
        }
    }

    /// Local hits added one after the other.
    pub open spec fn ingested(self, batch: Seq<Observation<C>>) -> Applied<C>
        decreases batch.len(),
    {
        if batch.len() == 0 {
            Applied { state: self, deltas: Seq::empty() }
        } else {
            let before = self.ingested(batch.drop_last());
            let step = before.state.ingested_one(batch.last());
            Applied { state: step.state, deltas: before.deltas + step.deltas }
        }
    }

    /// Whether the cell in this slot has left its rule's window.
    pub open spec fn expired(self, slot: CellSlot<C>, now_millis: u64) -> bool {
        slot.row is Some && self.rules[slot.row->0.key.rule as int].aged_out(
            slot.row->0.key.bucket,
            now_millis,
        )
    }

    /// A slot after the expiry sweep.
    pub open spec fn swept(self, slot: CellSlot<C>, now_millis: u64) -> CellSlot<C> {
        if self.expired(slot, now_millis) {
            CellSlot {
                generation: if slot.generation < u32::MAX {
                    (slot.generation + 1) as u32
                } else {
                    0
                },
                row: None,
            }
        } else {
            slot
        }
    }

    /// The counts that leave in the expiry sweep of the first `n` slots.
    pub open spec fn expirations(self, n: nat, now_millis: u64) -> Seq<(AggregateKey, C)>
        decreases n,
    {
        if n == 0 {
            Seq::empty()
        } else {
            let before = self.expirations((n - 1) as nat, now_millis);
            let slot = self.slots[n - 1];
            if self.expired(slot, now_millis) {
                before.push((self.row_aggregate(slot.row->0), slot.row->0.count))
            } else {
                before
            }
        }
    }

    /// The downstream key of a row.
    pub open spec fn row_aggregate(self, row: CellRow<C>) -> AggregateKey {
        AggregateKey {
            rule_fingerprint: self.rules[row.key.rule as int].fingerprint,
            key_hash: row.key.key_hash,
            bucket: row.key.bucket,
        }
    }

    /// Number of live cells among the first `n` slots.
    pub open spec fn live(self, n: nat) -> nat
        decreases n,
    {
        if n == 0 {
            0
        } else {
            self.live((n - 1) as nat) + if self.slots[n - 1].row is Some {
                1nat
            } else {
                0
            }
        }
    }

    /// The handles of the live cells among the first `n` slots.
    pub open spec fn live_handles(self, n: nat) -> Seq<CellHandle>
        decreases n,
    {
        if n == 0 {
            Seq::empty()
        } else {
            let before = self.live_handles((n - 1) as nat);
            if self.slots[n - 1].row is Some {
                before.push(handle_at(self.slots, n - 1))
            } else {
                before
            }
        }
    }

    /// Every live row names a rule and an origin that have slots, and no two
    /// rows share a key.
    pub open spec fn rows_wf(self) -> bool {
        &&& forall|i: int|
            0 <= i < self.slots.len() && (#[trigger] self.slots[i]).row is Some ==> {
                &&& self.slots[i].row->0.key.rule < self.rules.len()
                &&& self.slots[i].row->0.key.origin < self.nodes.len()
                &&& self.nodes[self.slots[i].row->0.key.origin as int].incarnation
                    == self.slots[i].row->0.key.incarnation
            }
        &&& forall|i: int, j: int|
            0 <= i < j < self.slots.len() && (#[trigger] self.slots[i]).row is Some && (
            #[trigger] self.slots[j]).row is Some ==> self.slots[i].row->0.key
                != self.slots[j].row->0.key
    }
}

/// The downstream key of an observation.
pub open spec fn aggregate_key<C: Count>(observation: Observation<C>) -> AggregateKey {
    AggregateKey {
        rule_fingerprint: observation.rule_fingerprint,
        key_hash: observation.key_hash,
        bucket: observation.bucket,
    }
}

impl<C: Count> StoreState<C> {
    /// Whether the peer is known to have this row's latest change.
    pub open spec fn pruned(self, peer: Option<u16>, row: CellRow<C>) -> bool {
        match peer {
            Some(slot) => row.origin_sequence > 0 && self.acked(slot as int, row.key.origin as int)
                >= row.origin_sequence,
            None => false,
        }
    }

    /// The highest sequence of `node` that `peer` acknowledged, `0` if none.
    pub open spec fn acked(self, peer: int, node: int) -> u64 {
        if 0 <= peer < self.frontiers.len() && 0 <= node < self.frontiers[peer].acked.len() {
            self.frontiers[peer].acked[node]
        } else {
            0
        }
    }

    /// Whether a dirty handle still has something to tell the peer.
    pub open spec fn due(self, peer: Option<u16>, handle: CellHandle) -> bool {
        resolve(self.slots, handle) matches Some(row) && !self.pruned(peer, row)
    }
}

/// A frame after the first `n` candidates: each goes in once, while there is
/// room.
pub open spec fn gathered(
    candidates: Seq<Option<CellHandle>>,
    n: nat,
    max: nat,
    out: Seq<CellHandle>,
) -> Seq<CellHandle>
    decreases n,
{
    if n == 0 {
        out
    } else {
        let before = gathered(candidates, (n - 1) as nat, max, out);
        match candidates[n - 1] {
            Some(handle) if before.len() < max && !before.contains(handle) => before.push(handle),
            _ => before,
        }
    }
}

/// How many of the first `n` candidates are looked at before the frame is full.
pub open spec fn looked_at(
    candidates: Seq<Option<CellHandle>>,
    n: nat,
    max: nat,
    out: Seq<CellHandle>,
) -> nat
    decreases n,
{
    if n == 0 {
        0
    } else if gathered(candidates, (n - 1) as nat, max, out).len() < max {
        n
    } else {
        looked_at(candidates, (n - 1) as nat, max, out)
    }
}

/// Once full, a frame takes no more and nothing more is looked at.
pub(crate) proof fn lemma_gathered_full(
    candidates: Seq<Option<CellHandle>>,
    n: nat,
    m: nat,
    max: nat,
    out: Seq<CellHandle>,
)
    requires
        n <= m,
        gathered(candidates, n, max, out).len() >= max,
    ensures
        gathered(candidates, m, max, out) == gathered(candidates, n, max, out),
        looked_at(candidates, m, max, out) == looked_at(candidates, n, max, out),
    decreases m - n,
{
    if n < m {
        lemma_gathered_full(candidates, n, (m - 1) as nat, max, out);
    }
}

impl<C: Count> StoreState<C> {
    /// The handles of a dirty ring that have something to tell the peer.
    pub open spec fn ring_candidates(self, peer: Option<u16>, ring: Seq<CellHandle>) -> Seq<
        Option<CellHandle>,
    > {
        Seq::new(
            ring.len(),
            |j: int|
                if self.due(peer, ring[j]) {
                    Some(ring[j])
                } else {
                    None
                },
        )
    }

    /// The live handles of the slots `from..to`.
    pub open spec fn slot_candidates(self, from: int, to: int) -> Seq<Option<CellHandle>> {
        Seq::new(
            (to - from) as nat,
            |j: int|
                if self.slots[from + j].row is Some {
                    Some(handle_at(self.slots, from + j))
                } else {
                    None
                },
        )
    }

    /// Where the sweep over all slots begins.
    pub open spec fn sweep_start(self) -> int {
        if self.repair_cursor <= self.slots.len() {
            self.repair_cursor as int
        } else {
            0
        }
    }

    /// A frame after the local ring.
    pub open spec fn frame_local(self, peer: Option<u16>, max: nat) -> Seq<CellHandle> {
        gathered(
            self.ring_candidates(peer, self.local_dirty),
            self.local_dirty.len(),
            max,
            Seq::empty(),
        )
    }

    /// A frame after both rings.
    pub open spec fn frame_dirty(self, peer: Option<u16>, max: nat) -> Seq<CellHandle> {
        gathered(
            self.ring_candidates(peer, self.forwarded_dirty),
            self.forwarded_dirty.len(),
            max,
            self.frame_local(peer, max),
        )
    }

    /// A frame after the slots from the repair cursor on.
    pub open spec fn frame_upper(self, peer: Option<u16>, max: nat) -> Seq<CellHandle> {
        let start = self.sweep_start();
        gathered(
            self.slot_candidates(start, self.slots.len() as int),
            (self.slots.len() - start) as nat,
            max,
            self.frame_dirty(peer, max),
        )
    }

    /// The cells of a frame: the dirty ones, local before forwarded, then live
    /// ones from the repair cursor on, round to it.
    pub open spec fn frame(self, peer: Option<u16>, max: nat) -> Seq<CellHandle> {
        let start = self.sweep_start();
        gathered(
            self.slot_candidates(0, start),
            start as nat,
            max,
            self.frame_upper(peer, max),
        )
    }

    /// The slot that the next sweep goes on from.
    pub open spec fn next_cursor(self, peer: Option<u16>, max: nat) -> int {
        let start = self.sweep_start();
        let end = self.slots.len() as int;
        let upper = start + looked_at(
            self.slot_candidates(start, end),
            (end - start) as nat,
            max,
            self.frame_dirty(peer, max),
        );
        if upper < end {
            upper
        } else {
            looked_at(
                self.slot_candidates(0, start),
                start as nat,
                max,
                self.frame_upper(peer, max),
            ) as int
        }
    }
}

/// What a frame holds and what filling it leaves behind: the looked-at part of
/// each ring is dropped. A frame names no cell twice and only live ones; one
/// that is not full names every live cell. Nothing but the rings and the repair
/// cursor changes.
pub open spec fn frame_filled<C: Count>(
    before: StoreState<C>,
    after: StoreState<C>,
    max: nat,
    peer: Option<u16>,
    out: Seq<CellHandle>,
) -> bool {
    let local = before.local_dirty.len() - after.local_dirty.len();
    let forwarded = before.forwarded_dirty.len() - after.forwarded_dirty.len();
    &&& after == (StoreState {
        local_dirty: after.local_dirty,
        forwarded_dirty: after.forwarded_dirty,
        repair_cursor: after.repair_cursor,
        ..before
    })
    &&& out == before.frame(peer, max)
    &&& local == looked_at(
        before.ring_candidates(peer, before.local_dirty),
        before.local_dirty.len(),
        max,
        Seq::empty(),
    )
    &&& forwarded == looked_at(
        before.ring_candidates(peer, before.forwarded_dirty),
        before.forwarded_dirty.len(),
        max,
        before.frame_local(peer, max),
    )
    &&& after.repair_cursor == before.next_cursor(peer, max)
    &&& 0 <= local
    &&& 0 <= forwarded
    &&& after.local_dirty == before.local_dirty.skip(local)
    &&& after.forwarded_dirty == before.forwarded_dirty.skip(forwarded)
    &&& out.len() <= max
    &&& out.no_duplicates()
    &&& forall|k: int| 0 <= k < out.len() ==> resolve(before.slots, #[trigger] out[k]) is Some
    &&& forall|j: int|
        0 <= j < local && before.due(peer, #[trigger] before.local_dirty[j]) ==> out.contains(
            before.local_dirty[j],
        )
    &&& forall|j: int|
        0 <= j < forwarded && before.due(peer, #[trigger] before.forwarded_dirty[j])
            ==> out.contains(before.forwarded_dirty[j])
    &&& out.len() < max ==> {
        &&& after.local_dirty.len() == 0
        &&& after.forwarded_dirty.len() == 0
        &&& forall|i: int|
            0 <= i < before.slots.len() && (#[trigger] before.slots[i]).row is Some
                ==> out.contains(handle_at(before.slots, i))
    }
}

} // verus!
