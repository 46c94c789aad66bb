//! The cell store: one row per `(rule, key, bucket, origin, incarnation)`,
//! held in generation-checked slots.
//!
//! A row's count only ever rises while the row lives. Local hits add to the
//! local origin's row; remote observations raise a row to the larger count, so
//! observations may arrive repeatedly and in any order. Rows leave when their
//! bucket has left the rule's window.

use super::batch::{AggregateKey, DeltaSink, ExpirationSink, Observation, ObservationBatch};
use super::dictionary::{
    rule_position, NodeDescriptor, NodeDictionary, RuleDescriptor, RuleDictionary,
};
use super::frontier::{held_by, no_acks, slot_for, FrontierRow, PeerFrontierTable};
use super::state::{
    frame_filled, free_slot, gathered, handle_at, holds_key, is_free, lemma_gathered_full,
    looked_at, resolve, ring_with, with_row, CellHandle, CellKey, CellRow, CellSlot,
    CellStoreConfig, CellStoreStats, StoreState,
};
use super::{Count, NodeId, NodeIdentity, RuleSlot};
use crate::seqs::{first_where, lemma_first_where_at, lemma_first_where_none};
use vstd::prelude::*;

verus! {

/// All cells of one node.
pub struct CellStore<C: Count> {
    config: CellStoreConfig,
    identity: NodeIdentity,
    rules: RuleDictionary,
    nodes: NodeDictionary,
    slots: Vec<CellSlot<C>>,
    local_dirty: Vec<CellHandle>,
    forwarded_dirty: Vec<CellHandle>,
    frontiers: PeerFrontierTable,
    next_sequence: u64,
    repair_cursor: usize,
}

impl<C: Count> CellStore<C> {
    pub closed spec fn view(&self) -> StoreState<C> {
        StoreState {
            config: self.config,
            identity: self.identity,
            rules: self.rules@,
            nodes: self.nodes@,
            slots: self.slots@,
            local_dirty: self.local_dirty@,
            forwarded_dirty: self.forwarded_dirty@,
            frontiers: self.frontiers@,
            next_sequence: self.next_sequence,
            repair_cursor: self.repair_cursor as nat,
        }
    }

    /// The store's invariant.
    pub closed spec fn wf(&self) -> bool {
        &&& self.rules.wf()
        &&& self.nodes.wf()
        &&& self.frontiers.wf()
        &&& self.rules.spec_capacity() == self.config.rule_dictionary_capacity
        &&& self.nodes.spec_capacity() == self.config.node_dictionary_capacity
        &&& self.frontiers.spec_capacity() == self.config.peer_capacity
        &&& self.frontiers.node_slots() == self.config.node_dictionary_capacity
        &&& self.slots@.len() <= self.config.cell_capacity
        &&& self.local_dirty@.len() <= self.config.local_dirty_capacity
        &&& self.forwarded_dirty@.len() <= self.config.forwarded_dirty_capacity
        &&& self@.rows_wf()
    }

    /// What the invariant gives users of the store.
    pub proof fn lemma_wf(&self)
        requires
            self.wf(),
        ensures
            self@.rows_wf(),
            self@.rules.len() <= self@.config.rule_dictionary_capacity,
            self@.nodes.len() <= self@.config.node_dictionary_capacity,
            self@.slots.len() <= self@.config.cell_capacity,
            self@.local_dirty.len() <= self@.config.local_dirty_capacity,
            self@.forwarded_dirty.len() <= self@.config.forwarded_dirty_capacity,
            forall|i: int, j: int|
                #![trigger self@.rules[i], self@.rules[j]]
                0 <= i < j < self@.rules.len() ==> self@.rules[i].fingerprint
                    != self@.rules[j].fingerprint,
            forall|i: int, j: int|
                #![trigger self@.nodes[i], self@.nodes[j]]
                0 <= i < j < self@.nodes.len() ==> self@.nodes[i] != self@.nodes[j],
    {
        assert forall|i: int, j: int|
            #![trigger self@.rules[i], self@.rules[j]]
            0 <= i < j < self@.rules.len() implies self@.rules[i].fingerprint
            != self@.rules[j].fingerprint by {
            assert(self.rules@[i].fingerprint != self.rules@[j].fingerprint);
        }
        assert forall|i: int, j: int|
            #![trigger self@.nodes[i], self@.nodes[j]]
            0 <= i < j < self@.nodes.len() implies self@.nodes[i] != self@.nodes[j] by {
            assert(self.nodes@[i] != self.nodes@[j]);
        }
    }

    /// An empty store of node `identity`, which takes the first node slot.
    pub fn new(config: CellStoreConfig, identity: NodeIdentity) -> (store: Self)
        ensures
            store.wf(),
            store@.identity == identity,
            store@.config == (CellStoreConfig {
                node_dictionary_capacity: if config.node_dictionary_capacity == 0 {
                    1
                } else {
                    config.node_dictionary_capacity
                },
                ..config
            }),
            store@.rules == Seq::<RuleDescriptor>::empty(),
            store@.nodes == seq![
                NodeDescriptor { node_id: identity.node_id, incarnation: identity.incarnation },
            ],
            store@.slots == Seq::<CellSlot<C>>::empty(),
            store@.local_dirty == Seq::<CellHandle>::empty(),
            store@.forwarded_dirty == Seq::<CellHandle>::empty(),
            store@.frontiers == Seq::<FrontierRow>::empty(),
            store@.next_sequence == 1,
            store@.repair_cursor == 0,
    {
        let node_capacity: u16 = if config.node_dictionary_capacity == 0 {
            1
        } else {
            config.node_dictionary_capacity
        };
        let config = CellStoreConfig { node_dictionary_capacity: node_capacity, ..config };
        let mut nodes = NodeDictionary::with_capacity(node_capacity);
        let local = NodeDescriptor {
            node_id: identity.node_id,
            incarnation: identity.incarnation,
        };
        let slot = nodes.intern(local);
        assert(nodes@ =~= seq![local]);
        CellStore {
            config,
            identity,
            rules: RuleDictionary::with_capacity(config.rule_dictionary_capacity),
            nodes,
            slots: Vec::new(),
            local_dirty: Vec::new(),
            forwarded_dirty: Vec::new(),
            frontiers: PeerFrontierTable::with_capacity(config.peer_capacity, node_capacity),
            next_sequence: 1,
            repair_cursor: 0,
        }
    }

    pub fn rule_dictionary(&self) -> (rules: &RuleDictionary)
        requires
            self.wf(),
        ensures
            rules.wf(),
            rules@ == self@.rules,
            rules.spec_capacity() == self@.config.rule_dictionary_capacity,
    {
        &self.rules
    }

    pub fn node_dictionary(&self) -> (nodes: &NodeDictionary)
        requires
            self.wf(),
        ensures
            nodes.wf(),
            nodes@ == self@.nodes,
            nodes.spec_capacity() == self@.config.node_dictionary_capacity,
    {
        &self.nodes
    }

    pub fn local_identity(&self) -> (identity: NodeIdentity)
        ensures
            identity == self@.identity,
    {
        self.identity
    }

    /// The live row `handle` names, if it still lives.
    pub fn get(&self, handle: CellHandle) -> (row: Option<CellRow<C>>)
        ensures
            row == resolve(self@.slots, handle),
    {
        let i: usize = handle.index as usize;
        if i < self.slots.len() && self.slots[i].generation == handle.generation {
            self.slots[i].row
        } else {
            None
        }
    }

    /// The handles of all live cells, in slot order.
    pub fn active_handles(&self) -> (handles: Vec<CellHandle>)
        requires
            self.wf(),
        ensures
            handles@ == self@.live_handles(self@.slots.len()),
    {
        let mut handles: Vec<CellHandle> = Vec::new();
        let mut i: usize = 0;
        while i < self.slots.len()
            invariant
                self.wf(),
                i <= self.slots@.len() == self@.slots.len(),
                handles@ == self@.live_handles(i as nat),
            decreases self.slots@.len() - i,
        {
            if self.slots[i].row.is_some() {
                handles.push(
                    CellHandle { index: i as u32, generation: self.slots[i].generation },
                );
            }
            i = i + 1;
        }
        handles
    }

    /// Number of live cells.
    pub fn active_len(&self) -> (len: u32)
        requires
            self.wf(),
        ensures
            len as nat == self@.live(self@.slots.len()),
    {
        let mut len: u32 = 0;
        let mut i: usize = 0;
        while i < self.slots.len()
            invariant
                self.wf(),
                i <= self.slots@.len() == self@.slots.len(),
                self.slots@.len() <= u32::MAX,
                len as nat == self@.live(i as nat),
                len <= i,
            decreases self.slots@.len() - i,
        {
            if self.slots[i].row.is_some() {
                len = len + 1;
            }
            i = i + 1;
        }
        len
    }

    /// Whether no cell is live.
    pub fn is_empty(&self) -> (empty: bool)
        requires
            self.wf(),
        ensures
            empty == (self@.live(self@.slots.len()) == 0),
    {
        self.active_len() == 0
    }

    pub fn stats(&self) -> (stats: CellStoreStats)
        requires
            self.wf(),
        ensures
            stats.active_cells as nat == self@.live(self@.slots.len()),
            stats.cell_capacity == self@.config.cell_capacity,
            stats.rules as nat == self@.rules.len(),
            stats.nodes as nat == self@.nodes.len(),
    {
        CellStoreStats {
            active_cells: self.active_len(),
            cell_capacity: self.config.cell_capacity,
            rules: self.rules.len() as u32,
            nodes: self.nodes.len() as u32,
        }
    }

    /// Number of cells waiting to be announced that changed here.
    pub fn local_dirty_len(&self) -> (len: u32)
        requires
            self.wf(),
        ensures
            len as nat == self@.local_dirty.len(),
    {
        self.local_dirty.len() as u32
    }

    /// Number of cells waiting to be announced that changed elsewhere.
    pub fn forwarded_dirty_len(&self) -> (len: u32)
        requires
            self.wf(),
        ensures
            len as nat == self@.forwarded_dirty.len(),
    {
        self.forwarded_dirty.len() as u32
    }

    /// Registers a configured rule, so that its cells age out on its own
    /// window. `None` when the dictionary is full.
    pub fn intern_rule(&mut self, descriptor: RuleDescriptor) -> (slot: Option<RuleSlot>)
        requires
            old(self).wf(),
        ensures
            final(self).wf(),
            final(self)@ == old(self)@.with_rule(descriptor),
            match rule_position(final(self)@.rules, descriptor.fingerprint) {
                Some(i) => slot == Some(i as u16),
                None => slot is None,
            },
    {
        let slot = self.rules.intern(descriptor);
        assert(self@ =~= old(self)@.with_rule(descriptor));
        slot
    }

    fn push_dirty(&mut self, handle: CellHandle, local: bool)
        requires
            old(self).wf(),
        ensures
            final(self).wf(),
            final(self)@ == (StoreState {
                local_dirty: if local {
                    ring_with(
                        old(self)@.local_dirty,
                        old(self)@.config.local_dirty_capacity as nat,
                        handle,
                    )
                } else {
                    old(self)@.local_dirty
                },
                forwarded_dirty: if local {
                    old(self)@.forwarded_dirty
                } else {
                    ring_with(
                        old(self)@.forwarded_dirty,
                        old(self)@.config.forwarded_dirty_capacity as nat,
                        handle,
                    )
                },
                ..old(self)@
            }),
    {
        if local {
            ring_push(&mut self.local_dirty, self.config.local_dirty_capacity as usize, handle);
        } else {
            ring_push(
                &mut self.forwarded_dirty,
                self.config.forwarded_dirty_capacity as usize,
                handle,
            );
        }
    }

    fn find_slot(&self, key: CellKey) -> (slot: Option<usize>)
        ensures
            match self@.position(key) {
                Some(i) => slot == Some(i as usize) && 0 <= i < self@.slots.len()
                    && self@.slots[i].row is Some && self@.slots[i].row->0.key == key,
                None => slot is None && forall|j: int|
                    0 <= j < self@.slots.len() && (#[trigger] self@.slots[j]).row is Some
                        ==> self@.slots[j].row->0.key != key,
            },
    {
        let mut i: usize = 0;
        while i < self.slots.len()
            invariant
                i <= self.slots@.len(),
                self@.slots == self.slots@,
                forall|j: int| 0 <= j < i ==> !holds_key::<C>(key)(#[trigger] self.slots@[j]),
            decreases self.slots@.len() - i,
        {
            if let Some(row) = self.slots[i].row {
                if row.key == key {
                    proof {
                        lemma_first_where_at(self.slots@, holds_key::<C>(key), i as int);
                    }
                    return Some(i);
                }
            }
            i = i + 1;
        }
        proof {
            lemma_first_where_none(self.slots@, holds_key::<C>(key));
            assert forall|j: int|
                0 <= j < self@.slots.len() && (#[trigger] self@.slots[j]).row is Some implies
                self@.slots[j].row->0.key != key by {
                assert(!holds_key::<C>(key)(self.slots@[j]));
            }
        }
        None
    }

    fn find_free(&self) -> (slot: Option<usize>)
        requires
            self.wf(),
        ensures
            match free_slot(self@.slots, self@.config.cell_capacity as nat) {
                Some(i) => slot == Some(i as usize) && 0 <= i <= self@.slots.len() && (i
                    < self@.slots.len() ==> self@.slots[i].row is None) && i
                    < self@.config.cell_capacity,
                None => slot is None,
            },
    {
        let mut i: usize = 0;
        while i < self.slots.len()
            invariant
                self.wf(),
                i <= self.slots@.len(),
                self@.slots == self.slots@,
                forall|j: int| 0 <= j < i ==> !is_free::<C>()(#[trigger] self.slots@[j]),
            decreases self.slots@.len() - i,
        {
            if self.slots[i].row.is_none() {
                proof {
                    lemma_first_where_at(self.slots@, is_free::<C>(), i as int);
                }
                return Some(i);
            }
            i = i + 1;
        }
        proof {
            lemma_first_where_none(self.slots@, is_free::<C>());
        }
        if self.slots.len() < self.config.cell_capacity as usize {
            Some(self.slots.len())
        } else {
            None
        }
    }

    fn place(&mut self, i: usize, row: CellRow<C>, local: bool)
        requires
            old(self).wf(),
            i <= old(self)@.slots.len(),
            i < old(self)@.config.cell_capacity,
            row.key.rule < old(self)@.rules.len(),
            row.key.origin < old(self)@.nodes.len(),
            old(self)@.nodes[row.key.origin as int].incarnation == row.key.incarnation,
            forall|j: int|
                0 <= j < old(self)@.slots.len() && j != i && (#[trigger] old(self)@.slots[j]).row
                    is Some ==> old(self)@.slots[j].row->0.key != row.key,
        ensures
            final(self).wf(),
            final(self)@ == old(self)@.placed(i as int, row, local),
    {
        let ghost before = self@;
        if i < self.slots.len() {
            let generation: u32 = self.slots[i].generation;
            self.slots.set(i, CellSlot { generation, row: Some(row) });
        } else {
            self.slots.push(CellSlot { generation: 0, row: Some(row) });
        }
        proof {
            assert(self@.slots =~= with_row(before.slots, i as int, row));
            assert forall|j: int|
                0 <= j < self@.slots.len() && j != i implies #[trigger] self@.slots[j]
                == before.slots[j] by {}
            assert(self@.rows_wf());
        }
        let handle = CellHandle { index: i as u32, generation: self.slots[i].generation };
        self.push_dirty(handle, local);
        assert(self@ =~= before.placed(i as int, row, local));
    }

    fn raise(
        &mut self,
        key: CellKey,
        aggregate: AggregateKey,
        count: C,
        millis: u64,
        sequence: u64,
        local: bool,
        sink: &mut DeltaSink<C>,
    )
        requires
            old(self).wf(),
            old(sink).wf(),
            key.rule < old(self)@.rules.len(),
            key.origin < old(self)@.nodes.len(),
            old(self)@.nodes[key.origin as int].incarnation == key.incarnation,
        ensures
            final(self).wf(),
            final(sink).wf(),
            final(self)@ == old(self)@.raised(
                key,
                aggregate,
                count,
                millis,
                sequence,
                local,
            ).state,
            final(sink)@ == old(sink)@ + old(self)@.raised(
                key,
                aggregate,
                count,
                millis,
                sequence,
                local,
            ).deltas,
    {
        let ghost before = self@;
        let ghost applied = before.raised(key, aggregate, count, millis, sequence, local);
        match self.find_slot(key) {
            Some(i) => {
                if let Some(row) = self.slots[i].row {
                    let have: u64 = row.count.get();
                    let want: u64 = count.get();
                    if have < want {
                        let delta = C::saturating_from_u64(want - have);
                        let stamp: u64 = if row.last_update_millis < millis {
                            millis
                        } else {
                            row.last_update_millis
                        };
                        let latest: u64 = if row.origin_sequence < sequence {
                            sequence
                        } else {
                            row.origin_sequence
                        };
                        let next = CellRow {
                            key,
                            count,
                            last_update_millis: stamp,
                            origin_sequence: latest,
                        };
                        self.place(i, next, local);
                        sink.push(aggregate, delta);
                        assert(sink@ =~= old(sink)@ + applied.deltas);
                    } else {
                        assert(sink@ =~= old(sink)@ + applied.deltas);
                    }
                }
            },
            None => match self.find_free() {
                Some(i) => {
                    let next = CellRow {
                        key,
                        count,
                        last_update_millis: millis,
                        origin_sequence: sequence,
                    };
                    self.place(i, next, local);
                    if count.get() != 0 {
                        sink.push(aggregate, count);
                    }
                    assert(sink@ =~= old(sink)@ + applied.deltas);
                },
                None => {
                    assert(sink@ =~= old(sink)@ + applied.deltas);
                },
            },
        }
    }

    /// Gives the observation's rule and origin dictionary slots.
    fn intern_key(&mut self, observation: Observation<C>, node: NodeDescriptor) -> (key: Option<
        CellKey,
    >)
        requires
            old(self).wf(),
        ensures
            final(self).wf(),
            final(self)@ == old(self)@.interned(observation, node),
            key == final(self)@.key_of(observation, node),
            key matches Some(k) ==> {
                &&& k.rule < final(self)@.rules.len()
                &&& k.origin < final(self)@.nodes.len()
                &&& final(self)@.nodes[k.origin as int].incarnation == k.incarnation
            },
    {
        let ghost before = self@;
        let descriptor = RuleDescriptor::wire_only(observation.rule_fingerprint);
        let rule = match self.rules.intern(descriptor) {
            Some(slot) => slot,
            None => {
                assert(self@ =~= before.interned(observation, node));
                return None;
            },
        };
        let ghost ruled = self@;
        assert(ruled =~= before.with_rule(descriptor));
        let origin = match self.nodes.intern(node) {
            Some(slot) => slot,
            None => {
                assert(self@ =~= ruled.with_node(node));
                return None;
            },
        };
        assert(self@ =~= ruled.with_node(node));
        Some(
            CellKey {
                rule,
                key_hash: observation.key_hash,
                bucket: observation.bucket,
                origin,
                incarnation: node.incarnation,
            },
        )
    }

    /// Merges remote observations. Each raises its origin's cell to the
    /// reported count if that is larger; the increases go to `sink`.
    pub fn merge_remote(&mut self, batch: &ObservationBatch<C>, sink: &mut DeltaSink<C>)
        requires
            old(self).wf(),
            old(sink).wf(),
            batch.wf(),
        ensures
            final(self).wf(),
            final(sink).wf(),
            final(self)@ == old(self)@.merged(batch@, batch.origin_sequences@).state,
            final(sink)@ == old(sink)@ + old(self)@.merged(
                batch@,
                batch.origin_sequences@,
            ).deltas,
    {
        let ghost before = self@;
        let n: usize = batch.len();
        let mut i: usize = 0;
        proof {
            assert(batch@.take(0) =~= Seq::<Observation<C>>::empty());
            assert(sink@ =~= old(sink)@ + Seq::<(AggregateKey, C)>::empty());
        }
        while i < n
            invariant
                n == batch@.len(),
                i <= n,
                batch.wf(),
                self.wf(),
                sink.wf(),
                self@ == before.merged(batch@.take(i as int), batch.origin_sequences@).state,
                sink@ == old(sink)@ + before.merged(
                    batch@.take(i as int),
                    batch.origin_sequences@,
                ).deltas,
            decreases n - i,
        {
            let observation = batch.row(i);
            let sequence: u64 = batch.origin_sequences[i];
            let node = NodeDescriptor {
                node_id: observation.origin,
                incarnation: observation.incarnation,
            };
            let ghost state = self@;
            let ghost deltas = sink@;
            proof {
                let prefix = batch@.take(i + 1);
                assert(prefix.drop_last() =~= batch@.take(i as int));
                assert(prefix.last() == observation);
            }
            match self.intern_key(observation, node) {
                Some(key) => {
                    let aggregate = AggregateKey {
                        rule_fingerprint: observation.rule_fingerprint,
                        key_hash: observation.key_hash,
                        bucket: observation.bucket,
                    };
                    self.raise(
                        key,
                        aggregate,
                        observation.count,
                        observation.last_update_millis,
                        sequence,
                        false,
                        sink,
                    );
                },
                None => {},
            }
            proof {
                let step = state.merged_one(observation, sequence);
                assert(self@ == step.state);
                assert(sink@ =~= deltas + step.deltas);
                assert(sink@ =~= old(sink)@ + before.merged(
                    batch@.take(i + 1),
                    batch.origin_sequences@,
                ).deltas);
            }
            i = i + 1;
        }
        assert(batch@.take(n as int) =~= batch@);
    }

    /// Adds local hits to the local origin's cells. The batch's origin columns
    /// are not read; the increases go to `sink`.
    pub fn ingest_local(&mut self, batch: &ObservationBatch<C>, sink: &mut DeltaSink<C>)
        requires
            old(self).wf(),
            old(sink).wf(),
            batch.wf(),
        ensures
            final(self).wf(),
            final(sink).wf(),
            final(self)@ == old(self)@.ingested(batch@).state,
            final(sink)@ == old(sink)@ + old(self)@.ingested(batch@).deltas,
    {
        let ghost before = self@;
        let n: usize = batch.len();
        let mut i: usize = 0;
        proof {
            assert(batch@.take(0) =~= Seq::<Observation<C>>::empty());
            assert(sink@ =~= old(sink)@ + Seq::<(AggregateKey, C)>::empty());
        }
        while i < n
            invariant
                n == batch@.len(),
                i <= n,
                batch.wf(),
                self.wf(),
                sink.wf(),
                self@ == before.ingested(batch@.take(i as int)).state,
                sink@ == old(sink)@ + before.ingested(batch@.take(i as int)).deltas,
            decreases n - i,
        {
            let observation = batch.row(i);
            let ghost state = self@;
            let ghost deltas = sink@;
            proof {
                let prefix = batch@.take(i + 1);
                assert(prefix.drop_last() =~= batch@.take(i as int));
                assert(prefix.last() == observation);
            }
            let node = NodeDescriptor {
                node_id: self.identity.node_id,
                incarnation: self.identity.incarnation,
            };
            match self.intern_key(observation, node) {
                Some(key) => {
                    let aggregate = AggregateKey {
                        rule_fingerprint: observation.rule_fingerprint,
                        key_hash: observation.key_hash,
                        bucket: observation.bucket,
                    };
                    let sequence: u64 = self.next_sequence;
                    if self.next_sequence < u64::MAX {
                        self.next_sequence = self.next_sequence + 1;
                    }
                    let have: u64 = match self.find_slot(key) {
                        Some(at) => match self.slots[at].row {
                            Some(row) => row.count.get(),
                            None => 0,
                        },
                        None => 0,
                    };
                    let hits: u64 = observation.count.get();
                    let total = C::saturating_from_u64(have.saturating_add(hits));
                    proof {
                        lemma_of_saturates::<C>(have, hits);
                    }
                    self.raise(
                        key,
                        aggregate,
                        total,
                        observation.last_update_millis,
                        sequence,
                        true,
                        sink,
                    );
                },
                None => {},
            }
            proof {
                let step = state.ingested_one(observation);
                assert(self@ == step.state);
                assert(sink@ =~= deltas + step.deltas);
                assert(sink@ =~= old(sink)@ + before.ingested(batch@.take(i + 1)).deltas);
            }
            i = i + 1;
        }
        assert(batch@.take(n as int) =~= batch@);
    }

    /// Drops every cell whose bucket has left its rule's window and reports
    /// the counts that leave to `sink`.
    pub fn expire_at(&mut self, now_millis: u64, sink: &mut ExpirationSink<C>)
        requires
            old(self).wf(),
            old(sink).wf(),
        ensures
            final(self).wf(),
            final(sink).wf(),
            final(self)@ == (StoreState {
                slots: Seq::new(
                    old(self)@.slots.len(),
                    |i: int| old(self)@.swept(old(self)@.slots[i], now_millis),
                ),
                ..old(self)@
            }),
            final(sink)@ == old(sink)@ + old(self)@.expirations(
                old(self)@.slots.len(),
                now_millis,
            ),
    {
        let ghost before = self@;
        let mut i: usize = 0;
        assert(sink@ =~= old(sink)@ + before.expirations(0, now_millis));
        while i < self.slots.len()
            invariant
                i <= self.slots@.len() == before.slots.len(),
                self.wf(),
                sink.wf(),
                before.rows_wf(),
                self@ == (StoreState { slots: self@.slots, ..before }),
                forall|j: int|
                    0 <= j < i ==> #[trigger] self@.slots[j] == before.swept(
                        before.slots[j],
                        now_millis,
                    ),
                forall|j: int|
                    i <= j < before.slots.len() ==> #[trigger] self@.slots[j] == before.slots[j],
                sink@ == old(sink)@ + before.expirations(i as nat, now_millis),
            decreases self.slots@.len() - i,
        {
            let ghost mid = self@;
            assert(self@.slots[i as int] == before.slots[i as int]);
            if let Some(row) = self.slots[i].row {
                if let Some(rule) = self.rules.descriptor(row.key.rule) {
                    if rule.is_aged_out(row.key.bucket, now_millis) {
                        let generation: u32 = if self.slots[i].generation < u32::MAX {
                            self.slots[i].generation + 1
                        } else {
                            0
                        };
                        sink.push(
                            AggregateKey {
                                rule_fingerprint: rule.fingerprint,
                                key_hash: row.key.key_hash,
                                bucket: row.key.bucket,
                            },
                            row.count,
                        );
                        self.slots.set(i, CellSlot { generation, row: None });
                        proof {
                            assert(self@.slots =~= mid.slots.update(
                                i as int,
                                before.swept(before.slots[i as int], now_millis),
                            ));
                            assert(self@ =~= (StoreState { slots: self@.slots, ..before }));
                            assert(self@.rows_wf());
                        }
                    }
                }
            }
            proof {
                assert(sink@ =~= old(sink)@ + before.expirations((i + 1) as nat, now_millis));
            }
            i = i + 1;
        }
        assert(self@.slots =~= Seq::new(
            before.slots.len(),
            |j: int| before.swept(before.slots[j], now_millis),
        ));
    }

    /// Gives a peer a frontier slot; see [`PeerFrontierTable::intern_peer`].
    pub fn intern_peer(&mut self, peer: NodeId) -> (slot: Option<u16>)
        requires
            old(self).wf(),
        ensures
            final(self).wf(),
            final(self)@ == (StoreState { frontiers: final(self)@.frontiers, ..old(self)@ }),
            match slot_for(old(self)@.frontiers, old(self)@.config.peer_capacity as nat, peer) {
                Some(i) => {
                    &&& slot is Some
                    &&& slot->0 == i
                    &&& 0 <= i < final(self)@.frontiers.len()
                    &&& final(self)@.frontiers == if first_where(
                        old(self)@.frontiers,
                        held_by(peer),
                    ) is Some {
                        old(self)@.frontiers
                    } else if i < old(self)@.frontiers.len() {
                        old(self)@.frontiers.update(
                            i,
                            FrontierRow { node: Some(peer), acked: no_acks(old(self)@.config.node_dictionary_capacity as nat) },
                        )
                    } else {
                        old(self)@.frontiers.push(
                            FrontierRow { node: Some(peer), acked: no_acks(old(self)@.config.node_dictionary_capacity as nat) },
                        )
                    }
                },
                None => slot is None && final(self)@.frontiers == old(self)@.frontiers,
            },
    {
        self.frontiers.intern_peer(peer)
    }

    /// Notes what a peer has acknowledged; see
    /// [`PeerFrontierTable::record_acked`].
    pub fn record_acked(&mut self, peer: u16, node: u16, sequence: u64)
        requires
            old(self).wf(),
        ensures
            final(self).wf(),
            final(self)@ == (StoreState {
                frontiers: PeerFrontierTable::with_ack(
                    old(self)@.frontiers,
                    peer as int,
                    node as int,
                    sequence,
                ),
                ..old(self)@
            }),
    {
        self.frontiers.record_acked(peer, node, sequence);
    }

    /// Forgets a peer; see [`PeerFrontierTable::remove_peer`].
    pub fn remove_peer(&mut self, peer: NodeId)
        requires
            old(self).wf(),
        ensures
            final(self).wf(),
            final(self)@ == (StoreState {
                frontiers: match first_where(old(self)@.frontiers, held_by(peer)) {
                    Some(i) => old(self)@.frontiers.update(
                        i,
                        FrontierRow { node: None, acked: no_acks(old(self)@.config.node_dictionary_capacity as nat) },
                    ),
                    None => old(self)@.frontiers,
                },
                ..old(self)@
            }),
    {
        self.frontiers.remove_peer(peer);
    }

    /// Whether the peer is known to have this row's latest change.
    fn is_pruned(&self, peer: Option<u16>, row: CellRow<C>) -> (pruned: bool)
        requires
            self.wf(),
        ensures
            pruned == self@.pruned(peer, row),
    {
        match peer {
            Some(slot) => row.origin_sequence > 0 && self.frontiers.acked(slot, row.key.origin)
                >= row.origin_sequence,
            None => false,
        }
    }

    /// Appends the live handles of slots `from..to` that are not in `out` yet,
    /// until `out` holds `max`. Returns the slot it stopped at.
    fn sweep(&self, from: usize, to: usize, max: usize, out: &mut Vec<CellHandle>) -> (stop: usize)
        requires
            self.wf(),
            from <= to <= self@.slots.len(),
            old(out)@.no_duplicates(),
            old(out)@.len() <= max,
            forall|k: int|
                0 <= k < old(out)@.len() ==> resolve(
                    self@.slots,
                    #[trigger] old(out)@[k],
                ) is Some,
        ensures
            from <= stop <= to,
            final(out)@.no_duplicates(),
            final(out)@.len() <= max,
            stop < to ==> final(out)@.len() == max,
            final(out)@ == gathered(
                self@.slot_candidates(from as int, to as int),
                (to - from) as nat,
                max as nat,
                old(out)@,
            ),
            stop == from + looked_at(
                self@.slot_candidates(from as int, to as int),
                (to - from) as nat,
                max as nat,
                old(out)@,
            ),
            old(out)@.is_prefix_of(final(out)@),
            forall|k: int|
                0 <= k < final(out)@.len() ==> resolve(
                    self@.slots,
                    #[trigger] final(out)@[k],
                ) is Some,
            forall|i: int|
                from <= i < stop && (#[trigger] self@.slots[i]).row is Some
                    ==> final(out)@.contains(handle_at(self@.slots, i)),
    {
        let ghost candidates = self@.slot_candidates(from as int, to as int);
        let mut i: usize = from;
        while i < to && out.len() < max
            invariant
                self.wf(),
                candidates == self@.slot_candidates(from as int, to as int),
                out@ == gathered(candidates, (i - from) as nat, max as nat, old(out)@),
                looked_at(candidates, (i - from) as nat, max as nat, old(out)@) == i - from,
                from <= i <= to <= self.slots@.len(),
                self.slots@ == self@.slots,
                self.slots@.len() <= u32::MAX,
                out@.no_duplicates(),
                out@.len() <= max,
                old(out)@.is_prefix_of(out@),
                forall|k: int|
                    0 <= k < out@.len() ==> resolve(self@.slots, #[trigger] out@[k]) is Some,
                forall|j: int|
                    from <= j < i && (#[trigger] self@.slots[j]).row is Some ==> out@.contains(
                        handle_at(self@.slots, j),
                    ),
            decreases to - i,
        {
            assert(candidates[i - from] == if self@.slots[i as int].row is Some {
                Some(handle_at(self@.slots, i as int))
            } else {
                None
            });
            if self.slots[i].row.is_some() {
                let handle = CellHandle { index: i as u32, generation: self.slots[i].generation };
                let ghost before = out@;
                push_once(out, handle);
                proof {
                    assert forall|j: int|
                        from <= j < i && (#[trigger] self@.slots[j]).row is Some implies
                        out@.contains(handle_at(self@.slots, j)) by {
                        let h = handle_at(self@.slots, j);
                        assert(before.contains(h));
                        let k = choose|k: int| 0 <= k < before.len() && before[k] == h;
                        assert(out@[k] == h);
                    }
                }
            }
            i = i + 1;
        }
        proof {
            if i < to {
                lemma_gathered_full(
                    candidates,
                    (i - from) as nat,
                    (to - from) as nat,
                    max as nat,
                    old(out)@,
                );
            }
        }
        i
    }

    /// Appends the handles of a dirty ring that still live and that the peer
    /// is not known to have, until `out` holds `max`. Returns how many of the
    /// ring's handles were looked at.
    fn announce(
        &self,
        ring: &Vec<CellHandle>,
        max: usize,
        peer: Option<u16>,
        out: &mut Vec<CellHandle>,
    ) -> (taken: usize)
        requires
            self.wf(),
            old(out)@.no_duplicates(),
            old(out)@.len() <= max,
            forall|k: int|
                0 <= k < old(out)@.len() ==> resolve(
                    self@.slots,
                    #[trigger] old(out)@[k],
                ) is Some,
        ensures
            taken <= ring@.len(),
            taken < ring@.len() ==> final(out)@.len() == max,
            final(out)@ == gathered(
                self@.ring_candidates(peer, ring@),
                ring@.len(),
                max as nat,
                old(out)@,
            ),
            taken == looked_at(
                self@.ring_candidates(peer, ring@),
                ring@.len(),
                max as nat,
                old(out)@,
            ),
            final(out)@.no_duplicates(),
            final(out)@.len() <= max,
            old(out)@.is_prefix_of(final(out)@),
            forall|k: int|
                0 <= k < final(out)@.len() ==> resolve(
                    self@.slots,
                    #[trigger] final(out)@[k],
                ) is Some,
            forall|j: int|
                0 <= j < taken && self@.due(peer, #[trigger] ring@[j]) ==> final(out)@.contains(
                    ring@[j],
                ),
    {
        let ghost candidates = self@.ring_candidates(peer, ring@);
        let mut taken: usize = 0;
        while taken < ring.len() && out.len() < max
            invariant
                self.wf(),
                taken <= ring@.len(),
                candidates == self@.ring_candidates(peer, ring@),
                out@ == gathered(candidates, taken as nat, max as nat, old(out)@),
                looked_at(candidates, taken as nat, max as nat, old(out)@) == taken,
                out@.no_duplicates(),
                out@.len() <= max,
                old(out)@.is_prefix_of(out@),
                forall|k: int|
                    0 <= k < out@.len() ==> resolve(self@.slots, #[trigger] out@[k]) is Some,
                forall|j: int|
                    0 <= j < taken && self@.due(peer, #[trigger] ring@[j]) ==> out@.contains(
                        ring@[j],
                    ),
            decreases ring@.len() - taken,
        {
            let handle = ring[taken];
            assert(candidates[taken as int] == if self@.due(peer, handle) {
                Some(handle)
            } else {
                None
            });
            if let Some(row) = self.get(handle) {
                if !self.is_pruned(peer, row) {
                    let ghost before = out@;
                    push_once(out, handle);
                    proof {
                        assert forall|j: int|
                            0 <= j < taken && self@.due(peer, #[trigger] ring@[j]) implies
                            out@.contains(ring@[j]) by {
                            let k = choose|k: int| 0 <= k < before.len() && before[k] == ring@[j];
                            assert(out@[k] == ring@[j]);
                        }
                    }
                }
            }
            taken = taken + 1;
        }
        proof {
            if taken < ring@.len() {
                lemma_gathered_full(
                    candidates,
                    taken as nat,
                    ring@.len(),
                    max as nat,
                    old(out)@,
                );
            }
        }
        taken
    }

    fn fill_frame(&mut self, max: usize, peer: Option<u16>, out: &mut Vec<CellHandle>)
        requires
            old(self).wf(),
        ensures
            final(self).wf(),
            frame_filled(old(self)@, final(self)@, max as nat, peer, final(out)@),
    {
        out.clear();
        let ghost before = self@;
        assert(out@ =~= Seq::<CellHandle>::empty());
        let local: usize = self.announce(&self.local_dirty, max, peer, out);
        let ghost after_local = out@;
        assert(after_local == before.frame_local(peer, max as nat));
        let forwarded: usize = self.announce(&self.forwarded_dirty, max, peer, out);
        let ghost after_forwarded = out@;
        assert(after_forwarded == before.frame_dirty(peer, max as nat));
        let end: usize = self.slots.len();
        let start: usize = if self.repair_cursor <= end { self.repair_cursor } else { 0 };
        let upper: usize = self.sweep(start, end, max, out);
        let ghost after_upper = out@;
        proof {
            assert(start == before.sweep_start());
            assert(after_upper == before.frame_upper(peer, max as nat));
            if upper < end {
                lemma_gathered_full(
                    before.slot_candidates(0, start as int),
                    0,
                    start as nat,
                    max as nat,
                    after_upper,
                );
            }
        }
        let cursor: usize = if upper < end { upper } else { self.sweep(0, start, max, out) };
        proof {
            lemma_prefix_contains(after_local, after_forwarded);
            lemma_prefix_contains(after_forwarded, after_upper);
            lemma_prefix_contains(after_upper, out@);
            lemma_prefix_contains(after_forwarded, out@);
            lemma_prefix_contains(after_local, out@);
        }
        let rest = self.local_dirty.split_off(local);
        self.local_dirty = rest;
        let rest = self.forwarded_dirty.split_off(forwarded);
        self.forwarded_dirty = rest;
        self.repair_cursor = cursor;
        proof {
            assert(self@.local_dirty =~= before.local_dirty.skip(local as int));
            assert(self@.forwarded_dirty =~= before.forwarded_dirty.skip(forwarded as int));
            assert(self@.rows_wf());
            assert(out@ == before.frame(peer, max as nat));
            assert(self@.repair_cursor == before.next_cursor(peer, max as nat));
        }
    }

    /// Chooses the cells of a frame for a peer nothing is known of.
    pub fn fill_gossip_frame(&mut self, max: usize, out: &mut Vec<CellHandle>)
        requires
            old(self).wf(),
        ensures
            final(self).wf(),
            frame_filled(old(self)@, final(self)@, max as nat, None, final(out)@),
    {
        self.fill_frame(max, None, out);
    }

    /// Chooses the cells of a frame for a known peer, leaving out dirty cells
    /// it has acknowledged.
    pub fn fill_gossip_frame_for_peer(&mut self, max: usize, peer: u16, out: &mut Vec<CellHandle>)
        requires
            old(self).wf(),
        ensures
            final(self).wf(),
            frame_filled(old(self)@, final(self)@, max as nat, Some(peer), final(out)@),
    {
        self.fill_frame(max, Some(peer), out);
    }
}

proof fn lemma_prefix_contains(a: Seq<CellHandle>, b: Seq<CellHandle>)
    requires
        a.is_prefix_of(b),
    ensures
        forall|h: CellHandle| a.contains(h) ==> b.contains(h),
{
    assert forall|h: CellHandle| a.contains(h) implies b.contains(h) by {
        let k = choose|k: int| 0 <= k < a.len() && a[k] == h;
        assert(b[k] == h);
    }
}

/// Appends `handle` unless it is there already.
fn push_once(out: &mut Vec<CellHandle>, handle: CellHandle)
    ensures
        final(out)@ == if old(out)@.contains(handle) {
            old(out)@
        } else {
            old(out)@.push(handle)
        },
        final(out)@.contains(handle),
{
    let mut i: usize = 0;
    while i < out.len()
        invariant
            *out == *old(out),
            i <= out@.len(),
            forall|j: int| 0 <= j < i ==> out@[j] != handle,
        decreases out@.len() - i,
    {
        if out[i] == handle {
            return;
        }
        i = i + 1;
    }
    out.push(handle);
    assert(out@[out@.len() - 1] == handle);
}

/// Adding counts as machine words and then saturating is saturating the sum.
proof fn lemma_of_saturates<C: Count>(have: u64, hits: u64)
    ensures
        C::of(
            (if have + hits <= u64::MAX {
                have + hits
            } else {
                u64::MAX as int
            }) as nat,
        ) == C::of((have + hits) as nat),
{
    if have + hits > u64::MAX {
        let sum = (have + hits) as nat;
        C::lemma_width();
        C::lemma_of(sum);
        C::lemma_of(u64::MAX as nat);
        crate::bytes::lemma_pow256_values();
        crate::bytes::lemma_pow256_monotone(C::width(), 8);
        C::of(sum).lemma_value();
        C::of(u64::MAX as nat).lemma_value();
    }
}

fn ring_push(ring: &mut Vec<CellHandle>, capacity: usize, handle: CellHandle)
    ensures
        final(ring)@ == ring_with(old(ring)@, capacity as nat, handle),
{
    let mut i: usize = 0;
    while i < ring.len()
        invariant
            *ring == *old(ring),
            i <= ring@.len(),
            forall|j: int| 0 <= j < i ==> ring@[j] != handle,
        decreases ring@.len() - i,
    {
        if ring[i] == handle {
            return;
        }
        i = i + 1;
    }
    if ring.len() < capacity {
        ring.push(handle);
    }
}

} // verus!
