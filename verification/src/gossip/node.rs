//! One node of the gossip: counts, peers, and packets on their way out.
//!
//! - Cells that have aged out are dropped before anything is sent.
//! - Each tick sends to distinct peers, more of them the more there is to tell.
//! - A burst of local hits that would pass its share of the error budget is
//!   sent at once, but no more often than the emit floor allows.
//! - A peer's identity and its frontier slot are learned together.
//! - Packets that the network does not take yet stay first in line.

use crate::crdt::dictionary::{node_position, rule_position};
use crate::crdt::frontier::{held_by, no_acks, slot_for, FrontierRow};
use crate::crdt::laws::{lemma_ingested_frame, lemma_merged_frame};
use crate::crdt::state::frame_filled;
use crate::crdt::{
    BucketEpoch, CellHandle, CellStore, Count, DeltaSink, ExpirationSink, KeyHash, NodeDescriptor,
    NodeId, NodeIdentity, Observation, ObservationBatch, PeerFrontierTable, StoreState,
};
use crate::discovery::PeerAddr;
use crate::gossip::admin::{dump_cells, entries_of, AdminSnapshot, CellDumpSnapshot};
use crate::gossip::aggregate::AggregateStore;
use crate::gossip::sampling::{
    lemma_draws_without_replacement, shuffle_front, shuffled, SplitMix64, GAMMA,
};
use crate::seqs::{first_where, lemma_first_where, lemma_first_where_at, lemma_first_where_none};
use crate::wire::body::{run_rows, takes};
use crate::wire::{
    any_header, decode_auth_visit, decode_unauth_visit, decoded, decoded_cells,
    observation_from_wire, observed_all, packet_bytes, spec_min_payload_bytes, DecodeError,
    FrameLimits, Header, HmacKey, PacketBuf, Packets, PacketsState, WireCell, WireScratch,
};
use std::collections::VecDeque;
use vstd::prelude::*;

verus! {

/// A node's part in the gossip.
#[derive(Debug)]
pub struct GossipConfig {
    pub local_identity: NodeIdentity,
    pub cluster_id_hash: u128,
    pub bootstrap_peers: Vec<PeerAddr>,
    /// Peers a tick sends to, at least.
    pub fanout: usize,
    pub max_cells_per_tick: usize,
    pub wire_limits: FrameLimits,
    /// Packets that can wait to be sent.
    pub send_queue_capacity: usize,
    /// Requests that can wait to be taken in.
    pub limit_queue_capacity: usize,
    /// Time between two ticks, in nanoseconds.
    pub tick_interval_nanos: u64,
    pub auth_key: Option<HmacKey>,
    pub rng_seed: u64,
    /// Share of a rule's limit, in hundredths of a percent, that the cluster
    /// may not know of yet.
    pub target_err_bps: u32,
    /// Least time between two emits for the same rule.
    pub min_emit_interval_millis: u64,
}

impl Default for GossipConfig {
    fn default() -> (config: GossipConfig)
        ensures
            config.local_identity == (NodeIdentity { node_id: NodeId(0), incarnation: 0 }),
            config.cluster_id_hash == 0,
            config.bootstrap_peers@.len() == 0,
            config.fanout == 6,
            config.max_cells_per_tick == 4096,
            config.wire_limits == (FrameLimits { max_payload_bytes: 1400, max_cells: 4096 }),
            config.send_queue_capacity == 128,
            config.limit_queue_capacity == 8192,
            config.tick_interval_nanos == 100_000_000,
            config.auth_key is None,
            config.rng_seed == 0,
            config.target_err_bps == 100,
            config.min_emit_interval_millis == 5,
    {
        GossipConfig {
            local_identity: NodeIdentity::default(),
            cluster_id_hash: 0,
            bootstrap_peers: Vec::new(),
            fanout: 6,
            max_cells_per_tick: 4096,
            wire_limits: FrameLimits { max_payload_bytes: 1400, max_cells: 4096 },
            send_queue_capacity: 128,
            limit_queue_capacity: 8192,
            tick_interval_nanos: 100_000_000,
            auth_key: None,
            rng_seed: 0,
            target_err_bps: 100,
            min_emit_interval_millis: 5,
        }
    }
}

/// A known peer. What it is called, and its frontier slot, are learned from its
/// first packet, both at once.
#[derive(Clone, Copy, Debug, PartialEq, Eq, Structural)]
pub struct PeerEntry {
    pub addr: PeerAddr,
    pub node_id: Option<NodeId>,
    pub peer_slot: Option<u16>,
}

/// A change of membership.
#[derive(Clone, Copy, Debug, PartialEq, Eq, Structural)]
pub enum PeerEvent {
    Added(PeerAddr),
    Removed(PeerAddr),
}

/// Local hits to count.
#[derive(Clone, Copy, Debug, PartialEq, Eq, Structural)]
pub struct LimitHit {
    pub rule_fingerprint: u128,
    pub key_hash: KeyHash,
    pub bucket: BucketEpoch,
    pub hits: u64,
    pub rule_limit: u64,
    pub now_millis: u64,
}

/// What the network said of a packet.
#[derive(Clone, Copy, Debug, PartialEq, Eq, Structural)]
pub enum SendOutcome {
    Sent,
    /// Not now.
    WouldBlock,
    /// Not at all.
    Failed,
}

// -- arithmetic -------------------------------------------------------------

/// A node's share of a rule's error budget: the hits it may hold back.
pub open spec fn error_budget(rule_limit: u64, target_err_bps: u32, peers: nat) -> u64 {
    let limit = if rule_limit == 0 {
        1
    } else {
        rule_limit as int
    };
    let bps = if target_err_bps == 0 {
        1
    } else {
        target_err_bps as int
    };
    let n = if peers == 0 {
        1
    } else {
        peers as int
    };
    let product = if limit * bps <= u64::MAX {
        limit * bps
    } else {
        u64::MAX as int
    };
    let share = product / (10_000 * n);
    if share < 1 {
        1
    } else {
        share as u64
    }
}

/// A node's share of a rule's error budget.
pub fn error_budget_for(rule_limit: u64, target_err_bps: u32, peers: usize) -> (budget: u64)
    ensures
        budget == error_budget(rule_limit, target_err_bps, peers as nat),
        budget >= 1,
{
    let limit: u64 = if rule_limit == 0 { 1 } else { rule_limit };
    let bps: u64 = if target_err_bps == 0 { 1 } else { target_err_bps as u64 };
    let n: u64 = if peers == 0 { 1 } else { peers as u64 };
    let product: u64 = match limit.checked_mul(bps) {
        Some(product) => product,
        None => u64::MAX,
    };
    let share: u128 = product as u128 / (10_000 * n as u128);
    proof {
        let p = product as int;
        let d = 10_000 * n as int;
        assert(0 <= p / d <= p) by (nonlinear_arith)
            requires
                0 <= p,
                1 <= d,
        ;
    }
    if share < 1 {
        1
    } else {
        share as u64
    }
}

/// The error that all nodes together can hold back is bounded: by the budget,
/// or by one hit each.
pub proof fn lemma_cluster_error_bounded(rule_limit: u64, target_err_bps: u32, nodes: nat)
    requires
        nodes >= 1,
        rule_limit >= 1,
        target_err_bps >= 1,
    ensures
        error_budget(rule_limit, target_err_bps, nodes) == 1 || nodes * error_budget(
            rule_limit,
            target_err_bps,
            nodes,
        ) * 10_000 <= rule_limit * target_err_bps,
{
    let e = error_budget(rule_limit, target_err_bps, nodes) as int;
    let full = rule_limit * target_err_bps;
    let product = if full <= u64::MAX {
        full
    } else {
        u64::MAX as int
    };
    let n = nodes as int;
    if e != 1 {
        assert(full >= 0) by (nonlinear_arith)
            requires
                full == rule_limit * target_err_bps,
        ;
        let d = 10_000 * n;
        assert(product / d <= u64::MAX) by (nonlinear_arith)
            requires
                0 <= product <= u64::MAX,
                d >= 1,
        ;
        assert(e == product / d);
        assert(d * (product / d) <= product) by (nonlinear_arith)
            requires
                d >= 1,
                product >= 0,
        ;
        assert(n * e * 10_000 == d * e) by (nonlinear_arith)
            requires
                d == 10_000 * n,
        ;
    }
}

/// How many peers a tick sends to: the configured number, more if it takes more
/// to cover the cluster, and never more than there are.
pub open spec fn effective_fanout(fanout: usize, coverage: usize, peers: nat) -> int {
    let wanted = if fanout < coverage {
        coverage as int
    } else {
        fanout as int
    };
    if wanted < peers {
        wanted
    } else {
        peers as int
    }
}

// -- state ------------------------------------------------------------------

/// A packet that waits, and where it goes: a place in the pool.
pub type Queued = (PeerAddr, u8);

/// All there is to a node.
#[verifier::ext_equal]
pub struct NodeState<C: Count> {
    pub store: StoreState<C>,
    pub peers: Seq<PeerEntry>,
    /// The packets of the pool.
    pub pool: Seq<Seq<u8>>,
    /// Packets that wait, first in line first.
    pub pending: Seq<Queued>,
    /// Places of the pool that are free; the last is used first.
    pub free: Seq<u8>,
    pub rng: u64,
    pub decode_reject_count: u64,
    pub max_send_pending_depth: usize,
    /// Local hits of each rule since the last emit.
    pub rule_pending: Seq<u32>,
    /// When each rule was last emitted, zero if never.
    pub rule_last_emit: Seq<u64>,
    pub want_immediate_flush: bool,
    pub ticks_total: u64,
    pub threshold_fires: u64,
    pub dirty_ticks: u64,
    pub last_effective_fanout: usize,
    pub peak_effective_fanout: usize,
    pub last_error_budget: u64,
}

pub open spec fn queued_places(pending: Seq<Queued>) -> Seq<u8> {
    Seq::new(pending.len(), |i: int| pending[i].1)
}

/// Every place of the pool is either waiting or free, and only once.
pub open spec fn places_partitioned(pending: Seq<Queued>, free: Seq<u8>, pool: nat) -> bool {
    let all = queued_places(pending) + free;
    &&& all.no_duplicates()
    &&& all.len() == pool
    &&& forall|i: int| 0 <= i < all.len() ==> (#[trigger] all[i]) < pool
}

/// A peer's name and its frontier slot are known together.
pub open spec fn paired(peers: Seq<PeerEntry>) -> bool {
    forall|i: int|
        0 <= i < peers.len() ==> ((#[trigger] peers[i]).node_id is Some <==> peers[i].peer_slot
            is Some)
}

impl<C: Count> NodeState<C> {
    pub open spec fn valid(self) -> bool {
        &&& paired(self.peers)
        &&& self.pool.len() <= 255
        &&& places_partitioned(self.pending, self.free, self.pool.len())
        &&& self.rule_pending.len() == self.store.config.rule_dictionary_capacity
        &&& self.rule_last_emit.len() == self.store.config.rule_dictionary_capacity
    }
}

pub open spec fn raised_one(counter: u64) -> u64 {
    if counter == u64::MAX {
        counter
    } else {
        (counter + 1) as u64
    }
}

pub open spec fn pending_after(pending: u32, hits: u64) -> u32 {
    if pending + hits <= u32::MAX {
        (pending + hits) as u32
    } else {
        u32::MAX
    }
}

/// Local hits as the store takes them. Whose they are the store knows.
pub open spec fn hit_observation<C: Count>(hit: LimitHit) -> Observation<C> {
    Observation {
        rule_fingerprint: hit.rule_fingerprint,
        key_hash: hit.key_hash,
        bucket: hit.bucket,
        origin: NodeId(0),
        incarnation: 0,
        count: C::of(hit.hits as nat),
        last_update_millis: hit.now_millis,
    }
}

impl<C: Count> NodeState<C> {
    /// The error budget noted, and a flush asked for once it is passed.
    pub open spec fn budgeted(
        self,
        target_err_bps: u32,
        min_emit_interval: u64,
        hit: LimitHit,
        clock_millis: u64,
    ) -> NodeState<C> {
        match rule_position(self.store.rules, hit.rule_fingerprint) {
            None => self,
            Some(slot) => {
                let pending = pending_after(self.rule_pending[slot], hit.hits);
                let budget = error_budget(hit.rule_limit, target_err_bps, self.peers.len());
                let last = self.rule_last_emit[slot];
                let since = if clock_millis < last {
                    0
                } else {
                    clock_millis - last
                };
                let due = pending > budget && (last == 0 || since >= min_emit_interval);
                NodeState {
                    rule_pending: self.rule_pending.update(slot, pending),
                    want_immediate_flush: self.want_immediate_flush || due,
                    last_error_budget: budget,
                    ..self
                }
            },
        }
    }

    /// Local hits counted.
    pub open spec fn hit_taken(
        self,
        target_err_bps: u32,
        min_emit_interval: u64,
        hit: LimitHit,
        clock_millis: u64,
    ) -> NodeState<C> {
        let noted = self.budgeted(target_err_bps, min_emit_interval, hit, clock_millis);
        NodeState { store: self.store.ingested(seq![hit_observation::<C>(hit)]).state, ..noted }
    }
}

pub open spec fn sequences_of<C: Count>(cells: Seq<WireCell<C>>) -> Seq<u64> {
    Seq::new(cells.len(), |i: int| cells[i].origin_sequence)
}

/// What a peer's cells acknowledge: it has what it sent.
pub open spec fn acknowledged<C: Count>(
    nodes: Seq<NodeDescriptor>,
    frontiers: Seq<FrontierRow>,
    slot: int,
    cells: Seq<WireCell<C>>,
) -> Seq<FrontierRow>
    decreases cells.len(),
{
    if cells.len() == 0 {
        frontiers
    } else {
        let before = acknowledged(nodes, frontiers, slot, cells.drop_last());
        let cell = cells.last();
        match node_position(
            nodes,
            NodeDescriptor { node_id: cell.origin_node_id, incarnation: cell.origin_incarnation },
        ) {
            Some(node) => PeerFrontierTable::with_ack(before, slot, node, cell.origin_sequence),
            None => before,
        }
    }
}

pub open spec fn at_addr(addr: PeerAddr) -> spec_fn(PeerEntry) -> bool {
    |peer: PeerEntry| peer.addr == addr
}

/// The peer at an address, named.
pub open spec fn named(
    peers: Seq<PeerEntry>,
    addr: PeerAddr,
    node: NodeId,
    slot: u16,
) -> Seq<PeerEntry> {
    match first_where(peers, at_addr(addr)) {
        Some(i) => peers.update(
            i,
            PeerEntry { node_id: Some(node), peer_slot: Some(slot), ..peers[i] },
        ),
        None => peers,
    }
}

/// The frontiers with a slot for a node.
pub open spec fn with_slot<C: Count>(store: StoreState<C>, node: NodeId, slot: int) -> Seq<
    FrontierRow,
> {
    let row = FrontierRow {
        node: Some(node),
        acked: no_acks(store.config.node_dictionary_capacity as nat),
    };
    if first_where(store.frontiers, held_by(node)) is Some {
        store.frontiers
    } else if slot < store.frontiers.len() {
        store.frontiers.update(slot, row)
    } else {
        store.frontiers.push(row)
    }
}

impl<C: Count> NodeState<C> {
    /// A packet taken in: what is refused is counted and changes nothing else.
    pub open spec fn packet_taken(
        self,
        key: Option<Seq<u8>>,
        limits: FrameLimits,
        bytes: Seq<u8>,
        src: PeerAddr,
    ) -> NodeState<C> {
        match decoded::<C>(bytes, key, limits) {
            Err(_) => NodeState {
                decode_reject_count: raised_one(self.decode_reject_count),
                ..self
            },
            Ok(summary) => {
                let cells = decoded_cells::<C>(bytes, key, limits);
                let merged = self.store.merged(observed_all(cells), sequences_of(cells)).state;
                let sender = NodeId(summary.header.sender_node_id);
                match slot_for(merged.frontiers, merged.config.peer_capacity as nat, sender) {
                    None => NodeState { store: merged, ..self },
                    Some(slot) => NodeState {
                        store: StoreState {
                            frontiers: acknowledged(
                                merged.nodes,
                                with_slot(merged, sender, slot),
                                slot,
                                cells,
                            ),
                            ..merged
                        },
                        peers: named(self.peers, src, sender, slot as u16),
                        ..self
                    },
                }
            },
        }
    }

    /// The first waiting packet dealt with.
    pub open spec fn drained(self, outcome: SendOutcome) -> NodeState<C> {
        if self.pending.len() == 0 || outcome == SendOutcome::WouldBlock {
            self
        } else {
            NodeState {
                pending: self.pending.skip(1),
                free: self.free.push(self.pending[0].1),
                ..self
            }
        }
    }

    /// Membership changed. A peer is added once; a peer that goes takes what
    /// was known of it along.
    pub open spec fn peer_changed(self, event: PeerEvent) -> NodeState<C> {
        match event {
            PeerEvent::Added(addr) => if first_where(self.peers, at_addr(addr)) is Some {
                self
            } else {
                NodeState {
                    peers: self.peers.push(PeerEntry { addr, node_id: None, peer_slot: None }),
                    ..self
                }
            },
            PeerEvent::Removed(addr) => match first_where(self.peers, at_addr(addr)) {
                None => self,
                Some(i) => NodeState {
                    peers: self.peers.remove(i),
                    store: match self.peers[i].node_id {
                        None => self.store,
                        Some(node) => StoreState {
                            frontiers: match first_where(self.store.frontiers, held_by(node)) {
                                Some(k) => self.store.frontiers.update(
                                    k,
                                    FrontierRow {
                                        node: None,
                                        acked: no_acks(
                                            self.store.config.node_dictionary_capacity as nat,
                                        ),
                                    },
                                ),
                                None => self.store.frontiers,
                            },
                            ..self.store
                        },
                    },
                    ..self
                },
            },
        }
    }
}

// -- ticks ------------------------------------------------------------------

/// The header of every packet a node sends.
pub open spec fn node_header(cluster_id_hash: u128, identity: NodeIdentity) -> Header {
    Header {
        cluster_id_hash,
        sender_node_id: identity.node_id.0,
        sender_incarnation: identity.incarnation,
        count_width: 0,
        cell_count: 0,
        body_len: 0,
        min_origin_sequence: 0,
        max_origin_sequence: 0,
        flags: 0,
    }
}

/// The `i`th new packet: the handles from one cut to the next, as many as fit,
/// in the place that was next to be used.
pub open spec fn packet_at<C: Count>(
    before: NodeState<C>,
    after: NodeState<C>,
    header: Header,
    key: Option<Seq<u8>>,
    limits: FrameLimits,
    dst: PeerAddr,
    handles: Seq<CellHandle>,
    from: nat,
    to: nat,
    i: int,
) -> bool {
    let budget = (limits.max_payload_bytes - crate::wire::HEADER_LEN - crate::wire::tag_len(
        key is Some,
    )) as nat;
    let place = before.free[before.free.len() - 1 - i];
    &&& after.pending[before.pending.len() + i] == (dst, place)
    &&& to > from
    &&& takes(before.store, handles, from as int, to - from, budget)
    &&& after.pool[place as int] == packet_bytes(
        before.store,
        header,
        run_rows(before.store, handles, from as int, to - from),
        to < handles.len(),
        key,
    )
}

/// The packets encoded so far for one peer. `cuts` says where each packet starts
/// in the run of handles: each takes as many as fit, in order, and they are
/// queued in order.
pub open spec fn packets_so_far<C: Count>(
    before: NodeState<C>,
    after: NodeState<C>,
    header: Header,
    key: Option<Seq<u8>>,
    limits: FrameLimits,
    dst: PeerAddr,
    handles: Seq<CellHandle>,
    cuts: Seq<nat>,
) -> bool {
    let n = cuts.len() - 1;
    &&& cuts.len() >= 1
    &&& cuts[0] == 0
    &&& after == (NodeState {
        pool: after.pool,
        pending: after.pending,
        free: after.free,
        ..before
    })
    &&& 0 <= n <= before.free.len()
    &&& after.pool.len() == before.pool.len()
    &&& after.free == before.free.take(before.free.len() - n)
    &&& after.pending.len() == before.pending.len() + n
    &&& forall|i: int|
        0 <= i < before.pending.len() ==> #[trigger] after.pending[i] == before.pending[i]
    &&& forall|i: int|
        0 <= i < before.pending.len() ==> after.pool[(#[trigger] before.pending[i]).1 as int]
            == before.pool[before.pending[i].1 as int]
    &&& forall|i: int|
        0 <= i < n ==> packet_at(
            before,
            after,
            header,
            key,
            limits,
            dst,
            handles,
            #[trigger] cuts[i],
            cuts[i + 1],
            i,
        )
}

/// Cells put into packets for one peer: either every handle is in a packet, or
/// no place was left.
pub open spec fn packets_queued<C: Count>(
    before: NodeState<C>,
    after: NodeState<C>,
    header: Header,
    key: Option<Seq<u8>>,
    limits: FrameLimits,
    dst: PeerAddr,
    handles: Seq<CellHandle>,
    cuts: Seq<nat>,
) -> bool {
    &&& packets_so_far(before, after, header, key, limits, dst, handles, cuts)
    &&& cuts.last() == handles.len() || cuts.len() - 1 == before.free.len()
}

/// What a tick does for one peer: cells are chosen and put into packets.
pub open spec fn peer_served<C: Count>(
    before: NodeState<C>,
    after: NodeState<C>,
    max_cells: nat,
    header: Header,
    key: Option<Seq<u8>>,
    limits: FrameLimits,
    peer: PeerEntry,
) -> bool {
    exists|chosen: StoreState<C>, handles: Seq<CellHandle>|
        {
            &&& #[trigger] frame_filled(before.store, chosen, max_cells, peer.peer_slot, handles)
            &&& ({
                let filled = NodeState { store: chosen, ..before };
                if handles.len() == 0 || limits.max_payload_bytes < spec_min_payload_bytes(
                    C::width(),
                    key is Some,
                ) {
                    after == filled
                } else {
                    exists|cuts: Seq<nat>| #[trigger]
                        packets_queued(
                            filled,
                            after,
                            header,
                            key,
                            limits,
                            peer.addr,
                            handles,
                            cuts,
                        )
                }
            })
        }
}

/// A peer served, if there is a free place.
pub open spec fn turn_taken<C: Count>(
    before: NodeState<C>,
    after: NodeState<C>,
    max_cells: nat,
    header: Header,
    key: Option<Seq<u8>>,
    limits: FrameLimits,
    peer: PeerEntry,
) -> bool {
    if before.free.len() == 0 {
        after == before
    } else {
        peer_served(before, after, max_cells, header, key, limits, peer)
    }
}

/// Peers served one after the other. `states` is what the node goes through.
pub open spec fn served_through<C: Count>(
    states: Seq<NodeState<C>>,
    max_cells: nat,
    header: Header,
    key: Option<Seq<u8>>,
    limits: FrameLimits,
    peers: Seq<PeerEntry>,
) -> bool {
    &&& states.len() == peers.len() + 1
    &&& forall|i: int|
        0 <= i < peers.len() ==> turn_taken(
            states[i],
            states[i + 1],
            max_cells,
            header,
            key,
            limits,
            #[trigger] peers[i],
        )
}

/// One more peer served.
proof fn lemma_next_served<C: Count>(
    states: Seq<NodeState<C>>,
    after: NodeState<C>,
    max_cells: nat,
    header: Header,
    key: Option<Seq<u8>>,
    limits: FrameLimits,
    peers: Seq<PeerEntry>,
    peer: PeerEntry,
)
    requires
        served_through(states, max_cells, header, key, limits, peers),
        turn_taken(states.last(), after, max_cells, header, key, limits, peer),
    ensures
        served_through(states.push(after), max_cells, header, key, limits, peers.push(peer)),
{
    let then = states.push(after);
    let all = peers.push(peer);
    assert forall|i: int| 0 <= i < all.len() implies turn_taken(
        then[i],
        then[i + 1],
        max_cells,
        header,
        key,
        limits,
        #[trigger] all[i],
    ) by {
        if i < peers.len() {
            assert(all[i] == peers[i] && then[i] == states[i] && then[i + 1] == states[i + 1]);
        } else {
            assert(then[i] == states.last() && then[i + 1] == after);
        }
    }
}

impl<C: Count> NodeState<C> {
    /// A tick begun: counted, and what has aged out dropped.
    pub open spec fn tick_begun(self, now: u64) -> NodeState<C> {
        NodeState {
            ticks_total: raised_one(self.ticks_total),
            store: StoreState {
                slots: Seq::new(
                    self.store.slots.len(),
                    |i: int| self.store.swept(self.store.slots[i], now),
                ),
                ..self.store
            },
            ..self
        }
    }

    /// Whether a tick has anything to send, anyone to send it to, and room.
    pub open spec fn tick_sends(self) -> bool {
        self.store.live(self.store.slots.len()) > 0 && self.peers.len() > 0 && self.free.len() > 0
    }

    /// Peers drawn for a tick.
    pub open spec fn tick_drawn(self, fanout: usize, coverage: usize) -> NodeState<C> {
        let picks = effective_fanout(fanout, coverage, self.peers.len());
        let (peers, rng) = shuffled(self.peers, self.rng, picks as nat);
        NodeState {
            dirty_ticks: raised_one(self.dirty_ticks),
            last_effective_fanout: picks as usize,
            peak_effective_fanout: if self.peak_effective_fanout < picks {
                picks as usize
            } else {
                self.peak_effective_fanout
            },
            peers,
            rng,
            ..self
        }
    }

    /// Pending hits taken as sent, and the emit stamped.
    pub open spec fn emit_stamped(self, now: u64) -> NodeState<C> {
        let stamp = if now == 0 {
            1
        } else {
            now
        };
        NodeState {
            rule_pending: Seq::new(self.rule_pending.len(), |i: int| 0u32),
            rule_last_emit: Seq::new(
                self.rule_last_emit.len(),
                |i: int|
                    if self.rule_pending[i] != 0 {
                        stamp
                    } else {
                        self.rule_last_emit[i]
                    },
            ),
            ..self
        }
    }
}

/// What a tick does. Without cells, peers or room it only drops what has aged
/// out. `coverage` is how many peers it takes to cover the cluster.
pub open spec fn ticked<C: Count>(
    before: NodeState<C>,
    after: NodeState<C>,
    fanout: usize,
    coverage: usize,
    max_cells: nat,
    cluster_id_hash: u128,
    key: Option<Seq<u8>>,
    limits: FrameLimits,
    now: u64,
) -> bool {
    let begun = before.tick_begun(now);
    if !begun.tick_sends() {
        after == begun
    } else {
        let drawn = begun.tick_drawn(fanout, coverage);
        let header = node_header(cluster_id_hash, before.store.identity);
        let picks = effective_fanout(fanout, coverage, begun.peers.len());
        exists|states: Seq<NodeState<C>>|
            {
                &&& #[trigger] served_through(
                    states,
                    max_cells,
                    header,
                    key,
                    limits,
                    drawn.peers.take(picks),
                )
                &&& states[0] == drawn
                &&& after == states.last().emit_stamped(now)
            }
    }
}

/// No place waits and is free at once, and none is free twice.
proof fn lemma_places_apart(pending: Seq<Queued>, free: Seq<u8>, pool: nat)
    requires
        places_partitioned(pending, free, pool),
    ensures
        forall|i: int, j: int|
            #![trigger pending[i], free[j]]
            0 <= i < pending.len() && 0 <= j < free.len() ==> pending[i].1 != free[j],
        forall|i: int, j: int|
            0 <= i < j < free.len() ==> #[trigger] free[i] != #[trigger] free[j],
        forall|j: int| 0 <= j < free.len() ==> (#[trigger] free[j]) < pool,
        forall|i: int| 0 <= i < pending.len() ==> (#[trigger] pending[i]).1 < pool,
{
    let all = queued_places(pending) + free;
    let n = pending.len();
    assert forall|i: int, j: int|
        #![trigger pending[i], free[j]]
        0 <= i < pending.len() && 0 <= j < free.len() implies pending[i].1 != free[j] by {
        assert(all[i] == pending[i].1 && all[n + j] == free[j]);
    }
    assert forall|i: int, j: int| 0 <= i < j < free.len() implies #[trigger] free[i]
        != #[trigger] free[j] by {
        assert(all[n + i] == free[i] && all[n + j] == free[j]);
    }
    assert forall|j: int| 0 <= j < free.len() implies (#[trigger] free[j]) < pool by {
        assert(all[n + j] == free[j]);
    }
    assert forall|i: int| 0 <= i < pending.len() implies (#[trigger] pending[i]).1 < pool by {
        assert(all[i] == pending[i].1);
    }
}

/// A place that is taken for a packet is no longer free.
proof fn lemma_place_taken(pending: Seq<Queued>, free: Seq<u8>, pool: nat, dst: PeerAddr)
    requires
        places_partitioned(pending, free, pool),
        free.len() > 0,
    ensures
        places_partitioned(pending.push((dst, free.last())), free.drop_last(), pool),
        free.last() < pool,
{
    let all = queued_places(pending) + free;
    let then = queued_places(pending.push((dst, free.last()))) + free.drop_last();
    let n = pending.len() as int;
    let origin = |i: int|
        if i < n {
            i
        } else if i == n {
            all.len() - 1
        } else {
            i - 1
        };
    assert forall|i: int| 0 <= i < then.len() implies #[trigger] then[i] == all[origin(i)] by {}
    assert(all[all.len() - 1] == free.last());
    assert forall|i: int, j: int|
        0 <= i < then.len() && 0 <= j < then.len() && i != j implies then[i] != then[j] by {
        assert(then[i] == all[origin(i)] && then[j] == all[origin(j)]);
        assert(origin(i) != origin(j));
    }
}

/// A place whose packet is gone is free.
proof fn lemma_place_freed(pending: Seq<Queued>, free: Seq<u8>, pool: nat)
    requires
        places_partitioned(pending, free, pool),
        pending.len() > 0,
    ensures
        places_partitioned(pending.skip(1), free.push(pending[0].1), pool),
{
    let all = queued_places(pending) + free;
    let then = queued_places(pending.skip(1)) + free.push(pending[0].1);
    let origin = |i: int|
        if i < all.len() - 1 {
            i + 1
        } else {
            0
        };
    assert forall|i: int| 0 <= i < then.len() implies #[trigger] then[i] == all[origin(i)] by {}
    assert forall|i: int, j: int|
        0 <= i < then.len() && 0 <= j < then.len() && i != j implies then[i] != then[j] by {
        assert(then[i] == all[origin(i)] && then[j] == all[origin(j)]);
        assert(origin(i) != origin(j));
    }
}

/// One more packet keeps the account.
proof fn lemma_packet_added<C: Count>(
    before: NodeState<C>,
    mid: NodeState<C>,
    after: NodeState<C>,
    header: Header,
    key: Option<Seq<u8>>,
    limits: FrameLimits,
    dst: PeerAddr,
    handles: Seq<CellHandle>,
    cuts: Seq<nat>,
    cursor: nat,
)
    requires
        before.valid(),
        packets_so_far(before, mid, header, key, limits, dst, handles, cuts),
        mid.free.len() > 0,
        cursor > cuts.last(),
        ({
            let place = mid.free.last();
            let budget = (limits.max_payload_bytes - crate::wire::HEADER_LEN
                - crate::wire::tag_len(key is Some)) as nat;
            &&& after == (NodeState {
                pool: mid.pool.update(place as int, after.pool[place as int]),
                pending: mid.pending.push((dst, place)),
                free: mid.free.drop_last(),
                ..mid
            })
            &&& takes(before.store, handles, cuts.last() as int, cursor - cuts.last(), budget)
            &&& after.pool[place as int] == packet_bytes(
                before.store,
                header,
                run_rows(before.store, handles, cuts.last() as int, cursor - cuts.last()),
                cursor < handles.len(),
                key,
            )
        }),
    ensures
        packets_so_far(before, after, header, key, limits, dst, handles, cuts.push(cursor)),
{
    let place = mid.free.last();
    let now = cuts.push(cursor);
    let n = cuts.len() - 1;
    let f = before.free.len();
    lemma_places_apart(before.pending, before.free, before.pool.len());
    assert(place == before.free[f - 1 - n]);
    assert(after.free =~= before.free.take(f - (n + 1)));
    assert forall|i: int| 0 <= i < before.pending.len() implies after.pool[(
    #[trigger] before.pending[i]).1 as int] == before.pool[before.pending[i].1 as int] by {
        assert(before.pending[i].1 != before.free[f - 1 - n]);
    }
    assert forall|i: int| 0 <= i < n + 1 implies packet_at(
        before,
        after,
        header,
        key,
        limits,
        dst,
        handles,
        #[trigger] now[i],
        now[i + 1],
        i,
    ) by {
        if i < n {
            assert(packet_at(
                before,
                mid,
                header,
                key,
                limits,
                dst,
                handles,
                cuts[i],
                cuts[i + 1],
                i,
            ));
            assert(before.free[f - 1 - n] != before.free[f - 1 - i]);
        }
    }
}

/// Hits that pass a rule's share of the error budget are not held back: unless a
/// flush is asked for, what is pending stays within the share, or the rule was
/// emitted too short a time ago.
pub proof fn lemma_pending_within_budget<C: Count>(
    state: NodeState<C>,
    target_err_bps: u32,
    min_emit_interval: u64,
    hit: LimitHit,
    clock_millis: u64,
    slot: int,
)
    requires
        rule_position(state.store.rules, hit.rule_fingerprint) == Some(slot),
        0 <= slot < state.rule_pending.len(),
    ensures
        ({
            let after = state.hit_taken(target_err_bps, min_emit_interval, hit, clock_millis);
            let last = state.rule_last_emit[slot];
            after.want_immediate_flush || after.rule_pending[slot] <= error_budget(
                hit.rule_limit,
                target_err_bps,
                state.peers.len(),
            ) || last > 0 && clock_millis < last + min_emit_interval
        }),
{
}

/// A rule is not flushed again before the emit floor has passed: after an emit
/// that took its pending hits along, further hits ask for no flush until then.
pub proof fn lemma_emit_floor<C: Count>(
    state: NodeState<C>,
    emitted_millis: u64,
    target_err_bps: u32,
    min_emit_interval: u64,
    hit: LimitHit,
    clock_millis: u64,
    slot: int,
)
    requires
        rule_position(state.store.rules, hit.rule_fingerprint) == Some(slot),
        0 <= slot < state.rule_pending.len(),
        state.rule_last_emit.len() == state.rule_pending.len(),
        state.rule_pending[slot] != 0,
        !state.want_immediate_flush,
        0 < emitted_millis <= clock_millis < emitted_millis + min_emit_interval,
    ensures
        !state.emit_stamped(emitted_millis).hit_taken(
            target_err_bps,
            min_emit_interval,
            hit,
            clock_millis,
        ).want_immediate_flush,
{
}

/// A peer is added once.
pub proof fn lemma_peer_added_once<C: Count>(state: NodeState<C>, addr: PeerAddr)
    ensures
        ({
            let once = state.peer_changed(PeerEvent::Added(addr));
            once.peer_changed(PeerEvent::Added(addr)) == once
        }),
{
    let p = at_addr(addr);
    lemma_first_where(state.peers, p);
    if first_where(state.peers, p) is None {
        let then = state.peers.push(PeerEntry { addr, node_id: None, peer_slot: None });
        assert forall|j: int| 0 <= j < state.peers.len() implies !p(#[trigger] then[j]) by {
            assert(!p(state.peers[j]));
        }
        lemma_first_where_at(then, p, state.peers.len() as int);
    }
}

/// A new peer that leaves before it was heard of leaves nothing behind.
pub proof fn lemma_peer_comes_and_goes<C: Count>(state: NodeState<C>, addr: PeerAddr)
    requires
        first_where(state.peers, at_addr(addr)) is None,
    ensures
        state.peer_changed(PeerEvent::Added(addr)).peer_changed(PeerEvent::Removed(addr)) == state,
{
    let p = at_addr(addr);
    lemma_first_where(state.peers, p);
    let then = state.peers.push(PeerEntry { addr, node_id: None, peer_slot: None });
    assert forall|j: int| 0 <= j < state.peers.len() implies !p(#[trigger] then[j]) by {
        assert(!p(state.peers[j]));
    }
    lemma_first_where_at(then, p, state.peers.len() as int);
    assert(then.remove(state.peers.len() as int) =~= state.peers);
}

/// A packet that does not decode changes nothing but the count of those
/// refused.
pub proof fn lemma_refused_changes_nothing<C: Count>(
    state: NodeState<C>,
    key: Option<Seq<u8>>,
    limits: FrameLimits,
    bytes: Seq<u8>,
    src: PeerAddr,
)
    requires
        decoded::<C>(bytes, key, limits) is Err,
    ensures
        state.packet_taken(key, limits, bytes, src) == (NodeState {
            decode_reject_count: raised_one(state.decode_reject_count),
            ..state
        }),
{
}

/// Drawing peers keeps what is known of each.
proof fn lemma_paired_shuffled(peers: Seq<PeerEntry>, rng: u64, k: nat)
    requires
        k <= peers.len(),
        paired(peers),
    ensures
        shuffled(peers, rng, k).0.len() == peers.len(),
        paired(shuffled(peers, rng, k).0),
{
    lemma_draws_without_replacement(peers, rng, k);
    let then = shuffled(peers, rng, k).0;
    assert forall|i: int| 0 <= i < then.len() implies ((#[trigger] then[i]).node_id is Some
        <==> then[i].peer_slot is Some) by {
        vstd::seq_lib::to_multiset_contains(then, then[i]);
        vstd::seq_lib::to_multiset_contains(peers, then[i]);
        let j = choose|j: int| 0 <= j < peers.len() && peers[j] == then[i];
        assert(peers[j] == then[i]);
    }
}

// -- node -------------------------------------------------------------------

/// A node of the gossip.
pub struct GossipNode<C: Count> {
    config: GossipConfig,
    store: CellStore<C>,
    peers: Vec<PeerEntry>,
    pool: Vec<PacketBuf>,
    pending: VecDeque<Queued>,
    free: Vec<u8>,
    rng: SplitMix64,
    decode_reject_count: u64,
    max_send_pending_depth: usize,
    rule_pending: Vec<u32>,
    rule_last_emit: Vec<u64>,
    want_immediate_flush: bool,
    ticks_total: u64,
    threshold_fires: u64,
    dirty_ticks: u64,
    last_effective_fanout: usize,
    peak_effective_fanout: usize,
    last_error_budget: u64,
}

pub open spec fn pool_contents(pool: Seq<PacketBuf>) -> Seq<Seq<u8>> {
    Seq::new(pool.len(), |i: int| pool[i]@)
}

/// Encodes the next packet into a free place, and puts it last in line.
fn encode_next<C: Count>(
    packets: &mut Packets<C>,
    pool: &mut Vec<PacketBuf>,
    pending: &mut VecDeque<Queued>,
    free: &mut Vec<u8>,
    dst: PeerAddr,
)
    requires
        old(packets).wf(),
        old(packets)@.cursor < old(packets)@.handles.len(),
        old(free)@.len() > 0,
        places_partitioned(old(pending)@, old(free)@, old(pool)@.len()),
    ensures
        final(packets).wf(),
        final(packets)@ == (PacketsState { cursor: final(packets)@.cursor, ..old(packets)@ }),
        places_partitioned(final(pending)@, final(free)@, final(pool)@.len()),
        ({
            let was = old(packets)@;
            let place = old(free)@.last();
            let k = final(packets)@.cursor - was.cursor;
            &&& k >= 1
            &&& takes(was.store, was.handles, was.cursor as int, k, was.body_budget())
            &&& final(free)@ == old(free)@.drop_last()
            &&& final(pending)@ == old(pending)@.push((dst, place))
            &&& pool_contents(final(pool)@) == pool_contents(old(pool)@).update(
                place as int,
                packet_bytes(
                    was.store,
                    was.header,
                    run_rows(was.store, was.handles, was.cursor as int, k),
                    final(packets)@.cursor < was.handles.len(),
                    was.key,
                ),
            )
            &&& place < old(pool)@.len()
        }),
{
    proof {
        lemma_place_taken(pending@, free@, pool@.len(), dst);
    }
    let ghost start = pool@;
    if let Some(place) = free.pop() {
        let _ = packets.next_into(&mut pool[place as usize]);
        pending.push_back((dst, place));
        assert(pool_contents(pool@) =~= pool_contents(start).update(
            place as int,
            pool@[place as int]@,
        ));
    }
}

/// A peer nothing is known of yet.
pub open spec fn strangers(addrs: Seq<PeerAddr>) -> Seq<PeerEntry> {
    Seq::new(addrs.len(), |i: int| PeerEntry { addr: addrs[i], node_id: None, peer_slot: None })
}

/// The places of the pool for a queue capacity. There is always room for one
/// packet; places are numbered in a byte, so there are at most 255.
pub open spec fn pool_places(capacity: usize) -> nat {
    if capacity == 0 {
        1
    } else if capacity > 255 {
        255
    } else {
        capacity as nat
    }
}

/// The free places of a fresh pool: the first is used first.
pub open spec fn countdown(n: nat) -> Seq<u8> {
    Seq::new(n, |i: int| (n - 1 - i) as u8)
}

impl<C: Count> GossipNode<C> {
    pub closed spec fn view(&self) -> NodeState<C> {
        NodeState {
            store: self.store@,
            peers: self.peers@,
            pool: pool_contents(self.pool@),
            pending: self.pending@,
            free: self.free@,
            rng: self.rng@,
            decode_reject_count: self.decode_reject_count,
            max_send_pending_depth: self.max_send_pending_depth,
            rule_pending: self.rule_pending@,
            rule_last_emit: self.rule_last_emit@,
            want_immediate_flush: self.want_immediate_flush,
            ticks_total: self.ticks_total,
            threshold_fires: self.threshold_fires,
            dirty_ticks: self.dirty_ticks,
            last_effective_fanout: self.last_effective_fanout,
            peak_effective_fanout: self.peak_effective_fanout,
            last_error_budget: self.last_error_budget,
        }
    }

    pub closed spec fn spec_config(&self) -> GossipConfig {
        self.config
    }

    pub open spec fn spec_key(&self) -> Option<Seq<u8>> {
        match self.spec_config().auth_key {
            Some(key) => Some(key.0@),
            None => None,
        }
    }

    pub closed spec fn wf(&self) -> bool {
        &&& self.store.wf()
        &&& self@.valid()
        &&& self.config.wire_limits.max_payload_bytes <= u32::MAX
    }

    /// A peer's name and slot are known together, and every place of the pool
    /// is waiting or free, once.
    pub proof fn lemma_valid(&self)
        requires
            self.wf(),
        ensures
            self@.valid(),
    {
    }

    /// A node with a store of its own. A payload's length must fit 32 bits.
    pub fn new(config: GossipConfig, store: CellStore<C>) -> (node: GossipNode<C>)
        requires
            store.wf(),
            config.wire_limits.max_payload_bytes <= u32::MAX,
        ensures
            node.wf(),
            node.spec_config() == config,
            ({
                let places = pool_places(config.send_queue_capacity);
                node@ == (NodeState {
                    store: store@,
                    peers: strangers(config.bootstrap_peers@),
                    pool: Seq::new(places, |i: int| Seq::<u8>::empty()),
                    pending: Seq::empty(),
                    free: countdown(places),
                    rng: config.rng_seed.wrapping_add(GAMMA),
                    decode_reject_count: 0,
                    max_send_pending_depth: 0,
                    rule_pending: Seq::new(
                        store@.config.rule_dictionary_capacity as nat,
                        |i: int| 0u32,
                    ),
                    rule_last_emit: Seq::new(
                        store@.config.rule_dictionary_capacity as nat,
                        |i: int| 0u64,
                    ),
                    want_immediate_flush: false,
                    ticks_total: 0,
                    threshold_fires: 0,
                    dirty_ticks: 0,
                    last_effective_fanout: 0,
                    peak_effective_fanout: 0,
                    last_error_budget: 0,
                })
            }),
    {
        let places: usize = if config.send_queue_capacity == 0 {
            1
        } else if config.send_queue_capacity > 255 {
            255
        } else {
            config.send_queue_capacity
        };
        let mut peers: Vec<PeerEntry> = Vec::new();
        let mut i: usize = 0;
        while i < config.bootstrap_peers.len()
            invariant
                i <= config.bootstrap_peers@.len(),
                peers@ =~= strangers(config.bootstrap_peers@).take(i as int),
            decreases config.bootstrap_peers@.len() - i,
        {
            peers.push(
                PeerEntry { addr: config.bootstrap_peers[i], node_id: None, peer_slot: None },
            );
            i = i + 1;
        }
        assert(peers@ =~= strangers(config.bootstrap_peers@));
        let mut pool: Vec<PacketBuf> = Vec::new();
        let mut free: Vec<u8> = Vec::new();
        let mut i: usize = 0;
        while i < places
            invariant
                i <= places <= 255,
                pool@.len() == i,
                forall|j: int| 0 <= j < i ==> (#[trigger] pool@[j])@ == Seq::<u8>::empty(),
                free@ =~= countdown(places as nat).take(i as int),
            decreases places - i,
        {
            pool.push(PacketBuf::for_limits(config.wire_limits));
            free.push((places - 1 - i) as u8);
            i = i + 1;
        }
        let rules: usize = store.rule_dictionary().capacity() as usize;
        let mut rule_pending: Vec<u32> = Vec::new();
        let mut rule_last_emit: Vec<u64> = Vec::new();
        let mut i: usize = 0;
        while i < rules
            invariant
                i <= rules,
                rule_pending@ =~= Seq::new(i as nat, |j: int| 0u32),
                rule_last_emit@ =~= Seq::new(i as nat, |j: int| 0u64),
            decreases rules - i,
        {
            rule_pending.push(0);
            rule_last_emit.push(0);
            i = i + 1;
        }
        let rng = SplitMix64::new(config.rng_seed);
        let node = GossipNode {
            config,
            store,
            peers,
            pool,
            pending: VecDeque::new(),
            free,
            rng,
            decode_reject_count: 0,
            max_send_pending_depth: 0,
            rule_pending,
            rule_last_emit,
            want_immediate_flush: false,
            ticks_total: 0,
            threshold_fires: 0,
            dirty_ticks: 0,
            last_effective_fanout: 0,
            peak_effective_fanout: 0,
            last_error_budget: 0,
        };
        proof {
            let n = places as nat;
            assert(free@ =~= countdown(n));
            assert(node@.pool =~= Seq::new(n, |i: int| Seq::<u8>::empty()));
            assert(queued_places(node@.pending) + node@.free =~= countdown(n));
            assert(places_partitioned(node@.pending, node@.free, n));
        }
        node
    }

    /// Counts local hits, and asks for a flush if they pass the rule's share of
    /// the error budget and the last emit is long enough ago. `clock_millis` is
    /// the node's own clock, which stamps emits too; `hit.now_millis` may come
    /// from another.
    pub fn handle_limit_request(
        &mut self,
        hit: LimitHit,
        clock_millis: u64,
        sink: &mut DeltaSink<C>,
    )
        requires
            old(self).wf(),
            old(sink).wf(),
        ensures
            final(self).wf(),
            final(self).spec_config() == old(self).spec_config(),
            final(sink).wf(),
            final(self)@ == old(self)@.hit_taken(
                old(self).spec_config().target_err_bps,
                old(self).spec_config().min_emit_interval_millis,
                hit,
                clock_millis,
            ),
            final(sink)@ == old(sink)@ + old(self)@.store.ingested(
                seq![hit_observation::<C>(hit)],
            ).deltas,
    {
        let ghost before = self@;
        if let Some(slot) = self.store.rule_dictionary().find(hit.rule_fingerprint) {
            let idx: usize = slot as usize;
            let hits: u32 = if hit.hits < u32::MAX as u64 { hit.hits as u32 } else { u32::MAX };
            let pending: u32 = self.rule_pending[idx].saturating_add(hits);
            self.rule_pending.set(idx, pending);
            let budget: u64 = error_budget_for(
                hit.rule_limit,
                self.config.target_err_bps,
                self.peers.len(),
            );
            self.last_error_budget = budget;
            if pending as u64 > budget {
                let last: u64 = self.rule_last_emit[idx];
                let floor: u64 = self.config.min_emit_interval_millis;
                if last == 0 || clock_millis.saturating_sub(last) >= floor {
                    self.want_immediate_flush = true;
                }
            }
        }
        let mut batch: ObservationBatch<C> = ObservationBatch::with_capacity(1);
        batch.push(
            Observation {
                rule_fingerprint: hit.rule_fingerprint,
                key_hash: hit.key_hash,
                bucket: hit.bucket,
                origin: NodeId(0),
                incarnation: 0,
                count: C::saturating_from_u64(hit.hits),
                last_update_millis: hit.now_millis,
            },
        );
        assert(batch@ =~= seq![hit_observation::<C>(hit)]);
        self.store.ingest_local(&batch, sink);
        proof {
            lemma_ingested_frame(before.store, seq![hit_observation::<C>(hit)]);
            assert(self@ =~= before.hit_taken(
                self.config.target_err_bps,
                self.config.min_emit_interval_millis,
                hit,
                clock_millis,
            ));
        }
    }

    /// Takes in a packet from `src`. Its cells are merged, the sender is taken
    /// to have what it sent, and the peer at `src` is named. A packet that does
    /// not decode is counted and dropped; why is handed back.
    pub fn handle_inbound(&mut self, bytes: &[u8], src: PeerAddr, sink: &mut DeltaSink<C>) -> (refused:
        Option<DecodeError>)
        requires
            old(self).wf(),
            old(sink).wf(),
        ensures
            final(self).wf(),
            final(self).spec_config() == old(self).spec_config(),
            final(sink).wf(),
            final(self)@ == old(self)@.packet_taken(
                old(self).spec_key(),
                old(self).spec_config().wire_limits,
                bytes@,
                src,
            ),
            match decoded::<C>(
                bytes@,
                old(self).spec_key(),
                old(self).spec_config().wire_limits,
            ) {
                Err(e) => refused == Some(e) && final(sink)@ == old(sink)@,
                Ok(_) => {
                    let cells = decoded_cells::<C>(
                        bytes@,
                        old(self).spec_key(),
                        old(self).spec_config().wire_limits,
                    );
                    &&& refused is None
                    &&& final(sink)@ == old(sink)@ + old(self)@.store.merged(
                        observed_all(cells),
                        sequences_of(cells),
                    ).deltas
                },
            },
    {
        let ghost before = self@;
        let ghost key = self.spec_key();
        let ghost limits = self.config.wire_limits;
        let ghost config = self.config;
        let mut cells: Vec<WireCell<C>> = Vec::new();
        let outcome = match &self.config.auth_key {
            Some(k) => decode_auth_visit(bytes, k, self.config.wire_limits, any_header, &mut cells),
            None => decode_unauth_visit(bytes, self.config.wire_limits, any_header, &mut cells),
        };
        assert(cells@ =~= decoded_cells::<C>(bytes@, key, limits));
        assert(outcome == decoded::<C>(bytes@, key, limits));
        let summary = match outcome {
            Ok(summary) => summary,
            Err(e) => {
                self.decode_reject_count = self.decode_reject_count.saturating_add(1);
                assert(self@ =~= before.packet_taken(key, limits, bytes@, src));
                return Some(e);
            },
        };
        let mut batch: ObservationBatch<C> = ObservationBatch::with_capacity(cells.len());
        let mut i: usize = 0;
        while i < cells.len()
            invariant
                i <= cells@.len(),
                batch.wf(),
                batch@ =~= observed_all(cells@).take(i as int),
                batch.origin_sequences@ =~= sequences_of(cells@).take(i as int),
            decreases cells@.len() - i,
        {
            batch.push_sequenced(observation_from_wire(cells[i]), cells[i].origin_sequence);
            i = i + 1;
        }
        assert(batch@ =~= observed_all(cells@));
        assert(batch.origin_sequences@ =~= sequences_of(cells@));
        self.store.merge_remote(&batch, sink);
        let ghost merged = self.store@;
        proof {
            lemma_merged_frame(before.store, observed_all(cells@), sequences_of(cells@));
        }
        let sender = NodeId(summary.header.sender_node_id);
        if let Some(slot) = self.store.intern_peer(sender) {
            let ghost interned = self.store@.frontiers;
            assert(interned == with_slot(merged, sender, slot as int));
            self.record_acks(slot, &cells);
            self.name_peer(src, sender, slot);
            assert(self@ =~= before.packet_taken(key, limits, bytes@, src));
        } else {
            assert(self@ =~= before.packet_taken(key, limits, bytes@, src));
        }
        None
    }

    /// Takes a peer to have the cells it sent.
    fn record_acks(&mut self, slot: u16, cells: &Vec<WireCell<C>>)
        requires
            old(self).store.wf(),
        ensures
            final(self).store.wf(),
            *final(self) == (GossipNode { store: final(self).store, ..*old(self) }),
            final(self).store@ == (StoreState {
                frontiers: acknowledged(
                    old(self).store@.nodes,
                    old(self).store@.frontiers,
                    slot as int,
                    cells@,
                ),
                ..old(self).store@
            }),
    {
        let ghost before = self.store@;
        let mut i: usize = 0;
        assert(cells@.take(0) =~= Seq::<WireCell<C>>::empty());
        while i < cells.len()
            invariant
                i <= cells@.len(),
                self.store.wf(),
                *self == (GossipNode { store: self.store, ..*old(self) }),
                before == old(self).store@,
                self.store@ == (StoreState {
                    frontiers: acknowledged(
                        before.nodes,
                        before.frontiers,
                        slot as int,
                        cells@.take(i as int),
                    ),
                    ..before
                }),
            decreases cells@.len() - i,
        {
            assert(cells@.take(i + 1).drop_last() =~= cells@.take(i as int));
            let cell = &cells[i];
            let sequence: u64 = cell.origin_sequence;
            let found = self.store.node_dictionary().find(
                cell.origin_node_id,
                cell.origin_incarnation,
            );
            if let Some(node) = found {
                self.store.record_acked(slot, node, sequence);
            }
            i = i + 1;
        }
        assert(cells@.take(i as int) =~= cells@);
    }

    /// Where a peer is in the list.
    fn find_peer(&self, addr: PeerAddr) -> (found: Option<usize>)
        ensures
            match first_where(self.peers@, at_addr(addr)) {
                Some(i) => found is Some && found->0 == i && 0 <= i < self.peers@.len(),
                None => found is None,
            },
    {
        let mut i: usize = 0;
        while i < self.peers.len()
            invariant
                i <= self.peers@.len(),
                forall|j: int| 0 <= j < i ==> !at_addr(addr)(#[trigger] self.peers@[j]),
            decreases self.peers@.len() - i,
        {
            if self.peers[i].addr == addr {
                proof {
                    lemma_first_where_at(self.peers@, at_addr(addr), i as int);
                }
                return Some(i);
            }
            i = i + 1;
        }
        proof {
            lemma_first_where_none(self.peers@, at_addr(addr));
        }
        None
    }

    /// Notes what a peer is called, and its slot.
    fn name_peer(&mut self, addr: PeerAddr, node: NodeId, slot: u16)
        requires
            paired(old(self).peers@),
        ensures
            *final(self) == (GossipNode { peers: final(self).peers, ..*old(self) }),
            final(self).peers@ == named(old(self).peers@, addr, node, slot),
            paired(final(self).peers@),
    {
        if let Some(i) = self.find_peer(addr) {
            let mut peer = self.peers[i];
            peer.node_id = Some(node);
            peer.peer_slot = Some(slot);
            self.peers.set(i, peer);
        }
    }

    /// The packet first in line, and where it goes.
    pub fn next_send(&self) -> (next: Option<(PeerAddr, &[u8])>)
        requires
            self.wf(),
        ensures
            match next {
                None => self@.pending.len() == 0,
                Some((dst, bytes)) => {
                    &&& self@.pending.len() > 0
                    &&& dst == self@.pending[0].0
                    &&& bytes@ == self@.pool[self@.pending[0].1 as int]
                },
            },
    {
        if self.pending.len() == 0 {
            None
        } else {
            let (dst, place) = self.pending[0];
            assert((queued_places(self.pending@) + self.free@)[0] == place);
            Some((dst, self.pool[place as usize].as_bytes()))
        }
    }

    /// Deals with the packet first in line, as the network answered: it stays
    /// there if the network would block, and leaves otherwise.
    pub fn finish_send(&mut self, outcome: SendOutcome)
        requires
            old(self).wf(),
        ensures
            final(self).wf(),
            final(self).spec_config() == old(self).spec_config(),
            final(self)@ == old(self)@.drained(outcome),
    {
        let ghost before = self@;
        if outcome == SendOutcome::WouldBlock {
            return;
        }
        if let Some((_dst, place)) = self.pending.pop_front() {
            self.free.push(place);
            proof {
                assert(self@.pending =~= before.pending.skip(1));
                assert(self@ =~= before.drained(outcome));
                lemma_place_freed(before.pending, before.free, before.pool.len());
            }
        }
    }

    /// Takes in a change of membership.
    pub fn handle_peer_event(&mut self, event: PeerEvent)
        requires
            old(self).wf(),
        ensures
            final(self).wf(),
            final(self).spec_config() == old(self).spec_config(),
            final(self)@ == old(self)@.peer_changed(event),
    {
        let ghost before = self@;
        match event {
            PeerEvent::Added(addr) => {
                if self.find_peer(addr).is_none() {
                    self.peers.push(PeerEntry { addr, node_id: None, peer_slot: None });
                    assert(self@ =~= before.peer_changed(event));
                }
            },
            PeerEvent::Removed(addr) => {
                if let Some(i) = self.find_peer(addr) {
                    let removed = self.peers.remove(i);
                    if let Some(node) = removed.node_id {
                        self.store.remove_peer(node);
                    }
                    assert(self@ =~= before.peer_changed(event));
                }
            },
        }
    }

    /// Puts cells into packets for one peer, as many as there are places for.
    fn encode_packets_for(&mut self, dst: PeerAddr, handles: &Vec<CellHandle>)
        requires
            old(self).wf(),
        ensures
            final(self).wf(),
            final(self).spec_config() == old(self).spec_config(),
            if old(self).spec_config().wire_limits.max_payload_bytes < spec_min_payload_bytes(
                C::width(),
                old(self).spec_key() is Some,
            ) {
                final(self)@ == old(self)@
            } else {
                exists|cuts: Seq<nat>| #[trigger]
                    packets_queued(
                        old(self)@,
                        final(self)@,
                        node_header(
                            old(self).spec_config().cluster_id_hash,
                            old(self)@.store.identity,
                        ),
                        old(self).spec_key(),
                        old(self).spec_config().wire_limits,
                        dst,
                        handles@,
                        cuts,
                    )
            },
    {
        let ghost before = self@;
        let ghost key = self.spec_key();
        let ghost limits = self.config.wire_limits;
        let identity = self.store.local_identity();
        let header = Header {
            cluster_id_hash: self.config.cluster_id_hash,
            sender_node_id: identity.node_id.0,
            sender_incarnation: identity.incarnation,
            count_width: 0,
            cell_count: 0,
            body_len: 0,
            min_origin_sequence: 0,
            max_origin_sequence: 0,
            flags: 0,
        };
        assert(header == node_header(self.config.cluster_id_hash, before.store.identity));
        let mut scratch = WireScratch::for_store(&self.store);
        let encoder = match &self.config.auth_key {
            Some(k) => Packets::auth(
                header,
                &self.store,
                handles.as_slice(),
                k,
                &mut scratch,
                self.config.wire_limits,
            ),
            None => Packets::unauth(
                header,
                &self.store,
                handles.as_slice(),
                &mut scratch,
                self.config.wire_limits,
            ),
        };
        let mut packets = match encoder {
            Ok(packets) => packets,
            Err(_) => {
                return;
            },
        };
        let ghost mut cuts: Seq<nat> = seq![0nat];
        assert(self@.free =~= before.free.take(before.free.len() as int));
        while self.free.len() > 0 && packets.remaining() > 0
            invariant
                packets.wf(),
                packets@ == (PacketsState {
                    header,
                    store: before.store,
                    handles: handles@,
                    key,
                    limits,
                    cursor: cuts.last(),
                }),
                before == old(self)@,
                before.valid(),
                *self == (GossipNode {
                    pool: self.pool,
                    pending: self.pending,
                    free: self.free,
                    ..*old(self)
                }),
                places_partitioned(self.pending@, self.free@, self.pool@.len()),
                packets_so_far(before, self@, header, key, limits, dst, handles@, cuts),
            decreases self.free@.len(),
        {
            let ghost mid = self@;
            encode_next(&mut packets, &mut self.pool, &mut self.pending, &mut self.free, dst);
            proof {
                let cursor = packets@.cursor;
                lemma_packet_added(
                    before,
                    mid,
                    self@,
                    header,
                    key,
                    limits,
                    dst,
                    handles@,
                    cuts,
                    cursor,
                );
                cuts = cuts.push(cursor);
            }
        }
        assert(packets_queued(before, self@, header, key, limits, dst, handles@, cuts));
    }

    /// What a tick does for one peer.
    fn serve_peer(&mut self, peer: PeerEntry)
        requires
            old(self).wf(),
        ensures
            final(self).wf(),
            final(self).spec_config() == old(self).spec_config(),
            final(self)@.peers == old(self)@.peers,
            final(self)@.store.identity == old(self)@.store.identity,
            peer_served(
                old(self)@,
                final(self)@,
                old(self).spec_config().max_cells_per_tick as nat,
                node_header(old(self).spec_config().cluster_id_hash, old(self)@.store.identity),
                old(self).spec_key(),
                old(self).spec_config().wire_limits,
                peer,
            ),
    {
        let ghost before = self@;
        let max: usize = self.config.max_cells_per_tick;
        let mut handles: Vec<CellHandle> = Vec::new();
        match peer.peer_slot {
            Some(slot) => self.store.fill_gossip_frame_for_peer(max, slot, &mut handles),
            None => self.store.fill_gossip_frame(max, &mut handles),
        }
        let ghost filled = self@;
        proof {
            assert(frame_filled(before.store, filled.store, max as nat, peer.peer_slot, handles@));
            assert(filled =~= NodeState { store: filled.store, ..before });
        }
        if handles.len() > 0 {
            self.encode_packets_for(peer.addr, &handles);
        }
    }

    /// A tick: drops what has aged out, and sends to peers drawn for it, at
    /// least `coverage` of them if there are as many. What was dropped goes to
    /// `expirations`.
    pub fn handle_gossip_tick(
        &mut self,
        now_millis: u64,
        coverage: usize,
        expirations: &mut ExpirationSink<C>,
    )
        requires
            old(self).wf(),
            old(expirations).wf(),
        ensures
            final(self).wf(),
            final(self).spec_config() == old(self).spec_config(),
            final(expirations).wf(),
            final(expirations)@ == old(expirations)@ + old(self)@.store.expirations(
                old(self)@.store.slots.len(),
                now_millis,
            ),
            ticked(
                old(self)@,
                final(self)@,
                old(self).spec_config().fanout,
                coverage,
                old(self).spec_config().max_cells_per_tick as nat,
                old(self).spec_config().cluster_id_hash,
                old(self).spec_key(),
                old(self).spec_config().wire_limits,
                now_millis,
            ),
    {
        let ghost before = self@;
        let ghost config = self.config;
        let ghost key = self.spec_key();
        self.ticks_total = self.ticks_total.saturating_add(1);
        self.store.expire_at(now_millis, expirations);
        let ghost begun = self@;
        assert(begun =~= before.tick_begun(now_millis));
        if self.store.is_empty() || self.peers.len() == 0 || self.free.len() == 0 {
            return;
        }
        self.dirty_ticks = self.dirty_ticks.saturating_add(1);
        let picks: usize = self.draw_peers(coverage);
        let ghost drawn = self@;
        assert(drawn =~= begun.tick_drawn(config.fanout, coverage));
        let ghost header = node_header(config.cluster_id_hash, before.store.identity);
        let ghost mut states: Seq<NodeState<C>> = seq![drawn];
        let mut k: usize = 0;
        while k < picks
            invariant
                k <= picks <= self.peers@.len(),
                self.wf(),
                self.spec_config() == config,
                config == old(self).spec_config(),
                key == old(self).spec_key(),
                self@.peers == drawn.peers,
                self@.store.identity == before.store.identity,
                header == node_header(config.cluster_id_hash, before.store.identity),
                states.len() == k + 1,
                states[0] == drawn,
                states.last() == self@,
                served_through(
                    states,
                    config.max_cells_per_tick as nat,
                    header,
                    key,
                    config.wire_limits,
                    drawn.peers.take(k as int),
                ),
            decreases picks - k,
        {
            if self.free.len() > 0 {
                let peer = self.peers[k];
                self.serve_peer(peer);
            }
            proof {
                lemma_next_served(
                    states,
                    self@,
                    config.max_cells_per_tick as nat,
                    header,
                    key,
                    config.wire_limits,
                    drawn.peers.take(k as int),
                    drawn.peers[k as int],
                );
                states = states.push(self@);
                assert(drawn.peers.take(k + 1) =~= drawn.peers.take(k as int).push(
                    drawn.peers[k as int],
                ));
            }
            k = k + 1;
        }
        let ghost sent = self@;
        self.stamp_emits(now_millis);
        assert(self@ =~= sent.emit_stamped(now_millis));
    }

    /// Draws the peers of a tick to the front of the list.
    fn draw_peers(&mut self, coverage: usize) -> (picks: usize)
        requires
            old(self).wf(),
        ensures
            final(self).wf(),
            picks == effective_fanout(
                old(self).spec_config().fanout,
                coverage,
                old(self)@.peers.len(),
            ),
            picks <= final(self).peers@.len(),
            *final(self) == (GossipNode {
                peers: final(self).peers,
                rng: final(self).rng,
                last_effective_fanout: picks,
                peak_effective_fanout: if old(self).peak_effective_fanout < picks {
                    picks
                } else {
                    old(self).peak_effective_fanout
                },
                ..*old(self)
            }),
            (final(self).peers@, final(self).rng@) == shuffled(
                old(self).peers@,
                old(self).rng@,
                picks as nat,
            ),
    {
        let wanted: usize = if self.config.fanout < coverage {
            coverage
        } else {
            self.config.fanout
        };
        let picks: usize = if wanted < self.peers.len() { wanted } else { self.peers.len() };
        self.last_effective_fanout = picks;
        if self.peak_effective_fanout < picks {
            self.peak_effective_fanout = picks;
        }
        let ghost peers = self.peers@;
        shuffle_front(&mut self.peers, &mut self.rng, picks);
        proof {
            lemma_paired_shuffled(peers, old(self).rng@, picks as nat);
        }
        picks
    }

    /// Takes pending hits as sent.
    fn stamp_emits(&mut self, now_millis: u64)
        requires
            old(self).wf(),
        ensures
            final(self).wf(),
            *final(self) == (GossipNode {
                rule_pending: final(self).rule_pending,
                rule_last_emit: final(self).rule_last_emit,
                ..*old(self)
            }),
            final(self)@.rule_pending == old(self)@.emit_stamped(now_millis).rule_pending,
            final(self)@.rule_last_emit == old(self)@.emit_stamped(now_millis).rule_last_emit,
    {
        let stamp: u64 = if now_millis == 0 { 1 } else { now_millis };
        let ghost then = self@.emit_stamped(now_millis);
        let mut i: usize = 0;
        while i < self.rule_pending.len()
            invariant
                i <= self.rule_pending@.len(),
                self.rule_pending@.len() == then.rule_pending.len(),
                self.rule_last_emit@.len() == then.rule_last_emit.len(),
                then.rule_pending.len() == then.rule_last_emit.len(),
                stamp == if now_millis == 0 {
                    1
                } else {
                    now_millis
                },
                then == old(self)@.emit_stamped(now_millis),
                *self == (GossipNode {
                    rule_pending: self.rule_pending,
                    rule_last_emit: self.rule_last_emit,
                    ..*old(self)
                }),
                forall|j: int| 0 <= j < i ==> self.rule_pending@[j] == then.rule_pending[j],
                forall|j: int|
                    0 <= j < i ==> #[trigger] self.rule_last_emit@[j] == then.rule_last_emit[j],
                forall|j: int|
                    i <= j < self.rule_pending@.len() ==> self.rule_pending@[j] == old(
                        self
                    ).rule_pending@[j],
                forall|j: int|
                    i <= j < self.rule_pending@.len() ==> #[trigger] self.rule_last_emit@[j]
                        == old(self).rule_last_emit@[j],
            decreases self.rule_pending@.len() - i,
        {
            if self.rule_pending[i] != 0 {
                self.rule_pending.set(i, 0);
                self.rule_last_emit.set(i, stamp);
            }
            i = i + 1;
        }
        assert(self.rule_pending@ =~= then.rule_pending);
        assert(self.rule_last_emit@ =~= then.rule_last_emit);
    }

    /// Whether a tick is due at once; asking takes the request.
    pub fn take_threshold_tick(&mut self) -> (due: bool)
        requires
            old(self).wf(),
        ensures
            final(self).wf(),
            final(self).spec_config() == old(self).spec_config(),
            due == old(self)@.want_immediate_flush,
            final(self)@ == (NodeState {
                want_immediate_flush: false,
                threshold_fires: if due {
                    raised_one(old(self)@.threshold_fires)
                } else {
                    old(self)@.threshold_fires
                },
                ..old(self)@
            }),
    {
        let due: bool = self.want_immediate_flush;
        if due {
            self.want_immediate_flush = false;
            self.threshold_fires = self.threshold_fires.saturating_add(1);
        }
        due
    }

    /// Ends an event: what changed goes to the aggregates, in one call if there
    /// is anything, and the longest queue is noted.
    pub fn finish_event<A: AggregateStore<C>>(
        &mut self,
        deltas: &mut DeltaSink<C>,
        expirations: &mut ExpirationSink<C>,
        aggregates: &mut A,
    )
        requires
            old(self).wf(),
            old(deltas).wf(),
            old(expirations).wf(),
        ensures
            final(self).wf(),
            final(self).spec_config() == old(self).spec_config(),
            final(deltas).wf(),
            final(expirations).wf(),
            final(deltas)@.len() == 0,
            final(expirations)@.len() == 0,
            if old(deltas)@.len() == 0 && old(expirations)@.len() == 0 {
                *final(aggregates) == *old(aggregates)
            } else {
                A::took(*old(aggregates), *final(aggregates), old(deltas)@, old(expirations)@)
            },
            final(self)@ == (NodeState {
                max_send_pending_depth: if old(self)@.max_send_pending_depth
                    < old(self)@.pending.len() {
                    old(self)@.pending.len() as usize
                } else {
                    old(self)@.max_send_pending_depth
                },
                ..old(self)@
            }),
    {
        if !deltas.is_empty() || !expirations.is_empty() {
            aggregates.apply(deltas, expirations);
            deltas.clear();
            expirations.clear();
        }
        if self.pending.len() > self.max_send_pending_depth {
            self.max_send_pending_depth = self.pending.len();
        }
    }

    /// The node at this moment.
    pub fn snapshot(&self) -> (snapshot: AdminSnapshot)
        requires
            self.wf(),
        ensures
            snapshot.local_identity == self@.store.identity,
            snapshot.peers@ == self@.peers,
            snapshot.store_stats.active_cells as nat == self@.store.live(self@.store.slots.len()),
            snapshot.store_stats.cell_capacity == self@.store.config.cell_capacity,
            snapshot.store_stats.rules as nat == self@.store.rules.len(),
            snapshot.store_stats.nodes as nat == self@.store.nodes.len(),
            snapshot.local_dirty_len as nat == self@.store.local_dirty.len(),
            snapshot.forwarded_dirty_len as nat == self@.store.forwarded_dirty.len(),
            snapshot.send_pending_depth as nat == self@.pending.len(),
            snapshot.decode_reject_count == self@.decode_reject_count,
            snapshot.max_send_pending_depth == self@.max_send_pending_depth,
            snapshot.ticks_total == self@.ticks_total,
            snapshot.threshold_fires == self@.threshold_fires,
            snapshot.dirty_ticks == self@.dirty_ticks,
            snapshot.last_effective_fanout == self@.last_effective_fanout,
            snapshot.peak_effective_fanout == self@.peak_effective_fanout,
            snapshot.last_error_budget == self@.last_error_budget,
    {
        let mut peers: Vec<PeerEntry> = Vec::new();
        let mut i: usize = 0;
        while i < self.peers.len()
            invariant
                i <= self.peers@.len(),
                peers@ =~= self.peers@.take(i as int),
            decreases self.peers@.len() - i,
        {
            peers.push(self.peers[i]);
            i = i + 1;
        }
        assert(peers@ =~= self.peers@);
        AdminSnapshot {
            local_identity: self.store.local_identity(),
            peers,
            store_stats: self.store.stats(),
            local_dirty_len: self.store.local_dirty_len(),
            forwarded_dirty_len: self.store.forwarded_dirty_len(),
            send_pending_depth: self.pending.len(),
            decode_reject_count: self.decode_reject_count,
            max_send_pending_depth: self.max_send_pending_depth,
            ticks_total: self.ticks_total,
            threshold_fires: self.threshold_fires,
            dirty_ticks: self.dirty_ticks,
            last_effective_fanout: self.last_effective_fanout,
            peak_effective_fanout: self.peak_effective_fanout,
            last_error_budget: self.last_error_budget,
        }
    }

    /// Every live cell of the node.
    pub fn cell_dump(&self) -> (dump: CellDumpSnapshot)
        requires
            self.wf(),
        ensures
            dump.local_identity == self@.store.identity,
            dump.cells@ == entries_of(self@.store, self@.store.slots.len()),
    {
        dump_cells(&self.store)
    }

    /// How many peers are known.
    pub fn peer_count(&self) -> (count: usize)
        ensures
            count == self@.peers.len(),
    {
        self.peers.len()
    }

    /// The node's configuration.
    pub fn config(&self) -> (config: &GossipConfig)
        ensures
            *config == self.spec_config(),
    {
        &self.config
    }
}

} // verus!
