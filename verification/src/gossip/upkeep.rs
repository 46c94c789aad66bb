//! What a node's events come to, one by one.

use super::node::{
    acknowledged, at_addr, effective_fanout, error_budget, hit_observation, named, node_header,
    packet_at, packets_queued, pool_places, raised_one, sequences_of, served_through, ticked,
    turn_taken, with_slot, LimitHit, NodeState, PeerEntry, PeerEvent, SendOutcome,
};
use super::sampling::{
    lemma_draws_without_replacement, next_state, output, picked_index, shuffled, swapped,
};
use super::sim::{count_of, folded, inbox_of, link_of, link_step, InboxState, LinkPolicy, SimState};
use crate::crdt::dictionary::{same_node, same_rule};
use crate::crdt::frontier::{held_by, FrontierRow};
use crate::crdt::{
    CellHandle, Count, NodeDescriptor, NodeId, NodeIdentity, Observation, StoreState,
};
use crate::discovery::PeerAddr;
use crate::seqs::{first_where, lemma_first_where, lemma_first_where_at};
use crate::wire::body::{rows_of, run_rows};
use crate::wire::{
    decoded, decoded_cells, observed_all, packet_bytes, FrameLimits, Header, WireCell,
};
use vstd::prelude::*;

verus! {

// -- budgets ----------------------------------------------------------------

/// A node's share of an error budget is the limit's basis points, over all nodes
/// and rounded down, or one hit if that is less. What is left out is read as one.
pub proof fn lemma_budget_is_share(rule_limit: u64, target_err_bps: u32, peers: nat)
    ensures
        rule_limit > 0 && target_err_bps > 0 && peers > 0 && rule_limit * target_err_bps
            <= u64::MAX ==> {
            let budget = error_budget(rule_limit, target_err_bps, peers);
            &&& budget >= 1
            &&& budget > 1 ==> budget * (10_000 * peers) <= rule_limit * target_err_bps
            &&& rule_limit * target_err_bps < (budget + 1) * (10_000 * peers)
        },
        rule_limit == 0 ==> error_budget(rule_limit, target_err_bps, peers) == error_budget(
            1,
            target_err_bps,
            peers,
        ),
        target_err_bps == 0 ==> error_budget(rule_limit, target_err_bps, peers) == error_budget(
            rule_limit,
            1,
            peers,
        ),
        peers == 0 ==> error_budget(rule_limit, target_err_bps, peers) == error_budget(
            rule_limit,
            target_err_bps,
            1,
        ),
{
    if rule_limit > 0 && target_err_bps > 0 && peers > 0 && rule_limit * target_err_bps
        <= u64::MAX {
        let product = rule_limit * target_err_bps;
        let d = 10_000 * peers as int;
        let share = product / d;
        assert(0 <= share <= product && share * d <= product < (share + 1) * d)
            by (nonlinear_arith)
            requires
                share == product / d,
                d >= 1,
                product >= 0,
        ;
        if share < 1 {
            assert(product < 2 * d) by (nonlinear_arith)
                requires
                    product < (share + 1) * d,
                    share < 1,
                    d >= 1,
            ;
        }
    }
}

/// A tick tells as many peers as it was set to, or as coverage takes if that is
/// more, and never more than there are.
pub proof fn lemma_fanout_bounds(fanout: usize, coverage: usize, peers: nat)
    ensures
        effective_fanout(fanout, coverage, peers) == vstd::math::min(
            vstd::math::max(fanout as int, coverage as int),
            peers as int,
        ),
{
}

/// A hit adds to what is pending of its rule, and of no other. A flush is asked for
/// exactly if what is pending is then more than the node's share of the budget and
/// the rule was never emitted or not within the interval.
pub proof fn lemma_hit_is_pending<C: Count>(
    state: NodeState<C>,
    target_err_bps: u32,
    min_emit_interval: u64,
    hit: LimitHit,
    clock_millis: u64,
    slot: int,
)
    requires
        0 <= slot < state.store.rules.len(),
        state.store.rules[slot].fingerprint == hit.rule_fingerprint,
        forall|r: int|
            0 <= r < slot ==> (#[trigger] state.store.rules[r]).fingerprint != hit.rule_fingerprint,
        state.rule_pending.len() >= state.store.rules.len(),
    ensures
        ({
            let after = state.hit_taken(target_err_bps, min_emit_interval, hit, clock_millis);
            let budget = error_budget(hit.rule_limit, target_err_bps, state.peers.len());
            let last = state.rule_last_emit[slot];
            &&& after.rule_pending[slot] == vstd::math::min(
                state.rule_pending[slot] + hit.hits,
                u32::MAX as int,
            )
            &&& after.rule_pending.len() == state.rule_pending.len()
            &&& forall|r: int|
                0 <= r < state.rule_pending.len() && r != slot ==> #[trigger] after.rule_pending[r]
                    == state.rule_pending[r]
            &&& after.want_immediate_flush <==> state.want_immediate_flush || (
            after.rule_pending[slot] > budget && (last == 0 || clock_millis >= last
                && clock_millis - last >= min_emit_interval || min_emit_interval == 0))
            &&& after.last_error_budget == budget
            &&& after.rule_last_emit == state.rule_last_emit
            &&& after.peers == state.peers && after.pending == state.pending && after.free
                == state.free
        }),
{
    lemma_first_where_at(state.store.rules, same_rule(hit.rule_fingerprint), slot);
}

/// A hit is observed as what it is, under this node's own name once it is counted.
pub proof fn lemma_hit_observed<C: Count>(hit: LimitHit)
    ensures
        ({
            let o = hit_observation::<C>(hit);
            &&& o.rule_fingerprint == hit.rule_fingerprint
            &&& o.key_hash == hit.key_hash
            &&& o.bucket == hit.bucket
            &&& o.last_update_millis == hit.now_millis
            &&& hit.hits <= C::of(u64::MAX as nat).value() ==> o.count.value() == hit.hits
        }),
{
    C::lemma_of(hit.hits as nat);
    C::lemma_of(u64::MAX as nat);
    C::of(0).lemma_value();
}

/// Once a tick has told of what was pending, nothing is, and each rule of which
/// something was is emitted then; the others keep their times. Time zero is read as
/// one, as zero says never.
pub proof fn lemma_emit_settles<C: Count>(state: NodeState<C>, now: u64, r: int)
    requires
        state.rule_pending.len() == state.rule_last_emit.len(),
        0 <= r < state.rule_pending.len(),
    ensures
        ({
            let after = state.emit_stamped(now);
            &&& after.rule_pending.len() == state.rule_pending.len()
            &&& after.rule_last_emit.len() == state.rule_last_emit.len()
            &&& after.rule_pending[r] == 0
            &&& state.rule_pending[r] != 0 ==> after.rule_last_emit[r] == vstd::math::max(
                now as int,
                1,
            )
            &&& state.rule_pending[r] == 0 ==> after.rule_last_emit[r] == state.rule_last_emit[r]
        }),
{
}

// -- packets ----------------------------------------------------------------

proof fn lemma_acks_shape<C: Count>(
    nodes: Seq<NodeDescriptor>,
    frontiers: Seq<FrontierRow>,
    slot: int,
    cells: Seq<WireCell<C>>,
)
    ensures
        ({
            let after = acknowledged(nodes, frontiers, slot, cells);
            &&& after.len() == frontiers.len()
            &&& forall|p: int|
                0 <= p < frontiers.len() ==> (#[trigger] after[p]).node == frontiers[p].node
                    && after[p].acked.len() == frontiers[p].acked.len() && (p != slot ==> after[p]
                    == frontiers[p])
        }),
    decreases cells.len(),
{
    if cells.len() > 0 {
        lemma_acks_shape(nodes, frontiers, slot, cells.drop_last());
    }
}

/// A packet acknowledges what it tells of: of each node that any of its cells is
/// of, the sender is known to have the latest of those cells, or what it was known
/// to have before if that is later. Of no other node, and of no other peer, is
/// anything else known.
pub proof fn lemma_packet_acknowledges<C: Count>(
    nodes: Seq<NodeDescriptor>,
    frontiers: Seq<FrontierRow>,
    slot: int,
    cells: Seq<WireCell<C>>,
    node: int,
)
    requires
        0 <= slot < frontiers.len(),
        0 <= node < nodes.len(),
        node < frontiers[slot].acked.len(),
        forall|n: int| 0 <= n < node ==> #[trigger] nodes[n] != nodes[node],
    ensures
        ({
            let after = acknowledged(nodes, frontiers, slot, cells);
            let is_of = |cell: WireCell<C>|
                cell.origin_node_id == nodes[node].node_id && cell.origin_incarnation
                    == nodes[node].incarnation;
            let acked = after[slot].acked[node];
            &&& after.len() == frontiers.len()
            &&& after[slot].acked.len() == frontiers[slot].acked.len()
            &&& acked >= frontiers[slot].acked[node]
            &&& forall|i: int|
                0 <= i < cells.len() && is_of(#[trigger] cells[i]) ==> acked
                    >= cells[i].origin_sequence
            &&& acked == frontiers[slot].acked[node] || exists|i: int|
                0 <= i < cells.len() && is_of(#[trigger] cells[i]) && acked
                    == cells[i].origin_sequence
            &&& forall|p: int|
                0 <= p < frontiers.len() && p != slot ==> #[trigger] after[p] == frontiers[p]
        }),
    decreases cells.len(),
{
    lemma_acks_shape(nodes, frontiers, slot, cells);
    if cells.len() > 0 {
        let front = cells.drop_last();
        lemma_packet_acknowledges(nodes, frontiers, slot, front, node);
        let before = acknowledged(nodes, frontiers, slot, front);
        let cell = cells.last();
        let origin = NodeDescriptor {
            node_id: cell.origin_node_id,
            incarnation: cell.origin_incarnation,
        };
        lemma_first_where(nodes, same_node(origin));
        if origin == nodes[node] {
            lemma_first_where_at(nodes, same_node(origin), node);
        }
        let is_of = |cell: WireCell<C>|
            cell.origin_node_id == nodes[node].node_id && cell.origin_incarnation
                == nodes[node].incarnation;
        let after = acknowledged(nodes, frontiers, slot, cells);
        assert forall|i: int| 0 <= i < cells.len() && is_of(
            #[trigger] cells[i],
        ) implies after[slot].acked[node] >= cells[i].origin_sequence by {
            if i < front.len() {
                assert(is_of(front[i]));
            } else {
                assert(origin == nodes[node]);
            }
        }
        let acked = before[slot].acked[node];
        if after[slot].acked[node] == acked {
            if acked != frontiers[slot].acked[node] {
                let i = choose|i: int|
                    0 <= i < front.len() && is_of(#[trigger] front[i]) && acked
                        == front[i].origin_sequence;
                assert(is_of(cells[i]));
            }
        } else {
            assert(is_of(cells[cells.len() - 1]));
        }
    }
}

/// The peer at an address is known by the name that its packets give; no other is.
pub proof fn lemma_sender_named(
    peers: Seq<PeerEntry>,
    addr: PeerAddr,
    node: NodeId,
    slot: u16,
    i: int,
)
    requires
        0 <= i < peers.len(),
        peers[i].addr == addr,
        forall|j: int| 0 <= j < i ==> (#[trigger] peers[j]).addr != addr,
    ensures
        ({
            let after = named(peers, addr, node, slot);
            &&& after.len() == peers.len()
            &&& after[i] == (PeerEntry { addr, node_id: Some(node), peer_slot: Some(slot) })
            &&& forall|j: int|
                0 <= j < peers.len() && j != i ==> #[trigger] after[j] == peers[j]
        }),
{
    lemma_first_where_at(peers, at_addr(addr), i);
}

/// A packet from an address that is no peer's names nobody.
pub proof fn lemma_stranger_unnamed(
    peers: Seq<PeerEntry>,
    addr: PeerAddr,
    node: NodeId,
    slot: u16,
)
    requires
        forall|j: int| 0 <= j < peers.len() ==> (#[trigger] peers[j]).addr != addr,
    ensures
        named(peers, addr, node, slot) == peers,
{
    lemma_first_where(peers, at_addr(addr));
}

/// A sender that was heard of before keeps what it acknowledged; a new one has
/// acknowledged nothing yet.
pub proof fn lemma_slot_taken<C: Count>(store: StoreState<C>, node: NodeId, slot: int)
    requires
        0 <= slot <= store.frontiers.len(),
    ensures
        ({
            let after = with_slot(store, node, slot);
            let known = exists|i: int|
                0 <= i < store.frontiers.len() && (#[trigger] store.frontiers[i]).node == Some(
                    node,
                );
            &&& known ==> after == store.frontiers
            &&& !known ==> {
                &&& after[slot].node == Some(node)
                &&& after[slot].acked.len() == store.config.node_dictionary_capacity
                &&& forall|k: int|
                    0 <= k < after[slot].acked.len() ==> #[trigger] after[slot].acked[k] == 0
                &&& forall|p: int|
                    0 <= p < store.frontiers.len() && p != slot ==> #[trigger] after[p]
                        == store.frontiers[p]
            }
        }),
{
    lemma_first_where(store.frontiers, held_by(node));
}

/// A packet that was sent, or that failed, leaves the line and its place is free
/// again; one that the network had no room for stays first in line.
pub proof fn lemma_line_moves<C: Count>(state: NodeState<C>, outcome: SendOutcome)
    requires
        state.pending.len() > 0,
    ensures
        outcome == SendOutcome::WouldBlock ==> state.drained(outcome) == state,
        outcome != SendOutcome::WouldBlock ==> {
            let after = state.drained(outcome);
            &&& seq![state.pending[0]] + after.pending == state.pending
            &&& after.free == state.free.push(state.pending[0].1)
            &&& after.pool == state.pool
            &&& after.store == state.store
            &&& after.peers == state.peers
        },
{
    if outcome != SendOutcome::WouldBlock {
        assert(seq![state.pending[0]] + state.pending.skip(1) =~= state.pending);
    }
}

// -- peers ------------------------------------------------------------------

/// A new peer is the last, known by its address alone.
pub proof fn lemma_peer_comes<C: Count>(state: NodeState<C>, addr: PeerAddr)
    ensures
        ({
            let after = state.peer_changed(PeerEvent::Added(addr));
            let known = exists|i: int|
                0 <= i < state.peers.len() && (#[trigger] state.peers[i]).addr == addr;
            &&& known ==> after == state
            &&& !known ==> after.peers == state.peers.push(
                PeerEntry { addr, node_id: None, peer_slot: None },
            ) && after.store == state.store
        }),
{
    lemma_first_where(state.peers, at_addr(addr));
}

/// A peer that goes is gone, and nothing is remembered of what it acknowledged; the
/// others stay as they are.
pub proof fn lemma_peer_goes<C: Count>(state: NodeState<C>, i: int)
    requires
        0 <= i < state.peers.len(),
        forall|j: int| 0 <= j < i ==> (#[trigger] state.peers[j]).addr != state.peers[i].addr,
    ensures
        ({
            let after = state.peer_changed(PeerEvent::Removed(state.peers[i].addr));
            &&& after.peers == state.peers.remove(i)
            &&& after.store.slots == state.store.slots
            &&& after.store.frontiers.len() == state.store.frontiers.len()
            &&& state.peers[i].node_id is None ==> after.store == state.store
            &&& state.peers[i].node_id matches Some(node) ==> forall|k: int|
                0 <= k < state.store.frontiers.len() ==> {
                    &&& (#[trigger] state.store.frontiers[k]).node != Some(node)
                        ==> after.store.frontiers[k] == state.store.frontiers[k]
                    &&& state.store.frontiers[k].node == Some(node) && (forall|m: int|
                        0 <= m < k ==> (#[trigger] state.store.frontiers[m]).node != Some(node))
                        ==> after.store.frontiers[k].node is None && (forall|n: int|
                        0 <= n < after.store.frontiers[k].acked.len()
                            ==> #[trigger] after.store.frontiers[k].acked[n] == 0)
                }
        }),
{
    lemma_first_where_at(state.peers, at_addr(state.peers[i].addr), i);
    if let Some(node) = state.peers[i].node_id {
        lemma_first_where(state.store.frontiers, held_by(node));
    }
}

/// A peer that is not known cannot go.
pub proof fn lemma_stranger_cannot_go<C: Count>(state: NodeState<C>, addr: PeerAddr)
    requires
        forall|i: int| 0 <= i < state.peers.len() ==> (#[trigger] state.peers[i]).addr != addr,
    ensures
        state.peer_changed(PeerEvent::Removed(addr)) == state,
{
    lemma_first_where(state.peers, at_addr(addr));
}

// -- ticks ------------------------------------------------------------------

/// A tick sweeps first, and tells nobody if nothing lives, nobody is there or no
/// packet has a place.
pub proof fn lemma_tick_begins<C: Count>(state: NodeState<C>, now: u64)
    ensures
        ({
            let begun = state.tick_begun(now);
            &&& state.ticks_total < u64::MAX ==> begun.ticks_total == state.ticks_total + 1
            &&& begun.store.slots.len() == state.store.slots.len()
            &&& forall|i: int|
                0 <= i < state.store.slots.len() ==> #[trigger] begun.store.slots[i]
                    == state.store.swept(state.store.slots[i], now)
            &&& begun.peers == state.peers && begun.pending == state.pending && begun.free
                == state.free
        }),
        state.tick_sends() <==> {
            &&& exists|i: int|
                0 <= i < state.store.slots.len() && (#[trigger] state.store.slots[i]).row is Some
            &&& state.peers.len() > 0
            &&& state.free.len() > 0
        },
{
    lemma_some_live(state.store, state.store.slots.len());
}

proof fn lemma_some_live<C: Count>(store: StoreState<C>, n: nat)
    requires
        n <= store.slots.len(),
    ensures
        store.live(n) > 0 <==> exists|i: int|
            0 <= i < n && (#[trigger] store.slots[i]).row is Some,
    decreases n,
{
    if n > 0 {
        lemma_some_live(store, (n - 1) as nat);
    }
}

/// The peers that a tick tells are drawn from all of them, none twice, and the
/// largest draw is remembered.
pub proof fn lemma_tick_draws<C: Count>(state: NodeState<C>, fanout: usize, coverage: usize)
    requires
        state.peers.len() <= usize::MAX,
    ensures
        ({
            let drawn = state.tick_drawn(fanout, coverage);
            let picks = vstd::math::min(
                vstd::math::max(fanout as int, coverage as int),
                state.peers.len() as int,
            );
            &&& drawn.peers.to_multiset() == state.peers.to_multiset()
            &&& drawn.last_effective_fanout == picks
            &&& drawn.peak_effective_fanout == vstd::math::max(
                state.peak_effective_fanout as int,
                picks,
            )
            &&& state.dirty_ticks < u64::MAX ==> drawn.dirty_ticks == state.dirty_ticks + 1
            &&& drawn.store == state.store
        }),
{
    let picks = effective_fanout(fanout, coverage, state.peers.len());
    lemma_draws_without_replacement(state.peers, state.rng, picks as nat);
}

/// The line has a place at least, and as many as it was set to, up to what a byte
/// can name.
pub proof fn lemma_places(capacity: usize)
    ensures
        pool_places(capacity) == vstd::math::max(1, vstd::math::min(capacity as int, 255)),
{
}

/// A counter goes up by one, as far as 64 bits hold it.
pub proof fn lemma_counter_goes_up(counter: u64)
    ensures
        counter < u64::MAX ==> raised_one(counter) == counter + 1,
        raised_one(u64::MAX) == u64::MAX,
{
}

// -- links ------------------------------------------------------------------

/// A link that passes loses nothing, and one that is blocked lets nothing through.
/// One that loses by chance draws anew for every packet, loses none where it should
/// lose none, and loses the more the more it should.
pub proof fn lemma_link_policies(counter: Option<u32>, low: u32, high: u32, seed: u32)
    requires
        low <= high,
    ensures
        !link_step(LinkPolicy::Pass, counter).0,
        link_step(LinkPolicy::Block, counter).0,
        !link_step(LinkPolicy::DropProb { threshold: 0, seed }, counter).0,
        link_step(LinkPolicy::DropProb { threshold: low, seed }, counter).0 ==> link_step(
            LinkPolicy::DropProb { threshold: high, seed },
            counter,
        ).0,
        link_step(LinkPolicy::DropProb { threshold: low, seed }, None) == link_step(
            LinkPolicy::DropProb { threshold: low, seed },
            Some(seed),
        ),
        seed < u32::MAX ==> link_step(LinkPolicy::DropProb { threshold: low, seed }, Some(seed)).1
            == Some((seed + 1) as u32),
{
}

/// A policy holds for its link, from then on, and for no other.
pub proof fn lemma_policy_of_one_link(
    state: SimState,
    src: PeerAddr,
    dst: PeerAddr,
    policy: LinkPolicy,
    a: PeerAddr,
    b: PeerAddr,
)
    ensures
        ({
            let after = state.with_policy(src, dst, policy);
            &&& a == src && b == dst ==> after.drops(a, b) == link_step(policy, None).0
            &&& a != src || b != dst ==> after.drops(a, b) == state.drops(a, b)
            &&& after.inboxes == state.inboxes && after.received == state.received
        }),
{
    let after = state.with_policy(src, dst, policy);
    let p = link_of(src, dst);
    let q = link_of(a, b);
    lemma_first_where(state.links, p);
    lemma_first_where(state.links, q);
    lemma_first_where(after.links, q);
    let at = match first_where(state.links, p) {
        Some(i) => i,
        None => state.links.len() as int,
    };
    if a == src && b == dst {
        assert forall|j: int| 0 <= j < at implies !q(#[trigger] after.links[j]) by {
            assert(!p(state.links[j]));
        }
        lemma_first_where_at(after.links, q, at);
    } else {
        assert forall|j: int| 0 <= j < state.links.len() implies q(#[trigger] after.links[j]) == q(
            state.links[j],
        ) by {
            if j == at {
                assert(p(state.links[j]));
            }
        }
        match first_where(state.links, q) {
            Some(i) => {
                assert forall|j: int| 0 <= j < i implies !q(#[trigger] after.links[j]) by {
                    assert(!q(state.links[j]));
                }
                assert(q(after.links[i]));
                lemma_first_where_at(after.links, q, i);
            },
            None => {
                if let Some(i) = first_where(after.links, q) {
                    if i < state.links.len() {
                        assert(!q(state.links[i]));
                    }
                }
            },
        }
    }
}

/// What is not lost arrives: behind all that waits at its address, and counted
/// there. Where there is no more room it is given back, and where nobody listens it
/// is gone. Nothing arrives anywhere else.
pub proof fn lemma_sent_arrives(
    state: SimState,
    src: PeerAddr,
    dst: PeerAddr,
    bytes: Seq<u8>,
    i: int,
)
    requires
        0 <= i < state.inboxes.len(),
        state.inboxes[i].addr == dst,
        forall|j: int| 0 <= j < i ==> (#[trigger] state.inboxes[j]).addr != dst,
    ensures
        ({
            let (after, outcome) = state.sent(src, dst, bytes);
            let room = state.inboxes[i].packets.len() < state.capacity;
            &&& state.drops(src, dst) ==> outcome == SendOutcome::Sent && after.inboxes
                == state.inboxes && after.received == state.received
            &&& !state.drops(src, dst) && room ==> {
                &&& outcome == SendOutcome::Sent
                &&& after.inboxes.len() == state.inboxes.len()
                &&& after.inboxes[i].addr == dst
                &&& after.inboxes[i].packets == state.inboxes[i].packets.push((src, bytes))
                &&& forall|j: int|
                    0 <= j < state.inboxes.len() && j != i ==> #[trigger] after.inboxes[j]
                        == state.inboxes[j]
                &&& state.delivered(dst) < u64::MAX ==> after.delivered(dst) == state.delivered(dst)
                    + 1
            }
            &&& !state.drops(src, dst) && !room ==> outcome == SendOutcome::WouldBlock
                && after.inboxes == state.inboxes && after.received == state.received
        }),
{
    lemma_first_where_at(state.inboxes, inbox_of(dst), i);
    let p = count_of(dst);
    let (after, outcome) = state.sent(src, dst, bytes);
    lemma_first_where(state.received, p);
    match first_where(state.received, p) {
        Some(k) => {
            if after.received != state.received {
                assert forall|j: int| 0 <= j < k implies !p(#[trigger] after.received[j]) by {
                    assert(!p(state.received[j]));
                }
                lemma_first_where_at(after.received, p, k);
            }
        },
        None => {
            if after.received != state.received {
                let n = state.received.len() as int;
                assert forall|j: int| 0 <= j < n implies !p(#[trigger] after.received[j]) by {
                    assert(!p(state.received[j]));
                }
                lemma_first_where_at(after.received, p, n);
            }
        },
    }
}

/// What is sent to where nobody listens is gone.
pub proof fn lemma_sent_to_nobody(state: SimState, src: PeerAddr, dst: PeerAddr, bytes: Seq<u8>)
    requires
        forall|j: int| 0 <= j < state.inboxes.len() ==> (#[trigger] state.inboxes[j]).addr != dst,
    ensures
        state.sent(src, dst, bytes).1 == SendOutcome::Sent,
        state.sent(src, dst, bytes).0.inboxes == state.inboxes,
        state.sent(src, dst, bytes).0.received == state.received,
{
    lemma_first_where(state.inboxes, inbox_of(dst));
}

/// What waits is taken in the order in which it came, and from nowhere else.
pub proof fn lemma_taken_in_order(state: SimState, addr: PeerAddr, i: int)
    requires
        0 <= i < state.inboxes.len(),
        state.inboxes[i].addr == addr,
        forall|j: int| 0 <= j < i ==> (#[trigger] state.inboxes[j]).addr != addr,
    ensures
        ({
            let (after, packet) = state.taken(addr);
            let packets = state.inboxes[i].packets;
            &&& packets.len() == 0 ==> after == state && packet is None
            &&& packets.len() > 0 ==> {
                &&& packet == Some(packets[0])
                &&& seq![packets[0]] + after.inboxes[i].packets == packets
                &&& after.inboxes.len() == state.inboxes.len()
                &&& after.inboxes[i].addr == addr
                &&& forall|j: int|
                    0 <= j < state.inboxes.len() && j != i ==> #[trigger] after.inboxes[j]
                        == state.inboxes[j]
                &&& after.links == state.links && after.received == state.received
            }
        }),
{
    lemma_first_where_at(state.inboxes, inbox_of(addr), i);
    if state.inboxes[i].packets.len() > 0 {
        let packets = state.inboxes[i].packets;
        assert(seq![packets[0]] + packets.skip(1) =~= packets);
    }
}

/// Who listens at an address begins with nothing waiting, and who stops is no
/// longer found there.
pub proof fn lemma_listening(state: SimState, addr: PeerAddr)
    requires
        forall|i: int, j: int|
            0 <= i < j < state.inboxes.len() ==> (#[trigger] state.inboxes[i]).addr != (
            #[trigger] state.inboxes[j]).addr,
    ensures
        ({
            let after = state.bound(addr);
            exists|i: int|
                0 <= i < after.inboxes.len() && #[trigger] after.inboxes[i] == (InboxState {
                    addr,
                    packets: Seq::empty(),
                }) && forall|j: int|
                    0 <= j < state.inboxes.len() && j != i ==> #[trigger] after.inboxes[j]
                        == state.inboxes[j]
        }),
        forall|j: int|
            0 <= j < state.unbound(addr).inboxes.len() ==> (#[trigger] state.unbound(
                addr,
            ).inboxes[j]).addr != addr,
{
    let p = inbox_of(addr);
    lemma_first_where(state.inboxes, p);
    let after = state.bound(addr);
    match first_where(state.inboxes, p) {
        Some(i) => {
            assert(after.inboxes[i] == (InboxState { addr, packets: Seq::empty() }));
            let rest = state.unbound(addr).inboxes;
            assert forall|j: int| 0 <= j < rest.len() implies (#[trigger] rest[j]).addr != addr by {
                if j < i {
                    assert(rest[j] == state.inboxes[j]);
                } else {
                    assert(rest[j] == state.inboxes[j + 1]);
                    assert(state.inboxes[i].addr != state.inboxes[j + 1].addr);
                }
            }
        },
        None => {
            let n = state.inboxes.len() as int;
            assert(after.inboxes[n] == (InboxState { addr, packets: Seq::empty() }));
            assert forall|j: int| 0 <= j < n implies (#[trigger] state.inboxes[j]).addr != addr by {
                assert(!p(state.inboxes[j]));
            }
        },
    }
}

/// Bytes are folded in one after the other.
pub proof fn lemma_folded_in_turn(start: u64, first: Seq<u8>, then: Seq<u8>)
    ensures
        folded(start, first + then) == folded(folded(start, first), then),
        folded(start, Seq::empty()) == start,
    decreases then.len(),
{
    if then.len() > 0 {
        lemma_folded_in_turn(start, first, then.drop_last());
        assert((first + then).drop_last() =~= first + then.drop_last());
    } else {
        assert(first + then =~= first);
    }
}

/// A tick that sends serves every peer that it drew, one after the other, and then
/// settles what was pending: as many as its fanout or coverage asks for, up to all.
pub proof fn lemma_tick_serves<C: Count>(
    before: NodeState<C>,
    after: NodeState<C>,
    fanout: usize,
    coverage: usize,
    max_cells: nat,
    cluster_id_hash: u128,
    key: Option<Seq<u8>>,
    limits: FrameLimits,
    now: u64,
)
    requires
        ticked(before, after, fanout, coverage, max_cells, cluster_id_hash, key, limits, now),
    ensures
        ({
            let begun = before.tick_begun(now);
            let drawn = begun.tick_drawn(fanout, coverage);
            let picks = vstd::math::min(
                vstd::math::max(fanout as int, coverage as int),
                before.peers.len() as int,
            );
            &&& !begun.tick_sends() ==> after == begun
            &&& begun.tick_sends() ==> exists|states: Seq<NodeState<C>>|
                {
                    &&& states.len() == picks + 1
                    &&& #[trigger] states[0] == drawn
                    &&& after == states[picks].emit_stamped(now)
                    &&& forall|i: int|
                        0 <= i < picks ==> turn_taken(
                            states[i],
                            states[i + 1],
                            max_cells,
                            node_header(cluster_id_hash, before.store.identity),
                            key,
                            limits,
                            #[trigger] drawn.peers[i],
                        )
                }
        }),
{
    let begun = before.tick_begun(now);
    if begun.tick_sends() {
        let drawn = begun.tick_drawn(fanout, coverage);
        let header = node_header(cluster_id_hash, before.store.identity);
        let picks = effective_fanout(fanout, coverage, begun.peers.len());
        lemma_draws_without_replacement(begun.peers, begun.rng, picks as nat);
        let told = drawn.peers.take(picks);
        let states = choose|states: Seq<NodeState<C>>|
            {
                &&& #[trigger] served_through(states, max_cells, header, key, limits, told)
                &&& states[0] == drawn
                &&& after == states.last().emit_stamped(now)
            };
        assert forall|i: int| 0 <= i < picks implies turn_taken(
            states[i],
            states[i + 1],
            max_cells,
            header,
            key,
            limits,
            #[trigger] drawn.peers[i],
        ) by {
            assert(told[i] == drawn.peers[i]);
        }
        assert(states[0] == drawn);
    }
}

/// A packet says of which cluster and of which node it is.
pub proof fn lemma_header_names(cluster_id_hash: u128, identity: NodeIdentity)
    ensures
        node_header(cluster_id_hash, identity).cluster_id_hash == cluster_id_hash,
        node_header(cluster_id_hash, identity).sender_node_id == identity.node_id.0,
        node_header(cluster_id_hash, identity).sender_incarnation == identity.incarnation,
        node_header(cluster_id_hash, identity).flags == 0,
{
}

/// The packets for a peer wait behind all others, and between them they hold the
/// cells from the first on: all of them, unless places ran out.
#[verifier::spinoff_prover]
pub proof fn lemma_packets_wait<C: Count>(
    before: NodeState<C>,
    after: NodeState<C>,
    header: Header,
    key: Option<Seq<u8>>,
    limits: FrameLimits,
    dst: PeerAddr,
    handles: Seq<CellHandle>,
    cuts: Seq<nat>,
)
    requires
        packets_queued(before, after, header, key, limits, dst, handles, cuts),
    ensures
        before.pending.is_prefix_of(after.pending),
        after.pending.len() == before.pending.len() + cuts.len() - 1,
        after.free.len() == before.free.len() - (cuts.len() - 1),
        after.store == before.store,
        after.peers == before.peers,
        cuts[0] == 0,
        cuts.last() == handles.len() || after.free.len() == 0,
{
    assert(before.pending =~= after.pending.take(before.pending.len() as int));
}

/// Each of the packets is for that peer, waits in a place that was free, and holds
/// the next of the cells: at least one, and those up to where the next begins.
#[verifier::spinoff_prover]
#[verifier::rlimit(40)]
pub proof fn lemma_packet_waits<C: Count>(
    before: NodeState<C>,
    after: NodeState<C>,
    header: Header,
    key: Option<Seq<u8>>,
    limits: FrameLimits,
    dst: PeerAddr,
    handles: Seq<CellHandle>,
    cuts: Seq<nat>,
    i: int,
)
    requires
        packets_queued(before, after, header, key, limits, dst, handles, cuts),
        0 <= i < cuts.len() - 1,
    ensures
        ({
            let queued = after.pending[before.pending.len() + i];
            &&& queued.0 == dst
            &&& queued.1 == before.free[before.free.len() - 1 - i]
            &&& cuts[i] < cuts[i + 1]
            &&& after.pool[queued.1 as int] == packet_bytes(
                before.store,
                header,
                rows_of(before.store, handles.subrange(cuts[i] as int, cuts[i + 1] as int)),
                cuts[i + 1] < handles.len(),
                key,
            )
        }),
{
    let (from, to) = (cuts[i], cuts[i + 1]);
    assert(packet_at(before, after, header, key, limits, dst, handles, from, to, i));
    lemma_packet_at(before, after, header, key, limits, dst, handles, from, to, i);
}

#[verifier::spinoff_prover]
#[verifier::rlimit(40)]
proof fn lemma_packet_at<C: Count>(
    before: NodeState<C>,
    after: NodeState<C>,
    header: Header,
    key: Option<Seq<u8>>,
    limits: FrameLimits,
    dst: PeerAddr,
    handles: Seq<CellHandle>,
    from: nat,
    to: nat,
    i: int,
)
    requires
        packet_at(before, after, header, key, limits, dst, handles, from, to, i),
    ensures
        after.pending[before.pending.len() + i].0 == dst,
        after.pending[before.pending.len() + i].1 == before.free[before.free.len() - 1 - i],
        from < to,
        after.pool[before.free[before.free.len() - 1 - i] as int] == packet_bytes(
            before.store,
            header,
            rows_of(before.store, handles.subrange(from as int, to as int)),
            to < handles.len(),
            key,
        ),
{
    assert(from + (to - from) == to as int);
    assert(run_rows(before.store, handles, from as int, to - from) == rows_of(
        before.store,
        handles.subrange(from as int, to as int),
    ));
}

/// Every draw is of one that was not drawn yet, and leaves those that were in place.
pub proof fn lemma_draws_stay<A>(items: Seq<A>, state: u64, k: nat)
    requires
        k < items.len(),
    ensures
        shuffled(items, state, k + 1).0.take(k as int) == shuffled(items, state, k).0.take(
            k as int,
        ),
        exists|j: int|
            k <= j < items.len() && shuffled(items, state, k + 1).0[k as int]
                == #[trigger] shuffled(items, state, k).0[j],
        shuffled(items, state, 0) == (items, state),
{
    let (before, drawn) = shuffled(items, state, k);
    lemma_draws_without_replacement(items, state, k);
    let next = next_state(drawn);
    let j = picked_index(next, k as int, before.len() as int);
    let left = before.len() - k as int;
    assert(0 <= (output(next) as usize) as int % left < left) by (nonlinear_arith)
        requires
            left > 0,
    ;
    assert(shuffled(items, state, k + 1).0 == swapped(before, k as int, j));
    assert(swapped(before, k as int, j).take(k as int) =~= before.take(k as int));
    assert(swapped(before, k as int, j)[k as int] == before[j]);
}

/// The most that ever waited is remembered.
pub proof fn lemma_depth_remembered<C: Count>(state: NodeState<C>)
    requires
        state.pending.len() <= usize::MAX,
    ensures
        state.depth_noted().max_send_pending_depth == vstd::math::max(
            state.max_send_pending_depth as int,
            state.pending.len() as int,
        ),
        state.depth_noted().pending == state.pending,
        state.depth_noted().store == state.store,
{
}

/// Every packet on a link moves that link's policy on by one, and no other's.
pub proof fn lemma_link_moves_on(
    state: SimState,
    src: PeerAddr,
    dst: PeerAddr,
    bytes: Seq<u8>,
    i: int,
)
    requires
        0 <= i < state.links.len(),
        state.links[i].src == src,
        state.links[i].dst == dst,
        forall|j: int|
            0 <= j < i ==> !((#[trigger] state.links[j]).src == src && state.links[j].dst == dst),
    ensures
        ({
            let after = state.sent(src, dst, bytes).0;
            let (lost, counter) = link_step(state.links[i].policy, state.links[i].counter);
            &&& after.links.len() == state.links.len()
            &&& after.links[i].counter == counter
            &&& after.links[i].policy == state.links[i].policy
            &&& state.drops(src, dst) == lost
            &&& forall|j: int|
                0 <= j < state.links.len() && j != i ==> #[trigger] after.links[j]
                    == state.links[j]
        }),
{
    lemma_first_where_at(state.links, link_of(src, dst), i);
}

proof fn lemma_merge_keeps_acks<C: Count>(
    state: StoreState<C>,
    batch: Seq<Observation<C>>,
    sequences: Seq<u64>,
)
    ensures
        state.merged(batch, sequences).state.frontiers == state.frontiers,
        state.merged(batch, sequences).state.config == state.config,
    decreases batch.len(),
{
    if batch.len() > 0 {
        lemma_merge_keeps_acks(state, batch.drop_last(), sequences);
    }
}

/// A packet tells who sent it, and that its sender has what it tells of: the peer at
/// its address is known by the sender's name from then on, and has acknowledged, of
/// every node that is known, at least what the packet holds of it. Others are not
/// taken to have acknowledged anything by it.
pub proof fn lemma_packet_tells_of_sender<C: Count>(
    state: NodeState<C>,
    key: Option<Seq<u8>>,
    limits: FrameLimits,
    bytes: Seq<u8>,
    src: PeerAddr,
    slot: int,
    i: int,
    cell: int,
    node: int,
)
    requires
        decoded::<C>(bytes, key, limits) is Ok,
        0 <= slot < state.store.frontiers.len() <= u16::MAX,
        state.store.frontiers[slot].node == Some(
            NodeId(decoded::<C>(bytes, key, limits)->Ok_0.header.sender_node_id),
        ),
        forall|p: int|
            0 <= p < slot ==> (#[trigger] state.store.frontiers[p]).node
                != state.store.frontiers[slot].node,
        0 <= i < state.peers.len(),
        state.peers[i].addr == src,
        forall|j: int| 0 <= j < i ==> (#[trigger] state.peers[j]).addr != src,
        0 <= cell < decoded_cells::<C>(bytes, key, limits).len(),
        ({
            let nodes = state.packet_taken(key, limits, bytes, src).store.nodes;
            let told = decoded_cells::<C>(bytes, key, limits)[cell];
            &&& 0 <= node < nodes.len()
            &&& node < state.store.frontiers[slot].acked.len()
            &&& nodes[node].node_id == told.origin_node_id
            &&& nodes[node].incarnation == told.origin_incarnation
            &&& forall|n: int| 0 <= n < node ==> #[trigger] nodes[n] != nodes[node]
        }),
    ensures
        ({
            let after = state.packet_taken(key, limits, bytes, src);
            let told = decoded_cells::<C>(bytes, key, limits)[cell];
            &&& after.peers[i].node_id == state.store.frontiers[slot].node
            &&& after.peers[i].peer_slot == Some(slot as u16)
            &&& after.peers[i].addr == src
            &&& after.store.frontiers[slot].acked[node] >= told.origin_sequence
            &&& after.store.frontiers[slot].acked[node] >= state.store.frontiers[slot].acked[node]
            &&& after.store.frontiers.len() == state.store.frontiers.len()
            &&& forall|p: int|
                0 <= p < state.store.frontiers.len() && p != slot
                    ==> #[trigger] after.store.frontiers[p] == state.store.frontiers[p]
            &&& forall|j: int|
                0 <= j < state.peers.len() && j != i ==> #[trigger] after.peers[j]
                    == state.peers[j]
        }),
{
    let cells = decoded_cells::<C>(bytes, key, limits);
    let merged = state.store.merged(observed_all(cells), sequences_of(cells)).state;
    lemma_merge_keeps_acks(state.store, observed_all(cells), sequences_of(cells));
    let sender = NodeId(decoded::<C>(bytes, key, limits)->Ok_0.header.sender_node_id);
    lemma_first_where_at(merged.frontiers, held_by(sender), slot);
    assert(with_slot(merged, sender, slot) == state.store.frontiers);
    lemma_packet_acknowledges(merged.nodes, state.store.frontiers, slot, cells, node);
    lemma_sender_named(state.peers, src, sender, slot as u16, i);
}

} // verus!
