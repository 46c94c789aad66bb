//! One turn of a node's event loop.
//!
//! Whoever waits for events hands each one over whole. What it changed has been
//! applied downstream by the time the turn is over, so a hit may be
//! acknowledged then.

use crate::crdt::upkeep::lemma_handed_on_as_heard;
use crate::crdt::{AggregateKey, Count, DeltaSink, ExpirationSink, StoreState};
use crate::discovery::PeerAddr;
use crate::gossip::aggregate::AggregateStore;
use crate::gossip::node::{
    at_addr, hit_observation, sequences_of, ticked, GossipConfig, GossipNode, LimitHit, NodeState,
    PeerEvent, SendOutcome,
};
use crate::seqs::{first_where, lemma_first_where};
use crate::wire::{decoded, decoded_cells, observed_all, DecodeError, FrameLimits};
use vstd::prelude::*;

verus! {

/// Something that happened.
pub enum NodeEvent<'a> {
    /// Hits to count.
    Hit(LimitHit),
    /// A packet came in.
    Packet { bytes: &'a [u8], src: PeerAddr },
    /// The network answered for the packet first in line.
    SendDone(SendOutcome),
    /// A peer came or went.
    PeerChange(PeerEvent),
    /// It is time to gossip, with this many peers to cover the cluster.
    Tick { coverage: usize },
}

/// What a turn came to.
#[derive(Clone, Copy, Debug, PartialEq, Eq, Structural)]
pub struct Turn {
    /// Why a packet was dropped, if one was.
    pub refused: Option<DecodeError>,
    /// Whether hits were counted and await their acknowledgement.
    pub acknowledge: bool,
}

/// What an event makes of a node.
pub open spec fn event_taken<C: Count>(
    before: NodeState<C>,
    after: NodeState<C>,
    config: GossipConfig,
    key: Option<Seq<u8>>,
    event: NodeEvent<'_>,
    clock_millis: u64,
) -> bool {
    match event {
        NodeEvent::Hit(hit) => after == before.hit_taken(
            config.target_err_bps,
            config.min_emit_interval_millis,
            hit,
            clock_millis,
        ),
        NodeEvent::Packet { bytes, src } => after == before.packet_taken(
            key,
            config.wire_limits,
            bytes@,
            src,
        ),
        NodeEvent::SendDone(outcome) => after == before.drained(outcome),
        NodeEvent::PeerChange(change) => after == before.peer_changed(change),
        NodeEvent::Tick { coverage } => ticked(
            before,
            after,
            config.fanout,
            coverage,
            config.max_cells_per_tick as nat,
            config.cluster_id_hash,
            key,
            config.wire_limits,
            clock_millis,
        ),
    }
}

/// The counts that an event raises.
pub open spec fn deltas_of<C: Count>(
    state: NodeState<C>,
    key: Option<Seq<u8>>,
    limits: FrameLimits,
    event: NodeEvent<'_>,
) -> Seq<(AggregateKey, C)> {
    match event {
        NodeEvent::Hit(hit) => state.store.ingested(seq![hit_observation::<C>(hit)]).deltas,
        NodeEvent::Packet { bytes, src } => if decoded::<C>(bytes@, key, limits) is Ok {
            let cells = decoded_cells::<C>(bytes@, key, limits);
            state.store.merged(observed_all(cells), sequences_of(cells)).deltas
        } else {
            Seq::empty()
        },
        _ => Seq::empty(),
    }
}

/// The counts that an event lets go of.
pub open spec fn expirations_of<C: Count>(
    state: NodeState<C>,
    event: NodeEvent<'_>,
    clock_millis: u64,
) -> Seq<(AggregateKey, C)> {
    match event {
        NodeEvent::Tick { .. } => state.store.expirations(state.store.slots.len(), clock_millis),
        _ => Seq::empty(),
    }
}

/// Why an event is refused, if it is.
pub open spec fn refusal_of<C: Count>(
    key: Option<Seq<u8>>,
    limits: FrameLimits,
    event: NodeEvent<'_>,
) -> Option<DecodeError> {
    match event {
        NodeEvent::Packet { bytes, src } => match decoded::<C>(bytes@, key, limits) {
            Ok(_) => None,
            Err(e) => Some(e),
        },
        _ => None,
    }
}

impl<C: Count> NodeState<C> {
    /// The longest queue noted.
    pub open spec fn depth_noted(self) -> NodeState<C> {
        NodeState {
            max_send_pending_depth: if self.max_send_pending_depth < self.pending.len() {
                self.pending.len() as usize
            } else {
                self.max_send_pending_depth
            },
            ..self
        }
    }
}

impl<C: Count> GossipNode<C> {
    /// Takes an event, and applies what it changed to the aggregates: in one
    /// call, deltas before expirations, and in none if nothing changed.
    pub fn turn<A: AggregateStore<C>>(
        &mut self,
        event: NodeEvent<'_>,
        clock_millis: u64,
        aggregates: &mut A,
    ) -> (turn: Turn)
        requires
            old(self).wf(),
        ensures
            final(self).wf(),
            final(self).spec_config() == old(self).spec_config(),
            exists|taken: NodeState<C>| #[trigger]
                event_taken(
                    old(self)@,
                    taken,
                    old(self).spec_config(),
                    old(self).spec_key(),
                    event,
                    clock_millis,
                ) && final(self)@ == taken.depth_noted(),
            ({
                let deltas = deltas_of(
                    old(self)@,
                    old(self).spec_key(),
                    old(self).spec_config().wire_limits,
                    event,
                );
                let expirations = expirations_of(old(self)@, event, clock_millis);
                if deltas.len() == 0 && expirations.len() == 0 {
                    *final(aggregates) == *old(aggregates)
                } else {
                    A::took(*old(aggregates), *final(aggregates), deltas, expirations)
                }
            }),
            turn.refused == refusal_of::<C>(
                old(self).spec_key(),
                old(self).spec_config().wire_limits,
                event,
            ),
            turn.acknowledge == (event is Hit),
    {
        let ghost before = self@;
        let ghost config = self.spec_config();
        let ghost key = self.spec_key();
        let mut deltas: DeltaSink<C> = DeltaSink::with_capacity(0);
        let mut expirations: ExpirationSink<C> = ExpirationSink::with_capacity(0);
        let mut refused: Option<DecodeError> = None;
        let mut acknowledge: bool = false;
        match event {
            NodeEvent::Hit(hit) => {
                self.handle_limit_request(hit, clock_millis, &mut deltas);
                acknowledge = true;
            },
            NodeEvent::Packet { bytes, src } => {
                refused = self.handle_inbound(bytes, src, &mut deltas);
            },
            NodeEvent::SendDone(outcome) => {
                self.finish_send(outcome);
            },
            NodeEvent::PeerChange(change) => {
                self.handle_peer_event(change);
            },
            NodeEvent::Tick { coverage } => {
                self.handle_gossip_tick(clock_millis, coverage, &mut expirations);
            },
        }
        let ghost taken = self@;
        proof {
            assert(event_taken(before, taken, config, key, event, clock_millis));
            assert(deltas@ =~= deltas_of(before, key, config.wire_limits, event));
            assert(expirations@ =~= expirations_of(before, event, clock_millis));
        }
        self.finish_event(&mut deltas, &mut expirations, aggregates);
        assert(self@ =~= taken.depth_noted());
        Turn { refused, acknowledge }
    }
}

/// Peers come and go as told, and nothing is counted or aged out by it.
pub proof fn lemma_peers_change<C: Count>(
    before: NodeState<C>,
    after: NodeState<C>,
    config: GossipConfig,
    key: Option<Seq<u8>>,
    change: PeerEvent,
    clock_millis: u64,
    addr: PeerAddr,
)
    requires
        event_taken(before, after, config, key, NodeEvent::PeerChange(change), clock_millis),
        forall|i: int, j: int|
            0 <= i < j < before.peers.len() ==> (#[trigger] before.peers[i]).addr != (
            #[trigger] before.peers[j]).addr,
    ensures
        ({
            let was = exists|i: int|
                0 <= i < before.peers.len() && (#[trigger] before.peers[i]).addr == addr;
            let is = exists|i: int|
                0 <= i < after.peers.len() && (#[trigger] after.peers[i]).addr == addr;
            &&& is <==> match change {
                PeerEvent::Added(new) => was || addr == new,
                PeerEvent::Removed(gone) => was && addr != gone,
            }
            &&& after.store.slots == before.store.slots
            &&& deltas_of(before, key, config.wire_limits, NodeEvent::PeerChange(change)).len() == 0
            &&& expirations_of(before, NodeEvent::PeerChange(change), clock_millis).len() == 0
        }),
{
    match change {
        PeerEvent::Added(new) => {
            lemma_first_where(before.peers, at_addr(new));
            if first_where(before.peers, at_addr(new)) is None {
                let n = before.peers.len() as int;
                assert(after.peers[n].addr == new);
                assert forall|i: int| 0 <= i < n implies #[trigger] after.peers[i]
                    == before.peers[i] by {}
                assert forall|i: int| 0 <= i < n implies after.peers[i] == (
                #[trigger] before.peers[i]) by {}
            } else {
                let i = first_where(before.peers, at_addr(new))->0;
                assert(before.peers[i].addr == new);
            }
        },
        PeerEvent::Removed(gone) => {
            lemma_first_where(before.peers, at_addr(gone));
            if let Some(p) = first_where(before.peers, at_addr(gone)) {
                assert(before.peers[p].addr == gone);
                assert forall|i: int| 0 <= i < before.peers.len() && i != p implies (
                #[trigger] before.peers[i]) == after.peers[if i < p {
                    i
                } else {
                    i - 1
                }] by {}
                assert forall|i: int| 0 <= i < after.peers.len() implies (#[trigger] after.peers[i])
                    == before.peers[if i < p {
                    i
                } else {
                    i + 1
                }] by {}
            }
        },
    }
}

/// A packet is refused for what is wrong with it, and what is refused changes nothing;
/// nothing else is ever refused.
pub proof fn lemma_refused_in_vain<C: Count>(
    before: NodeState<C>,
    after: NodeState<C>,
    config: GossipConfig,
    key: Option<Seq<u8>>,
    event: NodeEvent<'_>,
    clock_millis: u64,
)
    requires
        event_taken(before, after, config, key, event, clock_millis),
    ensures
        refusal_of::<C>(key, config.wire_limits, event) is Some ==> event is Packet,
        event matches NodeEvent::Packet { bytes, src } ==> {
            &&& refusal_of::<C>(key, config.wire_limits, event) == decoded::<C>(
                bytes@,
                key,
                config.wire_limits,
            ).err()
            &&& decoded::<C>(bytes@, key, config.wire_limits) is Err ==> after.store
                == before.store && after.peers == before.peers && after.pending == before.pending
                && deltas_of(before, key, config.wire_limits, event).len() == 0
        },
{
}

/// What the network answers concerns the first packet in line alone: it leaves the line
/// unless it has to wait.
pub proof fn lemma_answer_taken<C: Count>(
    before: NodeState<C>,
    after: NodeState<C>,
    config: GossipConfig,
    key: Option<Seq<u8>>,
    outcome: SendOutcome,
    clock_millis: u64,
)
    requires
        event_taken(before, after, config, key, NodeEvent::SendDone(outcome), clock_millis),
        before.pending.len() > 0,
    ensures
        outcome == SendOutcome::WouldBlock ==> after.pending == before.pending,
        outcome != SendOutcome::WouldBlock ==> after.pending == before.pending.skip(1),
        after.store == before.store,
        after.peers == before.peers,
{
}

/// A hit is told of once, under its rule, key and bucket, if it counts at all, and
/// nothing ages out by it.
pub proof fn lemma_hit_told<C: Count>(
    state: NodeState<C>,
    config: GossipConfig,
    key: Option<Seq<u8>>,
    hit: LimitHit,
    clock_millis: u64,
)
    ensures
        ({
            let deltas = deltas_of(state, key, config.wire_limits, NodeEvent::Hit(hit));
            &&& deltas.len() <= 1
            &&& deltas.len() == 1 ==> deltas[0].0.rule_fingerprint == hit.rule_fingerprint
                && deltas[0].0.key_hash == hit.key_hash && deltas[0].0.bucket == hit.bucket
            &&& expirations_of(state, NodeEvent::Hit(hit), clock_millis).len() == 0
        }),
{
    let batch = seq![hit_observation::<C>(hit)];
    assert(batch.drop_last() =~= Seq::empty());
    assert(batch.last() == hit_observation::<C>(hit));
    reveal_with_fuel(StoreState::ingested, 2);
    lemma_handed_on_as_heard(state.store, hit_observation::<C>(hit), 0);
}

} // verus!
