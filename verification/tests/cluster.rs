//! Nodes over a simulated network, event by event.

use gabion::crdt::{
    CellStore, CellStoreConfig, DeltaSink, ExpirationSink, KeyHash, NodeId, NodeIdentity,
    RuleDescriptor,
};
use gabion::discovery::{PeerAddr, PeerIp};
use gabion::gossip::aggregate::{AggregateStore, InMemoryAggregateStore};
use gabion::gossip::clock::{reading_after, Clock, FixedClock};
use gabion::gossip::events::NodeEvent;
use gabion::gossip::node::{
    error_budget_for, GossipConfig, GossipNode, LimitHit, PeerEvent, SendOutcome,
};
use gabion::gossip::sampling::{shuffle_front, SplitMix64};
use gabion::gossip::sim::{LinkPolicy, SimRouter};
use gabion::wire::HmacKey;

fn sock(port: u16) -> PeerAddr {
    PeerAddr { ip: PeerIp::V4(0x7F00_0001), port }
}

/// Added to the logarithm of the number of peers.
const COVERAGE_MARGIN: f64 = 4.0;

fn coverage(peers: usize) -> usize {
    ((peers as f64).ln() + COVERAGE_MARGIN).ceil() as usize
}

fn store_for(identity: NodeIdentity) -> CellStore<u32> {
    CellStore::new(CellStoreConfig::default(), identity)
}

fn sim_config(identity: NodeIdentity, peers: Vec<PeerAddr>, seed: u64) -> GossipConfig {
    GossipConfig {
        local_identity: identity,
        cluster_id_hash: 0xC1,
        bootstrap_peers: peers,
        fanout: 1,
        tick_interval_nanos: 100_000_000,
        rng_seed: seed,
        ..GossipConfig::default()
    }
}

/// A rule whose only live bucket is 100 ms wide.
fn short_rule(fingerprint: u128) -> RuleDescriptor {
    RuleDescriptor {
        fingerprint,
        window_millis: 100,
        bucket_millis: 100,
        limit: 10,
        flags: 0,
        local_rule_id: 1,
    }
}

struct Member {
    addr: PeerAddr,
    node: GossipNode<u32>,
    deltas: DeltaSink<u32>,
    expirations: ExpirationSink<u32>,
    totals: InMemoryAggregateStore,
    next_tick: u64,
}

struct Cluster {
    router: SimRouter,
    clock: FixedClock,
    members: Vec<Member>,
}

impl Cluster {
    fn new(router: SimRouter) -> Cluster {
        Cluster { router, clock: FixedClock::new(0), members: Vec::new() }
    }

    fn join(&mut self, addr: PeerAddr, config: GossipConfig, store: CellStore<u32>) -> usize {
        self.router.bind(addr);
        let next_tick = config.tick_interval_nanos / 1_000_000;
        self.members.push(Member {
            addr,
            node: GossipNode::new(config, store),
            deltas: DeltaSink::with_capacity(16),
            expirations: ExpirationSink::with_capacity(16),
            totals: InMemoryAggregateStore::new(),
            next_tick,
        });
        self.members.len() - 1
    }

    /// What every event ends with.
    fn after_event(&mut self, i: usize) {
        let now = self.clock.now_millis();
        let member = &mut self.members[i];
        member.node.finish_event(&mut member.deltas, &mut member.expirations, &mut member.totals);
        if member.node.take_threshold_tick() {
            let wanted = coverage(member.node.peer_count());
            member.node.handle_gossip_tick(now, wanted, &mut member.expirations);
            member.node.finish_event(&mut member.deltas, &mut member.expirations, &mut member.totals);
        }
    }

    fn record(
        &mut self,
        i: usize,
        rule_fingerprint: u128,
        key_hash: KeyHash,
        bucket: u32,
        hits: u64,
        rule_limit: u64,
        now_millis: u64,
    ) {
        let clock = self.clock.now_millis();
        let member = &mut self.members[i];
        let hit = LimitHit { rule_fingerprint, key_hash, bucket, hits, rule_limit, now_millis };
        member.node.handle_limit_request(hit, clock, &mut member.deltas);
        self.after_event(i);
    }

    fn peer_event(&mut self, i: usize, event: PeerEvent) {
        self.members[i].node.handle_peer_event(event);
        self.after_event(i);
    }

    /// Sends and delivers until nothing moves.
    fn settle(&mut self) {
        let mut moved = true;
        while moved {
            moved = false;
            for i in 0..self.members.len() {
                let addr = self.members[i].addr;
                loop {
                    let outcome = match self.members[i].node.next_send() {
                        None => break,
                        Some((dst, bytes)) => self.router.try_send_to(addr, dst, bytes),
                    };
                    self.members[i].node.finish_send(outcome);
                    if outcome == SendOutcome::WouldBlock {
                        break;
                    }
                    moved = true;
                }
            }
            for i in 0..self.members.len() {
                let addr = self.members[i].addr;
                while let Some(packet) = self.router.recv_from(addr) {
                    let member = &mut self.members[i];
                    member.node.handle_inbound(&packet.bytes, packet.src, &mut member.deltas);
                    self.after_event(i);
                    moved = true;
                }
            }
        }
    }

    fn advance(&mut self, step: u64, steps: u32) {
        for _ in 0..steps {
            self.settle();
            self.clock.advance(step);
            let now = self.clock.now_millis();
            for i in 0..self.members.len() {
                let member = &mut self.members[i];
                if now >= member.next_tick {
                    member.next_tick = now + member.node.config().tick_interval_nanos / 1_000_000;
                    let wanted = coverage(member.node.peer_count());
                    member.node.handle_gossip_tick(now, wanted, &mut member.expirations);
                    self.after_event(i);
                }
            }
            self.settle();
        }
    }

    fn total(&self, i: usize) -> u64 {
        self.members[i].totals.snapshot().iter().map(|row| row.1).sum()
    }
}

#[test]
fn record_acks_after_apply() {
    let mut cluster = Cluster::new(SimRouter::new());
    let identity = NodeIdentity::new(NodeId(0xAA), 1);
    let a = cluster.join(sock(40_001), sim_config(identity, Vec::new(), 1), store_for(identity));
    let rule_fp: u128 = 0xDEAD_BEEF;
    let key = KeyHash(0x1234);
    cluster.record(a, rule_fp, key, 0, 5, 0, 1_000);
    assert_eq!(cluster.total(a), 5);
    cluster.record(a, rule_fp, key, 0, 3, 0, 1_000);
    assert_eq!(cluster.total(a), 8);
}

#[test]
fn two_runtimes_converge_on_cluster_aggregate() {
    let mut cluster = Cluster::new(SimRouter::new());
    let (addr_a, addr_b) = (sock(40_010), sock(40_011));
    let id_a = NodeIdentity::new(NodeId(0xAA00), 1);
    let id_b = NodeIdentity::new(NodeId(0xBB00), 1);
    let a = cluster.join(addr_a, sim_config(id_a, vec![addr_b], 1), store_for(id_a));
    let b = cluster.join(addr_b, sim_config(id_b, vec![addr_a], 2), store_for(id_b));
    let rule_fp: u128 = 0xC0FE;
    let key = KeyHash(0xABCD);
    cluster.record(a, rule_fp, key, 0, 3, 0, 1_000);
    cluster.record(b, rule_fp, key, 0, 5, 0, 1_000);
    cluster.advance(100, 10);
    assert_eq!(cluster.total(a), 8, "A converges");
    assert_eq!(cluster.total(b), 8, "B converges");
}

#[test]
fn apply_called_once_per_crdt_iteration() {
    let mut cluster = Cluster::new(SimRouter::new());
    let identity = NodeIdentity::new(NodeId(0xAA), 1);
    let a = cluster.join(sock(40_020), sim_config(identity, Vec::new(), 1), store_for(identity));
    cluster.record(a, 0x11, KeyHash(1), 0, 4, 0, 100);
    let calls = cluster.members[a].totals.apply_call_lens();
    assert_eq!(calls.len(), 1);
    assert_eq!(calls[0].0, 1);
    assert_eq!(calls[0].1, 0);
}

#[test]
fn gossip_tick_drives_expiration() {
    let mut cluster = Cluster::new(SimRouter::new());
    let identity = NodeIdentity::new(NodeId(0xAA), 1);
    let mut store = store_for(identity);
    store.intern_rule(short_rule(0xFEED)).unwrap();
    let a = cluster.join(sock(40_030), sim_config(identity, Vec::new(), 1), store);
    cluster.record(a, 0xFEED, KeyHash(7), 0, 2, 0, 0);
    assert_eq!(cluster.total(a), 2);
    cluster.advance(100, 3);
    assert_eq!(cluster.total(a), 0);
}

#[test]
fn configured_rule_reexpires_after_idle_window() {
    let mut cluster = Cluster::new(SimRouter::new());
    let identity = NodeIdentity::new(NodeId(0xAA), 1);
    let mut store = store_for(identity);
    store.intern_rule(short_rule(0xFEED)).unwrap();
    let a = cluster.join(sock(40_031), sim_config(identity, Vec::new(), 1), store);
    cluster.record(a, 0xFEED, KeyHash(7), 0, 2, 10, 0);
    assert_eq!(cluster.total(a), 2);
    cluster.advance(100, 3);
    assert_eq!(cluster.total(a), 0);
    cluster.record(a, 0xFEED, KeyHash(7), 3, 2, 10, 300);
    assert_eq!(cluster.total(a), 2);
    cluster.advance(100, 3);
    assert_eq!(
        cluster.total(a),
        0,
        "second burst must age out on the configured 100 ms window, not the 60 s default",
    );
}

#[test]
fn record_returns_after_apply_completes() {
    let mut cluster = Cluster::new(SimRouter::new());
    let identity = NodeIdentity::new(NodeId(0xAA), 1);
    let a = cluster.join(sock(40_040), sim_config(identity, Vec::new(), 1), store_for(identity));
    cluster.record(a, 0xABC, KeyHash(1), 0, 3, 0, 0);
    assert_eq!(cluster.total(a), 3);
}

#[test]
fn per_peer_frame_prunes_acked_cells() {
    let mut cluster = Cluster::new(SimRouter::new());
    let (addr_a, addr_b) = (sock(40_050), sock(40_051));
    let id_a = NodeIdentity::new(NodeId(0xAA00), 1);
    let id_b = NodeIdentity::new(NodeId(0xBB00), 1);
    let a = cluster.join(addr_a, sim_config(id_a, vec![addr_b], 1), store_for(id_a));
    let b = cluster.join(addr_b, sim_config(id_b, vec![addr_a], 2), store_for(id_b));
    cluster.record(a, 0xDEAD, KeyHash(1), 0, 4, 0, 0);
    cluster.advance(100, 5);
    assert_eq!(cluster.total(a), 4);
    assert_eq!(cluster.total(b), 4);
}

#[test]
fn dropped_packet_is_repaired() {
    let mut cluster = Cluster::new(SimRouter::new());
    let (addr_a, addr_b) = (sock(40_060), sock(40_061));
    cluster.router.set_link_policy(addr_a, addr_b, LinkPolicy::DropFirst { count: 1 });
    let id_a = NodeIdentity::new(NodeId(0xAA00), 1);
    let id_b = NodeIdentity::new(NodeId(0xBB00), 1);
    let a = cluster.join(addr_a, sim_config(id_a, vec![addr_b], 1), store_for(id_a));
    let b = cluster.join(addr_b, sim_config(id_b, vec![addr_a], 2), store_for(id_b));
    cluster.record(a, 0xDEAD, KeyHash(1), 0, 7, 0, 0);
    cluster.advance(100, 10);
    assert_eq!(cluster.total(b), 7, "B converged despite the first-packet drop");
}

#[test]
fn partition_then_heal() {
    let mut cluster = Cluster::new(SimRouter::new());
    let (addr_a, addr_b, addr_c) = (sock(40_070), sock(40_071), sock(40_072));
    cluster.router.set_link_policy(addr_a, addr_c, LinkPolicy::Block);
    cluster.router.set_link_policy(addr_c, addr_a, LinkPolicy::Block);
    let id_a = NodeIdentity::new(NodeId(0xA), 1);
    let id_b = NodeIdentity::new(NodeId(0xB), 1);
    let id_c = NodeIdentity::new(NodeId(0xC), 1);
    let a = cluster.join(addr_a, sim_config(id_a, vec![addr_b, addr_c], 1), store_for(id_a));
    let b = cluster.join(addr_b, sim_config(id_b, vec![addr_a, addr_c], 2), store_for(id_b));
    let c = cluster.join(addr_c, sim_config(id_c, vec![addr_a, addr_b], 3), store_for(id_c));
    cluster.record(a, 0xDEAD, KeyHash(1), 0, 1, 0, 0);
    cluster.record(b, 0xDEAD, KeyHash(1), 0, 2, 0, 0);
    cluster.record(c, 0xDEAD, KeyHash(1), 0, 4, 0, 0);
    cluster.advance(100, 10);
    cluster.router.set_link_policy(addr_a, addr_c, LinkPolicy::Pass);
    cluster.router.set_link_policy(addr_c, addr_a, LinkPolicy::Pass);
    cluster.advance(100, 30);
    assert_eq!(cluster.total(a), 7, "A converges after heal");
    assert_eq!(cluster.total(b), 7, "B converges");
    assert_eq!(cluster.total(c), 7, "C converges after heal");
}

#[test]
fn simulates_minute_in_milliseconds() {
    let mut cluster = Cluster::new(SimRouter::new());
    let (addr_a, addr_b, addr_c) = (sock(40_080), sock(40_081), sock(40_082));
    let id_a = NodeIdentity::new(NodeId(0xA), 1);
    let id_b = NodeIdentity::new(NodeId(0xB), 1);
    let id_c = NodeIdentity::new(NodeId(0xC), 1);
    let a = cluster.join(addr_a, sim_config(id_a, vec![addr_b, addr_c], 1), store_for(id_a));
    cluster.join(addr_b, sim_config(id_b, vec![addr_a, addr_c], 2), store_for(id_b));
    cluster.join(addr_c, sim_config(id_c, vec![addr_a, addr_b], 3), store_for(id_c));
    cluster.record(a, 0xCAFE, KeyHash(99), 0, 1, 0, 0);
    let start = std::time::Instant::now();
    cluster.advance(100, 600);
    let elapsed = start.elapsed();
    assert!(
        elapsed < std::time::Duration::from_millis(1_000),
        "expected sub-second wall-clock, got {elapsed:?}"
    );
}

#[test]
fn gossip_tick_picks_peers_without_replacement() {
    let mut cluster = Cluster::new(SimRouter::new());
    let (addr_a, addr_b, addr_c, addr_d) =
        (sock(40_090), sock(40_091), sock(40_092), sock(40_093));
    let id_a = NodeIdentity::new(NodeId(0xA), 1);
    let id_b = NodeIdentity::new(NodeId(0xB), 1);
    let id_c = NodeIdentity::new(NodeId(0xC), 1);
    let id_d = NodeIdentity::new(NodeId(0xD), 1);
    let mut cfg_a = sim_config(id_a, vec![addr_b, addr_c, addr_d], 0xBAD_5EED);
    cfg_a.fanout = 3;
    let a = cluster.join(addr_a, cfg_a, store_for(id_a));
    let b = cluster.join(addr_b, sim_config(id_b, Vec::new(), 2), store_for(id_b));
    let c = cluster.join(addr_c, sim_config(id_c, Vec::new(), 3), store_for(id_c));
    let d = cluster.join(addr_d, sim_config(id_d, Vec::new(), 4), store_for(id_d));
    cluster.record(a, 0xDEAD, KeyHash(1), 0, 1, 0, 0);
    cluster.advance(100, 20);
    assert_eq!((cluster.total(b), cluster.total(c), cluster.total(d)), (1, 1, 1));
}

#[test]
fn admin_snapshot_reflects_runtime_state() {
    let mut cluster = Cluster::new(SimRouter::new());
    let identity = NodeIdentity::new(NodeId(0xCAFE), 7);
    let config = sim_config(identity, vec![sock(40_301)], 1);
    let a = cluster.join(sock(40_300), config, store_for(identity));
    cluster.record(a, 0xFEED, KeyHash(0x42), 0, 4, 0, 100);
    let snapshot = cluster.members[a].node.snapshot();
    assert_eq!(snapshot.local_identity, identity);
    assert_eq!(snapshot.peers.len(), 1);
    assert_eq!(snapshot.peers[0].addr, sock(40_301));
    assert!(snapshot.peers[0].node_id.is_none());
    assert!(snapshot.store_stats.active_cells >= 1);
    assert!(snapshot.local_dirty_len >= 1);
}

#[test]
fn decode_rejects_increment_on_wrong_auth_and_throttle_warns() {
    let mut cluster = Cluster::new(SimRouter::new());
    let (addr_a, addr_b) = (sock(50_000), sock(50_001));
    let id_a = NodeIdentity::new(NodeId(0xDA), 1);
    let id_b = NodeIdentity::new(NodeId(0xDB), 1);
    let mut cfg_a = sim_config(id_a, vec![addr_b], 1);
    cfg_a.auth_key = Some(HmacKey([7; 32]));
    let mut cfg_b = sim_config(id_b, vec![addr_a], 2);
    cfg_b.auth_key = Some(HmacKey([8; 32]));
    let a = cluster.join(addr_a, cfg_a, store_for(id_a));
    let b = cluster.join(addr_b, cfg_b, store_for(id_b));
    cluster.record(a, 0xDEAD, KeyHash(1), 0, 1, 0, 0);
    const TICKS: u32 = 8;
    cluster.advance(100, TICKS);
    let snap = cluster.members[b].node.snapshot();
    assert!(
        snap.decode_reject_count >= (TICKS as u64) - 1,
        "decode_reject_count too low: {} (after {} ticks)",
        snap.decode_reject_count,
        TICKS
    );
    assert!(
        snap.decode_reject_count <= (TICKS as u64) + 1,
        "decode_reject_count too high: {} (after {} ticks)",
        snap.decode_reject_count,
        TICKS
    );
    assert_eq!(cluster.total(b), 0);
}

#[test]
fn send_queue_drains_after_recipient_backpressure() {
    let mut cluster = Cluster::new(SimRouter::with_channel_capacity(1));
    let (addr_a, addr_b) = (sock(51_000), sock(51_001));
    let id_a = NodeIdentity::new(NodeId(0xBA), 1);
    let mut cfg_a = sim_config(id_a, vec![addr_b], 1);
    cfg_a.fanout = 1;
    cfg_a.send_queue_capacity = 8;
    let a = cluster.join(addr_a, cfg_a, store_for(id_a));
    // Bound, and nobody reads: the second packet has to wait.
    cluster.router.bind(addr_b);
    for i in 0..6_u128 {
        cluster.record(a, 0xBA5, KeyHash(i), 0, 1, 0, 0);
    }
    cluster.advance(100, 12);
    let saturated = cluster.members[a].node.snapshot();
    assert!(
        saturated.max_send_pending_depth >= 2,
        "expected backpressure re-queue to grow send_pending past 1, got max={} (snapshot={:?})",
        saturated.max_send_pending_depth,
        saturated,
    );
    assert_eq!(saturated.max_send_pending_depth, 8);
    // Gone: packets to it are taken and lost.
    assert!(cluster.router.unbind(addr_b));
    cluster.advance(100, 6);
    let drained = cluster.members[a].node.snapshot();
    assert_eq!(
        drained.send_pending_depth, 0,
        "send_pending should drain after recipient released: {:?}",
        drained,
    );
}

#[test]
fn peer_event_lifecycle_is_idempotent_and_tolerant() {
    let mut cluster = Cluster::new(SimRouter::new());
    let addr_other = sock(53_001);
    let id_local = NodeIdentity::new(NodeId(0xE0E0), 1);
    let a = cluster.join(sock(53_000), sim_config(id_local, Vec::new(), 1), store_for(id_local));
    assert_eq!(cluster.members[a].node.snapshot().peers.len(), 0, "initial state should have no peers");
    let events = vec![
        (PeerEvent::Added(addr_other), 1, "first add"),
        (PeerEvent::Added(addr_other), 1, "duplicate add"),
        (PeerEvent::Removed(addr_other), 0, "first remove"),
        (PeerEvent::Removed(addr_other), 0, "remove without add"),
        (PeerEvent::Added(addr_other), 1, "re-add"),
    ];
    for (event, expected_len, label) in events {
        cluster.peer_event(a, event);
        let snap = cluster.members[a].node.snapshot();
        assert_eq!(snap.peers.len(), expected_len, "after {label}: snapshot={snap:?}");
    }
}

#[test]
fn threshold_trigger_fires_before_heartbeat() {
    let mut cluster = Cluster::new(SimRouter::new());
    let (addr_a, addr_b) = (sock(54_000), sock(54_001));
    let id_a = NodeIdentity::new(NodeId(0xA1), 1);
    let id_b = NodeIdentity::new(NodeId(0xB1), 1);
    let mut cfg_a = sim_config(id_a, vec![addr_b], 1);
    cfg_a.tick_interval_nanos = 1_000_000_000;
    cfg_a.target_err_bps = 100;
    cfg_a.min_emit_interval_millis = 5;
    let mut cfg_b = sim_config(id_b, vec![addr_a], 2);
    cfg_b.tick_interval_nanos = 1_000_000_000;
    let a = cluster.join(addr_a, cfg_a, store_for(id_a));
    let b = cluster.join(addr_b, cfg_b, store_for(id_b));
    let rule_fp: u128 = 0xC0DE;
    let key = KeyHash(0x99);
    cluster.record(a, rule_fp, key, 0, 1, 100, 0);
    cluster.record(a, rule_fp, key, 0, 1, 100, 0);
    cluster.record(a, rule_fp, key, 0, 1, 100, 0);
    cluster.advance(10, 5);
    let sum_b = cluster.total(b);
    assert!(
        sum_b >= 1,
        "expected threshold-fire to reach B before the 1s heartbeat, got sum_b={sum_b}",
    );
    assert!(cluster.members[a].node.snapshot().threshold_fires >= 1);
}

#[test]
fn min_emit_interval_clamps_adversarial_rate() {
    let mut cluster = Cluster::new(SimRouter::with_channel_capacity(256));
    let (addr_a, addr_b) = (sock(54_010), sock(54_011));
    let id_a = NodeIdentity::new(NodeId(0xA2), 1);
    let id_b = NodeIdentity::new(NodeId(0xB2), 1);
    let mut cfg_a = sim_config(id_a, vec![addr_b], 1);
    cfg_a.tick_interval_nanos = 10_000_000_000;
    cfg_a.target_err_bps = 100;
    cfg_a.min_emit_interval_millis = 5;
    let mut cfg_b = sim_config(id_b, vec![addr_a], 2);
    cfg_b.tick_interval_nanos = 10_000_000_000;
    let a = cluster.join(addr_a, cfg_a, store_for(id_a));
    cluster.join(addr_b, cfg_b, store_for(id_b));
    let rule_fp: u128 = 0xCAB1E;
    let key = KeyHash(0x11);
    cluster.record(a, rule_fp, key, 0, 1, 1, 0);
    for i in 0..1000_u64 {
        let now_ms = i / 100;
        cluster.record(a, rule_fp, key, 0, 1, 1, now_ms);
        cluster.settle();
    }
    cluster.advance(1, 20);
    let received = cluster.router.received_count(addr_b);
    assert!(
        received < 200,
        "min_emit_interval should clamp emit rate; got {received} frames for 1000 hits",
    );
}

#[test]
fn heartbeat_still_drains_cold_rules() {
    let mut cluster = Cluster::new(SimRouter::new());
    let (addr_a, addr_b) = (sock(54_020), sock(54_021));
    let id_a = NodeIdentity::new(NodeId(0xA3), 1);
    let id_b = NodeIdentity::new(NodeId(0xB3), 1);
    let mut cfg_a = sim_config(id_a, vec![addr_b], 1);
    cfg_a.target_err_bps = 100;
    let cfg_b = sim_config(id_b, vec![addr_a], 2);
    let a = cluster.join(addr_a, cfg_a, store_for(id_a));
    let b = cluster.join(addr_b, cfg_b, store_for(id_b));
    cluster.record(a, 0xC01D, KeyHash(1), 0, 1, 1_000_000, 0);
    cluster.advance(100, 5);
    assert_eq!(cluster.total(b), 1, "heartbeat should drain cold rules");
}

#[test]
fn error_bound_holds_under_load() {
    const NODES: usize = 4;
    const LIMIT: u64 = 1_000;
    const TARGET_BPS: u32 = 100;
    let mut cluster = Cluster::new(SimRouter::with_channel_capacity(512));
    let addrs: Vec<PeerAddr> = (0..NODES).map(|i| sock(54_100 + i as u16)).collect();
    for i in 0..NODES {
        let identity = NodeIdentity::new(NodeId(0xC000 + i as u128), 1);
        let peers: Vec<PeerAddr> = addrs.iter().copied().filter(|a| *a != addrs[i]).collect();
        let mut cfg = sim_config(identity, peers, 0xBEEF + i as u64);
        cfg.fanout = NODES - 1;
        cfg.target_err_bps = TARGET_BPS;
        cfg.min_emit_interval_millis = 1;
        cfg.max_cells_per_tick = 64;
        cluster.join(addrs[i], cfg, store_for(identity));
    }
    let rule_fp: u128 = 0xC0FE;
    let key = KeyHash(0x44);
    let batches = 50_u32;
    let per_batch = 8_u64;
    let mut real_total = 0_u64;
    let mut max_lag = 0_u64;
    for batch in 0..batches {
        for i in 0..NODES {
            cluster.record(i, rule_fp, key, 0, per_batch, LIMIT, batch as u64);
            real_total += per_batch;
        }
        cluster.advance(2, 1);
        let min_seen = (0..NODES).map(|i| cluster.total(i)).min().unwrap_or(0);
        max_lag = max_lag.max(real_total.saturating_sub(min_seen));
    }
    let bound = ((LIMIT * TARGET_BPS as u64) / 10_000) * NODES as u64;
    let tick_slack = NODES as u64 * per_batch * 2;
    assert!(
        max_lag <= bound.saturating_add(tick_slack).saturating_mul(2),
        "error lag {max_lag} exceeded soft bound {bound} (+ slack {tick_slack})",
    );
}

/// A peer is named, and gets a frontier slot, with its first packet.
#[test]
fn peer_is_named_with_its_slot() {
    let mut cluster = Cluster::new(SimRouter::new());
    let (addr_a, addr_b) = (sock(55_000), sock(55_001));
    let id_a = NodeIdentity::new(NodeId(0xAB), 1);
    let id_b = NodeIdentity::new(NodeId(0xBC), 1);
    let a = cluster.join(addr_a, sim_config(id_a, vec![addr_b], 1), store_for(id_a));
    let b = cluster.join(addr_b, sim_config(id_b, vec![addr_a], 2), store_for(id_b));
    let before = cluster.members[b].node.snapshot().peers[0];
    assert_eq!((before.node_id, before.peer_slot), (None, None));
    cluster.record(a, 1, KeyHash(1), 0, 1, 0, 0);
    cluster.advance(100, 1);
    let named = cluster.members[b].node.snapshot().peers[0];
    assert_eq!(named.addr, addr_a);
    assert_eq!(named.node_id, Some(NodeId(0xAB)));
    assert!(named.peer_slot.is_some());
    cluster.peer_event(b, PeerEvent::Removed(addr_a));
    assert!(cluster.members[b].node.snapshot().peers.is_empty());
}

/// What a node shows of its cells.
#[test]
fn cell_dump_shows_every_cell() {
    let mut cluster = Cluster::new(SimRouter::new());
    let identity = NodeIdentity::new(NodeId(0xAA), 3);
    let mut store = store_for(identity);
    store.intern_rule(short_rule(0xFEED)).unwrap();
    let a = cluster.join(sock(56_000), sim_config(identity, Vec::new(), 1), store);
    cluster.record(a, 0xFEED, KeyHash(7), 4, 2, 10, 450);
    cluster.record(a, 0xBEEF, KeyHash(8), 9, 5, 10, 9_500);
    let dump = cluster.members[a].node.cell_dump();
    assert_eq!(dump.local_identity, identity);
    assert_eq!(dump.cells.len(), 2);
    let known = dump.cells.iter().find(|c| c.rule_fingerprint == 0xFEED).unwrap();
    assert_eq!((known.key_hash, known.bucket, known.count), (7, 4, 2));
    assert_eq!((known.rule_window_millis, known.rule_bucket_millis, known.rule_limit), (100, 100, 10));
    assert_eq!((known.origin_node_id, known.origin_incarnation), (Some(0xAA), Some(3)));
    assert!(known.applies_locally);
    let foreign = dump.cells.iter().find(|c| c.rule_fingerprint == 0xBEEF).unwrap();
    assert_eq!((foreign.key_hash, foreign.bucket, foreign.count), (8, 9, 5));
    assert_eq!((foreign.rule_window_millis, foreign.rule_bucket_millis), (60_000, 1_000));
    assert!(!foreign.applies_locally);
}

/// Places of the send queue are numbered in a byte; there is always one.
#[test]
fn queue_capacity_fits_a_byte() {
    for (capacity, places) in [(0_usize, 1_usize), (1, 1), (3, 3), (255, 255), (256, 255), (258, 255)] {
        let mut cluster = Cluster::new(SimRouter::with_channel_capacity(1));
        let (addr_a, addr_b) = (sock(57_000), sock(57_001));
        let identity = NodeIdentity::new(NodeId(0xAA), 1);
        let mut config = sim_config(identity, vec![addr_b], 1);
        config.send_queue_capacity = capacity;
        let a = cluster.join(addr_a, config, store_for(identity));
        let mut expirations = ExpirationSink::with_capacity(1);
        cluster.record(a, 1, KeyHash(1), 0, 1, 0, 0);
        for tick in 1..300 {
            cluster.members[a].node.handle_gossip_tick(tick * 100, 1, &mut expirations);
        }
        assert_eq!(cluster.members[a].node.snapshot().send_pending_depth, places);
    }
}

/// Packets that are garbage change nothing but the count of them.
#[test]
fn garbage_is_counted_and_dropped() {
    let identity = NodeIdentity::new(NodeId(1), 1);
    let mut node = GossipNode::new(sim_config(identity, Vec::new(), 1), store_for(identity));
    let mut sink = DeltaSink::with_capacity(4);
    for n in 1..4_u64 {
        assert!(node.handle_inbound(&[1, 2, 3], sock(1), &mut sink).is_some());
        assert_eq!(node.snapshot().decode_reject_count, n);
    }
    assert!(sink.is_empty());
    assert_eq!(node.snapshot().store_stats.active_cells, 0);
}

#[test]
fn error_budget_is_split_among_nodes() {
    assert_eq!(error_budget_for(100, 100, 2), 1);
    assert_eq!(error_budget_for(1_000_000, 100, 2), 5_000);
    assert_eq!(error_budget_for(1_000, 100, 4), 2);
    assert_eq!(error_budget_for(0, 0, 0), 1);
}

#[test]
fn coverage_fanout_tracks_ln_n_plus_c() {
    let base = GossipConfig::default().fanout;
    for peers in [1_usize, 8, 31, 99, 255] {
        let wanted = coverage(peers);
        let mut cluster = Cluster::new(SimRouter::new());
        let bootstrap = (0..peers).map(|i| sock(41_001 + i as u16)).collect();
        let identity = NodeIdentity::new(NodeId(0x5EED), 1);
        let mut config = sim_config(identity, bootstrap, 1);
        config.fanout = base;
        let a = cluster.join(sock(41_000), config, store_for(identity));
        cluster.record(a, 0xC0FFEE, KeyHash(1), 0, 1, 0, 0);
        cluster.advance(100, 3);
        let observed = cluster.members[a].node.snapshot().last_effective_fanout;
        assert_eq!(observed, base.max(wanted).min(peers), "{peers} peers");
    }
    assert_eq!(coverage(8), 7);
}

/// A tick sends to the configured number of peers, to more if it takes more to
/// cover the cluster, and never to more than there are, however much is dirty.
#[test]
fn fanout_covers_the_cluster_whatever_is_dirty() {
    for (fanout, coverage, peers, expected) in
        [(1, 1, 5, 1), (1, 4, 5, 4), (1, 9, 5, 5), (6, 1, 20, 6), (6, 1, 2, 2), (4, 7, 8, 7)]
    {
        for dirty in [1_u128, 8, 1_000] {
            let identity = NodeIdentity::new(NodeId(1), 1);
            let addrs: Vec<PeerAddr> = (0..peers).map(|i| sock(58_000 + i as u16)).collect();
            let mut config = sim_config(identity, addrs, 1);
            config.fanout = fanout;
            config.target_err_bps = 10_000;
            let mut node = GossipNode::new(config, store_for(identity));
            let mut deltas = DeltaSink::with_capacity(1);
            let mut expirations = ExpirationSink::with_capacity(1);
            for key in 0..dirty {
                let hit = LimitHit {
                    rule_fingerprint: 7,
                    key_hash: KeyHash(key),
                    bucket: 0,
                    hits: 1,
                    rule_limit: 1_000_000,
                    now_millis: 0,
                };
                node.handle_limit_request(hit, 0, &mut deltas);
            }
            assert_eq!(node.peer_count(), peers);
            node.handle_gossip_tick(100, coverage, &mut expirations);
            assert_eq!(node.snapshot().last_effective_fanout, expected);
            assert_eq!(node.snapshot().peak_effective_fanout, expected);
            assert_eq!(node.snapshot().dirty_ticks, 1);
        }
    }
}

#[test]
fn shuffle_keeps_the_items() {
    let mut rng = SplitMix64::new(42);
    let mut items: Vec<u32> = (0..20).collect();
    shuffle_front(&mut items, &mut rng, 5);
    let mut sorted = items.clone();
    sorted.sort();
    assert_eq!(sorted, (0..20).collect::<Vec<u32>>());
    assert_ne!(items, sorted);
}

#[test]
fn clock_reads_what_it_was_given() {
    let mut clock = FixedClock::new(5);
    assert_eq!(clock.now_millis(), 5);
    clock.advance(7);
    assert_eq!(clock.now_millis(), 12);
    clock.set(1);
    assert_eq!(clock.now_millis(), 1);
    clock.set(u64::MAX);
    clock.advance(1);
    assert_eq!(clock.now_millis(), u64::MAX);
    assert_eq!(FixedClock::default().now_millis(), 0);
    assert_eq!(reading_after(10, 20), 30);
}

#[test]
fn totals_fold_deltas_and_expirations() {
    let mut totals = InMemoryAggregateStore::new();
    let mut deltas: DeltaSink<u32> = DeltaSink::with_capacity(2);
    let mut expirations: ExpirationSink<u32> = ExpirationSink::with_capacity(2);
    let key = gabion::crdt::AggregateKey { rule_fingerprint: 1, key_hash: KeyHash(2), bucket: 3 };
    deltas.push(key, 4);
    deltas.push(key, 5);
    totals.apply(&deltas, &expirations);
    assert_eq!(totals.snapshot().len(), 1);
    assert_eq!(totals.snapshot()[0], (key, 9));
    deltas.clear();
    expirations.push(key, 9);
    totals.apply(&deltas, &expirations);
    assert!(totals.snapshot().is_empty());
    assert_eq!(totals.apply_call_lens(), &vec![(2, 0), (0, 1)]);
}

/// Every event is one turn: taken, applied, and only then acknowledged.
#[test]
fn turns_apply_before_they_acknowledge() {
    let identity = NodeIdentity::new(NodeId(0xA), 1);
    let mut store = store_for(identity);
    store.intern_rule(short_rule(0xFEED)).unwrap();
    let mut node = GossipNode::new(sim_config(identity, vec![sock(2)], 1), store);
    let mut totals = InMemoryAggregateStore::new();
    let hit = LimitHit {
        rule_fingerprint: 0xFEED,
        key_hash: KeyHash(1),
        bucket: 0,
        hits: 3,
        rule_limit: 10,
        now_millis: 0,
    };
    let turn = node.turn(NodeEvent::Hit(hit), 0, &mut totals);
    assert!(turn.acknowledge && turn.refused.is_none());
    assert_eq!(totals.snapshot()[0].1, 3);
    let turn = node.turn(NodeEvent::Packet { bytes: &[0; 7], src: sock(2) }, 0, &mut totals);
    assert!(turn.refused.is_some() && !turn.acknowledge);
    node.turn(NodeEvent::PeerChange(PeerEvent::Added(sock(3))), 0, &mut totals);
    node.turn(NodeEvent::Tick { coverage: 1 }, 50, &mut totals);
    let snapshot = node.snapshot();
    assert_eq!((snapshot.peers.len(), snapshot.send_pending_depth), (2, 1));
    assert_eq!(snapshot.max_send_pending_depth, 1);
    node.turn(NodeEvent::SendDone(SendOutcome::WouldBlock), 50, &mut totals);
    assert_eq!(node.snapshot().send_pending_depth, 1);
    node.turn(NodeEvent::SendDone(SendOutcome::Sent), 50, &mut totals);
    assert_eq!(node.snapshot().send_pending_depth, 0);
    // Too old by now.
    node.turn(NodeEvent::Tick { coverage: 1 }, 1_000, &mut totals);
    assert!(totals.snapshot().is_empty());
    assert_eq!(totals.apply_call_lens(), &vec![(1, 0), (0, 1)]);
}
