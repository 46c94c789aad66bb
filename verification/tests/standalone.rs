use gabion::cells::NodeId;
use gabion::config::{
    Config, DescriptorConfig, DiscoveryConfig, GossipConfig, LimitRuleConfig, RuntimeConfig,
    SafetyMarginConfig, ServerConfig, StorageConfig,
};
use gabion::crdt::NodeIdentity;
use gabion::discovery::{
    DiscoveryMode, FilePeerHandler, Peer, PeerAddr, PeerIp, PeerSnapshot, RuntimePeerHandler,
    SnapshotPeerHandler, StaticPeerHandler,
};
use gabion::engine::{LocalEngine, LocalRule, OverflowPolicy};
use gabion::messages::{encode_message, GossipHeader, GossipMessage};
use gabion::requests::{Decision, LimitRequest, RejectReason};
use gabion::rules::{Descriptor, EnforcementMode};
use gabion::standalone::{
    convert_core_cell, wake_millis, GossipSendPolicy, GossipSendReason, GossipSpaceUsage,
    GossipTickSummary, GossipTransport, InboundFrame, StandaloneGossipConfig,
    StandaloneGossipRuntime,
};
use gabion::wire::HmacKey;

fn localhost(port: u16) -> PeerAddr {
    PeerAddr {
        ip: PeerIp::V4(0x7F00_0001),
        port,
    }
}

fn peer_addr(octet: u8) -> PeerAddr {
    PeerAddr {
        ip: PeerIp::V4(0x7F00_0000 | u32::from(octet)),
        port: 18080,
    }
}

fn tenant_rule(limit: u64, local_fallback_limit: u64, local_absolute_limit: u64) -> LimitRuleConfig {
    LimitRuleConfig {
        name: "tenant_api_minute".to_string(),
        domain: "api".to_string(),
        descriptors: vec![DescriptorConfig {
            key: "tenant".to_string(),
            value: "*".to_string(),
        }],
        limit,
        window: "60s".to_string(),
        bucket: "1s".to_string(),
        local_fallback_limit,
        local_absolute_limit,
        stale_after: "2s".to_string(),
        safety_margin: SafetyMarginConfig::default(),
        overflow_policy: OverflowPolicy::UseOverflowKey,
        mode: EnforcementMode::Enforce,
    }
}

fn test_config() -> Config {
    Config {
        storage: StorageConfig {
            max_cells: Some(64),
            dirty_ring_entries: Some(64),
            ..StorageConfig::with_max_keys(16)
        },
        limits: vec![tenant_rule(1, 100, 100)],
        runtime: RuntimeConfig::default(),
        server: ServerConfig::default(),
        discovery: DiscoveryConfig {
            kind: DiscoveryMode::Off,
            ..Default::default()
        },
        gossip: GossipConfig::default(),
    }
}

fn identity(node: u64) -> NodeIdentity {
    NodeIdentity {
        node_id: gabion::crdt::NodeId(u128::from(node)),
        incarnation: 1,
    }
}

fn engine_with_node(node: u64) -> LocalEngine {
    test_config()
        .into_engine_with_identity(identity(node))
        .expect("engine")
}

fn rule_config_for_runtime(id: u32) -> LocalRule {
    test_config().limits[0].to_rule(id).expect("rule")
}

fn runtime_config(node: u64) -> StandaloneGossipConfig {
    StandaloneGossipConfig {
        cluster_id_hash: 42,
        sender_node_id: NodeId::from_u128(u128::from(node)),
        sender_incarnation: 1,
        fanout: 3,
        max_payload_bytes: 4096,
        max_cells_per_frame: 16,
        remote_cell_capacity: 64,
        remote_dirty_capacity: 64,
        auth_key: None,
        max_peers: 16,
        recent_peer_grace_millis: 30_000,
        send_policy: GossipSendPolicy::with_linger_ms(1),
    }
}

fn empty_gossip_packet(sender: u64) -> Vec<u8> {
    let message = GossipMessage {
        header: GossipHeader {
            cluster_id_hash: 42,
            sender_node_id: NodeId::from_u128(u128::from(sender)),
            sender_incarnation: 1,
            min_bucket: 0,
            max_bucket: 0,
            flags: 0,
        },
        digests: Vec::new(),
        cells: Vec::new(),
        truncated: false,
    };
    let mut packet = Vec::with_capacity(128);
    assert!(!encode_message(&message, &mut packet, 128));
    packet
}

/// A network that keeps everything.
#[derive(Default)]
struct Outbox {
    sent: Vec<(Peer, Vec<u8>)>,
}

impl GossipTransport for Outbox {
    fn send_to(&mut self, peer: Peer, payload: &[u8]) -> bool {
        self.sent.push((peer, payload.to_vec()));
        true
    }
}

/// A runtime with its limiter, its peers and its network.
struct Node {
    limiter: LocalEngine,
    peers: RuntimePeerHandler,
    runtime: StandaloneGossipRuntime,
    inbox: Vec<InboundFrame>,
    outbox: Outbox,
}

impl Node {
    fn new(limiter: LocalEngine, peers: RuntimePeerHandler, config: StandaloneGossipConfig) -> Self {
        Node {
            limiter,
            peers,
            runtime: StandaloneGossipRuntime::new(config),
            inbox: Vec::new(),
            outbox: Outbox::default(),
        }
    }

    fn tick(&mut self, now_millis: u64) -> GossipTickSummary {
        let snapshot = self.peers.snapshot();
        let inbox = std::mem::take(&mut self.inbox);
        self.runtime.tick(
            &mut self.limiter,
            &snapshot,
            &mut self.outbox,
            &inbox,
            now_millis,
        )
    }

    fn drain_outbox(&mut self) -> Vec<(Peer, Vec<u8>)> {
        std::mem::take(&mut self.outbox.sent)
    }

    fn push_inbox(&mut self, peer: Peer, payload: Vec<u8>) {
        self.inbox.push(InboundFrame { peer, payload });
    }

    fn record(&mut self, tenant: &str, now_millis: u64) -> Decision {
        let descriptors = [Descriptor {
            key: "tenant",
            value: tenant,
        }];
        self.limiter.check_and_record(
            LimitRequest {
                domain: "api",
                descriptors: &descriptors,
                hits: 1,
            },
            now_millis,
        )
    }
}

fn fixed_peers(addrs: Vec<PeerAddr>) -> RuntimePeerHandler {
    RuntimePeerHandler::Static(StaticPeerHandler::new(addrs, None))
}

fn runtime(node: u64, peer_addr: PeerAddr) -> Node {
    Node::new(
        engine_with_node(node),
        fixed_peers(vec![peer_addr]),
        runtime_config(node),
    )
}

fn deliver(from: &mut Node, to: &mut Node, addr: PeerAddr) {
    for (_peer, payload) in from.drain_outbox() {
        to.push_inbox(Peer::new(addr), payload);
    }
}

#[test]
fn gossip_tick_sends_dirty_cells_and_receiver_merges_estimate() {
    let addr_a = localhost(10001);
    let addr_b = localhost(10002);
    let mut runtime_a = runtime(1, addr_b);
    let mut runtime_b = runtime(2, addr_a);

    assert_eq!(runtime_a.record("a", 0), Decision::Allow);

    let sent = runtime_a.tick(1);
    deliver(&mut runtime_a, &mut runtime_b, addr_a);
    let received = runtime_b.tick(2);

    assert_eq!(sent.cells_sent, 1);
    assert_eq!(received.frames_received, 1);
    assert_eq!(received.cells_merged, 1);
    assert_eq!(runtime_b.runtime.metrics().merge_cells, 1);
    assert_eq!(
        runtime_b.record("a", 3),
        Decision::Reject(RejectReason::GlobalLimit)
    );
}

#[test]
fn deterministic_gossip_uses_peer_and_transport_traits_without_udp() {
    let addr_a = localhost(10101);
    let addr_b = localhost(10102);
    let mut peers_a = SnapshotPeerHandler::with_capacity(4);
    let mut peers_b = SnapshotPeerHandler::with_capacity(4);
    peers_a.peer_added(Peer::new(addr_b));
    peers_b.peer_added(Peer::new(addr_a));
    let config_a = StandaloneGossipConfig {
        fanout: 1,
        ..runtime_config(1)
    };
    let config_b = StandaloneGossipConfig {
        fanout: 1,
        ..runtime_config(2)
    };
    let mut runtime_a = Node::new(
        engine_with_node(1),
        RuntimePeerHandler::Snapshot(peers_a),
        config_a,
    );
    let mut runtime_b = Node::new(
        engine_with_node(2),
        RuntimePeerHandler::Snapshot(peers_b),
        config_b,
    );

    assert_eq!(runtime_a.record("trait", 0), Decision::Allow);
    assert_eq!(runtime_a.tick(1).peers_sent, 1);
    deliver(&mut runtime_a, &mut runtime_b, addr_a);
    assert_eq!(runtime_b.tick(2).cells_merged, 1);

    runtime_a.peers.peer_removed(Peer::new(addr_b));
    assert_eq!(runtime_a.record("trait", 3), Decision::Allow);
    let summary = runtime_a.tick(4);
    assert_eq!(summary.peers_seen, 0);
    assert_eq!(summary.peers_sent, 0);
}

#[test]
fn gossip_tick_keeps_last_good_file_peers_when_read_fails() {
    let provider = RuntimePeerHandler::File(FilePeerHandler::new(
        "/nowhere/gabion-missing-peers".to_string(),
        None,
        vec![peer_addr(2)],
    ));
    let config = StandaloneGossipConfig {
        fanout: 1,
        ..runtime_config(1)
    };
    let mut runtime = Node::new(engine_with_node(1), provider, config);

    let summary: GossipTickSummary = runtime.tick(0);

    assert!(!summary.discovery_stale);
    assert!(!summary.local_only);
    assert_eq!(summary.peers_seen, 1);
}

#[test]
fn gossip_runtime_rejects_unknown_peer_before_decode() {
    let known = localhost(12001);
    let unknown = localhost(12002);
    let mut runtime_a = runtime(1, known);
    let mut runtime_b = runtime(2, known);

    assert_eq!(runtime_a.record("a", 0), Decision::Allow);
    runtime_a.tick(1);
    deliver(&mut runtime_a, &mut runtime_b, unknown);

    let summary = runtime_b.tick(2);

    assert_eq!(summary.frames_received, 0);
    assert_eq!(summary.cells_merged, 0);
    assert_eq!(summary.peer_rejected, 1);
}

#[test]
fn gossip_runtime_accepts_recently_known_peer_during_grace_window() {
    let old_peer_addr = localhost(13001);
    let new_peer_addr = localhost(13002);
    let provider =
        SnapshotPeerHandler::new(PeerSnapshot::new(vec![Peer::new(old_peer_addr)], false, 0));
    let config = StandaloneGossipConfig {
        fanout: 1,
        recent_peer_grace_millis: 10,
        ..runtime_config(2)
    };
    let mut receiver = Node::new(
        engine_with_node(2),
        RuntimePeerHandler::Snapshot(provider),
        config,
    );
    let mut sender = runtime(1, old_peer_addr);

    receiver.tick(0);
    receiver.peers.peer_removed(Peer::new(old_peer_addr));
    receiver.peers.peer_added(Peer::new(new_peer_addr));
    assert_eq!(sender.record("a", 1), Decision::Allow);
    sender.tick(2);
    deliver(&mut sender, &mut receiver, old_peer_addr);

    let summary = receiver.tick(3);

    assert_eq!(summary.peer_rejected, 0);
    assert_eq!(summary.cells_merged, 1);
}

#[test]
fn packet_loss_does_not_drop_dirty_cell_retry() {
    let addr_a = localhost(14001);
    let addr_b = localhost(14002);
    let mut runtime_a = runtime(1, addr_b);
    let mut runtime_b = runtime(2, addr_a);

    assert_eq!(runtime_a.record("loss", 0), Decision::Allow);

    let dropped = runtime_a.tick(1);
    let lost_packets = runtime_a.drain_outbox();
    assert_eq!(dropped.cells_sent, 1);
    assert_eq!(lost_packets.len(), 1);
    assert_eq!(runtime_b.tick(2).cells_merged, 0);

    let retried = runtime_a.tick(3);
    deliver(&mut runtime_a, &mut runtime_b, addr_a);
    let received = runtime_b.tick(4);

    assert_eq!(retried.cells_sent, 1);
    assert_eq!(received.cells_merged, 1);
}

#[test]
fn authenticated_runtime_rejects_mismatched_hmac_frames() {
    let addr_a = localhost(11001);
    let addr_b = localhost(11002);
    let config_a = StandaloneGossipConfig {
        fanout: 1,
        auth_key: Some(HmacKey::new([1; 32])),
        ..runtime_config(1)
    };
    let config_b = StandaloneGossipConfig {
        fanout: 1,
        auth_key: Some(HmacKey::new([2; 32])),
        ..runtime_config(2)
    };
    let mut runtime_a = Node::new(engine_with_node(1), fixed_peers(vec![addr_b]), config_a);
    let mut runtime_b = Node::new(engine_with_node(2), fixed_peers(vec![addr_a]), config_b);

    assert_eq!(runtime_a.record("a", 0), Decision::Allow);
    runtime_a.tick(1);
    deliver(&mut runtime_a, &mut runtime_b, addr_a);

    let received = runtime_b.tick(2);

    assert_eq!(received.frames_received, 1);
    assert_eq!(received.cells_merged, 0);
    assert_eq!(runtime_b.runtime.metrics().decode_errors, 1);
    assert_eq!(runtime_b.runtime.metrics().auth_failures, 1);
    assert_eq!(runtime_b.record("a", 3), Decision::Allow);
}

#[test]
fn dirty_overflow_forces_bounded_resync_cells() {
    let config = StandaloneGossipConfig {
        fanout: 1,
        ..runtime_config(7)
    };
    let mut runtime = Node::new(
        LocalEngine::with_identity(vec![rule_config_for_runtime(1)], 8, 8, 1, identity(7)),
        fixed_peers(vec![localhost(19001)]),
        config,
    );

    for value in ["a", "b"] {
        assert_eq!(runtime.record(value, 0), Decision::Allow);
    }

    let sent = runtime.tick(1);

    assert_eq!(sent.cells_sent, 2);
    assert_eq!(runtime.runtime.metrics().dirty_overflow, 1);
}

#[test]
fn removed_peers_are_accepted_only_within_grace_window() {
    for grace in [1u64, 5, 17, 32] {
        for elapsed in 0..40u64 {
            let addr_b = localhost(10202);
            let mut peers = SnapshotPeerHandler::with_capacity(4);
            peers.peer_added(Peer::new(addr_b));
            let config = StandaloneGossipConfig {
                recent_peer_grace_millis: grace,
                ..runtime_config(1)
            };
            let mut runtime = Node::new(
                engine_with_node(1),
                RuntimePeerHandler::Snapshot(peers),
                config,
            );

            runtime.tick(0);
            runtime.peers.peer_removed(Peer::new(addr_b));
            runtime.tick(1);
            runtime.push_inbox(Peer::new(addr_b), empty_gossip_packet(2));
            let summary = runtime.tick(1 + elapsed);

            if elapsed < grace {
                assert_eq!((summary.frames_received, summary.peer_rejected), (1, 0));
                assert!(runtime.runtime.metrics().recv_bytes > 0);
            } else {
                assert_eq!((summary.frames_received, summary.peer_rejected), (0, 1));
                assert_eq!(runtime.runtime.metrics().recv_bytes, 0);
            }
        }
    }
}

/// However many ticks and frames there are in between, the grace of a peer that
/// left runs from the tick that found it missing.
#[test]
fn grace_runs_across_many_ticks() {
    let (addr_b, addr_c) = (localhost(10203), localhost(10204));
    let mut peers = SnapshotPeerHandler::with_capacity(4);
    peers.peer_added(Peer::new(addr_b));
    peers.peer_added(Peer::new(addr_c));
    let config = StandaloneGossipConfig { recent_peer_grace_millis: 10, ..runtime_config(1) };
    let mut node = Node::new(engine_with_node(1), RuntimePeerHandler::Snapshot(peers), config);
    node.tick(100);
    node.peers.peer_removed(Peer::new(addr_b));
    node.tick(105);
    for now in 106..130 {
        if now == 108 {
            node.peers.peer_removed(Peer::new(addr_c));
        }
        node.push_inbox(Peer::new(addr_b), empty_gossip_packet(2));
        node.push_inbox(Peer::new(addr_c), empty_gossip_packet(3));
        let summary = node.tick(now);
        let heard = usize::from(now < 115) + usize::from(now < 118);
        assert_eq!((summary.frames_received, summary.peer_rejected), (heard, 2 - heard), "{now}");
    }
}

#[test]
fn unknown_senders_are_rejected_before_decode() {
    for octet in 65..129u8 {
        let mut runtime = runtime(1, peer_addr(octet - 64));
        runtime.push_inbox(
            Peer::new(peer_addr(octet)),
            empty_gossip_packet(u64::from(octet)),
        );
        let summary = runtime.tick(0);
        assert_eq!(summary.frames_received, 0);
        assert_eq!(summary.cells_merged, 0);
        assert_eq!(summary.peer_rejected, 1);
        assert_eq!(runtime.runtime.metrics().recv_bytes, 0);
    }
}

#[test]
fn dirty_overflow_forces_bounded_resync() {
    for tenants in 2..10usize {
        for cells_per_frame in 1..9usize {
            let config = StandaloneGossipConfig {
                fanout: 1,
                max_cells_per_frame: cells_per_frame,
                ..runtime_config(7)
            };
            let mut runtime = Node::new(
                LocalEngine::with_identity(vec![rule_config_for_runtime(1)], 16, 16, 1, identity(7)),
                fixed_peers(vec![peer_addr(10)]),
                config,
            );
            for index in 0..tenants {
                let decision = runtime.record(&format!("tenant-{index}"), index as u64);
                assert_eq!(decision, Decision::Allow);
            }
            let summary = runtime.tick(10);
            assert_eq!(summary.cells_sent, tenants.min(cells_per_frame));
            assert_eq!(runtime.runtime.metrics().dirty_overflow, 1);
        }
    }
}

#[test]
fn ticks_are_deterministic_for_supplied_timestamp() {
    for peer_count in 0..8u8 {
        for fanout in 1..8usize {
            let peers: Vec<PeerAddr> = (0..peer_count).map(|i| peer_addr(i + 1)).collect();
            let make = || {
                Node::new(
                    engine_with_node(1),
                    fixed_peers(peers.clone()),
                    StandaloneGossipConfig {
                        fanout,
                        ..runtime_config(1)
                    },
                )
            };
            let mut a = make();
            let mut b = make();
            a.record("a", 0);
            b.record("a", 0);
            let now = 100 * u64::from(peer_count);
            assert_eq!(a.tick(now), b.tick(now));
            assert_eq!(a.drain_outbox(), b.drain_outbox());
        }
    }
}

/// A network that loses every other frame.
#[derive(Default)]
struct Flaky {
    asked: Vec<Peer>,
}

impl GossipTransport for Flaky {
    fn send_to(&mut self, peer: Peer, _payload: &[u8]) -> bool {
        self.asked.push(peer);
        self.asked.len() % 2 == 1
    }
}

/// The due frame goes once to each of the first peers, whatever the network
/// answers, and nothing goes out without a reason.
#[test]
fn each_target_is_sent_to_once() {
    let peers: Vec<PeerAddr> = (1..6).map(peer_addr).collect();
    let config = StandaloneGossipConfig { fanout: 3, ..runtime_config(1) };
    let mut node = Node::new(engine_with_node(1), fixed_peers(peers.clone()), config);
    let snapshot = node.peers.snapshot();
    let mut network = Flaky::default();
    let idle = node.runtime.tick(&mut node.limiter, &snapshot, &mut network, &[], 0);
    assert_eq!(idle.send_reason, None);
    assert!(network.asked.is_empty());
    node.record("a", 0);
    let busy = node.runtime.tick(&mut node.limiter, &snapshot, &mut network, &[], 1_000);
    assert_eq!((busy.peers_sent, busy.send_failures), (2, 1));
    assert_eq!(network.asked, peers[..3].iter().map(|a| Peer::new(*a)).collect::<Vec<_>>());
}

#[test]
fn a_frame_waits_for_company_but_not_for_long() {
    let policy = GossipSendPolicy::with_linger_ms(100);
    let quiet = GossipSpaceUsage {
        active_cells: 1,
        max_cells: 64,
        dirty_cells: 1,
        dirty_capacity: 64,
        dirty_overflowed: false,
    };
    assert_eq!(policy.should_send(50, 0, quiet), None);
    assert_eq!(policy.should_send(100, 0, quiet), Some(GossipSendReason::Linger));
    let full = GossipSpaceUsage {
        dirty_cells: 64,
        ..quiet
    };
    assert_eq!(policy.should_send(50, 0, full), Some(GossipSendReason::DirtyPressure));
    let lost = GossipSpaceUsage {
        dirty_overflowed: true,
        ..quiet
    };
    assert_eq!(policy.should_send(50, 0, lost), Some(GossipSendReason::DirtyOverflow));
    assert!(wake_millis(100) > 0);
}

#[test]
fn local_cells_travel_whole() {
    let mut node = runtime(9, peer_addr(2));
    assert_eq!(node.record("a", 1_234), Decision::Allow);
    let cell = node.limiter.cells()[0];
    let sent = convert_core_cell(cell);
    assert_eq!(sent.rule_id, cell.rule_id);
    assert_eq!(sent.key_hash(), cell.key_hash);
    assert_eq!(sent.bucket_start_millis as u64, cell.bucket_start_millis);
    assert_eq!(sent.origin_node_id, NodeId::from_u128(9));
    assert_eq!(sent.count, 1);
}

#[test]
fn the_report_shows_whom_the_runtime_listens_to() {
    let mut node = runtime(1, peer_addr(2));
    node.tick(0);
    let report = node.runtime.admin_snapshot(&node.peers.snapshot());
    assert_eq!(report.cluster_id_hash, 42);
    assert_eq!(report.active_peers, vec![peer_addr(2)]);
    assert!(report.recent_peers.is_empty());
    assert!(!report.local_only);
    assert_eq!(report.remote_cell_capacity, 64);
}

#[test]
fn a_peer_is_never_its_own() {
    let me = peer_addr(1);
    let handler = StaticPeerHandler::new(vec![me, peer_addr(2)], Some(me));
    assert_eq!(handler.snapshot().peers(), &vec![Peer::new(peer_addr(2))]);
    let mut file = FilePeerHandler::with_capacity("peers".to_string(), Some(me), vec![], 1);
    assert_eq!(file.path(), "peers");
    file.peer_added(Peer::new(peer_addr(3)));
    file.peer_added(Peer::new(peer_addr(4)));
    assert_eq!(file.snapshot().peers().len(), 1);
    file.peer_removed(Peer::new(peer_addr(3)));
    assert!(file.snapshot().local_only());
}
