//! Clusters under many seeds.

use std::collections::BTreeMap;

use gabion::crdt::{
    CellStore, CellStoreConfig, KeyHash, NodeId, NodeIdentity, RuleDescriptor,
};
use gabion::discovery::{PeerAddr, PeerIp};
use gabion::gossip::aggregate::InMemoryAggregateStore;
use gabion::gossip::events::NodeEvent;
use gabion::gossip::node::{GossipConfig, GossipNode, LimitHit, PeerEvent, SendOutcome};
use gabion::gossip::sampling::SplitMix64;
use gabion::gossip::sim::{LinkPolicy, SimRouter};
use gabion::wire::HmacKey;

type Totals = BTreeMap<(u128, u128, u32), u64>;

struct Record {
    node: usize,
    rule: u8,
    key: u8,
    hits: u64,
}

fn below(rng: &mut SplitMix64, bound: u64) -> u64 {
    rng.next_u64() % bound
}

fn draw_records(rng: &mut SplitMix64, len: u64, nodes: usize) -> Vec<Record> {
    (0..len)
        .map(|_| Record {
            node: below(rng, nodes as u64) as usize,
            rule: below(rng, 3) as u8,
            key: below(rng, 8) as u8,
            hits: below(rng, 20) + 1,
        })
        .collect()
}

fn sock(port: u16) -> PeerAddr {
    PeerAddr { ip: PeerIp::V4(0x7F00_0001), port }
}

fn rule_fp(rule: u8) -> u128 {
    0xABC0 + rule as u128
}

fn key_hash(key: u8) -> KeyHash {
    KeyHash(0x1000 + key as u128)
}

fn expected_model(records: &[Record]) -> Totals {
    let mut model = Totals::new();
    for record in records {
        let key = (rule_fp(record.rule), key_hash(record.key).0, 0);
        *model.entry(key).or_insert(0) += record.hits;
    }
    model
}

/// Added to the logarithm of the number of peers.
const COVERAGE_MARGIN: f64 = 4.0;

fn coverage(peers: usize) -> usize {
    ((peers as f64).ln() + COVERAGE_MARGIN).ceil() as usize
}

fn store_for(identity: NodeIdentity) -> CellStore<u32> {
    CellStore::new(CellStoreConfig::default(), identity)
}

fn store_with_rules(
    mut store: CellStore<u32>,
    window_millis: u32,
    limit: u64,
) -> CellStore<u32> {
    for rule in 0..3 {
        store
            .intern_rule(RuleDescriptor {
                fingerprint: rule_fp(rule),
                window_millis,
                bucket_millis: 100,
                limit,
                flags: 0,
                local_rule_id: rule as u32,
            })
            .unwrap();
    }
    store
}

fn sim_config(identity: NodeIdentity, peers: Vec<PeerAddr>, seed: u64) -> GossipConfig {
    GossipConfig {
        local_identity: identity,
        cluster_id_hash: 0xC1,
        bootstrap_peers: peers,
        fanout: 1,
        tick_interval_nanos: 100_000_000,
        rng_seed: seed,
        ..GossipConfig::default()
    }
}

struct Member {
    addr: PeerAddr,
    node: GossipNode<u32>,
    totals: InMemoryAggregateStore,
}

struct Cluster {
    router: SimRouter,
    now: u64,
    members: Vec<Member>,
}

impl Cluster {
    fn new(channel_capacity: usize) -> Cluster {
        let router = SimRouter::with_channel_capacity(channel_capacity);
        Cluster { router, now: 0, members: Vec::new() }
    }

    fn join(&mut self, addr: PeerAddr, config: GossipConfig, store: CellStore<u32>) {
        self.router.bind(addr);
        let node = GossipNode::new(config, store);
        self.members.push(Member { addr, node, totals: InMemoryAggregateStore::new() });
    }

    fn take(&mut self, i: usize, event: NodeEvent<'_>) {
        let member = &mut self.members[i];
        member.node.turn(event, self.now, &mut member.totals);
        if member.node.take_threshold_tick() {
            let coverage = coverage(member.node.peer_count());
            member.node.turn(NodeEvent::Tick { coverage }, self.now, &mut member.totals);
        }
    }

    fn record(&mut self, i: usize, rule_fingerprint: u128, key_hash: KeyHash, hits: u64) {
        let hit = LimitHit {
            rule_fingerprint,
            key_hash,
            bucket: 0,
            hits,
            rule_limit: 0,
            now_millis: 0,
        };
        self.take(i, NodeEvent::Hit(hit));
    }

    fn settle(&mut self) {
        let mut moved = true;
        while moved {
            moved = false;
            for i in 0..self.members.len() {
                let addr = self.members[i].addr;
                loop {
                    let outcome = match self.members[i].node.next_send() {
                        None => break,
                        Some((dst, bytes)) => self.router.try_send_to(addr, dst, bytes),
                    };
                    self.take(i, NodeEvent::SendDone(outcome));
                    if outcome == SendOutcome::WouldBlock {
                        break;
                    }
                    moved = true;
                }
            }
            for i in 0..self.members.len() {
                let addr = self.members[i].addr;
                while let Some(packet) = self.router.recv_from(addr) {
                    self.take(i, NodeEvent::Packet { bytes: &packet.bytes, src: packet.src });
                    moved = true;
                }
            }
        }
    }

    fn advance_ticks(&mut self, ticks: u64) {
        for _ in 0..ticks {
            self.settle();
            self.now += 100;
            for i in 0..self.members.len() {
                let coverage = coverage(self.members[i].node.peer_count());
                self.take(i, NodeEvent::Tick { coverage });
            }
            self.settle();
        }
    }

    fn totals(&self, i: usize) -> Totals {
        self.members[i]
            .totals
            .snapshot()
            .iter()
            .map(|(key, count)| ((key.rule_fingerprint, key.key_hash.0, key.bucket), *count))
            .collect()
    }

    fn sum(&self, i: usize) -> u64 {
        self.totals(i).values().sum()
    }
}

/// Peers at doubling distances around a ring, on both sides.
fn overlay_peers(addrs: &[PeerAddr], index: usize, degree: usize) -> Vec<PeerAddr> {
    let nodes = addrs.len();
    if nodes <= 1 {
        return Vec::new();
    }
    let degree = degree.min((nodes - 1).ilog2() as usize + 1).max(1);
    let mut peers = Vec::new();
    let mut offset = 1_usize;
    for _ in 0..degree {
        peers.push(addrs[(index + offset) % nodes]);
        peers.push(addrs[(index + nodes - (offset % nodes)) % nodes]);
        offset = (offset * 2).min(nodes - 1);
    }
    peers.sort_by_key(|peer| peer.port);
    peers.dedup();
    peers
}

#[test]
fn quickcheck_sim_connected_clusters_converge_after_finite_loss() {
    for seed in 0..12 {
        let mut rng = SplitMix64::new(seed);
        let nodes = below(&mut rng, 16) as usize + 1;
        let fanout = if nodes == 1 { 0 } else { below(&mut rng, nodes as u64 - 1) as usize + 1 };
        let peer_degree = below(&mut rng, 7) as usize + 4;
        let len = below(&mut rng, 31) + 1;
        let records = draw_records(&mut rng, len, nodes);
        let drop_first = below(&mut rng, 4) as u32;

        let mut cluster = Cluster::new(256);
        let addrs: Vec<PeerAddr> = (0..nodes).map(|i| sock(41_000 + i as u16)).collect();
        if nodes > 1 && drop_first > 0 {
            for i in 0..nodes {
                let policy = LinkPolicy::DropFirst { count: drop_first };
                cluster.router.set_link_policy(addrs[i], addrs[(i + 1) % nodes], policy);
            }
        }
        for i in 0..nodes {
            let identity = NodeIdentity::new(NodeId(0xA000 + i as u128), 1);
            let mut cfg =
                sim_config(identity, overlay_peers(&addrs, i, peer_degree), 0xBAD5_EED0 + i as u64);
            cfg.fanout = fanout.min(nodes.saturating_sub(1));
            cfg.max_cells_per_tick = 128;
            cfg.send_queue_capacity = 128;
            let config = CellStoreConfig {
                cell_capacity: 512,
                rule_dictionary_capacity: 8,
                node_dictionary_capacity: 32,
                local_dirty_capacity: 512,
                forwarded_dirty_capacity: 512,
                peer_capacity: 32,
            };
            let store = store_with_rules(CellStore::new(config, identity), 3_600_000, 1_000_000);
            cluster.join(addrs[i], cfg, store);
        }
        for record in &records {
            cluster.record(record.node, rule_fp(record.rule), key_hash(record.key), record.hits);
        }
        cluster.advance_ticks(if nodes == 1 { 1 } else { 160 });
        let expected = expected_model(&records);
        for i in 0..nodes {
            assert_eq!(cluster.totals(i), expected, "seed {seed}, node {i} of {nodes}");
        }
    }
}

#[test]
fn quickcheck_sim_partition_heals_without_overcount() {
    const NODES: usize = 8;
    for seed in 0..8 {
        let mut rng = SplitMix64::new(seed);
        let len = below(&mut rng, 31) + 1;
        let records = draw_records(&mut rng, len, NODES);
        let heal_after_ticks = below(&mut rng, 8) + 1;

        let mut cluster = Cluster::new(128);
        let addrs: Vec<PeerAddr> = (0..NODES).map(|i| sock(42_000 + i as u16)).collect();
        for left in 0..4 {
            for right in 4..8 {
                cluster.router.set_link_policy(addrs[left], addrs[right], LinkPolicy::Block);
                cluster.router.set_link_policy(addrs[right], addrs[left], LinkPolicy::Block);
            }
        }
        for i in 0..NODES {
            let identity = NodeIdentity::new(NodeId(0xB000 + i as u128), 1);
            let peers = addrs.iter().copied().filter(|addr| *addr != addrs[i]).collect();
            let mut cfg = sim_config(identity, peers, 0xC0FF_EE00 + i as u64);
            cfg.fanout = 4;
            cfg.max_cells_per_tick = 32;
            cluster.join(addrs[i], cfg, store_for(identity));
        }
        for record in &records {
            cluster.record(record.node, rule_fp(record.rule), key_hash(record.key), record.hits);
        }
        cluster.advance_ticks(heal_after_ticks);
        let global = expected_model(&records);
        for i in 0..NODES {
            for (key, count) in cluster.totals(i) {
                assert!(count <= *global.get(&key).unwrap_or(&0), "seed {seed}, node {i}");
            }
        }
        for left in 0..4 {
            for right in 4..8 {
                cluster.router.set_link_policy(addrs[left], addrs[right], LinkPolicy::Pass);
                cluster.router.set_link_policy(addrs[right], addrs[left], LinkPolicy::Pass);
            }
        }
        // Fewer ticks than the widest bucket lives for.
        cluster.advance_ticks(120);
        for i in 0..NODES {
            assert_eq!(cluster.totals(i), global, "seed {seed}, node {i}");
        }
    }
}

#[test]
fn quickcheck_sim_converges_under_iid_packet_loss() {
    for seed in 0..24 {
        let mut rng = SplitMix64::new(seed);
        let p_choice = below(&mut rng, 3) as usize;
        // 10, 30 and 50 percent.
        let threshold = [429_496_729, 1_288_490_188, 2_147_483_647][p_choice];
        let nodes = below(&mut rng, 4) as usize + 4;
        let len = below(&mut rng, 16) + 1;
        let records = draw_records(&mut rng, len, nodes);

        let mut cluster = Cluster::new(128);
        let addrs: Vec<PeerAddr> = (0..nodes).map(|i| sock(52_000 + i as u16)).collect();
        for &src in &addrs {
            for &dst in &addrs {
                if src != dst {
                    let seed = below(&mut rng, u64::from(u32::MAX)) as u32;
                    let policy = LinkPolicy::DropProb { threshold, seed };
                    cluster.router.set_link_policy(src, dst, policy);
                }
            }
        }
        for i in 0..nodes {
            let identity = NodeIdentity::new(NodeId(0xC000 + i as u128), 1);
            let peers = addrs.iter().copied().filter(|addr| *addr != addrs[i]).collect();
            let mut cfg = sim_config(identity, peers, 0xD0D0 + i as u64);
            cfg.fanout = (nodes - 1).min(4);
            cfg.max_cells_per_tick = 32;
            cluster.join(addrs[i], cfg, store_for(identity));
        }
        for record in &records {
            cluster.record(record.node, rule_fp(record.rule), key_hash(record.key), record.hits);
        }
        let expected = expected_model(&records);
        let converged = (0..40).any(|_| {
            cluster.advance_ticks(5);
            (0..nodes).all(|i| cluster.totals(i) == expected)
        });
        assert!(converged, "seed {seed}, threshold {threshold}, {nodes} nodes");
    }
}

#[test]
fn quickcheck_sim_authentication_admits_only_matching_keys() {
    for seed in 0..20 {
        let mut rng = SplitMix64::new(seed);
        let matching_keys = seed % 2 == 0;
        let a_hits = below(&mut rng, 20) + 1;
        let b_hits = below(&mut rng, 20) + 1;
        let mut cluster = Cluster::new(64);
        let (addr_a, addr_b) = (sock(43_000), sock(43_001));
        let id_a = NodeIdentity::new(NodeId(0xCA), 1);
        let id_b = NodeIdentity::new(NodeId(0xCB), 1);
        let mut cfg_a = sim_config(id_a, vec![addr_b], 1);
        cfg_a.auth_key = Some(HmacKey([7; 32]));
        let mut cfg_b = sim_config(id_b, vec![addr_a], 2);
        cfg_b.auth_key = Some(HmacKey([if matching_keys { 7 } else { 8 }; 32]));
        cluster.join(addr_a, cfg_a, store_for(id_a));
        cluster.join(addr_b, cfg_b, store_for(id_b));
        cluster.record(0, 0xD00D, KeyHash(1), a_hits);
        cluster.record(1, 0xD00D, KeyHash(1), b_hits);
        cluster.advance_ticks(20);
        let expected = if matching_keys {
            (a_hits + b_hits, a_hits + b_hits)
        } else {
            (a_hits, b_hits)
        };
        assert_eq!((cluster.sum(0), cluster.sum(1)), expected, "seed {seed}");
    }
}

#[test]
fn quickcheck_sim_tick_expiration_removes_converged_cells() {
    for seed in 0..8 {
        let mut rng = SplitMix64::new(seed);
        let nodes = below(&mut rng, 15) as usize + 2;
        let len = below(&mut rng, 32) + 1;
        let records = draw_records(&mut rng, len, nodes);
        let mut cluster = Cluster::new(128);
        let addrs: Vec<PeerAddr> = (0..nodes).map(|i| sock(44_000 + i as u16)).collect();
        for i in 0..nodes {
            let identity = NodeIdentity::new(NodeId(0xE000 + i as u128), 1);
            let peers = addrs.iter().copied().filter(|addr| *addr != addrs[i]).collect();
            let mut cfg = sim_config(identity, peers, 0xEED0 + i as u64);
            cfg.fanout = (nodes - 1).clamp(1, 8);
            cfg.max_cells_per_tick = 32;
            cluster.join(addrs[i], cfg, store_with_rules(store_for(identity), 100, 1_000));
        }
        for record in &records {
            cluster.record(record.node, rule_fp(record.rule), key_hash(record.key), record.hits);
        }
        cluster.advance_ticks(8);
        for i in 0..nodes {
            assert!(cluster.totals(i).is_empty(), "seed {seed}, node {i}");
        }
    }
}

#[test]
fn quickcheck_sim_peer_membership_controls_delivery() {
    for seed in 0..20 {
        let mut rng = SplitMix64::new(seed);
        let remove_after_add = seed % 2 == 0;
        let hits = below(&mut rng, 20) + 1;
        let mut cluster = Cluster::new(64);
        let (addr_a, addr_b) = (sock(45_000), sock(45_001));
        let id_a = NodeIdentity::new(NodeId(0xFA), 1);
        let id_b = NodeIdentity::new(NodeId(0xFB), 1);
        cluster.join(addr_a, sim_config(id_a, Vec::new(), 1), store_for(id_a));
        cluster.join(addr_b, sim_config(id_b, Vec::new(), 2), store_for(id_b));
        cluster.take(0, NodeEvent::PeerChange(PeerEvent::Added(addr_b)));
        if remove_after_add {
            cluster.take(0, NodeEvent::PeerChange(PeerEvent::Removed(addr_b)));
        }
        cluster.record(0, 0xFACE, KeyHash(1), hits);
        cluster.advance_ticks(20);
        assert_eq!(cluster.sum(1), if remove_after_add { 0 } else { hits }, "seed {seed}");
    }
}

#[test]
fn quickcheck_peer_slot_pairing_holds_across_lifecycle() {
    const NODE_COUNT: usize = 3;
    for seed in 0..20 {
        let mut rng = SplitMix64::new(seed);
        let mut cluster = Cluster::new(64);
        let addrs: Vec<PeerAddr> = (0..NODE_COUNT).map(|i| sock(48_000 + i as u16)).collect();
        let id_local = NodeIdentity::new(NodeId(0xA0A0), 1);
        let mut cfg = sim_config(id_local, Vec::new(), 1);
        cfg.fanout = NODE_COUNT - 1;
        cluster.join(addrs[0], cfg, store_for(id_local));
        for i in 1..NODE_COUNT {
            let id = NodeIdentity::new(NodeId(0xA000 + i as u128), 1);
            let cfg = sim_config(id, vec![addrs[0]], 100 + i as u64);
            cluster.join(addrs[i], cfg, store_for(id));
        }
        for _ in 0..below(&mut rng, 12) + 2 {
            let target = addrs[below(&mut rng, NODE_COUNT as u64 - 1) as usize + 1];
            match below(&mut rng, 4) {
                0 => cluster.take(0, NodeEvent::PeerChange(PeerEvent::Added(target))),
                1 => cluster.take(0, NodeEvent::PeerChange(PeerEvent::Removed(target))),
                _ => {
                    let key = key_hash(below(&mut rng, 256) as u8);
                    cluster.record(0, 0xAAAA, key, 1);
                }
            }
            cluster.advance_ticks(3);
            for peer in cluster.members[0].node.snapshot().peers {
                assert_eq!(peer.node_id.is_some(), peer.peer_slot.is_some(), "seed {seed}");
            }
        }
    }
}

#[test]
fn quickcheck_sampling_distribution_is_uniform_under_strict_fanout() {
    const PEERS: usize = 8;
    const FANOUT: usize = 4;
    const TICKS: u64 = 100;
    for seed in 0..10 {
        let mut cluster = Cluster::new(128);
        let sender_addr = sock(49_000);
        let peer_addrs: Vec<PeerAddr> = (0..PEERS).map(|i| sock(49_001 + i as u16)).collect();
        let id_sender = NodeIdentity::new(NodeId(0xB000), 1);
        let mut cfg_sender = sim_config(id_sender, peer_addrs.clone(), seed);
        cfg_sender.fanout = FANOUT;
        cluster.join(sender_addr, cfg_sender, store_for(id_sender));
        for (i, addr) in peer_addrs.iter().enumerate() {
            let id = NodeIdentity::new(NodeId(0xB100 + i as u128), 1);
            cluster.join(*addr, sim_config(id, Vec::new(), 1000 + i as u64), store_for(id));
        }
        cluster.record(0, 0xB055, KeyHash(1), 1);
        cluster.advance_ticks(TICKS);
        let effective = FANOUT.max(coverage(PEERS)).min(PEERS);
        assert_eq!(effective, 7);
        let expected = TICKS * effective as u64 / PEERS as u64;
        for addr in &peer_addrs {
            let count = cluster.router.received_count(*addr);
            assert!(count >= expected / 2 && count <= expected * 2, "seed {seed}: {count}");
        }
    }
}

#[test]
fn aggregates_are_the_sum_of_all_cells() {
    const NODES: usize = 4;
    for seed in 0..6 {
        let mut rng = SplitMix64::new(seed);
        let mut cluster = Cluster::new(64);
        let addrs: Vec<PeerAddr> = (0..NODES).map(|i| sock(46_000 + i as u16)).collect();
        for i in 0..NODES {
            let identity = NodeIdentity::new(NodeId(0x9000 + i as u128), 1);
            let peers = addrs.iter().copied().filter(|addr| *addr != addrs[i]).collect();
            let store = store_with_rules(store_for(identity), 1_000, 1_000);
            cluster.join(addrs[i], sim_config(identity, peers, seed + i as u64), store);
        }
        for round in 0..20 {
            for record in draw_records(&mut rng, 3, NODES) {
                let hit = LimitHit {
                    rule_fingerprint: rule_fp(record.rule),
                    key_hash: key_hash(record.key),
                    bucket: round,
                    hits: record.hits,
                    rule_limit: 0,
                    now_millis: cluster.now,
                };
                cluster.take(record.node, NodeEvent::Hit(hit));
            }
            cluster.advance_ticks(1);
            for i in 0..NODES {
                let mut sums = Totals::new();
                for cell in cluster.members[i].node.cell_dump().cells {
                    let key = (cell.rule_fingerprint, cell.key_hash, cell.bucket);
                    *sums.entry(key).or_insert(0) += cell.count;
                }
                assert_eq!(cluster.totals(i), sums, "seed {seed}, round {round}, node {i}");
            }
        }
    }
}
