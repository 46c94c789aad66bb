//! What a node is started with.

use gabion::config::{
    Config, ConfigError, DiscoveryConfig, EndpointSliceSelectorConfig, GossipConfig, RuntimeConfig,
    ServerConfig, StorageConfig,
};
use gabion::crdt::{NodeId, NodeIdentity};
use gabion::discovery::{
    DiscoveryMode, Peer, PeerAddr, PeerIp, PeerSnapshot, RuntimePeerHandler,
};
use gabion::limiter::Runtime;
use gabion::endpoints::{
    add_found, is_own_slice, lost_peers, peer_lines, slice_peers, watch_too, SliceEndpoint, SlicePort,
};
use gabion::standalone::{GossipTransport, StandaloneGossipRuntime};
use gabion::startup::{choose_peers, discovery_task, DiscoveryTask};
use gabion::text::decimal_text;

fn sock(port: u16) -> PeerAddr {
    PeerAddr { ip: PeerIp::V4(0x7F00_0001), port }
}

fn discovery(kind: DiscoveryMode) -> DiscoveryConfig {
    DiscoveryConfig { kind, ..DiscoveryConfig::default() }
}

#[test]
fn auto_asks_kubernetes_if_there_is_one() {
    let auto = discovery(DiscoveryMode::Auto);
    assert!(matches!(choose_peers(&auto, true), Ok(RuntimePeerHandler::Snapshot(_))));
    assert!(matches!(choose_peers(&auto, false), Ok(RuntimePeerHandler::Static(_))));
    let off = discovery(DiscoveryMode::Off);
    assert!(matches!(choose_peers(&off, true), Ok(RuntimePeerHandler::Static(_))));
    let none = discovery(DiscoveryMode::Static);
    assert!(matches!(choose_peers(&none, true), Err(ConfigError::MissingStaticPeers)));
}

#[test]
fn files_are_polled() {
    let mut file = discovery(DiscoveryMode::File);
    file.path = Some("peers.txt".to_string());
    let peers = choose_peers(&file, false).unwrap();
    let task = discovery_task(&file, 250, &peers).unwrap();
    assert!(matches!(task, DiscoveryTask::PollFile { every_millis: 250 }));
    let task = discovery_task(&file, 0, &peers).unwrap();
    assert!(matches!(task, DiscoveryTask::PollFile { every_millis: 1 }));
}

#[test]
fn services_are_watched() {
    let mut kube = discovery(DiscoveryMode::KubernetesEndpointSlice);
    let peers = choose_peers(&kube, false).unwrap();
    assert!(matches!(discovery_task(&kube, 1, &peers), Ok(DiscoveryTask::WatchOwnServices)));
    kube.service_name = Some("gabion".to_string());
    assert!(matches!(
        discovery_task(&kube, 1, &peers),
        Err(ConfigError::MissingKubernetesNamespace)
    ));
    kube.endpoint_slices.push(EndpointSliceSelectorConfig {
        namespace: "default".to_string(),
        service_name: "gabion".to_string(),
        port_name: None,
    });
    match discovery_task(&kube, 1, &peers) {
        Ok(DiscoveryTask::Watch(configs)) => {
            assert_eq!(configs.len(), 1);
            assert_eq!(configs[0].namespace, "default");
        }
        other => panic!("{other:?}"),
    }
}

#[test]
fn fixed_peers_need_no_task() {
    let off = discovery(DiscoveryMode::Off);
    let peers = choose_peers(&off, false).unwrap();
    assert!(matches!(discovery_task(&off, 1, &peers), Ok(DiscoveryTask::Idle)));
}

#[test]
fn limiter_gossips_under_its_identity() {
    let config = Config {
        storage: StorageConfig::with_max_keys(16),
        limits: Vec::new(),
        runtime: RuntimeConfig::default(),
        server: ServerConfig::default(),
        discovery: DiscoveryConfig::default(),
        gossip: GossipConfig { enabled: true, ..GossipConfig::default() },
    };
    let identity = NodeIdentity::new(NodeId((7 << 64) | 9), 3);
    let mut runtime = Runtime::new(config, identity).unwrap();
    let gossip = runtime.standalone_config();
    assert_eq!((gossip.sender_node_id.hi, gossip.sender_node_id.lo), (7, 9));
    assert_eq!(gossip.sender_incarnation, 3);
    assert_eq!(runtime.gossip().fanout, 3);
    assert_eq!(runtime.discovery().kind, DiscoveryMode::Auto);
    let mut rounds = StandaloneGossipRuntime::new(gossip);
    let snapshot = PeerSnapshot::new(vec![Peer::new(sock(1))], false, 1);
    let summary = runtime.gossip_tick(&mut rounds, &snapshot, &mut Sink, &[], 1_000);
    assert_eq!(summary.peers_seen, 1);
    assert!(!summary.local_only);
}

/// A network that takes everything.
struct Sink;

impl GossipTransport for Sink {
    fn send_to(&mut self, _peer: Peer, _payload: &[u8]) -> bool {
        true
    }
}

// -- peer files and endpoints -----------------------------------------------

#[test]
fn peer_files_hold_one_address_a_line() {
    assert_eq!(
        peer_lines("# peers\n 10.0.0.1:7946 \r\n\n\t\n[::1]:7946\n  # no\nlast"),
        vec!["10.0.0.1:7946", "[::1]:7946", "last"],
    );
    assert!(peer_lines("").is_empty());
    assert!(peer_lines("#").is_empty());
    assert_eq!(peer_lines("a#b"), vec!["a#b"]);
}

fn named(name: Option<&str>, port: Option<i32>) -> SlicePort {
    SlicePort { name: name.map(str::to_string), port }
}

fn endpoint(ready: Option<bool>, ips: &[u32]) -> SliceEndpoint {
    let mut addresses: Vec<Option<PeerIp>> = ips.iter().map(|ip| Some(PeerIp::V4(*ip))).collect();
    addresses.push(None);
    SliceEndpoint { ready, addresses }
}

fn at(ip: u32, port: u16) -> Peer {
    Peer::new(PeerAddr { ip: PeerIp::V4(ip), port })
}

#[test]
fn slices_name_their_ready_endpoints() {
    let endpoints =
        vec![endpoint(None, &[1, 2]), endpoint(Some(false), &[3]), endpoint(Some(true), &[4])];
    let ports = vec![named(Some("http"), Some(80)), named(Some("gossip"), Some(7946))];
    let gossip = Some("gossip".to_string());
    assert_eq!(
        slice_peers(&ports, &endpoints, &gossip),
        vec![at(1, 7946), at(2, 7946), at(4, 7946)],
    );
    assert_eq!(slice_peers(&ports, &endpoints, &None).len(), 3);
    assert_eq!(slice_peers(&ports, &endpoints, &None)[0], at(1, 80));
    assert!(slice_peers(&ports, &endpoints, &Some("other".to_string())).is_empty());
    for port in [None, Some(-1), Some(65_536)] {
        let odd = vec![named(Some("gossip"), port), named(Some("gossip"), Some(1))];
        assert!(slice_peers(&odd, &endpoints, &gossip).is_empty());
    }
    assert_eq!(slice_peers(&vec![named(None, Some(65_535))], &endpoints, &None)[2], at(4, 65_535));
}

#[test]
fn peers_are_found_once_and_lost_when_gone() {
    let mut found = vec![at(1, 1)];
    add_found(&mut found, &vec![at(2, 1), at(1, 1), at(3, 1), at(2, 1)], Some(at(3, 1).addr));
    assert_eq!(found, vec![at(1, 1), at(2, 1)]);
    add_found(&mut found, &vec![at(3, 1)], None);
    assert_eq!(found, vec![at(1, 1), at(2, 1), at(3, 1)]);
    assert_eq!(lost_peers(&vec![at(1, 1), at(4, 1), at(1, 2)], &found), vec![at(4, 1), at(1, 2)]);
}

#[test]
fn own_services_are_watched_once() {
    let endpoints = vec![endpoint(None, &[1]), endpoint(Some(false), &[2])];
    assert!(is_own_slice(&endpoints, Some(PeerIp::V4(2))));
    assert!(!is_own_slice(&endpoints, Some(PeerIp::V4(3))));
    assert!(is_own_slice(&endpoints, None));
    assert!(!is_own_slice(&Vec::new(), None));
    let mut configs = Vec::new();
    for service in ["a", "b", "a"] {
        watch_too(&mut configs, "default", service, Some(sock(1)));
    }
    assert_eq!(configs.len(), 2);
    assert_eq!((configs[1].namespace.as_str(), configs[1].service_name.as_str()), ("default", "b"));
    assert_eq!(configs[1].port_name.as_deref(), Some("gossip"));
    assert_eq!(configs[1].self_addr, Some(sock(1)));
}

#[test]
fn numbers_are_written_in_decimal() {
    assert_eq!(decimal_text(0), "0");
    assert_eq!(decimal_text(10), "10");
    assert_eq!(decimal_text(u64::MAX), "18446744073709551615");
}
