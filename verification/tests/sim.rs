//! The simulated network.

use gabion::discovery::{PeerAddr, PeerIp};
use gabion::gossip::node::SendOutcome;
use gabion::gossip::sim::{link_seed, LinkPolicy, SimRouter, FNV_OFFSET};

fn sock(port: u16) -> PeerAddr {
    PeerAddr { ip: PeerIp::V4(0x7F00_0001), port }
}

#[test]
fn sent_packets_arrive_in_order() {
    let mut router = SimRouter::new();
    let (a, b) = (sock(1), sock(2));
    router.bind(a);
    router.bind(b);
    assert_eq!(router.try_send_to(a, b, &[1, 2]), SendOutcome::Sent);
    assert_eq!(router.try_send_to(a, b, &[3]), SendOutcome::Sent);
    let first = router.recv_from(b).unwrap();
    assert_eq!((first.src, first.bytes), (a, vec![1, 2]));
    let second = router.recv_from(b).unwrap();
    assert_eq!((second.src, second.bytes), (a, vec![3]));
    assert!(router.recv_from(b).is_none());
    assert!(router.recv_from(a).is_none());
    assert_eq!(router.received_count(b), 2);
    assert_eq!(router.received_count(a), 0);
}

#[test]
fn blocked_link_delivers_nothing() {
    let mut router = SimRouter::new();
    let (a, b) = (sock(1), sock(2));
    router.bind(a);
    router.bind(b);
    router.set_link_policy(a, b, LinkPolicy::Block);
    assert_eq!(router.try_send_to(a, b, &[1]), SendOutcome::Sent);
    assert!(router.recv_from(b).is_none());
    assert_eq!(router.try_send_to(b, a, &[1]), SendOutcome::Sent);
    assert!(router.recv_from(a).is_some());
    router.set_link_policy(a, b, LinkPolicy::Pass);
    router.try_send_to(a, b, &[1]);
    assert!(router.recv_from(b).is_some());
}

#[test]
fn first_packets_are_dropped() {
    let mut router = SimRouter::default();
    let (a, b) = (sock(1), sock(2));
    router.bind(b);
    router.set_link_policy(a, b, LinkPolicy::DropFirst { count: 2 });
    for n in 0..4_u8 {
        assert_eq!(router.try_send_to(a, b, &[n]), SendOutcome::Sent);
    }
    assert_eq!(router.recv_from(b).unwrap().bytes, vec![2]);
    assert_eq!(router.recv_from(b).unwrap().bytes, vec![3]);
    assert!(router.recv_from(b).is_none());
}

#[test]
fn full_inbox_blocks_the_sender() {
    let mut router = SimRouter::with_channel_capacity(1);
    let (a, b) = (sock(1), sock(2));
    router.bind(b);
    assert_eq!(router.try_send_to(a, b, &[1]), SendOutcome::Sent);
    assert_eq!(router.try_send_to(a, b, &[2]), SendOutcome::WouldBlock);
    assert_eq!(router.recv_from(b).unwrap().bytes, vec![1]);
    assert_eq!(router.try_send_to(a, b, &[3]), SendOutcome::Sent);
}

#[test]
fn unbound_address_swallows_packets() {
    let mut router = SimRouter::new();
    let (a, b) = (sock(1), sock(2));
    assert_eq!(router.try_send_to(a, b, &[1]), SendOutcome::Sent);
    assert!(router.recv_from(b).is_none());
    assert!(!router.unbind(b));
    router.bind(b);
    assert!(router.unbind(b));
}

#[test]
fn loss_is_about_what_was_asked_for() {
    let mut router = SimRouter::with_channel_capacity(10_000);
    let (a, b) = (sock(1), sock(2));
    router.bind(b);
    // Three packets in ten.
    router.set_link_policy(a, b, LinkPolicy::DropProb { threshold: 1_288_490_188, seed: 7 });
    for _ in 0..5_000 {
        router.try_send_to(a, b, &[0]);
    }
    let received = router.received_count(b);
    assert!((3_300..3_700).contains(&received), "{received}");
}

#[test]
fn same_seed_loses_the_same_packets() {
    let mut runs: Vec<Vec<u8>> = Vec::new();
    for _ in 0..2 {
        let mut router = SimRouter::with_channel_capacity(256);
        router.bind(sock(2));
        let policy = LinkPolicy::DropProb { threshold: 2_147_483_647, seed: 11 };
        router.set_link_policy(sock(1), sock(2), policy);
        for n in 0..100_u8 {
            router.try_send_to(sock(1), sock(2), &[n]);
        }
        let mut got = Vec::new();
        while let Some(packet) = router.recv_from(sock(2)) {
            got.push(packet.bytes[0]);
        }
        runs.push(got);
    }
    assert_eq!(runs[0], runs[1]);
    assert!(runs[0].len() > 20 && runs[0].len() < 80);
}

#[test]
fn link_seed_tells_directions_apart() {
    assert_ne!(link_seed(b"127.0.0.1:1", b"127.0.0.1:2"), link_seed(b"127.0.0.1:2", b"127.0.0.1:1"));
    assert_eq!(link_seed(b"x", b"y"), link_seed(b"x", b"y"));
    assert_eq!(link_seed(b"", b""), FNV_OFFSET);
}
