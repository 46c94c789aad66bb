//! Who the other members of the cluster are.
//!
//! A handler keeps the peers that some source of membership has named: a fixed
//! list, a file, or a watch on Kubernetes. A node is never its own peer, and a
//! handler never keeps more peers than it has room for.

use vstd::prelude::*;

verus! {

/// Port name looked for on Kubernetes services.
pub const DEFAULT_GOSSIP_PORT_NAME: &'static str = "gossip";

/// Peers a handler keeps unless told otherwise.
pub const DEFAULT_MAX_PEERS: usize = 128;

/// How long a removed peer is still listened to.
pub const DEFAULT_RECENT_PEER_GRACE_MILLIS: u64 = 30_000;

/// An internet address.
#[derive(Clone, Copy, Debug, PartialEq, Eq, Hash, Structural)]
pub enum PeerIp {
    V4(u32),
    V6(u128),
}

/// An internet address and a port.
#[derive(Clone, Copy, Debug, PartialEq, Eq, Hash, Structural)]
pub struct PeerAddr {
    pub ip: PeerIp,
    pub port: u16,
}

/// A member of the cluster, by its gossip address.
#[derive(Clone, Copy, Debug, PartialEq, Eq, Hash, Structural)]
pub struct Peer {
    pub addr: PeerAddr,
}

impl Peer {
    pub fn new(addr: PeerAddr) -> (peer: Peer)
        ensures
            peer.addr == addr,
    {
        Peer { addr }
    }
}

/// Where membership comes from.
#[derive(Clone, Copy, Debug, PartialEq, Eq, Structural)]
pub enum DiscoveryMode {
    /// Kubernetes where there is one, otherwise nothing.
    Auto,
    /// No peers.
    Off,
    Static,
    File,
    KubernetesEndpointSlice,
}

impl Default for DiscoveryMode {
    fn default() -> (mode: DiscoveryMode)
        ensures
            mode == DiscoveryMode::Auto,
    {
        DiscoveryMode::Auto
    }
}

/// The membership at one moment.
#[derive(Debug)]
pub struct PeerSnapshot {
    peers: Vec<Peer>,
    stale: bool,
    generation: u64,
}

impl PeerSnapshot {
    pub closed spec fn view(&self) -> Seq<Peer> {
        self.peers@
    }

    pub closed spec fn spec_stale(&self) -> bool {
        self.stale
    }

    pub closed spec fn spec_generation(&self) -> u64 {
        self.generation
    }

    pub fn new(peers: Vec<Peer>, stale: bool, generation: u64) -> (snapshot: PeerSnapshot)
        ensures
            snapshot@ == peers@,
            snapshot.spec_stale() == stale,
            snapshot.spec_generation() == generation,
    {
        PeerSnapshot { peers, stale, generation }
    }

    pub fn peers(&self) -> (peers: &Vec<Peer>)
        ensures
            peers@ == self@,
    {
        &self.peers
    }

    /// Whether the node is on its own.
    pub fn local_only(&self) -> (alone: bool)
        ensures
            alone == (self@.len() == 0),
    {
        self.peers.len() == 0
    }

    /// Whether the source of membership has not been heard for too long.
    pub fn stale(&self) -> (stale: bool)
        ensures
            stale == self.spec_stale(),
    {
        self.stale
    }

    /// Number of changes of membership so far.
    pub fn generation(&self) -> (generation: u64)
        ensures
            generation == self.spec_generation(),
    {
        self.generation
    }
}

/// Whether `peer` is among `peers`.
pub fn has_peer(peers: &[Peer], peer: Peer) -> (found: bool)
    ensures
        found == peers@.contains(peer),
{
    let mut i: usize = 0;
    while i < peers.len()
        invariant
            i <= peers@.len(),
            forall|j: int| 0 <= j < i ==> peers@[j] != peer,
        decreases peers@.len() - i,
    {
        if peers[i] == peer {
            assert(peers@[i as int] == peer);
            return true;
        }
        i = i + 1;
    }
    false
}

pub fn copy_peers(peers: &Vec<Peer>) -> (copy: Vec<Peer>)
    ensures
        copy@ == peers@,
{
    let mut out: Vec<Peer> = Vec::new();
    let mut i: usize = 0;
    while i < peers.len()
        invariant
            i <= peers@.len(),
            out@ == peers@.take(i as int),
        decreases peers@.len() - i,
    {
        out.push(peers[i]);
        assert(out@ =~= peers@.take(i + 1));
        i = i + 1;
    }
    assert(peers@.take(i as int) =~= peers@);
    out
}

/// The addresses of a list but a node's own, as peers.
pub open spec fn others(addrs: Seq<PeerAddr>, self_addr: Option<PeerAddr>) -> Seq<Peer>
    decreases addrs.len(),
{
    if addrs.len() == 0 {
        Seq::empty()
    } else {
        let before = others(addrs.drop_last(), self_addr);
        if self_addr == Some(addrs.last()) {
            before
        } else {
            before.push(Peer { addr: addrs.last() })
        }
    }
}

fn is_self(self_addr: Option<PeerAddr>, addr: PeerAddr) -> (own: bool)
    ensures
        own == (self_addr == Some(addr)),
{
    match self_addr {
        Some(own) => own == addr,
        None => false,
    }
}

fn peers_of(addrs: &Vec<PeerAddr>, self_addr: Option<PeerAddr>) -> (peers: Vec<Peer>)
    ensures
        peers@ == others(addrs@, self_addr),
{
    let mut out: Vec<Peer> = Vec::new();
    let mut i: usize = 0;
    assert(addrs@.take(0) =~= Seq::<PeerAddr>::empty());
    while i < addrs.len()
        invariant
            i <= addrs@.len(),
            out@ == others(addrs@.take(i as int), self_addr),
        decreases addrs@.len() - i,
    {
        assert(addrs@.take(i + 1).drop_last() =~= addrs@.take(i as int));
        if !is_self(self_addr, addrs[i]) {
            out.push(Peer { addr: addrs[i] });
        }
        i = i + 1;
    }
    assert(addrs@.take(i as int) =~= addrs@);
    out
}

/// A node is never its own peer.
pub proof fn lemma_never_own_peer(addrs: Seq<PeerAddr>, self_addr: PeerAddr)
    ensures
        forall|i: int|
            0 <= i < others(addrs, Some(self_addr)).len() ==> (#[trigger] others(
                addrs,
                Some(self_addr),
            )[i]).addr != self_addr,
    decreases addrs.len(),
{
    if addrs.len() > 0 {
        lemma_never_own_peer(addrs.drop_last(), self_addr);
        let before = others(addrs.drop_last(), Some(self_addr));
        let all = others(addrs, Some(self_addr));
        assert forall|i: int| 0 <= i < all.len() implies (#[trigger] all[i]).addr != self_addr by {
            if i < before.len() {
                assert(all[i] == before[i]);
            }
        }
    }
}

/// A fixed list of peers.
#[derive(Debug)]
pub struct StaticPeerHandler {
    peers: Vec<Peer>,
}

impl StaticPeerHandler {
    pub closed spec fn view(&self) -> Seq<Peer> {
        self.peers@
    }

    pub fn new(peers: Vec<PeerAddr>, self_addr: Option<PeerAddr>) -> (handler: StaticPeerHandler)
        ensures
            handler@ == others(peers@, self_addr),
    {
        StaticPeerHandler { peers: peers_of(&peers, self_addr) }
    }

    pub fn snapshot(&self) -> (snapshot: PeerSnapshot)
        ensures
            snapshot@ == self@,
            !snapshot.spec_stale(),
            snapshot.spec_generation() == 0,
    {
        PeerSnapshot::new(copy_peers(&self.peers), false, 0)
    }
}

/// Peers that come and go, at most `capacity` of them.
#[derive(Debug)]
pub struct SnapshotPeerHandler {
    peers: Vec<Peer>,
    stale: bool,
    generation: u64,
    capacity: usize,
}

/// Who is known, how current that is, and how many there is room for.
#[verifier::ext_equal]
pub struct Membership {
    pub peers: Seq<Peer>,
    pub stale: bool,
    pub generation: u64,
    pub capacity: nat,
}

pub open spec fn next_generation(generation: u64) -> u64 {
    if generation == u64::MAX {
        generation
    } else {
        (generation + 1) as u64
    }
}

impl Membership {
    /// A peer that is already there, or that there is no room for, changes
    /// nothing.
    pub open spec fn with_peer(self, peer: Peer) -> Membership {
        if self.peers.contains(peer) || self.peers.len() >= self.capacity {
            self
        } else {
            Membership {
                peers: self.peers.push(peer),
                generation: next_generation(self.generation),
                ..self
            }
        }
    }

    /// A peer that is not there changes nothing.
    pub open spec fn without_peer(self, peer: Peer) -> Membership {
        if self.peers.contains(peer) {
            Membership {
                peers: self.peers.remove(self.peers.index_of_first(peer)->0),
                generation: next_generation(self.generation),
                ..self
            }
        } else {
            self
        }
    }
}

/// Adding a peer that is not there and taking it out again leaves the peers as
/// they were.
pub proof fn lemma_add_then_remove(m: Membership, peer: Peer)
    requires
        !m.peers.contains(peer),
    ensures
        m.with_peer(peer).without_peer(peer).peers == m.peers,
{
    let with = m.with_peer(peer);
    if m.peers.len() < m.capacity {
        assert(with.peers[with.peers.len() - 1] == peer);
        assert(with.peers.contains(peer));
        with.peers.index_of_first_ensures(peer);
        let i = with.peers.index_of_first(peer)->0;
        if i < m.peers.len() {
            assert(m.peers[i] == peer);
        }
        assert(with.peers.remove(i) =~= m.peers);
    }
}

impl SnapshotPeerHandler {
    pub closed spec fn view(&self) -> Membership {
        Membership {
            peers: self.peers@,
            stale: self.stale,
            generation: self.generation,
            capacity: self.capacity as nat,
        }
    }

    /// No peers yet, and room for `capacity` of them.
    pub fn with_capacity(capacity: usize) -> (handler: SnapshotPeerHandler)
        ensures
            handler@ == (Membership {
                peers: Seq::empty(),
                stale: false,
                generation: 0,
                capacity: capacity as nat,
            }),
    {
        SnapshotPeerHandler { peers: Vec::new(), stale: false, generation: 0, capacity }
    }

    /// Starts from a known membership.
    pub fn new(snapshot: PeerSnapshot) -> (handler: SnapshotPeerHandler)
        ensures
            handler@ == (Membership {
                peers: snapshot@,
                stale: snapshot.spec_stale(),
                generation: snapshot.spec_generation(),
                capacity: if snapshot@.len() < DEFAULT_MAX_PEERS {
                    DEFAULT_MAX_PEERS as nat
                } else {
                    snapshot@.len()
                },
            }),
    {
        let len: usize = snapshot.peers.len();
        SnapshotPeerHandler {
            stale: snapshot.stale,
            generation: snapshot.generation,
            capacity: if len < DEFAULT_MAX_PEERS { DEFAULT_MAX_PEERS } else { len },
            peers: snapshot.peers,
        }
    }

    pub fn snapshot(&self) -> (snapshot: PeerSnapshot)
        ensures
            snapshot@ == self@.peers,
            snapshot.spec_stale() == self@.stale,
            snapshot.spec_generation() == self@.generation,
    {
        PeerSnapshot::new(copy_peers(&self.peers), self.stale, self.generation)
    }

    pub fn peer_added(&mut self, peer: Peer)
        ensures
            final(self)@ == old(self)@.with_peer(peer),
    {
        if has_peer(self.peers.as_slice(), peer) || self.peers.len() >= self.capacity {
            return;
        }
        self.peers.push(peer);
        self.generation = self.generation.saturating_add(1);
    }

    pub fn peer_removed(&mut self, peer: Peer)
        ensures
            final(self)@ == old(self)@.without_peer(peer),
    {
        let mut i: usize = 0;
        while i < self.peers.len()
            invariant
                i <= self.peers@.len(),
                *self == *old(self),
                forall|j: int| 0 <= j < i ==> self.peers@[j] != peer,
            decreases self.peers@.len() - i,
        {
            if self.peers[i] == peer {
                proof {
                    assert(self.peers@[i as int] == peer);
                    assert(self.peers@.contains(peer));
                    self.peers@.index_of_first_ensures(peer);
                    let k = self.peers@.index_of_first(peer)->0;
                    if k < i {
                        assert(self.peers@[k] != peer);
                    }
                    assert(k == i);
                }
                let _gone = self.peers.remove(i);
                self.generation = self.generation.saturating_add(1);
                return;
            }
            i = i + 1;
        }
    }
}

/// Peers read from a file. The file itself is read elsewhere, which reports
/// each change; until it does, the last good peers stay.
#[derive(Debug)]
pub struct FilePeerHandler {
    path: String,
    self_addr: Option<PeerAddr>,
    members: SnapshotPeerHandler,
}

pub open spec fn first_n(peers: Seq<Peer>, n: nat) -> Seq<Peer> {
    if peers.len() <= n {
        peers
    } else {
        peers.take(n as int)
    }
}

impl FilePeerHandler {
    pub closed spec fn view(&self) -> Membership {
        self.members@
    }

    pub closed spec fn spec_path(&self) -> Seq<char> {
        self.path@
    }

    pub closed spec fn spec_self_addr(&self) -> Option<PeerAddr> {
        self.self_addr
    }

    pub fn new(path: String, self_addr: Option<PeerAddr>, peers: Vec<PeerAddr>) -> (handler:
        FilePeerHandler)
        ensures
            handler.spec_path() == path@,
            handler.spec_self_addr() == self_addr,
            handler@ == (Membership {
                peers: first_n(others(peers@, self_addr), DEFAULT_MAX_PEERS as nat),
                stale: false,
                generation: 0,
                capacity: DEFAULT_MAX_PEERS as nat,
            }),
    {
        Self::with_capacity(path, self_addr, peers, DEFAULT_MAX_PEERS)
    }

    /// Starts with the first `max_peers` of `peers`.
    pub fn with_capacity(
        path: String,
        self_addr: Option<PeerAddr>,
        peers: Vec<PeerAddr>,
        max_peers: usize,
    ) -> (handler: FilePeerHandler)
        ensures
            handler.spec_path() == path@,
            handler.spec_self_addr() == self_addr,
            handler@ == (Membership {
                peers: first_n(others(peers@, self_addr), max_peers as nat),
                stale: false,
                generation: 0,
                capacity: max_peers as nat,
            }),
    {
        let mut known = peers_of(&peers, self_addr);
        if known.len() > max_peers {
            known.truncate(max_peers);
            assert(known@ =~= others(peers@, self_addr).take(max_peers as int));
        }
        FilePeerHandler {
            path,
            self_addr,
            members: SnapshotPeerHandler {
                peers: known,
                stale: false,
                generation: 0,
                capacity: max_peers,
            },
        }
    }

    pub fn path(&self) -> (path: &str)
        ensures
            path@ == self.spec_path(),
    {
        self.path.as_str()
    }

    pub fn snapshot(&self) -> (snapshot: PeerSnapshot)
        ensures
            snapshot@ == self@.peers,
            snapshot.spec_stale() == self@.stale,
            snapshot.spec_generation() == self@.generation,
    {
        self.members.snapshot()
    }

    /// Adds a peer, unless it is the node itself.
    pub fn peer_added(&mut self, peer: Peer)
        ensures
            final(self).spec_path() == old(self).spec_path(),
            final(self).spec_self_addr() == old(self).spec_self_addr(),
            final(self)@ == if old(self).spec_self_addr() == Some(peer.addr) {
                old(self)@
            } else {
                old(self)@.with_peer(peer)
            },
    {
        if !is_self(self.self_addr, peer.addr) {
            self.members.peer_added(peer);
        }
    }

    pub fn peer_removed(&mut self, peer: Peer)
        ensures
            final(self).spec_path() == old(self).spec_path(),
            final(self).spec_self_addr() == old(self).spec_self_addr(),
            final(self)@ == old(self)@.without_peer(peer),
    {
        self.members.peer_removed(peer);
    }
}

/// The handler a configuration asks for.
#[derive(Debug)]
pub enum RuntimePeerHandler {
    Static(StaticPeerHandler),
    File(FilePeerHandler),
    Snapshot(SnapshotPeerHandler),
}

impl RuntimePeerHandler {
    /// The peers that are known now.
    pub open spec fn peers(&self) -> Seq<Peer> {
        match self {
            RuntimePeerHandler::Static(handler) => handler@,
            RuntimePeerHandler::File(handler) => handler@.peers,
            RuntimePeerHandler::Snapshot(handler) => handler@.peers,
        }
    }

    /// The file handler, if peers come from a file.
    pub fn file_handler(&self) -> (handler: Option<&FilePeerHandler>)
        ensures
            match self {
                RuntimePeerHandler::File(file) => handler == Some(file),
                _ => handler is None,
            },
    {
        match self {
            RuntimePeerHandler::File(handler) => Some(handler),
            _ => None,
        }
    }

    pub fn snapshot(&self) -> (snapshot: PeerSnapshot)
        ensures
            snapshot@ == self.peers(),
            match self {
                RuntimePeerHandler::Static(_) => !snapshot.spec_stale()
                    && snapshot.spec_generation() == 0,
                RuntimePeerHandler::File(handler) => snapshot.spec_stale() == handler@.stale
                    && snapshot.spec_generation() == handler@.generation,
                RuntimePeerHandler::Snapshot(handler) => snapshot.spec_stale() == handler@.stale
                    && snapshot.spec_generation() == handler@.generation,
            },
    {
        match self {
            RuntimePeerHandler::Static(handler) => handler.snapshot(),
            RuntimePeerHandler::File(handler) => handler.snapshot(),
            RuntimePeerHandler::Snapshot(handler) => handler.snapshot(),
        }
    }

    /// Adds a peer; a fixed list stays as it is.
    pub fn peer_added(&mut self, peer: Peer)
        ensures
            match (*old(self), *final(self)) {
                (RuntimePeerHandler::Static(before), RuntimePeerHandler::Static(after)) => after
                    == before,
                (RuntimePeerHandler::File(before), RuntimePeerHandler::File(after)) => {
                    &&& after.spec_path() == before.spec_path()
                    &&& after.spec_self_addr() == before.spec_self_addr()
                    &&& after@ == if before.spec_self_addr() == Some(peer.addr) {
                        before@
                    } else {
                        before@.with_peer(peer)
                    }
                },
                (RuntimePeerHandler::Snapshot(before), RuntimePeerHandler::Snapshot(after)) =>
                    after@ == before@.with_peer(peer),
                _ => false,
            },
    {
        match self {
            RuntimePeerHandler::Static(_) => {},
            RuntimePeerHandler::File(handler) => handler.peer_added(peer),
            RuntimePeerHandler::Snapshot(handler) => handler.peer_added(peer),
        }
    }

    /// Removes a peer; a fixed list stays as it is.
    pub fn peer_removed(&mut self, peer: Peer)
        ensures
            match (*old(self), *final(self)) {
                (RuntimePeerHandler::Static(before), RuntimePeerHandler::Static(after)) => after
                    == before,
                (RuntimePeerHandler::File(before), RuntimePeerHandler::File(after)) => {
                    &&& after.spec_path() == before.spec_path()
                    &&& after.spec_self_addr() == before.spec_self_addr()
                    &&& after@ == before@.without_peer(peer)
                },
                (RuntimePeerHandler::Snapshot(before), RuntimePeerHandler::Snapshot(after)) =>
                    after@ == before@.without_peer(peer),
                _ => false,
            },
    {
        match self {
            RuntimePeerHandler::Static(_) => {},
            RuntimePeerHandler::File(handler) => handler.peer_removed(peer),
            RuntimePeerHandler::Snapshot(handler) => handler.peer_removed(peer),
        }
    }
}

// -- laws -------------------------------------------------------------------

/// The peers are all nodes that were named but this one, in the order in which
/// they were.
pub proof fn lemma_others_complete(addrs: Seq<PeerAddr>, self_addr: Option<PeerAddr>)
    ensures
        others(addrs, self_addr) == addrs.filter(
            |addr: PeerAddr| self_addr != Some(addr),
        ).map_values(|addr: PeerAddr| Peer { addr }),
    decreases addrs.len(),
{
    reveal(Seq::filter);
    if addrs.len() > 0 {
        let p = |addr: PeerAddr| self_addr != Some(addr);
        let f = |addr: PeerAddr| Peer { addr };
        lemma_others_complete(addrs.drop_last(), self_addr);
        if p(addrs.last()) {
            assert(addrs.filter(p).map_values(f) =~= addrs.drop_last().filter(p).map_values(
                f,
            ).push(f(addrs.last())));
        }
    }
}

/// A peer that comes is the last, once, as long as there is room; one that goes
/// leaves the others in order. The generation tells that something changed, and
/// changes only then.
pub proof fn lemma_membership_changes(m: Membership, peer: Peer)
    requires
        m.generation < u64::MAX,
    ensures
        ({
            let came = m.with_peer(peer);
            let room = !m.peers.contains(peer) && m.peers.len() < m.capacity;
            &&& room ==> came.peers == m.peers.push(peer) && came.generation == m.generation + 1
            &&& !room ==> came == m
            &&& came.stale == m.stale && came.capacity == m.capacity
        }),
        ({
            let gone = m.without_peer(peer);
            &&& !m.peers.contains(peer) ==> gone == m
            &&& m.peers.contains(peer) ==> {
                &&& gone.generation == m.generation + 1
                &&& gone.peers.len() == m.peers.len() - 1
                &&& gone.peers.to_multiset() == m.peers.to_multiset().remove(peer)
            }
            &&& gone.stale == m.stale && gone.capacity == m.capacity
        }),
{
    if m.peers.contains(peer) {
        m.peers.index_of_first_ensures(peer);
        let i = m.peers.index_of_first(peer)->0;
        broadcast use vstd::seq_lib::group_to_multiset_ensures;

        assert(m.peers.remove(i).to_multiset() =~= m.peers.to_multiset().remove(m.peers[i]));
    }
}

/// Of too many peers the first stay.
pub proof fn lemma_first_stay(peers: Seq<Peer>, n: nat)
    ensures
        first_n(peers, n).len() == vstd::math::min(peers.len() as int, n as int),
        first_n(peers, n).is_prefix_of(peers),
{
}

} // verus!
