//! Digest-based gossip of one limiter: when to send, what to send, whom to
//! listen to, and what to make of what comes in.
//!
//! - Frames of unknown senders are turned away before they are decoded.
//! - Peers that left are listened to until their grace period ends, and no
//!   longer.
//! - When changes have been forgotten, the next frame carries a bounded resync
//!   of all cells instead.
//! - A tick depends on nothing but the state, its inputs and the given time.

pub mod laws;

use crate::cells::{
    digest_cells, digested, CellTable, CounterCell, NodeId, ShardDigest, TableState,
};
use crate::config::GossipConfig;
use crate::discovery::{has_peer, Peer, PeerAddr, PeerSnapshot};
use crate::engine::{
    cells_of, changed_cells, told, EngineState, LocalCell, LocalEngine, LocalRule,
};
use crate::messages::{
    cells_in, cells_present, decode_authenticated_message_visit_checked,
    decode_message_visit_checked, digests_in, digests_present, encode_authenticated_message_parts,
    encode_message_parts, encoded, header_of, preamble_error, raised_by, seal_error, sealed,
    sealed_payload, visited, DecodeError, DecodedMessageSummary, GossipHeader, GossipLimits,
    GossipMetrics, HEADER_LEN,
};
use crate::wire::auth::HmacKey;
use vstd::prelude::*;

verus! {

/// Most digests accepted in a frame.
pub const MAX_DIGESTS: usize = 64;

/// Milliseconds that changes are held back for company, unless told otherwise.
pub const DEFAULT_GOSSIP_LINGER_MS: u64 = 100;

/// Why a frame is sent.
#[derive(Clone, Copy, Debug, PartialEq, Eq, Structural)]
pub enum GossipSendReason {
    /// Changes have been forgotten.
    DirtyOverflow,
    /// The ring of changes is full: the next change would be forgotten.
    DirtyPressure,
    /// The oldest unsent change has waited long enough.
    Linger,
}

/// How full a limiter's memory is.
#[derive(Clone, Copy, Debug, PartialEq, Eq, Structural)]
pub struct GossipSpaceUsage {
    pub active_cells: usize,
    pub max_cells: usize,
    pub dirty_cells: usize,
    pub dirty_capacity: usize,
    pub dirty_overflowed: bool,
}

/// When to send.
#[derive(Clone, Copy, Debug, PartialEq, Eq, Structural)]
pub struct GossipSendPolicy {
    pub linger_ms: u64,
}

impl GossipSendPolicy {
    pub fn with_linger_ms(linger_ms: u64) -> (policy: GossipSendPolicy)
        ensures
            policy.linger_ms == linger_ms,
    {
        GossipSendPolicy { linger_ms }
    }

    pub open spec fn reason(
        self,
        now_millis: u64,
        last_send_millis: u64,
        usage: GossipSpaceUsage,
    ) -> Option<GossipSendReason> {
        if usage.dirty_overflowed {
            Some(GossipSendReason::DirtyOverflow)
        } else if usage.dirty_cells == 0 {
            None
        } else if usage.dirty_cells >= usage.dirty_capacity {
            Some(GossipSendReason::DirtyPressure)
        } else if now_millis >= last_send_millis + self.linger_ms {
            Some(GossipSendReason::Linger)
        } else {
            None
        }
    }

    /// Why to send now, if at all.
    pub fn should_send(
        &self,
        now_millis: u64,
        last_send_millis: u64,
        usage: GossipSpaceUsage,
    ) -> (reason: Option<GossipSendReason>)
        ensures
            reason == self.reason(now_millis, last_send_millis, usage),
    {
        if usage.dirty_overflowed {
            Some(GossipSendReason::DirtyOverflow)
        } else if usage.dirty_cells == 0 {
            None
        } else if usage.dirty_cells >= usage.dirty_capacity {
            Some(GossipSendReason::DirtyPressure)
        } else if now_millis >= last_send_millis && now_millis - last_send_millis
            >= self.linger_ms {
            Some(GossipSendReason::Linger)
        } else {
            None
        }
    }
}

/// A node's part in the gossip.
#[derive(Clone, Copy, Debug, PartialEq, Eq)]
pub struct StandaloneGossipConfig {
    /// Frames carry the low 64 bits.
    pub cluster_id_hash: u128,
    pub sender_node_id: NodeId,
    pub sender_incarnation: u64,
    pub fanout: usize,
    pub max_payload_bytes: usize,
    pub max_cells_per_frame: usize,
    pub remote_cell_capacity: usize,
    pub remote_dirty_capacity: usize,
    pub auth_key: Option<HmacKey>,
    pub max_peers: usize,
    pub recent_peer_grace_millis: u64,
    pub send_policy: GossipSendPolicy,
}

/// What a tick did.
#[derive(Clone, Copy, Debug, PartialEq, Eq, Structural)]
pub struct GossipTickSummary {
    pub peers_seen: usize,
    pub peers_sent: usize,
    pub send_failures: usize,
    pub cells_sent: usize,
    pub frames_received: usize,
    pub cells_merged: usize,
    pub peer_rejected: usize,
    pub local_only: bool,
    pub discovery_stale: bool,
    pub send_reason: Option<GossipSendReason>,
}

impl Default for GossipTickSummary {
    fn default() -> (summary: GossipTickSummary)
        ensures
            summary == blank_summary(),
    {
        GossipTickSummary {
            peers_seen: 0,
            peers_sent: 0,
            send_failures: 0,
            cells_sent: 0,
            frames_received: 0,
            cells_merged: 0,
            peer_rejected: 0,
            local_only: false,
            discovery_stale: false,
            send_reason: None,
        }
    }
}

pub open spec fn blank_summary() -> GossipTickSummary {
    GossipTickSummary {
        peers_seen: 0,
        peers_sent: 0,
        send_failures: 0,
        cells_sent: 0,
        frames_received: 0,
        cells_merged: 0,
        peer_rejected: 0,
        local_only: false,
        discovery_stale: false,
        send_reason: None,
    }
}

/// A frame that came in.
#[derive(Debug)]
pub struct InboundFrame {
    pub peer: Peer,
    pub payload: Vec<u8>,
}

/// Hands frames to the network.
pub trait GossipTransport: Sized {
    /// What sending a frame to a peer makes of a transport, and whether it went
    /// through: anything, unless the transport says more of itself.
    open spec fn handed(before: Self, after: Self, peer: Peer, frame: Seq<u8>, sent: bool) -> bool {
        true
    }

    fn send_to(&mut self, peer: Peer, payload: &[u8]) -> (sent: bool)
        ensures
            Self::handed(*old(self), *final(self), peer, payload@, sent),
    ;
}

// -- whom to listen to ------------------------------------------------------

/// A peer that left, and until when it is listened to.
#[derive(Clone, Copy, Debug, PartialEq, Eq, Structural)]
pub struct RecentPeer {
    pub peer: Peer,
    pub expires_millis: u64,
}

/// The recent peers whose grace has not ended.
pub open spec fn unexpired(recent: Seq<RecentPeer>, now: u64) -> Seq<RecentPeer>
    decreases recent.len(),
{
    if recent.len() == 0 {
        Seq::empty()
    } else {
        let before = unexpired(recent.drop_last(), now);
        if recent.last().expires_millis > now {
            before.push(recent.last())
        } else {
            before
        }
    }
}

pub open spec fn is_recent(recent: Seq<RecentPeer>, peer: Peer) -> bool {
    exists|i: int| 0 <= i < recent.len() && (#[trigger] recent[i]).peer == peer
}

/// One more recent peer. A peer keeps the grace it has; a full list gives up
/// its first entry, and its last moves there.
pub open spec fn with_recent(
    recent: Seq<RecentPeer>,
    capacity: nat,
    peer: Peer,
    expires_millis: u64,
) -> Seq<RecentPeer> {
    if is_recent(recent, peer) || capacity == 0 {
        recent
    } else if recent.len() >= capacity {
        recent.update(0, recent.last()).drop_last().push(RecentPeer { peer, expires_millis })
    } else {
        recent.push(RecentPeer { peer, expires_millis })
    }
}

/// The peers of `current` that are not in `peers`, added to the recent ones.
pub open spec fn with_departed(
    recent: Seq<RecentPeer>,
    capacity: nat,
    current: Seq<Peer>,
    peers: Seq<Peer>,
    expires_millis: u64,
) -> Seq<RecentPeer>
    decreases current.len(),
{
    if current.len() == 0 {
        recent
    } else {
        let before = with_departed(recent, capacity, current.drop_last(), peers, expires_millis);
        if peers.contains(current.last()) {
            before
        } else {
            with_recent(before, capacity, current.last(), expires_millis)
        }
    }
}

/// A list without its repetitions.
pub open spec fn deduplicated(peers: Seq<Peer>) -> Seq<Peer>
    decreases peers.len(),
{
    if peers.len() == 0 {
        Seq::empty()
    } else {
        let before = deduplicated(peers.drop_last());
        if before.contains(peers.last()) {
            before
        } else {
            before.push(peers.last())
        }
    }
}

/// Whom a node listens to.
#[verifier::ext_equal]
pub struct Listening {
    pub current: Seq<Peer>,
    pub recent: Seq<RecentPeer>,
    pub max_peers: nat,
    pub grace_millis: u64,
}

pub open spec fn capped_time(a: u64, b: u64) -> u64 {
    if a + b <= u64::MAX {
        (a + b) as u64
    } else {
        u64::MAX
    }
}

impl Listening {
    pub open spec fn expired(self, now: u64) -> Listening {
        Listening { recent: unexpired(self.recent, now), ..self }
    }

    /// After membership was looked at: who left becomes recent.
    pub open spec fn updated(self, now: u64, peers: Seq<Peer>) -> Listening {
        Listening {
            current: deduplicated(
                if peers.len() <= self.max_peers {
                    peers
                } else {
                    peers.take(self.max_peers as int)
                },
            ),
            recent: with_departed(
                unexpired(self.recent, now),
                self.max_peers,
                self.current,
                peers,
                capped_time(now, self.grace_millis),
            ),
            ..self
        }
    }

    /// Whether a sender is listened to.
    pub open spec fn hears(self, peer: Peer, now: u64) -> bool {
        self.current.contains(peer) || is_recent(unexpired(self.recent, now), peer)
    }
}

struct PeerAuthorizer {
    current: Vec<Peer>,
    recent: Vec<RecentPeer>,
    max_peers: usize,
    grace_millis: u64,
}

impl PeerAuthorizer {
    spec fn view(&self) -> Listening {
        Listening {
            current: self.current@,
            recent: self.recent@,
            max_peers: self.max_peers as nat,
            grace_millis: self.grace_millis,
        }
    }

    fn with_capacity(max_peers: usize, grace_millis: u64) -> (authorizer: PeerAuthorizer)
        ensures
            authorizer@ == (Listening {
                current: Seq::empty(),
                recent: Seq::empty(),
                max_peers: max_peers as nat,
                grace_millis,
            }),
    {
        PeerAuthorizer { current: Vec::new(), recent: Vec::new(), max_peers, grace_millis }
    }

    fn expire(&mut self, now_millis: u64)
        ensures
            final(self)@ == old(self)@.expired(now_millis),
    {
        let mut kept: Vec<RecentPeer> = Vec::new();
        let mut i: usize = 0;
        assert(self.recent@.take(0) =~= Seq::<RecentPeer>::empty());
        while i < self.recent.len()
            invariant
                i <= self.recent@.len(),
                *self == *old(self),
                kept@ == unexpired(self.recent@.take(i as int), now_millis),
            decreases self.recent@.len() - i,
        {
            assert(self.recent@.take(i + 1).drop_last() =~= self.recent@.take(i as int));
            if self.recent[i].expires_millis > now_millis {
                kept.push(self.recent[i]);
            }
            i = i + 1;
        }
        assert(self.recent@.take(i as int) =~= self.recent@);
        self.recent = kept;
    }

    fn has_recent(&self, peer: Peer) -> (found: bool)
        ensures
            found == is_recent(self@.recent, peer),
    {
        let mut i: usize = 0;
        while i < self.recent.len()
            invariant
                i <= self.recent@.len(),
                forall|j: int| 0 <= j < i ==> (#[trigger] self.recent@[j]).peer != peer,
            decreases self.recent@.len() - i,
        {
            if self.recent[i].peer == peer {
                assert(self.recent@[i as int].peer == peer);
                return true;
            }
            i = i + 1;
        }
        false
    }

    fn insert_recent(&mut self, peer: Peer, expires_millis: u64)
        ensures
            final(self)@ == (Listening {
                recent: with_recent(
                    old(self)@.recent,
                    old(self)@.max_peers,
                    peer,
                    expires_millis,
                ),
                ..old(self)@
            }),
    {
        if self.has_recent(peer) || self.max_peers == 0 {
            return;
        }
        if self.recent.len() >= self.max_peers {
            let _gone = self.recent.swap_remove(0);
        }
        self.recent.push(RecentPeer { peer, expires_millis });
        assert(self@.recent =~= with_recent(
            old(self)@.recent,
            old(self)@.max_peers,
            peer,
            expires_millis,
        ));
    }

    fn update(&mut self, now_millis: u64, peers: &[Peer])
        ensures
            final(self)@ == old(self)@.updated(now_millis, peers@),
    {
        let ghost before = self@;
        self.expire(now_millis);
        let expires: u64 = now_millis.saturating_add(self.grace_millis);
        let ghost kept = self.recent@;
        let n: usize = self.current.len();
        let mut i: usize = 0;
        assert(before.current.take(0) =~= Seq::<Peer>::empty());
        while i < n
            invariant
                i <= n == before.current.len(),
                self@.current == before.current,
                self@.max_peers == before.max_peers,
                self@.grace_millis == before.grace_millis,
                self@.recent == with_departed(
                    kept,
                    before.max_peers,
                    before.current.take(i as int),
                    peers@,
                    expires,
                ),
            decreases n - i,
        {
            assert(before.current.take(i + 1).drop_last() =~= before.current.take(i as int));
            let peer = self.current[i];
            if !has_peer(peers, peer) {
                self.insert_recent(peer, expires);
            }
            i = i + 1;
        }
        assert(before.current.take(n as int) =~= before.current);
        let len: usize = peers.len();
        let count: usize = if len < self.max_peers { len } else { self.max_peers };
        let ghost named = peers@.take(count as int);
        let mut current: Vec<Peer> = Vec::new();
        let mut i: usize = 0;
        assert(named.take(0) =~= Seq::<Peer>::empty());
        while i < count
            invariant
                i <= count <= peers@.len(),
                named == peers@.take(count as int),
                current@ == deduplicated(named.take(i as int)),
            decreases count - i,
        {
            assert(named.take(i + 1).drop_last() =~= named.take(i as int));
            if !has_peer(current.as_slice(), peers[i]) {
                current.push(peers[i]);
            }
            i = i + 1;
        }
        assert(named.take(count as int) =~= named);
        assert(len <= self.max_peers ==> named =~= peers@);
        self.current = current;
        assert(self@ =~= before.updated(now_millis, peers@));
    }

    fn accepts(&mut self, peer: Peer, now_millis: u64) -> (accepted: bool)
        ensures
            final(self)@ == old(self)@.expired(now_millis),
            accepted == old(self)@.hears(peer, now_millis),
    {
        self.expire(now_millis);
        has_peer(self.current.as_slice(), peer) || self.has_recent(peer)
    }
}

/// A peer that left is listened to within its grace period and not after it:
/// once the grace has run out, unless it is a current peer again, its frames
/// are turned away.
pub proof fn lemma_grace_window(recent: Seq<RecentPeer>, peer: Peer, now: u64)
    ensures
        is_recent(unexpired(recent, now), peer) <==> exists|i: int|
            0 <= i < recent.len() && (#[trigger] recent[i]).peer == peer
                && recent[i].expires_millis > now,
    decreases recent.len(),
{
    if recent.len() > 0 {
        let front = recent.drop_last();
        lemma_grace_window(front, peer, now);
        let last = recent.last();
        let kept = unexpired(front, now);
        let all = unexpired(recent, now);
        if is_recent(all, peer) {
            let i = choose|i: int| 0 <= i < all.len() && (#[trigger] all[i]).peer == peer;
            if i < kept.len() {
                assert(kept[i].peer == peer);
                assert(is_recent(kept, peer));
                let j = choose|j: int|
                    0 <= j < front.len() && (#[trigger] front[j]).peer == peer
                        && front[j].expires_millis > now;
                assert(recent[j].peer == peer);
            } else {
                assert(recent[recent.len() - 1].peer == peer);
            }
        }
        if exists|i: int|
            0 <= i < recent.len() && (#[trigger] recent[i]).peer == peer
                && recent[i].expires_millis > now {
            let i = choose|i: int|
                0 <= i < recent.len() && (#[trigger] recent[i]).peer == peer
                    && recent[i].expires_millis > now;
            if i < front.len() {
                assert(front[i].peer == peer);
                let k = choose|k: int| 0 <= k < kept.len() && (#[trigger] kept[k]).peer == peer;
                assert(all[k].peer == peer);
            } else {
                assert(all[all.len() - 1].peer == peer);
            }
        }
    }
}

proof fn lemma_unexpired_bound(recent: Seq<RecentPeer>, now: u64)
    ensures
        unexpired(recent, now).len() <= recent.len(),
    decreases recent.len(),
{
    if recent.len() > 0 {
        lemma_unexpired_bound(recent.drop_last(), now);
    }
}

proof fn lemma_departed_bound(
    recent: Seq<RecentPeer>,
    capacity: nat,
    current: Seq<Peer>,
    peers: Seq<Peer>,
    expires_millis: u64,
)
    requires
        recent.len() <= capacity,
    ensures
        with_departed(recent, capacity, current, peers, expires_millis).len() <= capacity,
    decreases current.len(),
{
    if current.len() > 0 {
        lemma_departed_bound(recent, capacity, current.drop_last(), peers, expires_millis);
    }
}

proof fn lemma_deduplicated_bound(peers: Seq<Peer>)
    ensures
        deduplicated(peers).len() <= peers.len(),
    decreases peers.len(),
{
    if peers.len() > 0 {
        lemma_deduplicated_bound(peers.drop_last());
    }
}

/// Looking at membership keeps both lists within their capacity.
pub proof fn lemma_listening_bounded(l: Listening, now: u64, peers: Seq<Peer>)
    requires
        l.recent.len() <= l.max_peers,
    ensures
        l.updated(now, peers).recent.len() <= l.max_peers,
        l.updated(now, peers).current.len() <= l.max_peers,
{
    lemma_unexpired_bound(l.recent, now);
    lemma_departed_bound(
        unexpired(l.recent, now),
        l.max_peers,
        l.current,
        peers,
        capped_time(now, l.grace_millis),
    );
    if peers.len() <= l.max_peers {
        lemma_deduplicated_bound(peers);
    } else {
        lemma_deduplicated_bound(peers.take(l.max_peers as int));
    }
}

/// How many of `current` are not in `peers`.
pub open spec fn departures(current: Seq<Peer>, peers: Seq<Peer>) -> nat
    decreases current.len(),
{
    if current.len() == 0 {
        0
    } else {
        departures(current.drop_last(), peers) + if peers.contains(current.last()) {
            0nat
        } else {
            1nat
        }
    }
}

/// A look at membership, and whether frames came in after it.
pub struct Look {
    pub now: u64,
    pub peers: Seq<Peer>,
    pub frames: bool,
}

impl Listening {
    /// Whether those who leave can all be remembered without forgetting anyone.
    pub open spec fn has_room(self, look: Look) -> bool {
        unexpired(self.recent, look.now).len() + departures(self.current, look.peers)
            <= self.max_peers
    }

    /// Whom a node listens to after a tick. Each frame that comes in has the
    /// grace of those who left checked again.
    pub open spec fn looked(self, look: Look) -> Listening {
        let updated = self.updated(look.now, look.peers);
        if look.frames {
            updated.expired(look.now)
        } else {
            updated
        }
    }
}

/// Whom a node listens to after some ticks.
pub open spec fn looked_again(l: Listening, looks: Seq<Look>) -> Listening
    decreases looks.len(),
{
    if looks.len() == 0 {
        l
    } else {
        looked_again(l, looks.drop_last()).looked(looks.last())
    }
}

/// Whether the peer is in none of the looks, none of them is later than `now`,
/// and none forgets anyone for want of room.
pub open spec fn stays_away(l: Listening, looks: Seq<Look>, peer: Peer, now: u64) -> bool {
    forall|i: int|
        0 <= i < looks.len() ==> {
            &&& (#[trigger] looks[i]).now <= now
            &&& !looks[i].peers.contains(peer)
            &&& looked_again(l, looks.take(i)).has_room(looks[i])
        }
}

/// What is known of a peer that left and is remembered until `expires`.
spec fn remembered(l: Listening, peer: Peer, expires: u64, now: u64) -> bool {
    &&& !l.current.contains(peer)
    &&& forall|i: int|
        0 <= i < l.recent.len() && (#[trigger] l.recent[i]).peer == peer
            ==> l.recent[i].expires_millis == expires
    &&& expires > now ==> is_recent(l.recent, peer)
}

proof fn lemma_unexpired_from(recent: Seq<RecentPeer>, now: u64)
    ensures
        forall|i: int|
            0 <= i < unexpired(recent, now).len() ==> recent.contains(
                #[trigger] unexpired(recent, now)[i],
            ),
    decreases recent.len(),
{
    if recent.len() > 0 {
        let front = recent.drop_last();
        lemma_unexpired_from(front, now);
        let kept = unexpired(front, now);
        let all = unexpired(recent, now);
        assert forall|i: int| 0 <= i < all.len() implies recent.contains(#[trigger] all[i]) by {
            if i < kept.len() {
                assert(front.contains(kept[i]));
                let j = choose|j: int| 0 <= j < front.len() && front[j] == kept[i];
                assert(recent[j] == all[i]);
            } else {
                assert(recent[recent.len() - 1] == all[i]);
            }
        }
    }
}

proof fn lemma_departed_room(
    recent: Seq<RecentPeer>,
    capacity: nat,
    current: Seq<Peer>,
    peers: Seq<Peer>,
    expires: u64,
)
    requires
        recent.len() + departures(current, peers) <= capacity,
    ensures
        ({
            let all = with_departed(recent, capacity, current, peers, expires);
            &&& recent.len() <= all.len() <= recent.len() + departures(current, peers)
            &&& forall|i: int| 0 <= i < recent.len() ==> #[trigger] all[i] == recent[i]
            &&& forall|i: int|
                recent.len() <= i < all.len() ==> current.contains((#[trigger] all[i]).peer)
                    && all[i].expires_millis == expires
            &&& forall|j: int|
                0 <= j < current.len() && !peers.contains(#[trigger] current[j]) ==> is_recent(
                    all,
                    current[j],
                )
        }),
    decreases current.len(),
{
    if current.len() > 0 {
        let front = current.drop_last();
        lemma_departed_room(recent, capacity, front, peers, expires);
        let before = with_departed(recent, capacity, front, peers, expires);
        let all = with_departed(recent, capacity, current, peers, expires);
        let last = current.last();
        assert(before.len() <= all.len());
        assert(forall|i: int| 0 <= i < before.len() ==> #[trigger] all[i] == before[i]);
        assert forall|i: int| recent.len() <= i < all.len() implies current.contains(
            (#[trigger] all[i]).peer,
        ) && all[i].expires_millis == expires by {
            if i < before.len() {
                assert(front.contains(before[i].peer));
                let j = choose|j: int| 0 <= j < front.len() && front[j] == before[i].peer;
                assert(current[j] == all[i].peer);
            } else {
                assert(current[current.len() - 1] == all[i].peer);
            }
        }
        assert forall|j: int|
            0 <= j < current.len() && !peers.contains(#[trigger] current[j]) implies is_recent(
            all,
            current[j],
        ) by {
            if is_recent(before, current[j]) {
                let k = choose|k: int|
                    0 <= k < before.len() && (#[trigger] before[k]).peer == current[j];
                assert(all[k].peer == current[j]);
            } else if j < front.len() {
                assert(front[j] == current[j]);
            } else {
                assert(all[all.len() - 1].peer == last);
            }
        }
    }
}

proof fn lemma_deduplicated_from(peers: Seq<Peer>, peer: Peer)
    requires
        deduplicated(peers).contains(peer),
    ensures
        peers.contains(peer),
    decreases peers.len(),
{
    if peers.len() > 0 {
        let before = deduplicated(peers.drop_last());
        if before.contains(peer) {
            lemma_deduplicated_from(peers.drop_last(), peer);
            let j = choose|j: int| 0 <= j < peers.len() - 1 && peers.drop_last()[j] == peer;
            assert(peers[j] == peer);
        } else {
            assert(peers[peers.len() - 1] == peer);
        }
    }
}

/// A current peer is one of the peers that were named.
proof fn lemma_current_named(l: Listening, look: Look, peer: Peer)
    requires
        !look.peers.contains(peer),
    ensures
        !l.updated(look.now, look.peers).current.contains(peer),
{
    let updated = l.updated(look.now, look.peers);
    if updated.current.contains(peer) {
        if look.peers.len() <= l.max_peers {
            lemma_deduplicated_from(look.peers, peer);
        } else {
            let named = look.peers.take(l.max_peers as int);
            lemma_deduplicated_from(named, peer);
            let j = choose|j: int| 0 <= j < named.len() && named[j] == peer;
            assert(look.peers[j] == peer);
        }
    }
}

/// Checking the grace of those who left forgets no one before time.
proof fn lemma_expired_remembers(l: Listening, peer: Peer, expires: u64, at: u64, now: u64)
    requires
        remembered(l, peer, expires, now),
        at <= now,
    ensures
        remembered(l.expired(at), peer, expires, now),
{
    let kept = unexpired(l.recent, at);
    lemma_unexpired_from(l.recent, at);
    assert forall|i: int| 0 <= i < kept.len() && (#[trigger] kept[i]).peer == peer implies kept[i].expires_millis
        == expires by {
        assert(l.recent.contains(kept[i]));
        let j = choose|j: int| 0 <= j < l.recent.len() && l.recent[j] == kept[i];
        assert(l.recent[j].peer == peer);
    }
    if expires > now {
        lemma_grace_window(l.recent, peer, at);
        let i = choose|i: int| 0 <= i < l.recent.len() && (#[trigger] l.recent[i]).peer == peer;
        assert(l.recent[i].expires_millis > at);
    }
}

/// Nor does a look at membership, while there is room.
proof fn lemma_looked_remembers(l: Listening, look: Look, peer: Peer, expires: u64, now: u64)
    requires
        remembered(l, peer, expires, now),
        look.now <= now,
        !look.peers.contains(peer),
        l.has_room(look),
    ensures
        remembered(l.looked(look), peer, expires, now),
{
    lemma_current_named(l, look, peer);
    lemma_expired_remembers(l, peer, expires, look.now, now);
    let kept = unexpired(l.recent, look.now);
    let until = capped_time(look.now, l.grace_millis);
    lemma_departed_room(kept, l.max_peers, l.current, look.peers, until);
    let updated = l.updated(look.now, look.peers);
    assert forall|i: int|
        0 <= i < updated.recent.len() && (#[trigger] updated.recent[i]).peer
            == peer implies updated.recent[i].expires_millis == expires by {
        if i < kept.len() {
            assert(updated.recent[i] == kept[i]);
            assert(l.expired(look.now).recent[i].peer == peer);
        } else {
            assert(l.current.contains(updated.recent[i].peer));
        }
    }
    if expires > now {
        let i = choose|i: int| 0 <= i < kept.len() && (#[trigger] kept[i]).peer == peer;
        assert(updated.recent[i] == kept[i]);
    }
    assert(remembered(updated, peer, expires, now));
    lemma_expired_remembers(updated, peer, expires, look.now, now);
}

proof fn lemma_looked_again_remembers(
    l: Listening,
    looks: Seq<Look>,
    peer: Peer,
    expires: u64,
    now: u64,
)
    requires
        remembered(l, peer, expires, now),
        stays_away(l, looks, peer, now),
    ensures
        remembered(looked_again(l, looks), peer, expires, now),
    decreases looks.len(),
{
    if looks.len() > 0 {
        let front = looks.drop_last();
        assert forall|i: int| 0 <= i < front.len() implies {
            &&& (#[trigger] front[i]).now <= now
            &&& !front[i].peers.contains(peer)
            &&& looked_again(l, front.take(i)).has_room(front[i])
        } by {
            assert(looks[i] == front[i]);
            assert(front.take(i) =~= looks.take(i));
        }
        lemma_looked_again_remembers(l, front, peer, expires, now);
        let last = looks[looks.len() - 1];
        assert(looks.take(looks.len() - 1) =~= front);
        lemma_looked_remembers(looked_again(l, front), last, peer, expires, now);
    }
}

/// A current peer that is found missing at one tick, and stays away from all
/// the ticks that follow, is listened to for as long as the grace period after
/// that first tick, and no longer, however many ticks there are. This leaves
/// out peers that are still remembered for having left before, ticks at which
/// more peers leave than there is room to remember, and the last moment of a
/// grace period that does not fit the clock.
pub proof fn lemma_grace_across_ticks(
    l: Listening,
    first: Look,
    later: Seq<Look>,
    peer: Peer,
    now: u64,
)
    requires
        l.current.contains(peer),
        !first.peers.contains(peer),
        !is_recent(unexpired(l.recent, first.now), peer),
        l.has_room(first),
        first.now <= now,
        stays_away(l.looked(first), later, peer, now),
        first.now + l.grace_millis <= u64::MAX || now < u64::MAX,
    ensures
        looked_again(l.looked(first), later).hears(peer, now) <==> now < first.now
            + l.grace_millis,
{
    let until = capped_time(first.now, l.grace_millis);
    let kept = unexpired(l.recent, first.now);
    let updated = l.updated(first.now, first.peers);
    lemma_current_named(l, first, peer);
    lemma_departed_room(kept, l.max_peers, l.current, first.peers, until);
    let j = choose|j: int| 0 <= j < l.current.len() && l.current[j] == peer;
    assert(is_recent(updated.recent, l.current[j]));
    assert forall|i: int|
        0 <= i < updated.recent.len() && (#[trigger] updated.recent[i]).peer
            == peer implies updated.recent[i].expires_millis == until by {
        if i < kept.len() {
            assert(updated.recent[i] == kept[i]);
            assert(kept[i].peer == peer);
        }
    }
    assert(remembered(updated, peer, until, now));
    lemma_expired_remembers(updated, peer, until, first.now, now);
    lemma_looked_again_remembers(l.looked(first), later, peer, until, now);
    lemma_grace_window(looked_again(l.looked(first), later).recent, peer, now);
    let then = looked_again(l.looked(first), later);
    if until > now {
        let i = choose|i: int| 0 <= i < then.recent.len() && (#[trigger] then.recent[i]).peer
            == peer;
        assert(then.recent[i].expires_millis > now);
    }
}

proof fn lemma_departures_bound(current: Seq<Peer>, peers: Seq<Peer>)
    ensures
        departures(current, peers) <= current.len(),
        (forall|i: int| 0 <= i < current.len() ==> peers.contains(#[trigger] current[i]))
            ==> departures(current, peers) == 0,
    decreases current.len(),
{
    if current.len() > 0 {
        let front = current.drop_last();
        lemma_departures_bound(front, peers);
        if forall|i: int| 0 <= i < current.len() ==> peers.contains(#[trigger] current[i]) {
            assert forall|i: int| 0 <= i < front.len() implies peers.contains(
                #[trigger] front[i],
            ) by {
                assert(peers.contains(current[i]));
            }
            assert(peers.contains(current[current.len() - 1]));
        }
    }
}

/// A peer that a fresh node came to know at its first tick, and found missing
/// at its second, is listened to at a third tick exactly if that comes within
/// the grace period after the second.
pub proof fn lemma_grace_after_first_departure(
    max_peers: nat,
    grace_millis: u64,
    joined: Look,
    left: Look,
    peer: Peer,
    now: u64,
)
    requires
        ({
            let fresh = Listening {
                current: Seq::empty(),
                recent: Seq::empty(),
                max_peers,
                grace_millis,
            };
            fresh.looked(joined).current.contains(peer)
        }),
        !left.peers.contains(peer),
        left.now <= now,
        left.now + grace_millis <= u64::MAX || now < u64::MAX,
    ensures
        ({
            let fresh = Listening {
                current: Seq::empty(),
                recent: Seq::empty(),
                max_peers,
                grace_millis,
            };
            fresh.looked(joined).looked(left).updated(now, left.peers).hears(peer, now)
                <==> now < left.now + grace_millis
        }),
{
    let fresh = Listening { current: Seq::empty(), recent: Seq::empty(), max_peers, grace_millis };
    let known = fresh.looked(joined);
    let parted = known.looked(left);
    let third = Look { now, peers: left.peers, frames: false };
    assert(known.recent =~= Seq::empty());
    lemma_listening_bounded(fresh, joined.now, joined.peers);
    lemma_departures_bound(known.current, left.peers);
    lemma_listening_bounded(known, left.now, left.peers);
    lemma_unexpired_bound(known.updated(left.now, left.peers).recent, left.now);
    lemma_unexpired_bound(parted.recent, now);
    assert forall|i: int| 0 <= i < parted.current.len() implies left.peers.contains(
        #[trigger] parted.current[i],
    ) by {
        let other = parted.current[i];
        if !left.peers.contains(other) {
            lemma_current_named(known, left, other);
            assert(parted.current.contains(other));
        }
    }
    lemma_departures_bound(parted.current, left.peers);
    let later = seq![third];
    assert(later.take(0) =~= Seq::empty());
    assert(later.drop_last() =~= Seq::empty());
    assert(looked_again(parted, Seq::empty()) == parted);
    assert(looked_again(parted, later) == parted.looked(third));
    lemma_grace_across_ticks(known, left, later, peer, now);
}

// -- what to send -----------------------------------------------------------

/// The low 64 bits of a cluster's identity.
pub open spec fn cluster_tag(cluster_id_hash: u128) -> u64 {
    (cluster_id_hash % 0x1_0000_0000_0000_0000) as u64
}

/// A limiter's cell as it is sent.
pub open spec fn as_sent(cell: LocalCell) -> CounterCell {
    CounterCell {
        rule_id: cell.rule_id,
        key_hash_hi: (cell.key_hash.0 / 0x1_0000_0000_0000_0000) as u64,
        key_hash_lo: (cell.key_hash.0 % 0x1_0000_0000_0000_0000) as u64,
        bucket_start_millis: if cell.bucket_start_millis <= i64::MAX {
            cell.bucket_start_millis as i64
        } else {
            i64::MAX
        },
        origin_node_id: NodeId::spec_from_u128(cell.origin_node_id.0),
        origin_incarnation: cell.origin_incarnation,
        count: cell.count,
        last_update_millis: cell.last_update_millis,
        sequence: cell.sequence,
    }
}

pub fn convert_core_cell(cell: LocalCell) -> (sent: CounterCell)
    ensures
        sent == as_sent(cell),
{
    CounterCell {
        rule_id: cell.rule_id,
        key_hash_hi: (cell.key_hash.0 / 0x1_0000_0000_0000_0000) as u64,
        key_hash_lo: (cell.key_hash.0 % 0x1_0000_0000_0000_0000) as u64,
        bucket_start_millis: if cell.bucket_start_millis <= i64::MAX as u64 {
            cell.bucket_start_millis as i64
        } else {
            i64::MAX
        },
        origin_node_id: NodeId::from_u128(cell.origin_node_id.0),
        origin_incarnation: cell.origin_incarnation,
        count: cell.count,
        last_update_millis: cell.last_update_millis,
        sequence: cell.sequence,
    }
}

/// A cell keeps its key on the way.
pub proof fn lemma_sent_key(cell: LocalCell)
    ensures
        as_sent(cell).spec_key_hash() == cell.key_hash,
{
}

pub open spec fn all_as_sent(cells: Seq<LocalCell>) -> Seq<CounterCell> {
    Seq::new(cells.len(), |i: int| as_sent(cells[i]))
}

pub open spec fn at_most(cells: Seq<CounterCell>, n: nat) -> Seq<CounterCell> {
    if cells.len() <= n {
        cells
    } else {
        cells.take(n as int)
    }
}

fn convert_cells(cells: &Vec<LocalCell>, limit: usize) -> (sent: Vec<CounterCell>)
    ensures
        sent@ == at_most(all_as_sent(cells@), limit as nat),
{
    let len: usize = cells.len();
    let n: usize = if len < limit { len } else { limit };
    let mut out: Vec<CounterCell> = Vec::new();
    let mut i: usize = 0;
    while i < n
        invariant
            i <= n <= cells@.len(),
            out@.len() == i,
            forall|j: int| 0 <= j < i ==> #[trigger] out@[j] == as_sent(cells@[j]),
        decreases n - i,
    {
        out.push(convert_core_cell(cells[i]));
        i = i + 1;
    }
    assert(out@ =~= at_most(all_as_sent(cells@), limit as nat));
    out
}

/// The gossip of a node: what it has heard, whom it listens to, and what it has
/// done.
#[verifier::ext_equal]
pub struct GossipState {
    pub remote: TableState,
    pub listening: Listening,
    pub force_resync: bool,
    pub last_send_millis: u64,
    pub metrics: GossipMetrics,
}

pub open spec fn usage_of(engine: EngineState) -> GossipSpaceUsage {
    GossipSpaceUsage {
        active_cells: engine.slots.len() as usize,
        max_cells: engine.max_cells as usize,
        dirty_cells: engine.dirty.len() as usize,
        dirty_capacity: engine.dirty_capacity as usize,
        dirty_overflowed: engine.overflowed,
    }
}

/// Why a node sends now, if it does. On its own it does not.
pub open spec fn send_reason(
    config: StandaloneGossipConfig,
    state: GossipState,
    engine: EngineState,
    peers: nat,
    now: u64,
) -> Option<GossipSendReason> {
    if peers == 0 {
        None
    } else if state.force_resync {
        Some(GossipSendReason::DirtyOverflow)
    } else {
        config.send_policy.reason(now, state.last_send_millis, usage_of(engine))
    }
}

/// Whether all cells are sent instead of the changed ones.
pub open spec fn resyncs(state: GossipState, engine: EngineState) -> bool {
    engine.overflowed || state.force_resync
}

/// The cells that are sent.
pub open spec fn chosen_cells(
    config: StandaloneGossipConfig,
    state: GossipState,
    engine: EngineState,
) -> Seq<CounterCell> {
    at_most(
        all_as_sent(
            if resyncs(state, engine) {
                cells_of(engine.slots)
            } else {
                changed_cells(engine)
            },
        ),
        config.max_cells_per_frame as nat,
    )
}

pub open spec fn frame_header(config: StandaloneGossipConfig) -> GossipHeader {
    GossipHeader {
        cluster_id_hash: cluster_tag(config.cluster_id_hash),
        sender_node_id: config.sender_node_id,
        sender_incarnation: config.sender_incarnation,
        min_bucket: 0,
        max_bucket: 0,
        flags: 0,
    }
}

/// The frame that is sent, and whether it had to be cut. It starts with a
/// digest of all of the limiter's cells.
pub open spec fn outgoing(
    config: StandaloneGossipConfig,
    state: GossipState,
    engine: EngineState,
) -> (Seq<u8>, bool) {
    let digests = seq![digested(all_as_sent(cells_of(engine.slots)), 0, 1)];
    let cells = chosen_cells(config, state, engine);
    match config.auth_key {
        None => encoded(
            frame_header(config),
            digests,
            cells,
            false,
            config.max_payload_bytes as int,
        ),
        Some(key) => sealed(
            frame_header(config),
            digests,
            cells,
            false,
            key.0@,
            config.max_payload_bytes as int,
        ),
    }
}

/// The state once a frame has been sent.
pub open spec fn after_send(
    config: StandaloneGossipConfig,
    state: GossipState,
    engine: EngineState,
    now: u64,
) -> GossipState {
    let (frame, cut) = outgoing(config, state, engine);
    let metrics = if resyncs(state, engine) {
        GossipMetrics { dirty_overflow: raised_by(state.metrics.dirty_overflow, 1), ..state.metrics }
    } else {
        state.metrics
    };
    GossipState {
        force_resync: false,
        last_send_millis: now,
        metrics: metrics.sent(frame.len() as usize, cut),
        ..state
    }
}

/// The peers a frame goes to: the first `fanout`.
pub open spec fn targets(config: StandaloneGossipConfig, peers: Seq<Peer>) -> Seq<Peer> {
    if peers.len() <= config.fanout {
        peers
    } else {
        peers.take(config.fanout as int)
    }
}

pub open spec fn count_true(outcomes: Seq<bool>) -> nat
    decreases outcomes.len(),
{
    if outcomes.len() == 0 {
        0
    } else {
        count_true(outcomes.drop_last()) + if outcomes.last() {
            1nat
        } else {
            0nat
        }
    }
}

// -- what comes in ----------------------------------------------------------

pub open spec fn frame_limits(config: StandaloneGossipConfig) -> GossipLimits {
    GossipLimits {
        max_payload_bytes: config.max_payload_bytes,
        max_digests: MAX_DIGESTS,
        max_cells: config.max_cells_per_frame,
    }
}

/// Whether a frame is of this cluster and another node.
pub open spec fn heeds(config: StandaloneGossipConfig, header: GossipHeader) -> bool {
    header.cluster_id_hash == cluster_tag(config.cluster_id_hash) && header.sender_node_id
        != config.sender_node_id
}

/// What reading a frame gives.
#[verifier::ext_equal]
pub struct FrameRead {
    pub result: Result<DecodedMessageSummary, DecodeError>,
    pub digests: Seq<ShardDigest>,
    pub cells: Seq<CounterCell>,
}

pub open spec fn payload_read(config: StandaloneGossipConfig, payload: Seq<u8>) -> FrameRead {
    match preamble_error(payload, frame_limits(config)) {
        Some(error) => FrameRead { result: Err(error), digests: Seq::empty(), cells: Seq::empty() },
        None => {
            let heeded = heeds(config, header_of(payload));
            FrameRead {
                result: visited(payload, heeded),
                digests: if heeded {
                    digests_in(payload, digests_present(payload) as nat)
                } else {
                    Seq::empty()
                },
                cells: if heeded {
                    cells_in(
                        payload,
                        crate::messages::digests_declared(payload),
                        cells_present(payload) as nat,
                    )
                } else {
                    Seq::empty()
                },
            }
        },
    }
}

pub open spec fn frame_read(config: StandaloneGossipConfig, bytes: Seq<u8>) -> FrameRead {
    match config.auth_key {
        None => payload_read(config, bytes),
        Some(key) => match seal_error(bytes, key.0@, frame_limits(config)) {
            Some(error) => FrameRead {
                result: Err(error),
                digests: Seq::empty(),
                cells: Seq::empty(),
            },
            None => payload_read(config, sealed_payload(bytes)),
        },
    }
}

/// Cells merged one after the other.
#[verifier::ext_equal]
pub struct MergedCells {
    pub remote: TableState,
    pub engine: EngineState,
    /// Number of cells that changed something.
    pub changed: nat,
    /// Whether the table had no room for one.
    pub full: bool,
}

pub open spec fn merged_cells(
    remote: TableState,
    engine: EngineState,
    rules: Seq<LocalRule>,
    cells: Seq<CounterCell>,
    now: u64,
) -> MergedCells
    decreases cells.len(),
{
    if cells.len() == 0 {
        MergedCells { remote, engine, changed: 0, full: false }
    } else {
        let before = merged_cells(remote, engine, rules, cells.drop_last(), now);
        let cell = cells.last();
        match before.remote.merged(cell) {
            Ok((after, outcome)) => MergedCells {
                remote: after,
                engine: if outcome.delta == 0 {
                    before.engine
                } else {
                    told(
                        before.engine,
                        rules,
                        cell.rule_id,
                        cell.spec_key_hash(),
                        crate::cells::bucket_time(cell.bucket_start_millis),
                        now,
                        outcome.delta,
                    )
                },
                changed: before.changed + if outcome.changed {
                    1nat
                } else {
                    0nat
                },
                full: before.full,
            },
            Err(_) => MergedCells { full: true, ..before },
        }
    }
}

/// The gossip and the limiter after a frame of a known sender.
pub open spec fn frame_merged(
    config: StandaloneGossipConfig,
    state: GossipState,
    engine: EngineState,
    rules: Seq<LocalRule>,
    bytes: Seq<u8>,
    now: u64,
) -> (GossipState, EngineState, nat) {
    let read = frame_read(config, bytes);
    let merged = merged_cells(state.remote, engine, rules, read.cells, now);
    let mismatch = read.digests.len() > 0 && digested(
        merged.remote.cells,
        read.digests.last().shard_id,
        1,
    ) != read.digests.last();
    let m = state.metrics;
    (
        GossipState {
            remote: merged.remote,
            force_resync: state.force_resync || mismatch,
            metrics: GossipMetrics {
                merge_cells: raised_by(m.merge_cells, merged.changed as int),
                auth_failures: if read.result == Err::<DecodedMessageSummary, DecodeError>(
                    DecodeError::AuthenticationFailed,
                ) {
                    raised_by(m.auth_failures, 1)
                } else {
                    m.auth_failures
                },
                decode_errors: if read.result is Err || merged.full {
                    raised_by(m.decode_errors, 1)
                } else {
                    m.decode_errors
                },
                digest_mismatch: if mismatch {
                    raised_by(m.digest_mismatch, 1)
                } else {
                    m.digest_mismatch
                },
                ..m
            },
            ..state
        },
        merged.engine,
        merged.changed,
    )
}

/// A tick on its way: gossip, limiter and what has been done.
#[verifier::ext_equal]
pub struct TickState {
    pub gossip: GossipState,
    pub engine: EngineState,
    pub summary: GossipTickSummary,
}

pub open spec fn capped_count(a: usize, n: int) -> usize {
    if a + n <= usize::MAX {
        (a + n) as usize
    } else {
        usize::MAX
    }
}

/// A frame taken in. Unknown senders are turned away before anything of their
/// frame is looked at.
pub open spec fn frame_taken(
    config: StandaloneGossipConfig,
    tick: TickState,
    rules: Seq<LocalRule>,
    peer: Peer,
    payload: Seq<u8>,
    now: u64,
) -> TickState {
    let listening = tick.gossip.listening.expired(now);
    if !tick.gossip.listening.hears(peer, now) {
        TickState {
            gossip: GossipState { listening, ..tick.gossip },
            summary: GossipTickSummary {
                peer_rejected: capped_count(tick.summary.peer_rejected, 1),
                ..tick.summary
            },
            ..tick
        }
    } else {
        let gossip = GossipState {
            listening,
            metrics: tick.gossip.metrics.received(payload.len() as usize),
            ..tick.gossip
        };
        let (gossip, engine, changed) = frame_merged(
            config,
            gossip,
            tick.engine,
            rules,
            payload,
            now,
        );
        TickState {
            gossip,
            engine,
            summary: GossipTickSummary {
                frames_received: capped_count(tick.summary.frames_received, 1),
                cells_merged: capped_count(tick.summary.cells_merged, changed as int),
                ..tick.summary
            },
        }
    }
}

pub open spec fn frames_taken(
    config: StandaloneGossipConfig,
    tick: TickState,
    rules: Seq<LocalRule>,
    inbox: Seq<InboundFrame>,
    now: u64,
) -> TickState
    decreases inbox.len(),
{
    if inbox.len() == 0 {
        tick
    } else {
        let before = frames_taken(config, tick, rules, inbox.drop_last(), now);
        frame_taken(config, before, rules, inbox.last().peer, inbox.last().payload@, now)
    }
}

/// What a tick starts with: membership looked at, and a frame sent if there is
/// a reason to. `outcomes` says which sends went through.
pub open spec fn tick_sent(
    config: StandaloneGossipConfig,
    state: GossipState,
    engine: EngineState,
    peers: Seq<Peer>,
    stale: bool,
    now: u64,
    outcomes: Seq<bool>,
) -> TickState {
    let state = GossipState { listening: state.listening.updated(now, peers), ..state };
    let reason = send_reason(config, state, engine, peers.len(), now);
    let summary = GossipTickSummary {
        peers_seen: peers.len() as usize,
        local_only: peers.len() == 0,
        discovery_stale: stale,
        send_reason: reason,
        ..blank_summary()
    };
    if reason is None {
        TickState { gossip: state, engine, summary }
    } else {
        TickState {
            gossip: after_send(config, state, engine, now),
            engine,
            summary: GossipTickSummary {
                cells_sent: chosen_cells(config, state, engine).len() as usize,
                peers_sent: count_true(outcomes) as usize,
                send_failures: (outcomes.len() - count_true(outcomes)) as usize,
                ..summary
            },
        }
    }
}

/// What a round of gossip makes of a node and its limiter, given which sends
/// went through.
pub open spec fn ticked_with(
    config: StandaloneGossipConfig,
    before: TickState,
    rules: Seq<LocalRule>,
    snapshot: &PeerSnapshot,
    inbox: Seq<InboundFrame>,
    now_millis: u64,
    outcomes: Seq<bool>,
) -> TickState {
    frames_taken(
        config,
        tick_sent(
            config,
            before.gossip,
            before.engine,
            snapshot@,
            snapshot.spec_stale(),
            now_millis,
            outcomes,
        ),
        rules,
        inbox,
        now_millis,
    )
}

/// What a round of gossip makes of a node, its limiter and its transport,
/// whatever the network answered.
pub open spec fn ticked<T: GossipTransport>(
    config: StandaloneGossipConfig,
    before: TickState,
    rules: Seq<LocalRule>,
    snapshot: &PeerSnapshot,
    transports: (T, T),
    inbox: Seq<InboundFrame>,
    now_millis: u64,
    after: TickState,
) -> bool {
    exists|outcomes: Seq<bool>| #[trigger]
        sends_made(
            config,
            before.gossip,
            before.engine,
            snapshot@,
            now_millis,
            transports,
            outcomes,
        ) && after == ticked_with(
            config,
            before,
            rules,
            snapshot,
            inbox,
            now_millis,
            outcomes,
        )
}

/// The states of a transport as a frame goes to one target after the other.
pub open spec fn frame_sent_to<T: GossipTransport>(
    states: Seq<T>,
    targets: Seq<Peer>,
    frame: Seq<u8>,
    outcomes: Seq<bool>,
) -> bool {
    &&& outcomes.len() == targets.len()
    &&& states.len() == targets.len() + 1
    &&& forall|i: int|
        0 <= i < targets.len() ==> T::handed(
            states[i],
            states[i + 1],
            targets[i],
            frame,
            #[trigger] outcomes[i],
        )
}

/// What is sent in a tick: nothing if there is no reason to send, otherwise the
/// frame that is due, once to each target in order, and no other. `outcomes`
/// says which sends went through.
pub open spec fn sends_made<T: GossipTransport>(
    config: StandaloneGossipConfig,
    state: GossipState,
    engine: EngineState,
    peers: Seq<Peer>,
    now: u64,
    transports: (T, T),
    outcomes: Seq<bool>,
) -> bool {
    let state = GossipState { listening: state.listening.updated(now, peers), ..state };
    if send_reason(config, state, engine, peers.len(), now) is None {
        &&& outcomes.len() == 0
        &&& transports.1 == transports.0
    } else {
        exists|states: Seq<T>|
            {
                &&& #[trigger] frame_sent_to(
                    states,
                    targets(config, peers),
                    outgoing(config, state, engine).0,
                    outcomes,
                )
                &&& states[0] == transports.0
                &&& states.last() == transports.1
            }
    }
}

// -- runtime ----------------------------------------------------------------

/// A node's gossip runtime.
pub struct StandaloneGossipRuntime {
    config: StandaloneGossipConfig,
    remote: CellTable,
    authorizer: PeerAuthorizer,
    force_resync: bool,
    last_send_millis: u64,
    metrics: GossipMetrics,
}

impl StandaloneGossipRuntime {
    pub closed spec fn view(&self) -> GossipState {
        GossipState {
            remote: self.remote@,
            listening: self.authorizer@,
            force_resync: self.force_resync,
            last_send_millis: self.last_send_millis,
            metrics: self.metrics,
        }
    }

    pub closed spec fn spec_config(&self) -> StandaloneGossipConfig {
        self.config
    }

    pub closed spec fn wf(&self) -> bool {
        self.remote.wf()
    }

    pub fn new(config: StandaloneGossipConfig) -> (runtime: StandaloneGossipRuntime)
        ensures
            runtime.wf(),
            runtime.spec_config() == config,
            runtime@ == (GossipState {
                remote: TableState {
                    cells: Seq::empty(),
                    capacity: config.remote_cell_capacity as nat,
                    sequence: 0,
                    dirty: Seq::empty(),
                    dirty_capacity: config.remote_dirty_capacity as nat,
                    overflowed: false,
                },
                listening: Listening {
                    current: Seq::empty(),
                    recent: Seq::empty(),
                    max_peers: config.max_peers as nat,
                    grace_millis: config.recent_peer_grace_millis,
                },
                force_resync: false,
                last_send_millis: 0,
                metrics: GossipMetrics {
                    send_bytes: 0,
                    recv_bytes: 0,
                    merge_cells: 0,
                    digest_mismatch: 0,
                    truncated: 0,
                    auth_failures: 0,
                    decode_errors: 0,
                    dirty_overflow: 0,
                },
            }),
    {
        StandaloneGossipRuntime {
            config,
            remote: CellTable::with_capacity(
                config.remote_cell_capacity,
                config.remote_dirty_capacity,
            ),
            authorizer: PeerAuthorizer::with_capacity(
                config.max_peers,
                config.recent_peer_grace_millis,
            ),
            force_resync: false,
            last_send_millis: 0,
            metrics: GossipMetrics::default(),
        }
    }

    pub fn metrics(&self) -> (metrics: GossipMetrics)
        ensures
            metrics == self@.metrics,
    {
        self.metrics
    }

    fn local_usage(&self, limiter: &LocalEngine) -> (usage: GossipSpaceUsage)
        ensures
            usage == usage_of(limiter@),
    {
        let summary = limiter.storage_summary();
        GossipSpaceUsage {
            active_cells: summary.active_cells,
            max_cells: summary.max_cells,
            dirty_cells: summary.dirty_ring_len,
            dirty_capacity: summary.dirty_ring_capacity,
            dirty_overflowed: summary.dirty_overflow,
        }
    }

    /// The cells to send, and a digest of all of them.
    fn collect_dirty_cells(&mut self, limiter: &LocalEngine) -> (chosen: (
        ShardDigest,
        Vec<CounterCell>,
    ))
        requires
            old(self).wf(),
            limiter.wf(),
        ensures
            final(self).wf(),
            final(self).spec_config() == old(self).spec_config(),
            chosen.0 == digested(all_as_sent(cells_of(limiter@.slots)), 0, 1),
            chosen.1@ == chosen_cells(old(self).spec_config(), old(self)@, limiter@),
            final(self)@ == (GossipState {
                force_resync: false,
                metrics: if resyncs(old(self)@, limiter@) {
                    GossipMetrics {
                        dirty_overflow: raised_by(old(self)@.metrics.dirty_overflow, 1),
                        ..old(self)@.metrics
                    }
                } else {
                    old(self)@.metrics
                },
                ..old(self)@
            }),
    {
        let cells = limiter.cells();
        let total: usize = cells.len();
        let all = convert_cells(&cells, total);
        assert(all@ =~= all_as_sent(cells_of(limiter@.slots)));
        let digest = digest_cells(all.as_slice(), 0, 1);
        let limit: usize = self.config.max_cells_per_frame;
        let chosen = if limiter.dirty_overflowed() || self.force_resync {
            self.metrics.dirty_overflow = self.metrics.dirty_overflow.saturating_add(1);
            self.force_resync = false;
            convert_cells(&cells, limit)
        } else {
            convert_cells(&limiter.dirty_cells(), limit)
        };
        (digest, chosen)
    }

    /// Writes the frame to send.
    fn build_frame(&mut self, limiter: &LocalEngine, now_millis: u64) -> (frame: (Vec<u8>, usize))
        requires
            old(self).wf(),
            limiter.wf(),
        ensures
            final(self).wf(),
            final(self).spec_config() == old(self).spec_config(),
            frame.0@ == outgoing(old(self).spec_config(), old(self)@, limiter@).0,
            frame.1 == chosen_cells(old(self).spec_config(), old(self)@, limiter@).len(),
            final(self)@ == after_send(
                old(self).spec_config(),
                old(self)@,
                limiter@,
                now_millis,
            ),
    {
        let ghost before = self@;
        let ghost config = self.config;
        let (digest, cells) = self.collect_dirty_cells(limiter);
        let mut digests: Vec<ShardDigest> = Vec::new();
        digests.push(digest);
        assert(digests@ =~= seq![digested(all_as_sent(cells_of(limiter@.slots)), 0, 1)]);
        let header = GossipHeader {
            cluster_id_hash: (self.config.cluster_id_hash % 0x1_0000_0000_0000_0000) as u64,
            sender_node_id: self.config.sender_node_id,
            sender_incarnation: self.config.sender_incarnation,
            min_bucket: 0,
            max_bucket: 0,
            flags: 0,
        };
        let mut frame: Vec<u8> = Vec::new();
        let cut: bool = match self.config.auth_key {
            Some(key) => encode_authenticated_message_parts(
                header,
                digests.as_slice(),
                cells.as_slice(),
                false,
                key,
                &mut frame,
                GossipLimits {
                    max_payload_bytes: self.config.max_payload_bytes,
                    max_digests: MAX_DIGESTS,
                    max_cells: self.config.max_cells_per_frame,
                },
            ),
            None => encode_message_parts(
                header,
                digests.as_slice(),
                cells.as_slice(),
                false,
                &mut frame,
                self.config.max_payload_bytes,
            ),
        };
        self.metrics.record_send(frame.len(), cut);
        self.last_send_millis = now_millis;
        assert(self@ =~= after_send(config, before, limiter@, now_millis));
        (frame, cells.len())
    }

    /// Reads a frame, as far as it concerns this node.
    fn read_frame(&self, payload: &[u8]) -> (read: (
        Result<DecodedMessageSummary, DecodeError>,
        Vec<ShardDigest>,
        Vec<CounterCell>,
    ))
        ensures
            (FrameRead { result: read.0, digests: read.1@, cells: read.2@ }) == frame_read(
                self.spec_config(),
                payload@,
            ),
    {
        let config = self.config;
        let limits = GossipLimits {
            max_payload_bytes: config.max_payload_bytes,
            max_digests: MAX_DIGESTS,
            max_cells: config.max_cells_per_frame,
        };
        let tag: u64 = (config.cluster_id_hash % 0x1_0000_0000_0000_0000) as u64;
        let own = config.sender_node_id;
        let accept_header = |header: GossipHeader| -> (accepted: bool)
            ensures
                accepted == (header.cluster_id_hash == tag && header.sender_node_id != own),
            { header.cluster_id_hash == tag && header.sender_node_id != own };
        let mut digests: Vec<ShardDigest> = Vec::new();
        let mut cells: Vec<CounterCell> = Vec::new();
        assert(limits == frame_limits(config));
        let result = match config.auth_key {
            Some(key) => decode_authenticated_message_visit_checked(
                payload,
                key,
                limits,
                accept_header,
                &mut digests,
                &mut cells,
            ),
            None => decode_message_visit_checked(
                payload,
                limits,
                accept_header,
                &mut digests,
                &mut cells,
            ),
        };
        proof {
            let read = frame_read(config, payload@);
            assert(digests@ =~= read.digests);
            assert(cells@ =~= read.cells);
        }
        (result, digests, cells)
    }

    /// Merges cells one after the other. Returns how many changed something,
    /// and whether the table had no room for one.
    fn merge_cells(
        &mut self,
        limiter: &mut LocalEngine,
        cells: &Vec<CounterCell>,
        now_millis: u64,
    ) -> (merged: (usize, bool))
        requires
            old(self).wf(),
            old(limiter).wf(),
        ensures
            final(self).wf(),
            final(self).spec_config() == old(self).spec_config(),
            final(limiter).wf(),
            final(limiter).spec_rules() == old(limiter).spec_rules(),
            (MergedCells {
                remote: final(self)@.remote,
                engine: final(limiter)@,
                changed: merged.0 as nat,
                full: merged.1,
            }) == merged_cells(
                old(self)@.remote,
                old(limiter)@,
                old(limiter).spec_rules(),
                cells@,
                now_millis,
            ),
            final(self)@ == (GossipState { remote: final(self)@.remote, ..old(self)@ }),
    {
        let ghost before = self@;
        let ghost engine = limiter@;
        let ghost rules = limiter.spec_rules();
        let ghost config = self.config;
        let mut merged: usize = 0;
        let mut full: bool = false;
        let n: usize = cells.len();
        let mut i: usize = 0;
        assert(cells@.take(0) =~= Seq::<CounterCell>::empty());
        while i < n
            invariant
                i <= n == cells@.len(),
                self.wf(),
                limiter.wf(),
                limiter.spec_rules() == rules,
                self.config == config,
                merged <= i,
                self@ == (GossipState { remote: self@.remote, ..before }),
                (MergedCells {
                    remote: self@.remote,
                    engine: limiter@,
                    changed: merged as nat,
                    full,
                }) == merged_cells(
                    before.remote,
                    engine,
                    rules,
                    cells@.take(i as int),
                    now_millis,
                ),
            decreases n - i,
        {
            assert(cells@.take(i + 1).drop_last() =~= cells@.take(i as int));
            match self.remote.merge_remote(cells[i], Some(&mut *limiter), now_millis) {
                Ok(outcome) => {
                    if outcome.changed {
                        merged = merged + 1;
                    }
                },
                Err(_) => {
                    full = true;
                },
            }
            i = i + 1;
        }
        assert(cells@.take(n as int) =~= cells@);
        (merged, full)
    }

    /// Merges a frame of a known sender. Returns how many cells changed
    /// something.
    fn merge_frame(&mut self, limiter: &mut LocalEngine, payload: &[u8], now_millis: u64) -> (
        merged: usize)
        requires
            old(self).wf(),
            old(limiter).wf(),
        ensures
            final(self).wf(),
            final(self).spec_config() == old(self).spec_config(),
            final(limiter).wf(),
            final(limiter).spec_rules() == old(limiter).spec_rules(),
            (final(self)@, final(limiter)@, merged as nat) == frame_merged(
                old(self).spec_config(),
                old(self)@,
                old(limiter)@,
                old(limiter).spec_rules(),
                payload@,
                now_millis,
            ),
    {
        let ghost before = self@;
        let ghost config = self.config;
        let ghost read = frame_read(config, payload@);
        let (result, digests, cells) = self.read_frame(payload);
        let (merged, full) = self.merge_cells(limiter, &cells, now_millis);
        self.metrics.merge_cells = self.metrics.merge_cells.saturating_add(merged as u64);
        let failed: bool = match result {
            Ok(_) => false,
            Err(error) => {
                if error == DecodeError::AuthenticationFailed {
                    self.metrics.auth_failures = self.metrics.auth_failures.saturating_add(1);
                }
                true
            },
        };
        if failed || full {
            self.metrics.decode_errors = self.metrics.decode_errors.saturating_add(1);
        }
        if digests.len() > 0 {
            let digest = digests[digests.len() - 1];
            if self.remote.digest(digest.shard_id, 1) != digest {
                self.metrics.digest_mismatch = self.metrics.digest_mismatch.saturating_add(1);
                self.force_resync = true;
            }
        }
        merged
    }

    /// Takes in a frame. Unknown senders are turned away unread.
    fn receive(
        &mut self,
        limiter: &mut LocalEngine,
        summary: &mut GossipTickSummary,
        peer: Peer,
        payload: &[u8],
        now_millis: u64,
    )
        requires
            old(self).wf(),
            old(limiter).wf(),
        ensures
            final(self).wf(),
            final(self).spec_config() == old(self).spec_config(),
            final(limiter).wf(),
            final(limiter).spec_rules() == old(limiter).spec_rules(),
            (TickState {
                gossip: final(self)@,
                engine: final(limiter)@,
                summary: *final(summary),
            }) == frame_taken(
                old(self).spec_config(),
                (TickState {
                    gossip: old(self)@,
                    engine: old(limiter)@,
                    summary: *old(summary),
                }),
                old(limiter).spec_rules(),
                peer,
                payload@,
                now_millis,
            ),
    {
        let ghost before = TickState { gossip: self@, engine: limiter@, summary: *summary };
        let ghost config = self.config;
        let ghost rules = limiter.spec_rules();
        if !self.authorizer.accepts(peer, now_millis) {
            summary.peer_rejected = summary.peer_rejected.saturating_add(1);
            assert(self@ =~= frame_taken(config, before, rules, peer, payload@, now_millis).gossip);
            return;
        }
        let len: usize = payload.len();
        self.metrics.record_recv(len);
        proof {
            assert(self@ =~= (GossipState {
                listening: before.gossip.listening.expired(now_millis),
                metrics: before.gossip.metrics.received(payload@.len() as usize),
                ..before.gossip
            }));
        }
        summary.frames_received = summary.frames_received.saturating_add(1);
        let merged: usize = self.merge_frame(limiter, payload, now_millis);
        summary.cells_merged = summary.cells_merged.saturating_add(merged);
    }

    /// One round of gossip at `now_millis`: looks at membership, sends a frame
    /// to the first `fanout` peers if there is a reason to, and takes in what
    /// has come.
    pub fn tick<T: GossipTransport>(
        &mut self,
        limiter: &mut LocalEngine,
        snapshot: &PeerSnapshot,
        transport: &mut T,
        inbox: &[InboundFrame],
        now_millis: u64,
    ) -> (summary: GossipTickSummary)
        requires
            old(self).wf(),
            old(limiter).wf(),
        ensures
            final(self).wf(),
            final(self).spec_config() == old(self).spec_config(),
            final(limiter).wf(),
            final(limiter).spec_rules() == old(limiter).spec_rules(),
            ticked(
                old(self).spec_config(),
                TickState { gossip: old(self)@, engine: old(limiter)@, summary: blank_summary() },
                old(limiter).spec_rules(),
                snapshot,
                (*old(transport), *final(transport)),
                inbox@,
                now_millis,
                TickState { gossip: final(self)@, engine: final(limiter)@, summary },
            ),
    {
        let ghost config = self.config;
        let ghost before = self@;
        let ghost engine = limiter@;
        let ghost rules = limiter.spec_rules();
        let peers = snapshot.peers();
        self.authorizer.update(now_millis, peers.as_slice());
        let ghost state = self@;
        assert(state =~= (GossipState {
            listening: before.listening.updated(now_millis, snapshot@),
            ..before
        }));
        let mut summary = GossipTickSummary {
            peers_seen: peers.len(),
            peers_sent: 0,
            send_failures: 0,
            cells_sent: 0,
            frames_received: 0,
            cells_merged: 0,
            peer_rejected: 0,
            local_only: snapshot.local_only(),
            discovery_stale: snapshot.stale(),
            send_reason: None,
        };
        let ghost mut outcomes: Seq<bool> = Seq::empty();
        if !snapshot.local_only() {
            let reason = if self.force_resync {
                Some(GossipSendReason::DirtyOverflow)
            } else {
                self.config.send_policy.should_send(
                    now_millis,
                    self.last_send_millis,
                    self.local_usage(limiter),
                )
            };
            summary.send_reason = reason;
            if reason.is_some() {
                let (frame, cells) = self.build_frame(limiter, now_millis);
                summary.cells_sent = cells;
                let len: usize = peers.len();
                let fanout: usize = self.config.fanout;
                let n: usize = if len < fanout { len } else { fanout };
                let ghost chosen = targets(config, snapshot@);
                let ghost mut states: Seq<T> = seq![*transport];
                let mut i: usize = 0;
                while i < n
                    invariant
                        i <= n <= peers@.len(),
                        n == chosen.len(),
                        peers@ == snapshot@,
                        chosen == targets(config, snapshot@),
                        outcomes.len() == i,
                        states.len() == i + 1,
                        states[0] == *old(transport),
                        states.last() == *transport,
                        forall|j: int|
                            0 <= j < i ==> T::handed(
                                states[j],
                                states[j + 1],
                                chosen[j],
                                frame@,
                                #[trigger] outcomes[j],
                            ),
                        count_true(outcomes) <= i,
                        summary == (GossipTickSummary {
                            peers_seen: snapshot@.len() as usize,
                            local_only: false,
                            discovery_stale: snapshot.spec_stale(),
                            send_reason: reason,
                            cells_sent: cells,
                            peers_sent: count_true(outcomes) as usize,
                            send_failures: (outcomes.len() - count_true(outcomes)) as usize,
                            ..blank_summary()
                        }),
                    decreases n - i,
                {
                    let sent: bool = transport.send_to(peers[i], frame.as_slice());
                    if sent {
                        summary.peers_sent = summary.peers_sent.saturating_add(1);
                    } else {
                        summary.send_failures = summary.send_failures.saturating_add(1);
                    }
                    proof {
                        let earlier = outcomes;
                        let passed = states;
                        outcomes = outcomes.push(sent);
                        states = states.push(*transport);
                        assert(outcomes.drop_last() =~= earlier);
                        assert forall|j: int| 0 <= j < i + 1 implies T::handed(
                            states[j],
                            states[j + 1],
                            chosen[j],
                            frame@,
                            #[trigger] outcomes[j],
                        ) by {
                            assert(states[j] == passed[j]);
                            if j < i {
                                assert(states[j + 1] == passed[j + 1]);
                                assert(outcomes[j] == earlier[j]);
                            }
                        }
                    }
                    i = i + 1;
                }
                assert(frame_sent_to(states, chosen, frame@, outcomes));
            }
        }
        let ghost start = TickState { gossip: self@, engine, summary };
        assert(start =~= tick_sent(
            config,
            before,
            engine,
            snapshot@,
            snapshot.spec_stale(),
            now_millis,
            outcomes,
        ));
        assert(sends_made(
            config,
            before,
            engine,
            snapshot@,
            now_millis,
            (*old(transport), *transport),
            outcomes,
        ));
        let n: usize = inbox.len();
        let mut i: usize = 0;
        assert(inbox@.take(0) =~= Seq::<InboundFrame>::empty());
        while i < n
            invariant
                i <= n == inbox@.len(),
                self.wf(),
                self.spec_config() == config,
                limiter.wf(),
                limiter.spec_rules() == rules,
                (TickState { gossip: self@, engine: limiter@, summary }) == frames_taken(
                    config,
                    start,
                    rules,
                    inbox@.take(i as int),
                    now_millis,
                ),
            decreases n - i,
        {
            assert(inbox@.take(i + 1).drop_last() =~= inbox@.take(i as int));
            self.receive(
                limiter,
                &mut summary,
                inbox[i].peer,
                inbox[i].payload.as_slice(),
                now_millis,
            );
            i = i + 1;
        }
        assert(inbox@.take(n as int) =~= inbox@);
        summary
    }
}

/// A frame of an unknown sender changes nothing but the count of rejected
/// senders: it is neither counted as received nor decoded nor merged.
pub proof fn lemma_unknown_sender_ignored(
    config: StandaloneGossipConfig,
    tick: TickState,
    rules: Seq<LocalRule>,
    peer: Peer,
    payload: Seq<u8>,
    now: u64,
)
    requires
        !tick.gossip.listening.hears(peer, now),
    ensures
        ({
            let after = frame_taken(config, tick, rules, peer, payload, now);
            &&& after.engine == tick.engine
            &&& after.gossip.remote == tick.gossip.remote
            &&& after.gossip.metrics == tick.gossip.metrics
            &&& after.summary.frames_received == tick.summary.frames_received
            &&& after.summary.cells_merged == tick.summary.cells_merged
            &&& after.summary.peer_rejected == capped_count(tick.summary.peer_rejected, 1)
        }),
{
}

/// A frame never carries more cells than allowed. Once changes have been
/// forgotten it carries all cells, as far as they fit: nothing stays unsent for
/// having been forgotten.
pub proof fn lemma_resync_bounded(
    config: StandaloneGossipConfig,
    state: GossipState,
    engine: EngineState,
)
    ensures
        chosen_cells(config, state, engine).len() <= config.max_cells_per_frame,
        resyncs(state, engine) && engine.slots.len() <= config.max_cells_per_frame
            ==> chosen_cells(config, state, engine) == all_as_sent(cells_of(engine.slots)),
        resyncs(state, engine) && engine.slots.len() > config.max_cells_per_frame
            ==> chosen_cells(config, state, engine).len() == config.max_cells_per_frame,
{
}

proof fn lemma_unexpired_twice(recent: Seq<RecentPeer>, now: u64)
    ensures
        unexpired(unexpired(recent, now), now) == unexpired(recent, now),
    decreases recent.len(),
{
    if recent.len() > 0 {
        let before = unexpired(recent.drop_last(), now);
        lemma_unexpired_twice(recent.drop_last(), now);
        if recent.last().expires_millis > now {
            assert(before.push(recent.last()).drop_last() =~= before);
        }
    }
}

proof fn lemma_frames_listen(
    config: StandaloneGossipConfig,
    tick: TickState,
    rules: Seq<LocalRule>,
    inbox: Seq<InboundFrame>,
    now: u64,
)
    ensures
        frames_taken(config, tick, rules, inbox, now).gossip.listening == if inbox.len() == 0 {
            tick.gossip.listening
        } else {
            tick.gossip.listening.expired(now)
        },
    decreases inbox.len(),
{
    if inbox.len() > 0 {
        lemma_frames_listen(config, tick, rules, inbox.drop_last(), now);
        lemma_unexpired_twice(tick.gossip.listening.recent, now);
    }
}

/// A tick leaves a node listening to whom the look at membership says, whatever
/// is sent and whatever comes in.
pub proof fn lemma_tick_listens<T: GossipTransport>(
    config: StandaloneGossipConfig,
    before: TickState,
    rules: Seq<LocalRule>,
    snapshot: &PeerSnapshot,
    transports: (T, T),
    inbox: Seq<InboundFrame>,
    now: u64,
    after: TickState,
)
    requires
        ticked(config, before, rules, snapshot, transports, inbox, now, after),
    ensures
        after.gossip.listening == before.gossip.listening.looked(
            Look { now, peers: snapshot@, frames: inbox.len() > 0 },
        ),
{
    let outcomes = choose|outcomes: Seq<bool>| #[trigger]
        sends_made(
            config,
            before.gossip,
            before.engine,
            snapshot@,
            now,
            transports,
            outcomes,
        ) && after == ticked_with(config, before, rules, snapshot, inbox, now, outcomes);
    lemma_frames_listen(
        config,
        tick_sent(
            config,
            before.gossip,
            before.engine,
            snapshot@,
            snapshot.spec_stale(),
            now,
            outcomes,
        ),
        rules,
        inbox,
        now,
    );
}

/// A frame of a known sender is counted, with its bytes, and no sender is
/// turned away for it.
pub proof fn lemma_known_sender_received(
    config: StandaloneGossipConfig,
    tick: TickState,
    rules: Seq<LocalRule>,
    peer: Peer,
    payload: Seq<u8>,
    now: u64,
)
    requires
        tick.gossip.listening.hears(peer, now),
    ensures
        ({
            let after = frame_taken(config, tick, rules, peer, payload, now);
            &&& after.summary.frames_received == capped_count(tick.summary.frames_received, 1)
            &&& after.summary.peer_rejected == tick.summary.peer_rejected
            &&& after.gossip.metrics.recv_bytes == tick.gossip.metrics.received(
                payload.len() as usize,
            ).recv_bytes
        }),
{
}

/// A tick with one frame in its inbox takes that frame in exactly if the look
/// at membership leaves its sender listened to, and turns it away otherwise.
pub proof fn lemma_single_frame_tick<T: GossipTransport>(
    config: StandaloneGossipConfig,
    before: TickState,
    rules: Seq<LocalRule>,
    snapshot: &PeerSnapshot,
    transports: (T, T),
    inbox: Seq<InboundFrame>,
    now: u64,
    after: TickState,
)
    requires
        inbox.len() == 1,
        ticked(config, before, rules, snapshot, transports, inbox, now, after),
    ensures
        if before.gossip.listening.updated(now, snapshot@).hears(inbox[0].peer, now) {
            &&& after.summary.frames_received == 1
            &&& after.summary.peer_rejected == 0
            &&& after.gossip.metrics.recv_bytes == raised_by(
                before.gossip.metrics.recv_bytes,
                inbox[0].payload@.len() as usize as int,
            )
        } else {
            &&& after.summary.frames_received == 0
            &&& after.summary.peer_rejected == 1
            &&& after.gossip.metrics.recv_bytes == before.gossip.metrics.recv_bytes
        },
{
    let outcomes = choose|outcomes: Seq<bool>| #[trigger]
        sends_made(
            config,
            before.gossip,
            before.engine,
            snapshot@,
            now,
            transports,
            outcomes,
        ) && after == ticked_with(config, before, rules, snapshot, inbox, now, outcomes);
    let start = tick_sent(
        config,
        before.gossip,
        before.engine,
        snapshot@,
        snapshot.spec_stale(),
        now,
        outcomes,
    );
    assert(frames_taken(config, start, rules, inbox.drop_last(), now) == start);
    assert(after == frame_taken(
        config,
        start,
        rules,
        inbox[0].peer,
        inbox[0].payload@,
        now,
    ));
}

/// A peer that leaves is heard until its grace has passed: after a fresh node
/// has ticked with the peer, and then without it, one frame of the peer at a
/// third tick is taken in exactly within the grace period after the second.
pub proof fn lemma_departed_peer_heard<A, B, C>(
    config: StandaloneGossipConfig,
    rules: (Seq<LocalRule>, Seq<LocalRule>, Seq<LocalRule>),
    befores: (TickState, TickState, TickState),
    snapshots: (&PeerSnapshot, &PeerSnapshot, &PeerSnapshot),
    transports: ((A, A), (B, B), (C, C)),
    inboxes: (Seq<InboundFrame>, Seq<InboundFrame>, Seq<InboundFrame>),
    nows: (u64, u64, u64),
    afters: (TickState, TickState, TickState),
) where A: GossipTransport, B: GossipTransport, C: GossipTransport
    requires
        befores.0.gossip.listening == (Listening {
            current: Seq::empty(),
            recent: Seq::empty(),
            max_peers: config.max_peers as nat,
            grace_millis: config.recent_peer_grace_millis,
        }),
        ticked(
            config,
            befores.0,
            rules.0,
            snapshots.0,
            transports.0,
            inboxes.0,
            nows.0,
            afters.0,
        ),
        befores.1.gossip == afters.0.gossip,
        ticked(
            config,
            befores.1,
            rules.1,
            snapshots.1,
            transports.1,
            inboxes.1,
            nows.1,
            afters.1,
        ),
        befores.2.gossip == afters.1.gossip,
        ticked(
            config,
            befores.2,
            rules.2,
            snapshots.2,
            transports.2,
            inboxes.2,
            nows.2,
            afters.2,
        ),
        inboxes.2.len() == 1,
        afters.0.gossip.listening.current.contains(inboxes.2[0].peer),
        !snapshots.1@.contains(inboxes.2[0].peer),
        snapshots.2@ == snapshots.1@,
        nows.1 <= nows.2,
        nows.1 + config.recent_peer_grace_millis <= u64::MAX || nows.2 < u64::MAX,
    ensures
        if nows.2 < nows.1 + config.recent_peer_grace_millis {
            &&& afters.2.summary.frames_received == 1
            &&& afters.2.summary.peer_rejected == 0
            &&& afters.2.gossip.metrics.recv_bytes == raised_by(
                befores.2.gossip.metrics.recv_bytes,
                inboxes.2[0].payload@.len() as usize as int,
            )
        } else {
            &&& afters.2.summary.frames_received == 0
            &&& afters.2.summary.peer_rejected == 1
            &&& afters.2.gossip.metrics.recv_bytes == befores.2.gossip.metrics.recv_bytes
        },
{
    lemma_tick_listens(
        config,
        befores.0,
        rules.0,
        snapshots.0,
        transports.0,
        inboxes.0,
        nows.0,
        afters.0,
    );
    lemma_tick_listens(
        config,
        befores.1,
        rules.1,
        snapshots.1,
        transports.1,
        inboxes.1,
        nows.1,
        afters.1,
    );
    lemma_single_frame_tick(
        config,
        befores.2,
        rules.2,
        snapshots.2,
        transports.2,
        inboxes.2,
        nows.2,
        afters.2,
    );
    lemma_grace_after_first_departure(
        config.max_peers as nat,
        config.recent_peer_grace_millis,
        Look { now: nows.0, peers: snapshots.0@, frames: inboxes.0.len() > 0 },
        Look { now: nows.1, peers: snapshots.1@, frames: inboxes.1.len() > 0 },
        inboxes.2[0].peer,
        nows.2,
    );
}

/// Whether two inboxes hold the same frames.
pub open spec fn same_frames(a: Seq<InboundFrame>, b: Seq<InboundFrame>) -> bool {
    &&& a.len() == b.len()
    &&& forall|i: int|
        0 <= i < a.len() ==> (#[trigger] a[i]).peer == b[i].peer && a[i].payload@ == b[i].payload@
}

proof fn lemma_frames_taken_alike(
    config: StandaloneGossipConfig,
    tick: TickState,
    rules: Seq<LocalRule>,
    a: Seq<InboundFrame>,
    b: Seq<InboundFrame>,
    now: u64,
)
    requires
        same_frames(a, b),
    ensures
        frames_taken(config, tick, rules, a, now) == frames_taken(config, tick, rules, b, now),
    decreases a.len(),
{
    if a.len() > 0 {
        assert(a.last() == a[a.len() - 1]);
        assert forall|i: int| 0 <= i < a.len() - 1 implies (#[trigger] a.drop_last()[i]).peer
            == b.drop_last()[i].peer && a.drop_last()[i].payload@
            == b.drop_last()[i].payload@ by {
            assert(a[i].peer == b[i].peer);
        }
        lemma_frames_taken_alike(config, tick, rules, a.drop_last(), b.drop_last(), now);
    }
}

proof fn lemma_frame_taken_counts(
    config: StandaloneGossipConfig,
    a: TickState,
    b: TickState,
    rules: Seq<LocalRule>,
    inbox: Seq<InboundFrame>,
    now: u64,
)
    requires
        alike_but_answers(a, b),
    ensures
        alike_but_answers(
            frames_taken(config, a, rules, inbox, now),
            frames_taken(config, b, rules, inbox, now),
        ),
    decreases inbox.len(),
{
    if inbox.len() > 0 {
        lemma_frame_taken_counts(config, a, b, rules, inbox.drop_last(), now);
    }
}

/// Whether two ticks came to the same but for how many sends went through.
pub open spec fn alike_but_answers(a: TickState, b: TickState) -> bool {
    &&& a.gossip == b.gossip
    &&& a.engine == b.engine
    &&& a.summary == (GossipTickSummary {
        peers_sent: a.summary.peers_sent,
        send_failures: a.summary.send_failures,
        ..b.summary
    })
}

/// A tick depends on nothing but the state, its inputs, the given time and what
/// the network answers: two nodes with the same configuration, state and rules
/// that see the same membership and the same frames at the same time come to
/// the same state and report the same, but for the counts of sends that went
/// through and that did not; if the same sends went through, these are the same
/// too. What they send, and to whom in which order, is the same whatever the
/// answers (`sends_made`).
pub proof fn lemma_ticks_alike(
    config: StandaloneGossipConfig,
    before: TickState,
    rules: Seq<LocalRule>,
    snapshot_a: &PeerSnapshot,
    snapshot_b: &PeerSnapshot,
    inbox_a: Seq<InboundFrame>,
    inbox_b: Seq<InboundFrame>,
    now: u64,
    answers_a: Seq<bool>,
    answers_b: Seq<bool>,
)
    requires
        snapshot_a@ == snapshot_b@,
        snapshot_a.spec_stale() == snapshot_b.spec_stale(),
        same_frames(inbox_a, inbox_b),
    ensures
        ({
            let a = ticked_with(config, before, rules, snapshot_a, inbox_a, now, answers_a);
            let b = ticked_with(config, before, rules, snapshot_b, inbox_b, now, answers_b);
            &&& alike_but_answers(a, b)
            &&& answers_a == answers_b ==> a == b
        }),
{
    let peers = snapshot_a@;
    let stale = snapshot_a.spec_stale();
    let start_a = tick_sent(config, before.gossip, before.engine, peers, stale, now, answers_a);
    let start_b = tick_sent(config, before.gossip, before.engine, peers, stale, now, answers_b);
    lemma_frames_taken_alike(config, start_a, rules, inbox_a, inbox_b, now);
    lemma_frame_taken_counts(config, start_a, start_b, rules, inbox_b, now);
}

/// Whether a transport's state fixes what becomes of a send.
pub open spec fn predictable<T: GossipTransport>() -> bool {
    forall|t: T, u: T, v: T, peer: Peer, frame: Seq<u8>, x: bool, y: bool|
        #[trigger] T::handed(t, u, peer, frame, x) && #[trigger] T::handed(t, v, peer, frame, y)
            ==> u == v && x == y
}

proof fn lemma_sends_alike<T: GossipTransport>(
    a: Seq<T>,
    b: Seq<T>,
    to: Seq<Peer>,
    frame: Seq<u8>,
    x: Seq<bool>,
    y: Seq<bool>,
    n: int,
)
    requires
        predictable::<T>(),
        frame_sent_to(a, to, frame, x),
        frame_sent_to(b, to, frame, y),
        a[0] == b[0],
        0 <= n <= to.len(),
    ensures
        a[n] == b[n],
        forall|i: int| 0 <= i < n ==> x[i] == y[i],
    decreases n,
{
    if n > 0 {
        lemma_sends_alike(a, b, to, frame, x, y, n - 1);
        let last = n - 1;
        assert(T::handed(a[last], a[last + 1], to[last], frame, x[last]));
        assert(T::handed(b[last], b[last + 1], to[last], frame, y[last]));
    }
}

/// Over transports whose state fixes what becomes of a send, ticks are
/// deterministic: from the same start, and with the same inputs at the same
/// time, node, limiter, transport and report come out the same.
pub proof fn lemma_ticks_deterministic<T: GossipTransport>(
    config: StandaloneGossipConfig,
    before: TickState,
    rules: Seq<LocalRule>,
    snapshot: &PeerSnapshot,
    transport: T,
    inbox: Seq<InboundFrame>,
    now: u64,
    then_a: T,
    then_b: T,
    after_a: TickState,
    after_b: TickState,
)
    requires
        predictable::<T>(),
        ticked(config, before, rules, snapshot, (transport, then_a), inbox, now, after_a),
        ticked(config, before, rules, snapshot, (transport, then_b), inbox, now, after_b),
    ensures
        after_a == after_b,
        then_a == then_b,
{
    let state = GossipState {
        listening: before.gossip.listening.updated(now, snapshot@),
        ..before.gossip
    };
    let to = targets(config, snapshot@);
    let due = outgoing(config, state, before.engine).0;
    let x = choose|outcomes: Seq<bool>| #[trigger]
        sends_made(
            config,
            before.gossip,
            before.engine,
            snapshot@,
            now,
            (transport, then_a),
            outcomes,
        ) && after_a == ticked_with(config, before, rules, snapshot, inbox, now, outcomes);
    let y = choose|outcomes: Seq<bool>| #[trigger]
        sends_made(
            config,
            before.gossip,
            before.engine,
            snapshot@,
            now,
            (transport, then_b),
            outcomes,
        ) && after_b == ticked_with(config, before, rules, snapshot, inbox, now, outcomes);
    if send_reason(config, state, before.engine, snapshot@.len(), now) is Some {
        let a = choose|states: Seq<T>|
            {
                &&& #[trigger] frame_sent_to(states, to, due, x)
                &&& states[0] == transport
                &&& states.last() == then_a
            };
        let b = choose|states: Seq<T>|
            {
                &&& #[trigger] frame_sent_to(states, to, due, y)
                &&& states[0] == transport
                &&& states.last() == then_b
            };
        lemma_sends_alike(a, b, to, due, x, y, to.len() as int);
    }
    assert(x =~= y);
}

// -- setup and introspection ------------------------------------------------

/// The part in the gossip that a configuration asks for.
pub open spec fn config_for(config: GossipConfig, remote_cell_capacity: usize) -> StandaloneGossipConfig {
    StandaloneGossipConfig {
        cluster_id_hash: config.cluster_id_hash,
        sender_node_id: NodeId { hi: 0, lo: 1 },
        sender_incarnation: 1,
        fanout: if config.fanout == 0 {
            1
        } else {
            config.fanout
        },
        max_payload_bytes: if config.max_payload_bytes < HEADER_LEN {
            HEADER_LEN
        } else {
            config.max_payload_bytes
        },
        max_cells_per_frame: if config.max_cells_per_frame == 0 {
            1
        } else {
            config.max_cells_per_frame
        },
        remote_cell_capacity,
        remote_dirty_capacity: remote_cell_capacity,
        auth_key: None,
        max_peers: 128,
        recent_peer_grace_millis: 30_000,
        send_policy: GossipSendPolicy { linger_ms: config.linger_ms },
    }
}

impl StandaloneGossipConfig {
    /// The part in the gossip that a configuration asks for. Fanout and cells
    /// per frame are at least one, and a payload has room for a header.
    pub fn from_config(config: &GossipConfig, remote_cell_capacity: usize) -> (standalone: Self)
        ensures
            standalone == config_for(*config, remote_cell_capacity),
    {
        StandaloneGossipConfig {
            cluster_id_hash: config.cluster_id_hash,
            sender_node_id: NodeId::from_u128(1),
            sender_incarnation: 1,
            fanout: if config.fanout == 0 { 1 } else { config.fanout },
            max_payload_bytes: if config.max_payload_bytes < HEADER_LEN {
                HEADER_LEN
            } else {
                config.max_payload_bytes
            },
            max_cells_per_frame: if config.max_cells_per_frame == 0 {
                1
            } else {
                config.max_cells_per_frame
            },
            remote_cell_capacity,
            remote_dirty_capacity: remote_cell_capacity,
            auth_key: None,
            max_peers: 128,
            recent_peer_grace_millis: 30_000,
            send_policy: GossipSendPolicy::with_linger_ms(config.linger_ms),
        }
    }
}

/// How often to wake for a given linger: four times as often, at most once a
/// millisecond.
pub fn wake_millis(linger_ms: u64) -> (wake: u64)
    ensures
        wake >= 1,
        linger_ms == 0 ==> wake == 1,
        linger_ms > 0 ==> 4 * wake >= linger_ms && 4 * (wake - 1) < linger_ms,
{
    let linger: u64 = if linger_ms == 0 { 1 } else { linger_ms };
    if linger % 4 == 0 {
        linger / 4
    } else {
        linger / 4 + 1
    }
}

/// A peer that left, as it is reported.
#[derive(Clone, Copy, Debug, PartialEq, Eq, Structural)]
pub struct RecentPeerSnapshot {
    pub addr: PeerAddr,
    pub expires_millis: u64,
}

/// A report on a node's gossip.
#[derive(Debug)]
pub struct GossipAdminSnapshot {
    pub cluster_id_hash: u128,
    pub sender_node_id: NodeId,
    pub sender_incarnation: u64,
    pub active_peers: Vec<PeerAddr>,
    pub recent_peers: Vec<RecentPeerSnapshot>,
    pub discovery_generation: u64,
    pub local_only: bool,
    pub discovery_stale: bool,
    pub remote_active_cells: usize,
    pub remote_cell_capacity: usize,
    pub remote_dirty_ring_len: usize,
    pub remote_dirty_overflow: bool,
    pub remote_cells_sample: Vec<CounterCell>,
    pub metrics: GossipMetrics,
}

impl StandaloneGossipRuntime {
    /// Reports on the gossip. Of the cells heard of, no more than a frame holds
    /// are shown.
    pub fn admin_snapshot(&self, snapshot: &PeerSnapshot) -> (report: GossipAdminSnapshot)
        ensures
            report.cluster_id_hash == self.spec_config().cluster_id_hash,
            report.sender_node_id == self.spec_config().sender_node_id,
            report.sender_incarnation == self.spec_config().sender_incarnation,
            report.active_peers@ == Seq::new(snapshot@.len(), |i: int| snapshot@[i].addr),
            report.recent_peers@ == Seq::new(
                self@.listening.recent.len(),
                |i: int|
                    RecentPeerSnapshot {
                        addr: self@.listening.recent[i].peer.addr,
                        expires_millis: self@.listening.recent[i].expires_millis,
                    },
            ),
            report.discovery_generation == snapshot.spec_generation(),
            report.local_only == (snapshot@.len() == 0),
            report.discovery_stale == snapshot.spec_stale(),
            report.remote_active_cells == self@.remote.cells.len(),
            report.remote_cell_capacity == self@.remote.capacity,
            report.remote_dirty_ring_len == self@.remote.dirty.len(),
            report.remote_dirty_overflow == self@.remote.overflowed,
            report.remote_cells_sample@ == at_most(
                self@.remote.cells,
                self.spec_config().max_cells_per_frame as nat,
            ),
            report.metrics == self@.metrics,
    {
        GossipAdminSnapshot {
            cluster_id_hash: self.config.cluster_id_hash,
            sender_node_id: self.config.sender_node_id,
            sender_incarnation: self.config.sender_incarnation,
            active_peers: addrs_of(snapshot.peers()),
            recent_peers: self.authorizer.recent_snapshot(),
            discovery_generation: snapshot.generation(),
            local_only: snapshot.local_only(),
            discovery_stale: snapshot.stale(),
            remote_active_cells: self.remote.active_cell_count(),
            remote_cell_capacity: self.remote.capacity(),
            remote_dirty_ring_len: self.remote.dirty_len(),
            remote_dirty_overflow: self.remote.dirty_overflowed(),
            remote_cells_sample: sample(&self.remote, self.config.max_cells_per_frame),
            metrics: self.metrics,
        }
    }
}

fn addrs_of(peers: &Vec<Peer>) -> (addrs: Vec<PeerAddr>)
    ensures
        addrs@ == Seq::new(peers@.len(), |i: int| peers@[i].addr),
{
    let mut out: Vec<PeerAddr> = Vec::new();
    let mut i: usize = 0;
    while i < peers.len()
        invariant
            i <= peers@.len(),
            out@.len() == i,
            forall|j: int| 0 <= j < i ==> #[trigger] out@[j] == peers@[j].addr,
        decreases peers@.len() - i,
    {
        out.push(peers[i].addr);
        i = i + 1;
    }
    assert(out@ =~= Seq::new(peers@.len(), |i: int| peers@[i].addr));
    out
}

impl PeerAuthorizer {
    fn recent_snapshot(&self) -> (recent: Vec<RecentPeerSnapshot>)
        ensures
            recent@ == Seq::new(
                self@.recent.len(),
                |i: int|
                    RecentPeerSnapshot {
                        addr: self@.recent[i].peer.addr,
                        expires_millis: self@.recent[i].expires_millis,
                    },
            ),
    {
        let mut out: Vec<RecentPeerSnapshot> = Vec::new();
        let mut i: usize = 0;
        while i < self.recent.len()
            invariant
                i <= self.recent@.len(),
                out@.len() == i,
                forall|j: int|
                    0 <= j < i ==> #[trigger] out@[j] == (RecentPeerSnapshot {
                        addr: self.recent@[j].peer.addr,
                        expires_millis: self.recent@[j].expires_millis,
                    }),
            decreases self.recent@.len() - i,
        {
            out.push(
                RecentPeerSnapshot {
                    addr: self.recent[i].peer.addr,
                    expires_millis: self.recent[i].expires_millis,
                },
            );
            i = i + 1;
        }
        assert(out@ =~= Seq::new(
            self@.recent.len(),
            |i: int|
                RecentPeerSnapshot {
                    addr: self@.recent[i].peer.addr,
                    expires_millis: self@.recent[i].expires_millis,
                },
        ));
        out
    }
}

fn sample(table: &CellTable, limit: usize) -> (cells: Vec<CounterCell>)
    ensures
        cells@ == at_most(table@.cells, limit as nat),
{
    let all = table.cells();
    let len: usize = all.len();
    let n: usize = if len < limit { len } else { limit };
    let mut out: Vec<CounterCell> = Vec::new();
    let mut i: usize = 0;
    while i < n
        invariant
            i <= n <= all@.len(),
            all@ == Seq::new(table@.cells.len(), |i: int| (i as usize, table@.cells[i])),
            out@.len() == i,
            forall|j: int| 0 <= j < i ==> #[trigger] out@[j] == table@.cells[j],
        decreases n - i,
    {
        out.push(all[i].1);
        i = i + 1;
    }
    assert(out@ =~= at_most(table@.cells, limit as nat));
    out
}

} // verus!
