//! A network in memory, with links that lose packets by a fixed rule.
//!
//! The sender of a lost packet, or of one that nobody waits for, is told that
//! it was sent, as a datagram socket would tell it.

use crate::discovery::PeerAddr;
use crate::gossip::node::SendOutcome;
use crate::gossip::sampling::{mixed, output, GAMMA};
use crate::seqs::{first_where, lemma_first_where, lemma_first_where_at, lemma_first_where_none};
use std::collections::VecDeque;
use vstd::prelude::*;

verus! {

/// What a link does to packets.
#[derive(Clone, Copy, Debug, PartialEq, Eq, Structural)]
pub enum LinkPolicy {
    Pass,
    Block,
    /// The first `count` packets are lost.
    DropFirst { count: u32 },
    /// Each packet is lost if the link's next sample lies under `threshold`.
    /// The samples start from `seed`.
    DropProb { threshold: u32, seed: u32 },
}

impl Default for LinkPolicy {
    fn default() -> (policy: LinkPolicy)
        ensures
            policy == LinkPolicy::Pass,
    {
        LinkPolicy::Pass
    }
}

/// A packet on its way.
#[derive(Debug)]
pub struct SimPacket {
    pub src: PeerAddr,
    pub bytes: Vec<u8>,
}

/// The sample a link draws in a state.
pub open spec fn sample(state: u32) -> u32 {
    output((state as u64).wrapping_add(GAMMA)) as u32
}

/// What a link does to the next packet, and its counter then.
pub open spec fn link_step(policy: LinkPolicy, counter: Option<u32>) -> (bool, Option<u32>) {
    match policy {
        LinkPolicy::Pass => (false, counter),
        LinkPolicy::Block => (true, counter),
        LinkPolicy::DropFirst { count } => {
            let seen = match counter {
                Some(n) => n,
                None => 0,
            };
            if seen < count {
                (true, Some((seen + 1) as u32))
            } else {
                (false, Some(seen))
            }
        },
        LinkPolicy::DropProb { threshold, seed } => {
            let state = match counter {
                Some(n) => n,
                None => seed,
            };
            (sample(state) < threshold, Some(state.wrapping_add(1)))
        },
    }
}

fn step_link(policy: LinkPolicy, counter: Option<u32>) -> (step: (bool, Option<u32>))
    ensures
        step == link_step(policy, counter),
{
    match policy {
        LinkPolicy::Pass => (false, counter),
        LinkPolicy::Block => (true, counter),
        LinkPolicy::DropFirst { count } => {
            let seen: u32 = match counter {
                Some(n) => n,
                None => 0,
            };
            if seen < count {
                (true, Some(seen + 1))
            } else {
                (false, Some(seen))
            }
        },
        LinkPolicy::DropProb { threshold, seed } => {
            let state: u32 = match counter {
                Some(n) => n,
                None => seed,
            };
            #[verifier::truncate]
            let drawn: u32 = mixed((state as u64).wrapping_add(GAMMA)) as u32;
            (drawn < threshold, Some(state.wrapping_add(1)))
        },
    }
}

/// Start value of [`link_seed`].
pub const FNV_OFFSET: u64 = 0xCBF2_9CE4_8422_2325;

/// Factor of [`link_seed`].
pub const FNV_PRIME: u64 = 0x1000_0000_01B3;

/// Bytes folded into a seed.
pub open spec fn folded(start: u64, bytes: Seq<u8>) -> u64
    decreases bytes.len(),
{
    if bytes.len() == 0 {
        start
    } else {
        (folded(start, bytes.drop_last()) ^ bytes.last() as u64).wrapping_mul(FNV_PRIME)
    }
}

fn fold_bytes(start: u64, bytes: &[u8]) -> (seed: u64)
    ensures
        seed == folded(start, bytes@),
{
    let mut seed: u64 = start;
    let mut i: usize = 0;
    assert(bytes@.take(0) =~= Seq::<u8>::empty());
    while i < bytes.len()
        invariant
            i <= bytes@.len(),
            seed == folded(start, bytes@.take(i as int)),
        decreases bytes@.len() - i,
    {
        assert(bytes@.take(i + 1).drop_last() =~= bytes@.take(i as int));
        seed = (seed ^ bytes[i] as u64).wrapping_mul(FNV_PRIME);
        i = i + 1;
    }
    assert(bytes@.take(i as int) =~= bytes@);
    seed
}

/// The seed of a link, from the two addresses as text.
pub fn link_seed(src: &[u8], dst: &[u8]) -> (seed: u64)
    ensures
        seed == folded(folded(FNV_OFFSET, src@), dst@),
{
    fold_bytes(fold_bytes(FNV_OFFSET, src), dst)
}

/// One direction between two addresses.
#[derive(Clone, Copy, Debug, PartialEq, Eq, Structural)]
pub struct Link {
    pub src: PeerAddr,
    pub dst: PeerAddr,
    pub policy: LinkPolicy,
    pub counter: Option<u32>,
}

/// Packets that wait at an address.
#[derive(Debug)]
pub struct Inbox {
    addr: PeerAddr,
    packets: VecDeque<SimPacket>,
}

/// An inbox as contracts speak of it.
#[verifier::ext_equal]
pub struct InboxState {
    pub addr: PeerAddr,
    pub packets: Seq<(PeerAddr, Seq<u8>)>,
}

impl Inbox {
    pub closed spec fn view(&self) -> InboxState {
        InboxState {
            addr: self.addr,
            packets: Seq::new(
                self.packets@.len(),
                |i: int| (self.packets@[i].src, self.packets@[i].bytes@),
            ),
        }
    }
}

/// The network as contracts speak of it.
#[verifier::ext_equal]
pub struct SimState {
    pub capacity: usize,
    pub inboxes: Seq<InboxState>,
    pub links: Seq<Link>,
    /// Packets delivered to each address.
    pub received: Seq<(PeerAddr, u64)>,
}

pub open spec fn inbox_of(addr: PeerAddr) -> spec_fn(InboxState) -> bool {
    |inbox: InboxState| inbox.addr == addr
}

pub open spec fn link_of(src: PeerAddr, dst: PeerAddr) -> spec_fn(Link) -> bool {
    |link: Link| link.src == src && link.dst == dst
}

pub open spec fn count_of(addr: PeerAddr) -> spec_fn((PeerAddr, u64)) -> bool {
    |row: (PeerAddr, u64)| row.0 == addr
}

impl SimState {
    /// Packets delivered to an address.
    pub open spec fn delivered(self, addr: PeerAddr) -> u64 {
        match first_where(self.received, count_of(addr)) {
            Some(i) => self.received[i].1,
            None => 0,
        }
    }

    /// An empty inbox at an address, whatever was there before.
    pub open spec fn bound(self, addr: PeerAddr) -> SimState {
        let fresh = InboxState { addr, packets: Seq::empty() };
        SimState {
            inboxes: match first_where(self.inboxes, inbox_of(addr)) {
                Some(i) => self.inboxes.update(i, fresh),
                None => self.inboxes.push(fresh),
            },
            ..self
        }
    }

    pub open spec fn unbound(self, addr: PeerAddr) -> SimState {
        match first_where(self.inboxes, inbox_of(addr)) {
            Some(i) => SimState { inboxes: self.inboxes.remove(i), ..self },
            None => self,
        }
    }

    /// A policy set; the link starts over.
    pub open spec fn with_policy(
        self,
        src: PeerAddr,
        dst: PeerAddr,
        policy: LinkPolicy,
    ) -> SimState {
        let link = Link { src, dst, policy, counter: None };
        SimState {
            links: match first_where(self.links, link_of(src, dst)) {
                Some(i) => self.links.update(i, link),
                None => self.links.push(link),
            },
            ..self
        }
    }

    /// Whether the next packet on a link is lost. A link without a policy
    /// loses none.
    pub open spec fn drops(self, src: PeerAddr, dst: PeerAddr) -> bool {
        match first_where(self.links, link_of(src, dst)) {
            Some(i) => link_step(self.links[i].policy, self.links[i].counter).0,
            None => false,
        }
    }

    /// A packet seen by its link.
    pub open spec fn stepped(self, src: PeerAddr, dst: PeerAddr) -> SimState {
        match first_where(self.links, link_of(src, dst)) {
            Some(i) => SimState {
                links: self.links.update(
                    i,
                    Link {
                        counter: link_step(self.links[i].policy, self.links[i].counter).1,
                        ..self.links[i]
                    },
                ),
                ..self
            },
            None => self,
        }
    }

    /// A packet put into an inbox that has room.
    pub open spec fn put(self, at: int, src: PeerAddr, bytes: Seq<u8>) -> SimState {
        let inbox = self.inboxes[at];
        SimState {
            inboxes: self.inboxes.update(
                at,
                InboxState { packets: inbox.packets.push((src, bytes)), ..inbox },
            ),
            received: match first_where(self.received, count_of(inbox.addr)) {
                Some(i) => self.received.update(
                    i,
                    (
                        inbox.addr,
                        if self.received[i].1 < u64::MAX {
                            (self.received[i].1 + 1) as u64
                        } else {
                            u64::MAX
                        },
                    ),
                ),
                None => self.received.push((inbox.addr, 1)),
            },
            ..self
        }
    }

    /// What becomes of a packet, and what its sender is told.
    pub open spec fn sent(
        self,
        src: PeerAddr,
        dst: PeerAddr,
        bytes: Seq<u8>,
    ) -> (SimState, SendOutcome) {
        let seen = self.stepped(src, dst);
        if self.drops(src, dst) {
            (seen, SendOutcome::Sent)
        } else {
            match first_where(self.inboxes, inbox_of(dst)) {
                None => (seen, SendOutcome::Sent),
                Some(i) => if self.inboxes[i].packets.len() >= self.capacity {
                    (seen, SendOutcome::WouldBlock)
                } else {
                    (seen.put(i, src, bytes), SendOutcome::Sent)
                },
            }
        }
    }

    /// The oldest packet taken out of an inbox.
    pub open spec fn taken(self, addr: PeerAddr) -> (SimState, Option<(PeerAddr, Seq<u8>)>) {
        match first_where(self.inboxes, inbox_of(addr)) {
            None => (self, None),
            Some(i) => if self.inboxes[i].packets.len() == 0 {
                (self, None)
            } else {
                (
                    SimState {
                        inboxes: self.inboxes.update(
                            i,
                            InboxState {
                                packets: self.inboxes[i].packets.skip(1),
                                ..self.inboxes[i]
                            },
                        ),
                        ..self
                    },
                    Some(self.inboxes[i].packets[0]),
                )
            },
        }
    }
}

/// The network: who listens where, what the links do, and what was delivered.
#[derive(Debug)]
pub struct SimRouter {
    capacity: usize,
    inboxes: Vec<Inbox>,
    links: Vec<Link>,
    received: Vec<(PeerAddr, u64)>,
}

pub open spec fn inbox_views(inboxes: Seq<Inbox>) -> Seq<InboxState> {
    Seq::new(inboxes.len(), |i: int| inboxes[i]@)
}

impl SimRouter {
    pub closed spec fn view(&self) -> SimState {
        SimState {
            capacity: self.capacity,
            inboxes: inbox_views(self.inboxes@),
            links: self.links@,
            received: self.received@,
        }
    }

    pub fn new() -> (router: SimRouter)
        ensures
            router@ == (SimState {
                capacity: 64,
                inboxes: Seq::empty(),
                links: Seq::empty(),
                received: Seq::empty(),
            }),
    {
        Self::with_channel_capacity(64)
    }

    /// A network whose inboxes hold this many packets.
    pub fn with_channel_capacity(channel_capacity: usize) -> (router: SimRouter)
        ensures
            router@ == (SimState {
                capacity: channel_capacity,
                inboxes: Seq::empty(),
                links: Seq::empty(),
                received: Seq::empty(),
            }),
    {
        let router = SimRouter {
            capacity: channel_capacity,
            inboxes: Vec::new(),
            links: Vec::new(),
            received: Vec::new(),
        };
        assert(router@.inboxes =~= Seq::<InboxState>::empty());
        router
    }

    fn find_inbox(&self, addr: PeerAddr) -> (found: Option<usize>)
        ensures
            match first_where(self@.inboxes, inbox_of(addr)) {
                Some(i) => found is Some && found->0 == i && 0 <= i < self.inboxes@.len(),
                None => found is None,
            },
    {
        let ghost inboxes = self@.inboxes;
        let mut i: usize = 0;
        while i < self.inboxes.len()
            invariant
                i <= self.inboxes@.len(),
                inboxes == inbox_views(self.inboxes@),
                forall|j: int| 0 <= j < i ==> !inbox_of(addr)(#[trigger] inboxes[j]),
            decreases self.inboxes@.len() - i,
        {
            assert(inboxes[i as int].addr == self.inboxes@[i as int].addr);
            if self.inboxes[i].addr == addr {
                proof {
                    lemma_first_where_at(inboxes, inbox_of(addr), i as int);
                }
                return Some(i);
            }
            i = i + 1;
        }
        proof {
            lemma_first_where_none(inboxes, inbox_of(addr));
        }
        None
    }

    fn find_link(&self, src: PeerAddr, dst: PeerAddr) -> (found: Option<usize>)
        ensures
            match first_where(self.links@, link_of(src, dst)) {
                Some(i) => found is Some && found->0 == i && 0 <= i < self.links@.len(),
                None => found is None,
            },
    {
        let mut i: usize = 0;
        while i < self.links.len()
            invariant
                i <= self.links@.len(),
                forall|j: int| 0 <= j < i ==> !link_of(src, dst)(#[trigger] self.links@[j]),
            decreases self.links@.len() - i,
        {
            if self.links[i].src == src && self.links[i].dst == dst {
                proof {
                    lemma_first_where_at(self.links@, link_of(src, dst), i as int);
                }
                return Some(i);
            }
            i = i + 1;
        }
        proof {
            lemma_first_where_none(self.links@, link_of(src, dst));
        }
        None
    }

    fn find_count(&self, addr: PeerAddr) -> (found: Option<usize>)
        ensures
            match first_where(self.received@, count_of(addr)) {
                Some(i) => found is Some && found->0 == i && 0 <= i < self.received@.len(),
                None => found is None,
            },
    {
        let mut i: usize = 0;
        while i < self.received.len()
            invariant
                i <= self.received@.len(),
                forall|j: int| 0 <= j < i ==> !count_of(addr)(#[trigger] self.received@[j]),
            decreases self.received@.len() - i,
        {
            if self.received[i].0 == addr {
                proof {
                    lemma_first_where_at(self.received@, count_of(addr), i as int);
                }
                return Some(i);
            }
            i = i + 1;
        }
        proof {
            lemma_first_where_none(self.received@, count_of(addr));
        }
        None
    }

    /// Packets delivered to an address.
    pub fn received_count(&self, addr: PeerAddr) -> (count: u64)
        ensures
            count == self@.delivered(addr),
    {
        match self.find_count(addr) {
            Some(i) => self.received[i].1,
            None => 0,
        }
    }

    /// Listens at an address.
    pub fn bind(&mut self, addr: PeerAddr)
        ensures
            final(self)@ == old(self)@.bound(addr),
    {
        let ghost before = self@;
        let fresh = Inbox { addr, packets: VecDeque::new() };
        assert(fresh@.packets =~= Seq::<(PeerAddr, Seq<u8>)>::empty());
        match self.find_inbox(addr) {
            Some(i) => {
                self.inboxes.set(i, fresh);
            },
            None => {
                self.inboxes.push(fresh);
            },
        }
        assert(self@.inboxes =~= before.bound(addr).inboxes);
    }

    /// Stops listening at an address; whether anyone did.
    pub fn unbind(&mut self, addr: PeerAddr) -> (was_bound: bool)
        ensures
            final(self)@ == old(self)@.unbound(addr),
            was_bound == first_where(old(self)@.inboxes, inbox_of(addr)) is Some,
    {
        let ghost before = self@;
        match self.find_inbox(addr) {
            Some(i) => {
                let _ = self.inboxes.remove(i);
                assert(self@.inboxes =~= before.inboxes.remove(i as int));
                true
            },
            None => false,
        }
    }

    /// Sets what a link does.
    pub fn set_link_policy(&mut self, src: PeerAddr, dst: PeerAddr, policy: LinkPolicy)
        ensures
            final(self)@ == old(self)@.with_policy(src, dst, policy),
    {
        let link = Link { src, dst, policy, counter: None };
        match self.find_link(src, dst) {
            Some(i) => {
                self.links.set(i, link);
            },
            None => {
                self.links.push(link);
            },
        }
    }

    /// Whether the next packet on a link is lost; asking counts as the packet.
    fn should_drop(&mut self, src: PeerAddr, dst: PeerAddr) -> (dropped: bool)
        ensures
            final(self)@ == old(self)@.stepped(src, dst),
            final(self).inboxes == old(self).inboxes,
            dropped == old(self)@.drops(src, dst),
    {
        match self.find_link(src, dst) {
            Some(i) => {
                let mut link = self.links[i];
                let (dropped, counter) = step_link(link.policy, link.counter);
                link.counter = counter;
                self.links.set(i, link);
                dropped
            },
            None => false,
        }
    }

    fn record_delivery(&mut self, dst: PeerAddr)
        ensures
            *final(self) == (SimRouter { received: final(self).received, ..*old(self) }),
            final(self).received@ == match first_where(old(self).received@, count_of(dst)) {
                Some(i) => old(self).received@.update(
                    i,
                    (
                        dst,
                        if old(self).received@[i].1 < u64::MAX {
                            (old(self).received@[i].1 + 1) as u64
                        } else {
                            u64::MAX
                        },
                    ),
                ),
                None => old(self).received@.push((dst, 1)),
            },
    {
        match self.find_count(dst) {
            Some(i) => {
                let count: u64 = self.received[i].1.saturating_add(1);
                self.received.set(i, (dst, count));
            },
            None => {
                self.received.push((dst, 1));
            },
        }
    }

    /// Sends a packet. Only a full inbox pushes back.
    pub fn try_send_to(&mut self, src: PeerAddr, dst: PeerAddr, bytes: &[u8]) -> (outcome:
        SendOutcome)
        ensures
            (final(self)@, outcome) == old(self)@.sent(src, dst, bytes@),
    {
        let ghost before = self@;
        if self.should_drop(src, dst) {
            return SendOutcome::Sent;
        }
        let ghost seen = self@;
        match self.find_inbox(dst) {
            None => SendOutcome::Sent,
            Some(i) => {
                assert(self@.inboxes[i as int] == self.inboxes@[i as int]@);
                if self.inboxes[i].packets.len() >= self.capacity {
                    return SendOutcome::WouldBlock;
                }
                let packet = SimPacket { src, bytes: vstd::slice::slice_to_vec(bytes) };
                proof {
                    lemma_first_where(before.inboxes, inbox_of(dst));
                }
                self.inboxes[i].packets.push_back(packet);
                assert(self.inboxes@[i as int]@.packets =~= seen.inboxes[i as int].packets.push(
                    (src, bytes@),
                ));
                assert(self@.inboxes =~= seen.put(i as int, src, bytes@).inboxes);
                self.record_delivery(dst);
                assert(self@ =~= seen.put(i as int, src, bytes@));
                SendOutcome::Sent
            },
        }
    }

    /// Takes the oldest packet that waits at an address.
    pub fn recv_from(&mut self, addr: PeerAddr) -> (packet: Option<SimPacket>)
        ensures
            final(self)@ == old(self)@.taken(addr).0,
            match old(self)@.taken(addr).1 {
                Some((src, bytes)) => packet is Some && packet->0.src == src && packet->0.bytes@
                    == bytes,
                None => packet is None,
            },
    {
        let ghost before = self@;
        match self.find_inbox(addr) {
            None => None,
            Some(i) => {
                assert(self@.inboxes[i as int] == self.inboxes@[i as int]@);
                let packet = self.inboxes[i].packets.pop_front();
                if packet.is_some() {
                    assert(self.inboxes@[i as int]@.packets
                        =~= before.inboxes[i as int].packets.skip(1));
                    assert(self@ =~= before.taken(addr).0);
                } else {
                    assert(self@.inboxes =~= before.inboxes);
                }
                packet
            },
        }
    }
}

impl Default for SimRouter {
    fn default() -> (router: SimRouter)
        ensures
            router@ == (SimState {
                capacity: 64,
                inboxes: Seq::empty(),
                links: Seq::empty(),
                received: Seq::empty(),
            }),
    {
        Self::new()
    }
}

/// A blocked link delivers nothing, ever.
pub proof fn lemma_blocked_delivers_nothing(
    state: SimState,
    src: PeerAddr,
    dst: PeerAddr,
    bytes: Seq<u8>,
)
    ensures
        ({
            let blocked = state.with_policy(src, dst, LinkPolicy::Block);
            let (after, outcome) = blocked.sent(src, dst, bytes);
            &&& after == blocked
            &&& outcome == SendOutcome::Sent
        }),
{
    let blocked = state.with_policy(src, dst, LinkPolicy::Block);
    lemma_policy_found(state, src, dst, LinkPolicy::Block);
    let i = first_where(blocked.links, link_of(src, dst))->0;
    assert(blocked.links.update(i, blocked.links[i]) =~= blocked.links);
}

/// A link that drops the first packets is a good link once it has.
pub proof fn lemma_drop_first_recovers(count: u32, lost: u32)
    ensures
        lost < count ==> link_step(LinkPolicy::DropFirst { count }, Some(lost)) == (
            true,
            Some((lost + 1) as u32),
        ),
        lost >= count ==> link_step(LinkPolicy::DropFirst { count }, Some(lost)) == (
            false,
            Some(lost),
        ),
        link_step(LinkPolicy::DropFirst { count }, None) == link_step(
            LinkPolicy::DropFirst { count },
            Some(0),
        ),
{
}

proof fn lemma_policy_found(state: SimState, src: PeerAddr, dst: PeerAddr, policy: LinkPolicy)
    ensures
        ({
            let then = state.with_policy(src, dst, policy);
            let found = first_where(then.links, link_of(src, dst));
            &&& found is Some
            &&& 0 <= found->0 < then.links.len()
            &&& then.links[found->0] == (Link { src, dst, policy, counter: None })
        }),
{
    let p = link_of(src, dst);
    let then = state.with_policy(src, dst, policy).links;
    lemma_first_where(state.links, p);
    let at = match first_where(state.links, p) {
        Some(i) => i,
        None => state.links.len() as int,
    };
    assert forall|j: int| 0 <= j < at implies !p(#[trigger] then[j]) by {
        assert(!p(state.links[j]));
    }
    lemma_first_where_at(then, p, at);
}

/// What is sent over a good link to a listener with room is what it receives,
/// after all that came before.
pub proof fn lemma_send_then_receive(
    state: SimState,
    src: PeerAddr,
    dst: PeerAddr,
    bytes: Seq<u8>,
)
    requires
        !state.drops(src, dst),
        first_where(state.inboxes, inbox_of(dst)) matches Some(i) && state.inboxes[i].packets.len()
            == 0,
        state.capacity > 0,
    ensures
        ({
            let (after, outcome) = state.sent(src, dst, bytes);
            &&& outcome == SendOutcome::Sent
            &&& after.taken(dst).1 == Some((src, bytes))
        }),
{
    let p = inbox_of(dst);
    lemma_first_where(state.inboxes, p);
    let i = first_where(state.inboxes, p)->0;
    let after = state.sent(src, dst, bytes).0;
    assert forall|j: int| 0 <= j < i implies !p(#[trigger] after.inboxes[j]) by {
        assert(!p(state.inboxes[j]));
    }
    lemma_first_where_at(after.inboxes, p, i);
}

} // verus!
