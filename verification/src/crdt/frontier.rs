//! How far each peer is known to have caught up with each origin.

use super::NodeId;
use crate::seqs::{first_where, lemma_first_where_at, lemma_first_where_none};
use vstd::prelude::*;

verus! {

/// One peer slot: who holds it, and the highest acknowledged origin sequence
/// per node slot.
pub struct PeerFrontier {
    pub node: Option<NodeId>,
    pub acked: Vec<u64>,
}

/// A peer slot as contracts speak of it.
pub struct FrontierRow {
    pub node: Option<NodeId>,
    pub acked: Seq<u64>,
}

pub open spec fn held_by(peer: NodeId) -> spec_fn(FrontierRow) -> bool {
    |row: FrontierRow| row.node == Some(peer)
}

pub open spec fn vacant() -> spec_fn(FrontierRow) -> bool {
    |row: FrontierRow| row.node is None
}

/// The slot `peer` holds or would take: its own, else the first vacant one,
/// else a new one if the table may still grow.
pub open spec fn slot_for(rows: Seq<FrontierRow>, capacity: nat, peer: NodeId) -> Option<int> {
    match first_where(rows, held_by(peer)) {
        Some(i) => Some(i),
        None => match first_where(rows, vacant()) {
            Some(i) => Some(i),
            None => if rows.len() < capacity {
                Some(rows.len() as int)
            } else {
                None
            },
        },
    }
}

/// All sequences zero.
pub open spec fn no_acks(nodes: nat) -> Seq<u64> {
    Seq::new(nodes, |i: int| 0u64)
}

/// Peers by slot.
pub struct PeerFrontierTable {
    rows: Vec<PeerFrontier>,
    capacity: u16,
    nodes: u16,
}

impl PeerFrontierTable {
    pub closed spec fn view(&self) -> Seq<FrontierRow> {
        Seq::new(
            self.rows@.len(),
            |i: int| FrontierRow { node: self.rows@[i].node, acked: self.rows@[i].acked@ },
        )
    }

    pub closed spec fn spec_capacity(&self) -> nat {
        self.capacity as nat
    }

    /// Number of node slots a row has room for.
    pub closed spec fn node_slots(&self) -> nat {
        self.nodes as nat
    }

    pub open spec fn wf(&self) -> bool {
        &&& self@.len() <= self.spec_capacity() <= u16::MAX
        &&& forall|i: int|
            0 <= i < self@.len() ==> (#[trigger] self@[i]).acked.len() == self.node_slots()
    }

    pub fn with_capacity(capacity: u16, nodes: u16) -> (table: Self)
        ensures
            table.wf(),
            table@ == Seq::<FrontierRow>::empty(),
            table.spec_capacity() == capacity,
            table.node_slots() == nodes,
    {
        let table = PeerFrontierTable { rows: Vec::new(), capacity, nodes };
        assert(table@ =~= Seq::<FrontierRow>::empty());
        table
    }

    /// Gives `peer` a slot. A peer that already has one keeps it, with its
    /// acknowledgements; a new one starts with none. `None` when full.
    pub fn intern_peer(&mut self, peer: NodeId) -> (slot: Option<u16>)
        requires
            old(self).wf(),
        ensures
            final(self).wf(),
            final(self).spec_capacity() == old(self).spec_capacity(),
            final(self).node_slots() == old(self).node_slots(),
            match slot_for(old(self)@, old(self).spec_capacity(), peer) {
                Some(i) => {
                    &&& slot is Some
                    &&& slot->0 == i
                    &&& 0 <= i < final(self)@.len()
                    &&& final(self)@ == if first_where(old(self)@, held_by(peer)) is Some {
                        old(self)@
                    } else if i < old(self)@.len() {
                        old(self)@.update(
                            i,
                            FrontierRow {
                                node: Some(peer),
                                acked: no_acks(old(self).node_slots()),
                            },
                        )
                    } else {
                        old(self)@.push(
                            FrontierRow {
                                node: Some(peer),
                                acked: no_acks(old(self).node_slots()),
                            },
                        )
                    }
                },
                None => slot is None && final(self)@ == old(self)@,
            },
    {
        let mut i: usize = 0;
        while i < self.rows.len()
            invariant
                *self == *old(self),
                self.wf(),
                i <= self.rows@.len() == self@.len(),
                forall|j: int| 0 <= j < i ==> (#[trigger] self@[j]).node != Some(peer),
            decreases self.rows@.len() - i,
        {
            assert(self@[i as int].node == self.rows@[i as int].node);
            if let Some(node) = self.rows[i].node {
                if node == peer {
                    proof {
                        lemma_first_where_at(self@, held_by(peer), i as int);
                    }
                    return Some(i as u16);
                }
            }
            i = i + 1;
        }
        proof {
            lemma_first_where_none(self@, held_by(peer));
        }
        let row = PeerFrontier { node: Some(peer), acked: vec![0u64; self.nodes as usize] };
        let ghost entry = FrontierRow { node: Some(peer), acked: no_acks(self.node_slots()) };
        assert(row.acked@ =~= entry.acked);
        let mut k: usize = 0;
        while k < self.rows.len() && self.rows[k].node.is_some()
            invariant
                *self == *old(self),
                self.wf(),
                k <= self.rows@.len() == self@.len(),
                forall|j: int| 0 <= j < k ==> (#[trigger] self@[j]).node is Some,
            decreases self.rows@.len() - k,
        {
            assert(self@[k as int].node == self.rows@[k as int].node);
            k = k + 1;
        }
        if k < self.rows.len() {
            assert(self@[k as int].node == self.rows@[k as int].node);
            proof {
                lemma_first_where_at(self@, vacant(), k as int);
            }
            self.rows.set(k, row);
            assert(self@ =~= old(self)@.update(k as int, entry));
            return Some(k as u16);
        }
        proof {
            lemma_first_where_none(self@, vacant());
        }
        if self.rows.len() < self.capacity as usize {
            self.rows.push(row);
            assert(self@ =~= old(self)@.push(entry));
            Some(k as u16)
        } else {
            None
        }
    }

    /// Raises the acknowledged sequence of `node` at `peer`; it never falls.
    /// Slots outside the table are ignored.
    pub fn record_acked(&mut self, peer: u16, node: u16, sequence: u64)
        requires
            old(self).wf(),
        ensures
            final(self).wf(),
            final(self).spec_capacity() == old(self).spec_capacity(),
            final(self).node_slots() == old(self).node_slots(),
            final(self)@ == Self::with_ack(old(self)@, peer as int, node as int, sequence),
    {
        if (peer as usize) < self.rows.len() {
            assert(self@[peer as int].acked == self.rows@[peer as int].acked@);
            if (node as usize) < self.rows[peer as usize].acked.len() {
                let seen: u64 = self.rows[peer as usize].acked[node as usize];
                if seen < sequence {
                    let ghost before = self@;
                    self.rows[peer as usize].acked.set(node as usize, sequence);
                    assert(self@ =~= Self::with_ack(before, peer as int, node as int, sequence));
                } else {
                    assert(self@[peer as int].acked.update(node as int, seen)
                        =~= self@[peer as int].acked);
                    assert(Self::with_ack(self@, peer as int, node as int, sequence) =~= self@);
                }
            }
        }
    }

    /// The rows after an acknowledgement.
    pub open spec fn with_ack(
        rows: Seq<FrontierRow>,
        peer: int,
        node: int,
        sequence: u64,
    ) -> Seq<FrontierRow> {
        if 0 <= peer < rows.len() && 0 <= node < rows[peer].acked.len() {
            let seen = rows[peer].acked[node];
            let highest = if seen < sequence { sequence } else { seen };
            rows.update(
                peer,
                FrontierRow {
                    node: rows[peer].node,
                    acked: rows[peer].acked.update(node, highest),
                },
            )
        } else {
            rows
        }
    }

    /// The highest sequence of `node` that `peer` acknowledged, `0` if none.
    pub open spec fn spec_acked(&self, peer: int, node: int) -> u64 {
        if 0 <= peer < self@.len() && 0 <= node < self@[peer].acked.len() {
            self@[peer].acked[node]
        } else {
            0
        }
    }

    pub fn acked(&self, peer: u16, node: u16) -> (sequence: u64)
        requires
            self.wf(),
        ensures
            sequence == self.spec_acked(peer as int, node as int),
    {
        if (peer as usize) < self.rows.len() {
            assert(self@[peer as int].acked == self.rows@[peer as int].acked@);
            if (node as usize) < self.rows[peer as usize].acked.len() {
                return self.rows[peer as usize].acked[node as usize];
            }
        }
        0
    }

    /// Frees the slot of `peer`, if it has one.
    pub fn remove_peer(&mut self, peer: NodeId)
        requires
            old(self).wf(),
        ensures
            final(self).wf(),
            final(self).spec_capacity() == old(self).spec_capacity(),
            final(self).node_slots() == old(self).node_slots(),
            final(self)@ == match first_where(old(self)@, held_by(peer)) {
                Some(i) => old(self)@.update(
                    i,
                    FrontierRow { node: None, acked: no_acks(old(self).node_slots()) },
                ),
                None => old(self)@,
            },
    {
        let mut i: usize = 0;
        while i < self.rows.len()
            invariant
                *self == *old(self),
                self.wf(),
                i <= self.rows@.len() == self@.len(),
                forall|j: int| 0 <= j < i ==> (#[trigger] self@[j]).node != Some(peer),
            decreases self.rows@.len() - i,
        {
            assert(self@[i as int].node == self.rows@[i as int].node);
            if let Some(node) = self.rows[i].node {
                if node == peer {
                    proof {
                        lemma_first_where_at(self@, held_by(peer), i as int);
                    }
                    let row = PeerFrontier { node: None, acked: vec![0u64; self.nodes as usize] };
                    let ghost entry = FrontierRow {
                        node: None,
                        acked: no_acks(self.node_slots()),
                    };
                    assert(row.acked@ =~= entry.acked);
                    self.rows.set(i, row);
                    assert(self@ =~= old(self)@.update(i as int, entry));
                    return;
                }
            }
            i = i + 1;
        }
        proof {
            lemma_first_where_none(self@, held_by(peer));
        }
    }
}

} // verus!
