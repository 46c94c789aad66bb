//! Bounded dictionaries that give rules and nodes small slot numbers. Slots
//! are handed out in order and never change meaning.

use super::{Incarnation, NodeId, NodeSlot, RuleSlot};
use crate::seqs::{
    first_where, lemma_first_where, lemma_first_where_at, lemma_first_where_none,
};
use crate::window::oldest_bucket;
use vstd::prelude::*;

verus! {

/// What the store knows of a rule. A fingerprint first seen on the wire gets
/// [`RuleDescriptor::wire_only`].
#[derive(Clone, Copy, Debug, PartialEq, Eq, Structural)]
pub struct RuleDescriptor {
    pub fingerprint: u128,
    pub window_millis: u32,
    pub bucket_millis: u32,
    pub limit: u64,
    pub flags: u32,
    pub local_rule_id: u32,
}

/// Set in [`RuleDescriptor::flags`] for rules this node has not configured.
pub const RULE_FLAG_WIRE_ONLY: u32 = 0x8000_0000;

/// Window assumed for a rule that only the wire has named.
pub const WIRE_ONLY_WINDOW_MILLIS: u32 = 60_000;

/// Bucket width assumed for a rule that only the wire has named.
pub const WIRE_ONLY_BUCKET_MILLIS: u32 = 1_000;

impl RuleDescriptor {
    pub open spec fn spec_wire_only(fingerprint: u128) -> RuleDescriptor {
        RuleDescriptor {
            fingerprint,
            window_millis: WIRE_ONLY_WINDOW_MILLIS,
            bucket_millis: WIRE_ONLY_BUCKET_MILLIS,
            limit: 0,
            flags: RULE_FLAG_WIRE_ONLY,
            local_rule_id: 0,
        }
    }

    /// The descriptor of a rule known only by its fingerprint.
    pub fn wire_only(fingerprint: u128) -> (descriptor: RuleDescriptor)
        ensures
            descriptor == Self::spec_wire_only(fingerprint),
    {
        RuleDescriptor {
            fingerprint,
            window_millis: WIRE_ONLY_WINDOW_MILLIS,
            bucket_millis: WIRE_ONLY_BUCKET_MILLIS,
            limit: 0,
            flags: RULE_FLAG_WIRE_ONLY,
            local_rule_id: 0,
        }
    }

    /// How many buckets of the rule are live at once: the window over the
    /// bucket width, rounded up, with zero widths read as one.
    pub open spec fn live_buckets(self) -> nat {
        let window: nat = if self.window_millis == 0 { 1 } else { self.window_millis as nat };
        let bucket: nat = if self.bucket_millis == 0 { 1 } else { self.bucket_millis as nat };
        (window + bucket - 1) as nat / bucket
    }

    /// Whether bucket `bucket` has left the rule's window at `now_millis`.
    pub open spec fn aged_out(self, bucket: u32, now_millis: u64) -> bool {
        let width: nat = if self.bucket_millis == 0 { 1 } else { self.bucket_millis as nat };
        (bucket as nat + self.live_buckets()) * width <= now_millis as nat
    }

    pub fn is_aged_out(&self, bucket: u32, now_millis: u64) -> (aged: bool)
        ensures
            aged == self.aged_out(bucket, now_millis),
    {
        let window: u64 = if self.window_millis == 0 { 1 } else { self.window_millis as u64 };
        let width: u64 = if self.bucket_millis == 0 { 1 } else { self.bucket_millis as u64 };
        let live: u64 = (window + width - 1) / width;
        proof {
            assert(live <= window + width - 1) by (nonlinear_arith)
                requires
                    live == (window + width - 1) / width as int,
                    width >= 1,
                    window >= 1,
            ;
            assert((bucket + live) * width <= 0x1_0000_0000_0000_0000_0000_0000) by (nonlinear_arith)
                requires
                    0 <= bucket <= u32::MAX,
                    0 <= live <= 0x2_0000_0000,
                    1 <= width <= u32::MAX,
            ;
        }
        (bucket as u128 + live as u128) * (width as u128) <= now_millis as u128
    }
}

/// The first position at which `entries` holds `fingerprint`.
pub open spec fn rule_position(entries: Seq<RuleDescriptor>, fingerprint: u128) -> Option<int> {
    first_where(entries, same_rule(fingerprint))
}

pub open spec fn same_rule(fingerprint: u128) -> spec_fn(RuleDescriptor) -> bool {
    |d: RuleDescriptor| d.fingerprint == fingerprint
}

/// Rules by slot.
pub struct RuleDictionary {
    entries: Vec<RuleDescriptor>,
    capacity: u16,
}

impl RuleDictionary {
    /// The descriptors in slot order.
    pub closed spec fn view(&self) -> Seq<RuleDescriptor> {
        self.entries@
    }

    pub closed spec fn spec_capacity(&self) -> nat {
        self.capacity as nat
    }

    /// Never over capacity, and no fingerprint twice.
    pub open spec fn wf(&self) -> bool {
        &&& self@.len() <= self.spec_capacity() <= u16::MAX
        &&& forall|i: int, j: int|
            #![trigger self@[i], self@[j]]
            0 <= i < j < self@.len() ==> self@[i].fingerprint != self@[j].fingerprint
    }

    pub fn with_capacity(capacity: u16) -> (dictionary: Self)
        ensures
            dictionary.wf(),
            dictionary@ == Seq::<RuleDescriptor>::empty(),
            dictionary.spec_capacity() == capacity,
    {
        RuleDictionary { entries: Vec::new(), capacity }
    }

    pub fn capacity(&self) -> (capacity: u16)
        ensures
            capacity == self.spec_capacity(),
    {
        self.capacity
    }

    pub fn len(&self) -> (len: usize)
        ensures
            len == self@.len(),
    {
        self.entries.len()
    }

    /// The slot of `fingerprint`, if it has one.
    pub fn find(&self, fingerprint: u128) -> (slot: Option<RuleSlot>)
        requires
            self.wf(),
        ensures
            match slot {
                Some(s) => s < self@.len() && self@[s as int].fingerprint == fingerprint,
                None => forall|j: int|
                    0 <= j < self@.len() ==> self@[j].fingerprint != fingerprint,
            },
            match rule_position(self@, fingerprint) {
                Some(i) => slot is Some && slot->0 == i,
                None => slot is None,
            },
    {
        let mut i: usize = 0;
        while i < self.entries.len()
            invariant
                self.wf(),
                i <= self@.len(),
                forall|j: int| 0 <= j < i ==> (#[trigger] self@[j]).fingerprint != fingerprint,
            decreases self@.len() - i,
        {
            if self.entries[i].fingerprint == fingerprint {
                proof {
                    lemma_first_where_at(self@, same_rule(fingerprint), i as int);
                }
                return Some(i as u16);
            }
            i = i + 1;
        }
        proof {
            lemma_first_where_none(self@, same_rule(fingerprint));
        }
        None
    }

    /// The descriptor in `slot`.
    pub fn descriptor(&self, slot: RuleSlot) -> (descriptor: Option<RuleDescriptor>)
        ensures
            descriptor == if slot < self@.len() {
                Some(self@[slot as int])
            } else {
                None
            },
    {
        if (slot as usize) < self.entries.len() {
            Some(self.entries[slot as usize])
        } else {
            None
        }
    }

    /// What interning `descriptor` makes of the entries: nothing if the
    /// fingerprint is known or no slot is free.
    pub open spec fn interned(
        entries: Seq<RuleDescriptor>,
        capacity: nat,
        descriptor: RuleDescriptor,
    ) -> Seq<RuleDescriptor> {
        if rule_position(entries, descriptor.fingerprint) is None && entries.len() < capacity {
            entries.push(descriptor)
        } else {
            entries
        }
    }

    /// Finds the slot of `descriptor.fingerprint`, taking a free one if the
    /// fingerprint is new. `None` when the dictionary is full.
    pub fn intern(&mut self, descriptor: RuleDescriptor) -> (slot: Option<RuleSlot>)
        requires
            old(self).wf(),
        ensures
            final(self).wf(),
            final(self).spec_capacity() == old(self).spec_capacity(),
            final(self)@ == Self::interned(old(self)@, old(self).spec_capacity(), descriptor),
            match rule_position(final(self)@, descriptor.fingerprint) {
                Some(i) => slot is Some && slot->0 == i,
                None => slot is None,
            },
            match slot {
                Some(s) => s < final(self)@.len() && final(self)@[s as int].fingerprint
                    == descriptor.fingerprint,
                None => old(self)@.len() == old(self).spec_capacity(),
            },
    {
        let found = self.find(descriptor.fingerprint);
        if found.is_some() {
            return found;
        }
        if self.entries.len() < self.capacity as usize {
            let slot: usize = self.entries.len();
            self.entries.push(descriptor);
            proof {
                lemma_first_where_at(self@, same_rule(descriptor.fingerprint), slot as int);
            }
            Some(slot as u16)
        } else {
            None
        }
    }
}

/// A node at one incarnation, as the store knows it.
#[derive(Clone, Copy, Debug, PartialEq, Eq, Structural)]
pub struct NodeDescriptor {
    pub node_id: NodeId,
    pub incarnation: Incarnation,
}

/// The first position at which `entries` holds the node.
pub open spec fn node_position(entries: Seq<NodeDescriptor>, node: NodeDescriptor) -> Option<int> {
    first_where(entries, same_node(node))
}

pub open spec fn same_node(node: NodeDescriptor) -> spec_fn(NodeDescriptor) -> bool {
    |d: NodeDescriptor| d == node
}

/// Nodes by slot.
pub struct NodeDictionary {
    entries: Vec<NodeDescriptor>,
    capacity: u16,
}

impl NodeDictionary {
    /// The descriptors in slot order.
    pub closed spec fn view(&self) -> Seq<NodeDescriptor> {
        self.entries@
    }

    pub closed spec fn spec_capacity(&self) -> nat {
        self.capacity as nat
    }

    /// Never over capacity, and no node twice.
    pub open spec fn wf(&self) -> bool {
        &&& self@.len() <= self.spec_capacity() <= u16::MAX
        &&& forall|i: int, j: int|
            #![trigger self@[i], self@[j]]
            0 <= i < j < self@.len() ==> self@[i] != self@[j]
    }

    pub fn with_capacity(capacity: u16) -> (dictionary: Self)
        ensures
            dictionary.wf(),
            dictionary@ == Seq::<NodeDescriptor>::empty(),
            dictionary.spec_capacity() == capacity,
    {
        NodeDictionary { entries: Vec::new(), capacity }
    }

    pub fn capacity(&self) -> (capacity: u16)
        ensures
            capacity == self.spec_capacity(),
    {
        self.capacity
    }

    pub fn len(&self) -> (len: usize)
        ensures
            len == self@.len(),
    {
        self.entries.len()
    }

    /// The slot of the node at that incarnation, if it has one.
    pub fn find(&self, node_id: NodeId, incarnation: Incarnation) -> (slot: Option<NodeSlot>)
        requires
            self.wf(),
        ensures
            match slot {
                Some(s) => s < self@.len() && self@[s as int] == (NodeDescriptor {
                    node_id,
                    incarnation,
                }),
                None => forall|j: int|
                    0 <= j < self@.len() ==> self@[j] != (NodeDescriptor { node_id, incarnation }),
            },
            match node_position(self@, NodeDescriptor { node_id, incarnation }) {
                Some(i) => slot is Some && slot->0 == i,
                None => slot is None,
            },
    {
        let node = NodeDescriptor { node_id, incarnation };
        let mut i: usize = 0;
        while i < self.entries.len()
            invariant
                self.wf(),
                i <= self@.len(),
                node == (NodeDescriptor { node_id, incarnation }),
                forall|j: int| 0 <= j < i ==> #[trigger] self@[j] != node,
            decreases self@.len() - i,
        {
            if self.entries[i] == node {
                proof {
                    lemma_first_where_at(self@, same_node(node), i as int);
                }
                return Some(i as u16);
            }
            i = i + 1;
        }
        proof {
            lemma_first_where_none(self@, same_node(node));
        }
        None
    }

    /// The descriptor in `slot`.
    pub fn descriptor(&self, slot: NodeSlot) -> (descriptor: Option<NodeDescriptor>)
        ensures
            descriptor == if slot < self@.len() {
                Some(self@[slot as int])
            } else {
                None
            },
    {
        if (slot as usize) < self.entries.len() {
            Some(self.entries[slot as usize])
        } else {
            None
        }
    }

    /// What interning `node` makes of the entries: nothing if the node is
    /// known or no slot is free.
    pub open spec fn interned(
        entries: Seq<NodeDescriptor>,
        capacity: nat,
        node: NodeDescriptor,
    ) -> Seq<NodeDescriptor> {
        if node_position(entries, node) is None && entries.len() < capacity {
            entries.push(node)
        } else {
            entries
        }
    }

    /// Finds the slot of `node`, taking a free one if the node is new. `None`
    /// when the dictionary is full.
    pub fn intern(&mut self, node: NodeDescriptor) -> (slot: Option<NodeSlot>)
        requires
            old(self).wf(),
        ensures
            final(self).wf(),
            final(self).spec_capacity() == old(self).spec_capacity(),
            final(self)@ == Self::interned(old(self)@, old(self).spec_capacity(), node),
            match node_position(final(self)@, node) {
                Some(i) => slot is Some && slot->0 == i,
                None => slot is None,
            },
            match slot {
                Some(s) => s < final(self)@.len() && final(self)@[s as int] == node,
                None => old(self)@.len() == old(self).spec_capacity(),
            },
    {
        let found = self.find(node.node_id, node.incarnation);
        if found.is_some() {
            return found;
        }
        if self.entries.len() < self.capacity as usize {
            let slot: usize = self.entries.len();
            self.entries.push(node);
            proof {
                lemma_first_where_at(self@, same_node(node), slot as int);
            }
            Some(slot as u16)
        } else {
            None
        }
    }
}

// -- laws -------------------------------------------------------------------

/// As many buckets are live at once as it takes to cover the window, and not one
/// more.
pub proof fn lemma_live_buckets_cover(rule: RuleDescriptor)
    requires
        rule.window_millis > 0,
        rule.bucket_millis > 0,
    ensures
        rule.live_buckets() * rule.bucket_millis >= rule.window_millis,
        (rule.live_buckets() - 1) * rule.bucket_millis < rule.window_millis,
        1 <= rule.live_buckets() <= rule.window_millis,
{
    let w = rule.window_millis as int;
    let b = rule.bucket_millis as int;
    let live = rule.live_buckets() as int;
    assert(live * b >= w && (live - 1) * b < w && 1 <= live <= w) by (nonlinear_arith)
        requires
            live == (w + b - 1) / b,
            w > 0,
            b > 0,
    ;
}

/// A cell stays for its whole window and no longer. Nothing of a bucket has left
/// as long as less than a window has passed since the bucket began, and it has
/// from the end of the bucket on in which the window ends: the one that so many
/// buckets on ends, as cover the window.
pub proof fn lemma_ages_out_after_window(
    rule: RuleDescriptor,
    bucket: u32,
    now_millis: u64,
    covering: nat,
)
    requires
        rule.window_millis > 0,
        rule.bucket_millis > 0,
        covering * rule.bucket_millis >= rule.window_millis,
        (covering - 1) * rule.bucket_millis < rule.window_millis,
    ensures
        now_millis < bucket * rule.bucket_millis + rule.window_millis ==> !rule.aged_out(
            bucket,
            now_millis,
        ),
        rule.aged_out(bucket, now_millis) <==> now_millis >= (bucket + covering)
            * rule.bucket_millis,
{
    lemma_live_buckets_cover(rule);
    let live = rule.live_buckets() as int;
    let b = rule.bucket_millis as int;
    let w = rule.window_millis as int;
    assert(live == covering) by (nonlinear_arith)
        requires
            b > 0,
            live * b >= w,
            (live - 1) * b < w,
            covering * b >= w,
            (covering - 1) * b < w,
    ;
    assert((bucket + live) * b == bucket * b + live * b) by (nonlinear_arith);
}

/// A rule that leaves out its window, or its bucket width, is read as if that
/// were one millisecond.
pub proof fn lemma_zero_widths(rule: RuleDescriptor, bucket: u32, now_millis: u64)
    ensures
        rule.window_millis == 0 ==> rule.aged_out(bucket, now_millis) == (RuleDescriptor {
            window_millis: 1,
            ..rule
        }).aged_out(bucket, now_millis),
        rule.bucket_millis == 0 ==> rule.aged_out(bucket, now_millis) == (RuleDescriptor {
            bucket_millis: 1,
            ..rule
        }).aged_out(bucket, now_millis),
{
}

/// What has aged out is what no longer counts: a bucket has left exactly if it is
/// older than the oldest that a total at that time is made of. Bucket numbers
/// must still fit their 32 bits.
pub proof fn lemma_aged_out_no_longer_counts(
    rule: RuleDescriptor,
    bucket: u32,
    now_millis: u64,
)
    requires
        rule.window_millis > 0,
        rule.bucket_millis > 0,
        now_millis / rule.bucket_millis as u64 <= u32::MAX,
    ensures
        rule.aged_out(bucket, now_millis) <==> bucket < oldest_bucket(
            now_millis,
            rule.bucket_millis as u64,
            rule.live_buckets() as u32,
        ),
{
    lemma_live_buckets_cover(rule);
    let live = rule.live_buckets() as int;
    let b = rule.bucket_millis as int;
    let now = now_millis as int;
    assert((bucket + live) * b <= now <==> bucket + live <= now / b) by (nonlinear_arith)
        requires
            b > 0,
            now >= 0,
    ;
}

/// A known rule keeps its slot and its descriptor; a new one gets the next slot,
/// as long as there is one.
pub proof fn lemma_rule_slots_stay(
    entries: Seq<RuleDescriptor>,
    capacity: nat,
    descriptor: RuleDescriptor,
)
    requires
        entries.len() <= capacity,
    ensures
        ({
            let after = RuleDictionary::interned(entries, capacity, descriptor);
            let known = exists|i: int|
                0 <= i < entries.len() && (#[trigger] entries[i]).fingerprint
                    == descriptor.fingerprint;
            &&& entries.is_prefix_of(after)
            &&& after.len() <= capacity
            &&& known || entries.len() == capacity ==> after == entries
            &&& !known && entries.len() < capacity ==> after.len() == entries.len() + 1
                && after.last() == descriptor
        }),
{
    lemma_first_where(entries, same_rule(descriptor.fingerprint));
}

/// A known node keeps its slot; a new one, or a known one at another
/// incarnation, gets the next slot, as long as there is one.
pub proof fn lemma_node_slots_stay(
    entries: Seq<NodeDescriptor>,
    capacity: nat,
    node: NodeDescriptor,
)
    requires
        entries.len() <= capacity,
    ensures
        ({
            let after = NodeDictionary::interned(entries, capacity, node);
            &&& entries.is_prefix_of(after)
            &&& after.len() <= capacity
            &&& entries.contains(node) || entries.len() == capacity ==> after == entries
            &&& !entries.contains(node) && entries.len() < capacity ==> after.len()
                == entries.len() + 1 && after.last() == node
        }),
{
    lemma_first_where(entries, same_node(node));
}

} // verus!
