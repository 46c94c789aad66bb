//! The local limiter: decides requests from this node's own counts and from
//! what gossip has told of the rest of the cluster.
//!
//! - A request is allowed only if every rule that applies allows it, and only
//!   then is it counted.
//! - Memory is fixed: cells, estimates and the ring of changes never outgrow
//!   the capacities they were made with.

pub mod laws;
pub mod upkeep;

use crate::cells::{pushed, DirtyEntry, DirtyRing};
use crate::crdt::{KeyHash, NodeId, NodeIdentity};
use crate::requests::{Decision, HashedLimitRequest, LimitRequest, RejectReason};
use crate::rules::{
    domain_input, hash_domain, hash_key, key_input, patterns_match, request_pairs, shape_matches,
    stable_hash, Descriptor, DescriptorPattern, EnforcementMode, RuleId,
};
use crate::seqs::{first_where, lemma_first_where, lemma_first_where_at, lemma_first_where_none};
use vstd::prelude::*;

verus! {

/// A window and the number of buckets it is cut into.
#[derive(Clone, Copy, Debug, PartialEq, Eq, Structural)]
pub struct WindowSpec {
    pub size_millis: u64,
    pub bucket_count: usize,
}

impl WindowSpec {
    /// Width of a bucket, at least a millisecond.
    pub open spec fn spec_bucket_millis(self) -> u64 {
        if self.bucket_count == 0 {
            if self.size_millis == 0 {
                1
            } else {
                self.size_millis
            }
        } else if self.size_millis < self.bucket_count {
            1
        } else {
            (self.size_millis / self.bucket_count as u64) as u64
        }
    }

    pub fn bucket_millis(&self) -> (millis: u64)
        ensures
            millis == self.spec_bucket_millis(),
            millis >= 1,
    {
        if self.bucket_count == 0 {
            if self.size_millis == 0 {
                1
            } else {
                self.size_millis
            }
        } else if self.size_millis < self.bucket_count as u64 {
            1
        } else {
            let size: u64 = self.size_millis;
            let count: u64 = self.bucket_count as u64;
            proof {
                vstd::arithmetic::div_mod::lemma_div_is_ordered(
                    count as int,
                    size as int,
                    count as int,
                );
                vstd::arithmetic::div_mod::lemma_div_by_self(count as int);
            }
            size / count
        }
    }

    /// The start of the bucket that `now_millis` is in.
    pub open spec fn bucket_start(self, now_millis: u64) -> u64 {
        (now_millis - now_millis % self.spec_bucket_millis()) as u64
    }

    /// When a bucket stops counting.
    pub open spec fn expiry(self, bucket_start: u64) -> u64 {
        if bucket_start + self.size_millis <= u64::MAX {
            (bucket_start + self.size_millis) as u64
        } else {
            u64::MAX
        }
    }
}

/// Hits held back for what gossip has not told yet.
#[derive(Clone, Copy, Debug, PartialEq, Eq, Structural)]
pub struct SafetyMargin {
    pub hits: u64,
}

/// What becomes of keys once as many are tracked as there is room for.
#[derive(Clone, Copy, Debug, PartialEq, Eq, Structural)]
pub enum OverflowPolicy {
    /// They are counted together, under one shared key.
    UseOverflowKey,
    /// They are not counted.
    Untracked,
}

/// The key that overflowing keys share.
pub const OVERFLOW_KEY: u128 = 0;

/// One rule of the local limiter.
#[derive(Debug)]
pub struct LocalRule {
    pub id: RuleId,
    pub domain_hash: KeyHash,
    pub descriptors: Vec<DescriptorPattern>,
    pub limit: u64,
    pub window: WindowSpec,
    pub local_fallback_limit: u64,
    pub local_absolute_limit: u64,
    pub stale_after_millis: u64,
    pub safety_margin: SafetyMargin,
    pub overflow_policy: OverflowPolicy,
    pub mode: EnforcementMode,
}

impl LocalRule {
    /// Whether the rule applies to a request.
    pub open spec fn applies(&self, domain: Seq<char>, descriptors: Seq<Descriptor<'_>>) -> bool {
        &&& self.mode != EnforcementMode::Disabled
        &&& self.domain_hash == KeyHash(stable_hash(domain_input(domain)))
        &&& shape_matches(self.descriptors@, descriptors)
    }
}

/// This node's count of one key in one bucket.
#[derive(Clone, Copy, Debug, PartialEq, Eq, Structural)]
pub struct LocalCell {
    pub rule_id: RuleId,
    pub key_hash: KeyHash,
    pub bucket_start_millis: u64,
    pub origin_node_id: NodeId,
    pub origin_incarnation: u64,
    pub count: u64,
    pub last_update_millis: u64,
    pub sequence: u64,
}

/// A cell, and when it stops counting.
#[derive(Clone, Copy, Debug, PartialEq, Eq, Structural)]
pub struct LocalSlot {
    pub cell: LocalCell,
    pub expires_millis: u64,
}

/// What the rest of the cluster is known to have counted of one key in one
/// bucket.
#[derive(Clone, Copy, Debug, PartialEq, Eq, Structural)]
pub struct RemoteEstimate {
    pub rule_id: RuleId,
    pub key_hash: KeyHash,
    pub bucket_start_millis: u64,
    pub count: u64,
    pub received_millis: u64,
    pub expires_millis: u64,
}

/// How full the limiter is.
#[derive(Clone, Copy, Debug, PartialEq, Eq, Structural)]
pub struct StorageSummary {
    pub active_keys: usize,
    pub active_cells: usize,
    pub max_keys: usize,
    pub max_cells: usize,
    pub dirty_ring_len: usize,
    pub dirty_ring_capacity: usize,
    pub dirty_overflow: bool,
    pub estimated_memory_bytes: usize,
}

/// Bytes counted per cell in the memory estimate.
pub const CELL_BYTES: usize = 96;

/// Bytes counted per ring entry in the memory estimate.
pub const DIRTY_ENTRY_BYTES: usize = 16;

// -- sums -------------------------------------------------------------------

pub open spec fn slot_counts(slot: LocalSlot, rule_id: RuleId, key: KeyHash, now: u64) -> bool {
    slot.cell.rule_id == rule_id && slot.cell.key_hash == key && slot.expires_millis > now
}

/// This node's hits of a key within the window.
pub open spec fn local_sum(slots: Seq<LocalSlot>, rule_id: RuleId, key: KeyHash, now: u64) -> nat
    decreases slots.len(),
{
    if slots.len() == 0 {
        0
    } else {
        local_sum(slots.drop_last(), rule_id, key, now) + if slot_counts(
            slots.last(),
            rule_id,
            key,
            now,
        ) {
            slots.last().cell.count as nat
        } else {
            0
        }
    }
}

pub open spec fn estimate_of(e: RemoteEstimate, rule_id: RuleId, key: KeyHash) -> bool {
    e.rule_id == rule_id && e.key_hash == key
}

/// The cluster's other hits of a key within the window.
pub open spec fn remote_sum(
    estimates: Seq<RemoteEstimate>,
    rule_id: RuleId,
    key: KeyHash,
    now: u64,
) -> nat
    decreases estimates.len(),
{
    if estimates.len() == 0 {
        0
    } else {
        let e = estimates.last();
        remote_sum(estimates.drop_last(), rule_id, key, now) + if estimate_of(e, rule_id, key)
            && e.expires_millis > now {
            e.count as nat
        } else {
            0
        }
    }
}

/// Whether gossip has told anything of a key that is not stale yet.
pub open spec fn known_fresh(
    estimates: Seq<RemoteEstimate>,
    rule_id: RuleId,
    key: KeyHash,
    stale_after: u64,
    now: u64,
) -> bool {
    exists|i: int|
        0 <= i < estimates.len() && estimate_of(#[trigger] estimates[i], rule_id, key)
            && estimates[i].received_millis + stale_after > now
}

pub open spec fn same_local_key(slot: LocalSlot, rule_id: RuleId, key: KeyHash) -> bool {
    slot.cell.rule_id == rule_id && slot.cell.key_hash == key
}

pub open spec fn tracks(slots: Seq<LocalSlot>, rule_id: RuleId, key: KeyHash) -> bool {
    exists|i: int| 0 <= i < slots.len() && same_local_key(#[trigger] slots[i], rule_id, key)
}

/// Number of different keys among the cells.
pub open spec fn distinct_keys(slots: Seq<LocalSlot>) -> nat
    decreases slots.len(),
{
    if slots.len() == 0 {
        0
    } else {
        distinct_keys(slots.drop_last()) + if tracks(
            slots.drop_last(),
            slots.last().cell.rule_id,
            slots.last().cell.key_hash,
        ) {
            0nat
        } else {
            1nat
        }
    }
}

// -- decisions --------------------------------------------------------------

/// Why a rule rejects, if it does.
pub open spec fn rejection(
    rule: LocalRule,
    local: nat,
    remote: nat,
    fresh: bool,
    hits: u64,
) -> Option<RejectReason> {
    if local + hits > rule.local_absolute_limit {
        Some(RejectReason::LocalAbsoluteLimit)
    } else if fresh {
        if local + remote + hits + rule.safety_margin.hits > rule.limit {
            Some(RejectReason::GlobalLimit)
        } else {
            None
        }
    } else if local + hits > rule.local_fallback_limit {
        Some(RejectReason::LocalFallbackLimit)
    } else {
        None
    }
}

// -- state ------------------------------------------------------------------

pub open spec fn slot_is(rule_id: RuleId, key: KeyHash, bucket: u64) -> spec_fn(LocalSlot) -> bool {
    |slot: LocalSlot|
        slot.cell.rule_id == rule_id && slot.cell.key_hash == key && slot.cell.bucket_start_millis
            == bucket
}

pub open spec fn slot_expired(now: u64) -> spec_fn(LocalSlot) -> bool {
    |slot: LocalSlot| slot.expires_millis <= now
}

pub open spec fn estimate_is(rule_id: RuleId, key: KeyHash, bucket: u64) -> spec_fn(
    RemoteEstimate,
) -> bool {
    |e: RemoteEstimate|
        e.rule_id == rule_id && e.key_hash == key && e.bucket_start_millis == bucket
}

pub open spec fn estimate_expired(now: u64) -> spec_fn(RemoteEstimate) -> bool {
    |e: RemoteEstimate| e.expires_millis <= now
}

pub open spec fn capped_sum(a: u64, b: u64) -> u64 {
    if a + b <= u64::MAX {
        (a + b) as u64
    } else {
        u64::MAX
    }
}

/// The limiter's memory.
#[verifier::ext_equal]
pub struct EngineState {
    pub slots: Seq<LocalSlot>,
    pub estimates: Seq<RemoteEstimate>,
    pub dirty: Seq<DirtyEntry>,
    pub overflowed: bool,
    pub sequence: u64,
    pub max_keys: nat,
    pub max_cells: nat,
    pub dirty_capacity: nat,
    pub identity: NodeIdentity,
}

impl EngineState {
    /// The key that a request's hits are counted under.
    pub open spec fn counted_key(self, rule: LocalRule, key: KeyHash) -> Option<KeyHash> {
        if tracks(self.slots, rule.id, key) || distinct_keys(self.slots) < self.max_keys {
            Some(key)
        } else if rule.overflow_policy == OverflowPolicy::UseOverflowKey {
            Some(KeyHash(OVERFLOW_KEY))
        } else {
            None
        }
    }

    /// Where a cell goes: its own place, room at the end, or the place of one
    /// that no longer counts.
    pub open spec fn place_for(
        self,
        rule_id: RuleId,
        key: KeyHash,
        bucket: u64,
        now: u64,
    ) -> Option<int> {
        match first_where(self.slots, slot_is(rule_id, key, bucket)) {
            Some(i) => Some(i),
            None => if self.slots.len() < self.max_cells {
                Some(self.slots.len() as int)
            } else {
                first_where(self.slots, slot_expired(now))
            },
        }
    }

    /// A slot written, with the change noted.
    pub open spec fn written(self, i: int, slot: LocalSlot) -> EngineState {
        let slot = LocalSlot {
            cell: LocalCell { sequence: capped_sum(self.sequence, 1), ..slot.cell },
            ..slot
        };
        EngineState {
            slots: if i < self.slots.len() {
                self.slots.update(i, slot)
            } else {
                self.slots.push(slot)
            },
            dirty: pushed(
                self.dirty,
                self.dirty_capacity,
                DirtyEntry { cell_id: i as usize, sequence: slot.cell.sequence },
            ),
            overflowed: self.overflowed || self.dirty.len() == self.dirty_capacity,
            sequence: slot.cell.sequence,
            ..self
        }
    }

    /// The slot that counting `hits` leaves at `i`.
    pub open spec fn counted_slot(
        self,
        i: int,
        rule: LocalRule,
        key: KeyHash,
        hits: u64,
        now: u64,
    ) -> LocalSlot {
        let bucket = rule.window.bucket_start(now);
        if first_where(self.slots, slot_is(rule.id, key, bucket)) is Some {
            let slot = self.slots[i];
            LocalSlot {
                cell: LocalCell {
                    count: capped_sum(slot.cell.count, hits),
                    last_update_millis: now,
                    ..slot.cell
                },
                ..slot
            }
        } else {
            LocalSlot {
                cell: LocalCell {
                    rule_id: rule.id,
                    key_hash: key,
                    bucket_start_millis: bucket,
                    origin_node_id: self.identity.node_id,
                    origin_incarnation: self.identity.incarnation as u64,
                    count: hits,
                    last_update_millis: now,
                    sequence: 0,
                },
                expires_millis: rule.window.expiry(bucket),
            }
        }
    }

    /// Hits counted, and the cell that holds them. Without room they are let
    /// through uncounted.
    pub open spec fn counted(self, rule: LocalRule, key: KeyHash, hits: u64, now: u64) -> (
        EngineState,
        Option<LocalCell>,
    ) {
        match self.counted_key(rule, key) {
            None => (self, None),
            Some(key) => match self.place_for(rule.id, key, rule.window.bucket_start(now), now) {
                None => (self, None),
                Some(i) => {
                    let after = self.written(i, self.counted_slot(i, rule, key, hits, now));
                    (after, Some(after.slots[i].cell))
                },
            },
        }
    }

    /// Why a rule rejects a key's hits now.
    pub open spec fn rejects(self, rule: LocalRule, key: KeyHash, hits: u64, now: u64) -> Option<
        RejectReason,
    > {
        if rule.mode != EnforcementMode::Enforce {
            None
        } else {
            rejection(
                rule,
                local_sum(self.slots, rule.id, key, now),
                remote_sum(self.estimates, rule.id, key, now),
                known_fresh(self.estimates, rule.id, key, rule.stale_after_millis, now),
                hits,
            )
        }
    }

    /// What gossip told of a key, added up.
    pub open spec fn estimated(
        self,
        rule: LocalRule,
        key: KeyHash,
        bucket: u64,
        now: u64,
        delta: u64,
    ) -> EngineState {
        let fresh = RemoteEstimate {
            rule_id: rule.id,
            key_hash: key,
            bucket_start_millis: bucket,
            count: delta,
            received_millis: now,
            expires_millis: rule.window.expiry(bucket),
        };
        let estimates = match first_where(self.estimates, estimate_is(rule.id, key, bucket)) {
            Some(i) => self.estimates.update(
                i,
                RemoteEstimate {
                    count: capped_sum(self.estimates[i].count, delta),
                    received_millis: now,
                    ..self.estimates[i]
                },
            ),
            None => if self.estimates.len() < self.max_cells {
                self.estimates.push(fresh)
            } else {
                match first_where(self.estimates, estimate_expired(now)) {
                    Some(i) => self.estimates.update(i, fresh),
                    None => self.estimates,
                }
            },
        };
        EngineState { estimates, ..self }
    }

    /// Fixed memory: nothing outgrows its capacity, and the ring of changes
    /// points at cells that are there.
    pub open spec fn bounded(self) -> bool {
        &&& self.slots.len() <= self.max_cells
        &&& self.estimates.len() <= self.max_cells
        &&& self.dirty.len() <= self.dirty_capacity
        &&& forall|i: int|
            0 <= i < self.dirty.len() ==> (#[trigger] self.dirty[i]).cell_id < self.slots.len()
    }
}

/// Counting keeps memory fixed.
pub proof fn lemma_counting_bounded(
    state: EngineState,
    rule: LocalRule,
    key: KeyHash,
    hits: u64,
    now: u64,
)
    requires
        state.bounded(),
        state.max_cells <= usize::MAX,
    ensures
        state.counted(rule, key, hits, now).0.bounded(),
{
    match state.counted_key(rule, key) {
        None => {},
        Some(key) => {
            let bucket = rule.window.bucket_start(now);
            lemma_first_where(state.slots, slot_is(rule.id, key, bucket));
            lemma_first_where(state.slots, slot_expired(now));
        },
    }
}

// -- engine -----------------------------------------------------------------

/// A limiter for one node.
pub struct LocalEngine {
    rules: Vec<LocalRule>,
    slots: Vec<LocalSlot>,
    estimates: Vec<RemoteEstimate>,
    dirty: DirtyRing,
    sequence: u64,
    max_keys: usize,
    max_cells: usize,
    dirty_capacity: usize,
    identity: NodeIdentity,
}

pub open spec fn has_id(id: RuleId) -> spec_fn(LocalRule) -> bool {
    |rule: LocalRule| rule.id == id
}

/// The rules that apply to a request, in order.
pub open spec fn local_applicable(
    rules: Seq<LocalRule>,
    domain: Seq<char>,
    descriptors: Seq<Descriptor<'_>>,
) -> Seq<LocalRule>
    decreases rules.len(),
{
    if rules.len() == 0 {
        Seq::empty()
    } else {
        let before = local_applicable(rules.drop_last(), domain, descriptors);
        if rules.last().applies(domain, descriptors) {
            before.push(rules.last())
        } else {
            before
        }
    }
}

/// The key of a request under a rule.
pub open spec fn request_key(
    rule: LocalRule,
    domain: Seq<char>,
    descriptors: Seq<Descriptor<'_>>,
) -> KeyHash {
    KeyHash(stable_hash(key_input(rule.id, domain, request_pairs(descriptors))))
}

impl EngineState {
    /// The first rejection among rules, in order.
    pub open spec fn first_rejection(
        self,
        rules: Seq<LocalRule>,
        domain: Seq<char>,
        descriptors: Seq<Descriptor<'_>>,
        hits: u64,
        now: u64,
    ) -> Option<RejectReason>
        decreases rules.len(),
    {
        if rules.len() == 0 {
            None
        } else {
            match self.first_rejection(rules.drop_last(), domain, descriptors, hits, now) {
                Some(reason) => Some(reason),
                None => self.rejects(
                    rules.last(),
                    request_key(rules.last(), domain, descriptors),
                    hits,
                    now,
                ),
            }
        }
    }

    /// Hits counted under every rule, in order.
    pub open spec fn counted_all(
        self,
        rules: Seq<LocalRule>,
        domain: Seq<char>,
        descriptors: Seq<Descriptor<'_>>,
        hits: u64,
        now: u64,
    ) -> EngineState
        decreases rules.len(),
    {
        if rules.len() == 0 {
            self
        } else {
            self.counted_all(rules.drop_last(), domain, descriptors, hits, now).counted(
                rules.last(),
                request_key(rules.last(), domain, descriptors),
                hits,
                now,
            ).0
        }
    }

    /// A request decided, and counted if it was allowed.
    pub open spec fn decided(
        self,
        rules: Seq<LocalRule>,
        domain: Seq<char>,
        descriptors: Seq<Descriptor<'_>>,
        hits: u64,
        now: u64,
    ) -> (EngineState, Decision) {
        let rules = local_applicable(rules, domain, descriptors);
        match self.first_rejection(rules, domain, descriptors, hits, now) {
            Some(reason) => (self, Decision::Reject(reason)),
            None => (
                self.counted_all(rules, domain, descriptors, hits, now),
                Decision::Allow,
            ),
        }
    }

    /// A request for a known rule and key decided, and counted if it was
    /// allowed. Unknown and disabled rules let everything through uncounted.
    pub open spec fn decided_hashed(
        self,
        rules: Seq<LocalRule>,
        request: HashedLimitRequest,
        now: u64,
    ) -> (EngineState, Decision, Option<LocalCell>) {
        match first_where(rules, has_id(request.rule_id)) {
            None => (self, Decision::Allow, None),
            Some(i) => if rules[i].mode == EnforcementMode::Disabled {
                (self, Decision::Allow, None)
            } else {
                match self.rejects(rules[i], request.key_hash, request.hits, now) {
                    Some(reason) => (self, Decision::Reject(reason), None),
                    None => {
                        let (after, cell) = self.counted(
                            rules[i],
                            request.key_hash,
                            request.hits,
                            now,
                        );
                        (after, Decision::Allow, cell)
                    },
                }
            },
        }
    }

    /// Requests decided one after the other.
    pub open spec fn decided_all(
        self,
        rules: Seq<LocalRule>,
        requests: Seq<LimitRequest<'_>>,
        now: u64,
    ) -> (EngineState, Seq<Decision>)
        decreases requests.len(),
    {
        if requests.len() == 0 {
            (self, Seq::empty())
        } else {
            let (state, decisions) = self.decided_all(rules, requests.drop_last(), now);
            let request = requests.last();
            let (after, decision) = state.decided(
                rules,
                request.domain@,
                request.descriptors@,
                request.hits,
                now,
            );
            (after, decisions.push(decision))
        }
    }
}

impl LocalEngine {
    pub closed spec fn view(&self) -> EngineState {
        EngineState {
            slots: self.slots@,
            estimates: self.estimates@,
            dirty: self.dirty@,
            overflowed: self.dirty.spec_overflowed(),
            sequence: self.sequence,
            max_keys: self.max_keys as nat,
            max_cells: self.max_cells as nat,
            dirty_capacity: self.dirty_capacity as nat,
            identity: self.identity,
        }
    }

    pub closed spec fn spec_rules(&self) -> Seq<LocalRule> {
        self.rules@
    }

    pub closed spec fn wf(&self) -> bool {
        &&& self.dirty.wf()
        &&& self.dirty.spec_capacity() == self.dirty_capacity
        &&& self@.bounded()
    }

    /// Memory is fixed.
    pub proof fn lemma_bounded(&self)
        requires
            self.wf(),
        ensures
            self@.bounded(),
            self@.max_cells <= usize::MAX,
    {
    }

    pub open spec fn empty_state(
        max_keys: usize,
        max_cells: usize,
        dirty_capacity: usize,
        identity: NodeIdentity,
    ) -> EngineState {
        EngineState {
            slots: Seq::empty(),
            estimates: Seq::empty(),
            dirty: Seq::empty(),
            overflowed: false,
            sequence: 0,
            max_keys: max_keys as nat,
            max_cells: max_cells as nat,
            dirty_capacity: dirty_capacity as nat,
            identity,
        }
    }

    /// A limiter with room for `max_cells` cells of `max_keys` keys, that
    /// remembers its last `dirty_capacity` changes.
    pub fn with_identity(
        rules: Vec<LocalRule>,
        max_keys: usize,
        max_cells: usize,
        dirty_capacity: usize,
        identity: NodeIdentity,
    ) -> (engine: LocalEngine)
        ensures
            engine.wf(),
            engine.spec_rules() == rules@,
            engine@ == Self::empty_state(max_keys, max_cells, dirty_capacity, identity),
    {
        let engine = LocalEngine {
            rules,
            slots: Vec::new(),
            estimates: Vec::new(),
            dirty: DirtyRing::with_capacity(dirty_capacity),
            sequence: 0,
            max_keys,
            max_cells,
            dirty_capacity,
            identity,
        };
        assert(engine@ =~= Self::empty_state(max_keys, max_cells, dirty_capacity, identity));
        engine
    }

    /// A limiter with room for each key's whole window, and for a change of
    /// every cell.
    pub fn new(rules: Vec<LocalRule>, max_keys: usize, bucket_count: usize) -> (engine: LocalEngine)
        ensures
            engine.wf(),
            engine.spec_rules() == rules@,
            engine@ == Self::empty_state(
                max_keys,
                default_cells(max_keys, bucket_count),
                default_cells(max_keys, bucket_count),
                NodeIdentity { node_id: NodeId(0), incarnation: 0 },
            ),
    {
        let cells: usize = cells_for(max_keys, bucket_count);
        Self::with_identity(rules, max_keys, cells, cells, NodeIdentity::default())
    }

    pub fn rules(&self) -> (rules: &Vec<LocalRule>)
        ensures
            rules@ == self.spec_rules(),
    {
        &self.rules
    }

    pub fn identity(&self) -> (identity: NodeIdentity)
        ensures
            identity == self@.identity,
    {
        self.identity
    }

    /// Number of keys with a cell.
    pub fn active_keys(&self) -> (count: usize)
        ensures
            count == distinct_keys(self@.slots),
    {
        let mut count: usize = 0;
        let mut i: usize = 0;
        assert(self.slots@.take(0) =~= Seq::<LocalSlot>::empty());
        while i < self.slots.len()
            invariant
                i <= self.slots@.len(),
                count == distinct_keys(self.slots@.take(i as int)),
                count <= i,
            decreases self.slots@.len() - i,
        {
            let cell = self.slots[i].cell;
            assert(self.slots@.take(i + 1).drop_last() =~= self.slots@.take(i as int));
            if !self.tracked_before(i, cell.rule_id, cell.key_hash) {
                count = count + 1;
            }
            i = i + 1;
        }
        assert(self.slots@.take(i as int) =~= self.slots@);
        count
    }

    fn tracked_before(&self, end: usize, rule_id: RuleId, key: KeyHash) -> (present: bool)
        requires
            end <= self@.slots.len(),
        ensures
            present == tracks(self@.slots.take(end as int), rule_id, key),
    {
        let ghost prefix = self.slots@.take(end as int);
        let mut i: usize = 0;
        while i < end
            invariant
                i <= end <= self.slots@.len(),
                prefix == self.slots@.take(end as int),
                forall|j: int|
                    0 <= j < i ==> !same_local_key(#[trigger] self.slots@[j], rule_id, key),
            decreases end - i,
        {
            let slot = self.slots[i];
            if slot.cell.rule_id == rule_id && slot.cell.key_hash == key {
                assert(same_local_key(prefix[i as int], rule_id, key));
                return true;
            }
            i = i + 1;
        }
        assert forall|j: int| 0 <= j < prefix.len() implies !same_local_key(
            #[trigger] prefix[j],
            rule_id,
            key,
        ) by {
            assert(prefix[j] == self.slots@[j]);
        }
        false
    }

    /// The cells, in place order.
    pub fn cells(&self) -> (cells: Vec<LocalCell>)
        ensures
            cells@ == cells_of(self@.slots),
    {
        let mut out: Vec<LocalCell> = Vec::new();
        let mut i: usize = 0;
        while i < self.slots.len()
            invariant
                i <= self.slots@.len(),
                out@.len() == i,
                forall|j: int| 0 <= j < i ==> #[trigger] out@[j] == self.slots@[j].cell,
            decreases self.slots@.len() - i,
        {
            out.push(self.slots[i].cell);
            i = i + 1;
        }
        assert(out@ =~= cells_of(self@.slots));
        out
    }

    /// The cells of the remembered changes, oldest change first. A cell that
    /// changed twice is there twice.
    pub fn dirty_cells(&self) -> (cells: Vec<LocalCell>)
        requires
            self.wf(),
        ensures
            cells@ == changed_cells(self@),
    {
        let entries = self.dirty.iter();
        let mut out: Vec<LocalCell> = Vec::new();
        let mut i: usize = 0;
        while i < entries.len()
            invariant
                self.wf(),
                entries@ == self.dirty@,
                i <= entries@.len(),
                out@.len() == i,
                forall|j: int|
                    0 <= j < i ==> #[trigger] out@[j]
                        == self.slots@[entries@[j].cell_id as int].cell,
            decreases entries@.len() - i,
        {
            assert(self@.dirty[i as int].cell_id < self.slots@.len());
            out.push(self.slots[entries[i].cell_id].cell);
            i = i + 1;
        }
        assert(out@ =~= changed_cells(self@));
        out
    }

    /// Whether a change has been forgotten.
    pub fn dirty_overflowed(&self) -> (overflowed: bool)
        ensures
            overflowed == self@.overflowed,
    {
        self.dirty.overflowed()
    }

    pub fn storage_summary(&self) -> (summary: StorageSummary)
        ensures
            summary == (StorageSummary {
                active_keys: distinct_keys(self@.slots) as usize,
                active_cells: self@.slots.len() as usize,
                max_keys: self@.max_keys as usize,
                max_cells: self@.max_cells as usize,
                dirty_ring_len: self@.dirty.len() as usize,
                dirty_ring_capacity: self@.dirty_capacity as usize,
                dirty_overflow: self@.overflowed,
                estimated_memory_bytes: memory_estimate(self@.max_cells, self@.dirty_capacity),
            }),
            distinct_keys(self@.slots) <= usize::MAX,
    {
        let cells: usize = times(self.max_cells, CELL_BYTES);
        let ring: usize = times(self.dirty_capacity, DIRTY_ENTRY_BYTES);
        StorageSummary {
            active_keys: self.active_keys(),
            active_cells: self.slots.len(),
            max_keys: self.max_keys,
            max_cells: self.max_cells,
            dirty_ring_len: self.dirty.len(),
            dirty_ring_capacity: self.dirty_capacity,
            dirty_overflow: self.dirty.overflowed(),
            estimated_memory_bytes: cells.saturating_add(ring),
        }
    }

    fn local_total(&self, rule_id: RuleId, key: KeyHash, now: u64) -> (total: u128)
        ensures
            total == local_sum(self@.slots, rule_id, key, now),
    {
        let mut total: u128 = 0;
        let mut i: usize = 0;
        assert(self.slots@.take(0) =~= Seq::<LocalSlot>::empty());
        while i < self.slots.len()
            invariant
                i <= self.slots@.len(),
                total == local_sum(self.slots@.take(i as int), rule_id, key, now),
                total <= i * u64::MAX,
            decreases self.slots@.len() - i,
        {
            let slot = self.slots[i];
            proof {
                assert(self.slots@.take(i + 1).drop_last() =~= self.slots@.take(i as int));
                lemma_total_fits(i as int);
            }
            if slot.cell.rule_id == rule_id && slot.cell.key_hash == key && slot.expires_millis
                > now {
                total = total + slot.cell.count as u128;
            }
            i = i + 1;
        }
        assert(self.slots@.take(i as int) =~= self.slots@);
        total
    }

    fn remote_total(&self, rule_id: RuleId, key: KeyHash, now: u64) -> (total: u128)
        ensures
            total == remote_sum(self@.estimates, rule_id, key, now),
    {
        let mut total: u128 = 0;
        let mut i: usize = 0;
        assert(self.estimates@.take(0) =~= Seq::<RemoteEstimate>::empty());
        while i < self.estimates.len()
            invariant
                i <= self.estimates@.len(),
                total == remote_sum(self.estimates@.take(i as int), rule_id, key, now),
                total <= i * u64::MAX,
            decreases self.estimates@.len() - i,
        {
            let e = self.estimates[i];
            proof {
                assert(self.estimates@.take(i + 1).drop_last() =~= self.estimates@.take(
                    i as int,
                ));
                lemma_total_fits(i as int);
            }
            if e.rule_id == rule_id && e.key_hash == key && e.expires_millis > now {
                total = total + e.count as u128;
            }
            i = i + 1;
        }
        assert(self.estimates@.take(i as int) =~= self.estimates@);
        total
    }

    fn has_fresh(&self, rule_id: RuleId, key: KeyHash, stale_after: u64, now: u64) -> (fresh: bool)
        ensures
            fresh == known_fresh(self@.estimates, rule_id, key, stale_after, now),
    {
        let mut i: usize = 0;
        while i < self.estimates.len()
            invariant
                i <= self.estimates@.len(),
                forall|j: int|
                    0 <= j < i ==> !(estimate_of(#[trigger] self.estimates@[j], rule_id, key)
                        && self.estimates@[j].received_millis + stale_after > now),
            decreases self.estimates@.len() - i,
        {
            let e = self.estimates[i];
            if e.rule_id == rule_id && e.key_hash == key && e.received_millis as u128
                + stale_after as u128 > now as u128 {
                assert(estimate_of(self@.estimates[i as int], rule_id, key));
                return true;
            }
            i = i + 1;
        }
        false
    }

    /// Why a rule rejects a key's hits now.
    fn reject_reason(&self, rule: &LocalRule, key: KeyHash, hits: u64, now: u64) -> (reason:
        Option<RejectReason>)
        ensures
            reason == self@.rejects(*rule, key, hits, now),
    {
        if rule.mode != EnforcementMode::Enforce {
            return None;
        }
        let local: u128 = self.local_total(rule.id, key, now);
        let remote: u128 = self.remote_total(rule.id, key, now);
        let own: u128 = local.saturating_add(hits as u128);
        if own > rule.local_absolute_limit as u128 {
            return Some(RejectReason::LocalAbsoluteLimit);
        }
        if self.has_fresh(rule.id, key, rule.stale_after_millis, now) {
            let all: u128 = own.saturating_add(remote).saturating_add(
                rule.safety_margin.hits as u128,
            );
            if all > rule.limit as u128 {
                Some(RejectReason::GlobalLimit)
            } else {
                None
            }
        } else if own > rule.local_fallback_limit as u128 {
            Some(RejectReason::LocalFallbackLimit)
        } else {
            None
        }
    }

    fn find_place(&self, rule_id: RuleId, key: KeyHash, bucket: u64) -> (place: Option<usize>)
        ensures
            match place {
                Some(i) => first_where(self@.slots, slot_is(rule_id, key, bucket)) == Some(
                    i as int,
                ) && i < self@.slots.len(),
                None => first_where(self@.slots, slot_is(rule_id, key, bucket)) is None,
            },
    {
        let ghost p = slot_is(rule_id, key, bucket);
        let mut i: usize = 0;
        while i < self.slots.len()
            invariant
                i <= self.slots@.len(),
                p == slot_is(rule_id, key, bucket),
                forall|j: int| 0 <= j < i ==> !p(#[trigger] self.slots@[j]),
            decreases self.slots@.len() - i,
        {
            let cell = self.slots[i].cell;
            if cell.rule_id == rule_id && cell.key_hash == key && cell.bucket_start_millis
                == bucket {
                proof {
                    lemma_first_where_at(self.slots@, p, i as int);
                }
                return Some(i);
            }
            i = i + 1;
        }
        proof {
            lemma_first_where_none(self.slots@, p);
        }
        None
    }

    fn find_expired(&self, now: u64) -> (place: Option<usize>)
        ensures
            match place {
                Some(i) => first_where(self@.slots, slot_expired(now)) == Some(i as int) && i
                    < self@.slots.len(),
                None => first_where(self@.slots, slot_expired(now)) is None,
            },
    {
        let ghost p = slot_expired(now);
        let mut i: usize = 0;
        while i < self.slots.len()
            invariant
                i <= self.slots@.len(),
                p == slot_expired(now),
                forall|j: int| 0 <= j < i ==> !p(#[trigger] self.slots@[j]),
            decreases self.slots@.len() - i,
        {
            if self.slots[i].expires_millis <= now {
                proof {
                    lemma_first_where_at(self.slots@, p, i as int);
                }
                return Some(i);
            }
            i = i + 1;
        }
        proof {
            lemma_first_where_none(self.slots@, p);
        }
        None
    }

    fn write(&mut self, i: usize, slot: LocalSlot)
        requires
            old(self).wf(),
            i <= old(self)@.slots.len(),
            i < old(self)@.max_cells,
        ensures
            final(self).wf(),
            final(self).spec_rules() == old(self).spec_rules(),
            final(self)@ == old(self)@.written(i as int, slot),
    {
        let ghost before = self@;
        let mut slot = slot;
        self.sequence = self.sequence.saturating_add(1);
        slot.cell.sequence = self.sequence;
        if i < self.slots.len() {
            self.slots.set(i, slot);
        } else {
            self.slots.push(slot);
        }
        self.dirty.push(DirtyEntry { cell_id: i, sequence: self.sequence });
        proof {
            assert(self@ =~= before.written(i as int, slot));
            assert forall|j: int| 0 <= j < self@.dirty.len() implies (#[trigger] self@.dirty[j]).cell_id
                < self@.slots.len() by {
                if before.dirty.len() == before.dirty_capacity && before.dirty_capacity > 0 {
                    if j < self@.dirty.len() - 1 {
                        assert(self@.dirty[j] == before.dirty[j + 1]);
                    }
                } else if before.dirty_capacity > 0 && j < before.dirty.len() {
                    assert(self@.dirty[j] == before.dirty[j]);
                }
            }
        }
    }

    /// Counts hits of a key under a rule.
    fn count(&mut self, rule_index: usize, key: KeyHash, hits: u64, now: u64) -> (cell: Option<
        LocalCell,
    >)
        requires
            old(self).wf(),
            rule_index < old(self).spec_rules().len(),
        ensures
            final(self).wf(),
            final(self).spec_rules() == old(self).spec_rules(),
            (final(self)@, cell) == old(self)@.counted(
                old(self).spec_rules()[rule_index as int],
                key,
                hits,
                now,
            ),
    {
        let rule_id: RuleId = self.rules[rule_index].id;
        let window = self.rules[rule_index].window;
        let policy = self.rules[rule_index].overflow_policy;
        let ghost rule = self.rules@[rule_index as int];
        let slots: usize = self.slots.len();
        assert(self.slots@.take(slots as int) =~= self.slots@);
        let key: KeyHash = if self.tracked_before(slots, rule_id, key) || self.active_keys()
            < self.max_keys {
            key
        } else if policy == OverflowPolicy::UseOverflowKey {
            KeyHash(OVERFLOW_KEY)
        } else {
            return None;
        };
        let bucket_millis: u64 = window.bucket_millis();
        proof {
            vstd::arithmetic::div_mod::lemma_mod_decreases(now as nat, bucket_millis as nat);
        }
        let bucket: u64 = now - now % bucket_millis;
        match self.find_place(rule_id, key, bucket) {
            Some(i) => {
                let mut slot = self.slots[i];
                slot.cell.count = slot.cell.count.saturating_add(hits);
                slot.cell.last_update_millis = now;
                self.write(i, slot);
                Some(self.slots[i].cell)
            },
            None => {
                let i: usize = if slots < self.max_cells {
                    slots
                } else {
                    match self.find_expired(now) {
                        Some(i) => i,
                        None => {
                            return None;
                        },
                    }
                };
                let slot = LocalSlot {
                    cell: LocalCell {
                        rule_id,
                        key_hash: key,
                        bucket_start_millis: bucket,
                        origin_node_id: self.identity.node_id,
                        origin_incarnation: self.identity.incarnation as u64,
                        count: hits,
                        last_update_millis: now,
                        sequence: 0,
                    },
                    expires_millis: bucket.saturating_add(window.size_millis),
                };
                self.write(i, slot);
                Some(self.slots[i].cell)
            },
        }
    }

    fn find_rule(&self, id: RuleId) -> (index: Option<usize>)
        ensures
            match index {
                Some(i) => first_where(self.spec_rules(), has_id(id)) == Some(i as int) && i
                    < self.spec_rules().len(),
                None => first_where(self.spec_rules(), has_id(id)) is None,
            },
    {
        let ghost p = has_id(id);
        let mut i: usize = 0;
        while i < self.rules.len()
            invariant
                i <= self.rules@.len(),
                p == has_id(id),
                forall|j: int| 0 <= j < i ==> !p(#[trigger] self.rules@[j]),
            decreases self.rules@.len() - i,
        {
            if self.rules[i].id == id {
                proof {
                    lemma_first_where_at(self.rules@, p, i as int);
                }
                return Some(i);
            }
            i = i + 1;
        }
        proof {
            lemma_first_where_none(self.rules@, p);
        }
        None
    }

    /// Decides a request for a known rule and key, and counts it if it is
    /// allowed. Unknown and disabled rules let everything through.
    pub fn check_and_record_hashed_with_cell(
        &mut self,
        request: HashedLimitRequest,
        now_millis: u64,
    ) -> (outcome: (Decision, Option<LocalCell>))
        requires
            old(self).wf(),
        ensures
            final(self).wf(),
            final(self).spec_rules() == old(self).spec_rules(),
            (final(self)@, outcome.0, outcome.1) == old(self)@.decided_hashed(
                old(self).spec_rules(),
                request,
                now_millis,
            ),
    {
        let i: usize = match self.find_rule(request.rule_id) {
            Some(i) => i,
            None => {
                return (Decision::Allow, None);
            },
        };
        if self.rules[i].mode == EnforcementMode::Disabled {
            return (Decision::Allow, None);
        }
        match self.reject_reason(&self.rules[i], request.key_hash, request.hits, now_millis) {
            Some(reason) => (Decision::Reject(reason), None),
            None => {
                let cell = self.count(i, request.key_hash, request.hits, now_millis);
                (Decision::Allow, cell)
            },
        }
    }

    /// Positions of the rules that apply.
    fn matching(&self, domain: &str, descriptors: &[Descriptor<'_>]) -> (indices: Vec<usize>)
        ensures
            forall|j: int|
                0 <= j < indices@.len() ==> #[trigger] indices@[j] < self.spec_rules().len(),
            picked(self.spec_rules(), indices@) == local_applicable(
                self.spec_rules(),
                domain@,
                descriptors@,
            ),
    {
        let hash = hash_domain(domain);
        let mut out: Vec<usize> = Vec::new();
        let mut i: usize = 0;
        assert(self.rules@.take(0) =~= Seq::<LocalRule>::empty());
        assert(picked(self.rules@, out@) =~= local_applicable(
            self.rules@.take(0),
            domain@,
            descriptors@,
        ));
        while i < self.rules.len()
            invariant
                i <= self.rules@.len(),
                hash == KeyHash(stable_hash(domain_input(domain@))),
                forall|j: int| 0 <= j < out@.len() ==> #[trigger] out@[j] < self.rules@.len(),
                picked(self.rules@, out@) == local_applicable(
                    self.rules@.take(i as int),
                    domain@,
                    descriptors@,
                ),
            decreases self.rules@.len() - i,
        {
            let ghost before = out@;
            assert(self.rules@.take(i + 1).drop_last() =~= self.rules@.take(i as int));
            if self.rules[i].mode != EnforcementMode::Disabled && self.rules[i].domain_hash == hash
                && patterns_match(&self.rules[i].descriptors, descriptors) {
                out.push(i);
                assert(picked(self.rules@, out@) =~= picked(self.rules@, before).push(
                    self.rules@[i as int],
                ));
            }
            i = i + 1;
        }
        assert(self.rules@.take(i as int) =~= self.rules@);
        out
    }

    /// Decides a request, and counts it under every rule that applies if all
    /// of them allow it.
    pub fn check_and_record(&mut self, request: LimitRequest<'_>, now_millis: u64) -> (decision:
        Decision)
        requires
            old(self).wf(),
        ensures
            final(self).wf(),
            final(self).spec_rules() == old(self).spec_rules(),
            (final(self)@, decision) == old(self)@.decided(
                old(self).spec_rules(),
                request.domain@,
                request.descriptors@,
                request.hits,
                now_millis,
            ),
    {
        let ghost rules = self.rules@;
        let ghost domain = request.domain@;
        let ghost descriptors = request.descriptors@;
        let ghost before = self@;
        let indices = self.matching(request.domain, request.descriptors);
        let ghost chosen = picked(rules, indices@);
        let n: usize = indices.len();
        let mut i: usize = 0;
        assert(chosen.take(0) =~= Seq::<LocalRule>::empty());
        while i < n
            invariant
                i <= n == indices@.len(),
                self.wf(),
                self@ == before,
                self.rules@ == rules,
                chosen == picked(rules, indices@),
                chosen == local_applicable(rules, domain, descriptors),
                domain == request.domain@,
                descriptors == request.descriptors@,
                forall|j: int| 0 <= j < indices@.len() ==> #[trigger] indices@[j] < rules.len(),
                before.first_rejection(
                    chosen.take(i as int),
                    domain,
                    descriptors,
                    request.hits,
                    now_millis,
                ) is None,
            decreases n - i,
        {
            let rule = &self.rules[indices[i]];
            let key = hash_key(rule.id, request.domain, request.descriptors);
            proof {
                assert(chosen[i as int] == rules[indices@[i as int] as int]);
                assert(chosen.take(i + 1).drop_last() =~= chosen.take(i as int));
            }
            if let Some(reason) = self.reject_reason(rule, key, request.hits, now_millis) {
                proof {
                    lemma_rejection_stays(
                        before,
                        chosen,
                        domain,
                        descriptors,
                        request.hits,
                        now_millis,
                        i + 1,
                    );
                }
                return Decision::Reject(reason);
            }
            i = i + 1;
        }
        assert(chosen.take(n as int) =~= chosen);
        let mut i: usize = 0;
        assert(chosen.take(0) =~= Seq::<LocalRule>::empty());
        while i < n
            invariant
                i <= n == indices@.len(),
                self.wf(),
                self.rules@ == rules,
                chosen == picked(rules, indices@),
                domain == request.domain@,
                descriptors == request.descriptors@,
                forall|j: int| 0 <= j < indices@.len() ==> #[trigger] indices@[j] < rules.len(),
                self@ == before.counted_all(
                    chosen.take(i as int),
                    domain,
                    descriptors,
                    request.hits,
                    now_millis,
                ),
            decreases n - i,
        {
            let at: usize = indices[i];
            let key = hash_key(self.rules[at].id, request.domain, request.descriptors);
            proof {
                assert(chosen[i as int] == rules[at as int]);
                assert(chosen.take(i + 1).drop_last() =~= chosen.take(i as int));
            }
            let _cell = self.count(at, key, request.hits, now_millis);
            i = i + 1;
        }
        assert(chosen.take(n as int) =~= chosen);
        Decision::Allow
    }

    /// Decides requests one after the other.
    pub fn check_and_record_all(&mut self, requests: &[LimitRequest<'_>], now_millis: u64) -> (
        decisions: Vec<Decision>)
        requires
            old(self).wf(),
        ensures
            final(self).wf(),
            final(self).spec_rules() == old(self).spec_rules(),
            (final(self)@, decisions@) == old(self)@.decided_all(
                old(self).spec_rules(),
                requests@,
                now_millis,
            ),
    {
        let ghost before = self@;
        let ghost rules = self.spec_rules();
        let mut out: Vec<Decision> = Vec::new();
        let n: usize = requests.len();
        let mut i: usize = 0;
        assert(requests@.take(0) =~= Seq::<LimitRequest<'_>>::empty());
        assert(out@ =~= before.decided_all(rules, requests@.take(0), now_millis).1);
        while i < n
            invariant
                i <= n == requests@.len(),
                self.wf(),
                self.spec_rules() == rules,
                (self@, out@) == before.decided_all(rules, requests@.take(i as int), now_millis),
            decreases n - i,
        {
            proof {
                assert(requests@.take(i + 1).drop_last() =~= requests@.take(i as int));
            }
            let decision = self.check_and_record(requests[i], now_millis);
            out.push(decision);
            i = i + 1;
        }
        assert(requests@.take(n as int) =~= requests@);
        out
    }

    fn find_estimate(&self, rule_id: RuleId, key: KeyHash, bucket: u64) -> (place: Option<usize>)
        ensures
            match place {
                Some(i) => first_where(self@.estimates, estimate_is(rule_id, key, bucket)) == Some(
                    i as int,
                ) && i < self@.estimates.len(),
                None => first_where(self@.estimates, estimate_is(rule_id, key, bucket)) is None,
            },
    {
        let ghost p = estimate_is(rule_id, key, bucket);
        let mut i: usize = 0;
        while i < self.estimates.len()
            invariant
                i <= self.estimates@.len(),
                p == estimate_is(rule_id, key, bucket),
                forall|j: int| 0 <= j < i ==> !p(#[trigger] self.estimates@[j]),
            decreases self.estimates@.len() - i,
        {
            let e = self.estimates[i];
            if e.rule_id == rule_id && e.key_hash == key && e.bucket_start_millis == bucket {
                proof {
                    lemma_first_where_at(self.estimates@, p, i as int);
                }
                return Some(i);
            }
            i = i + 1;
        }
        proof {
            lemma_first_where_none(self.estimates@, p);
        }
        None
    }

    fn find_expired_estimate(&self, now: u64) -> (place: Option<usize>)
        ensures
            match place {
                Some(i) => first_where(self@.estimates, estimate_expired(now)) == Some(i as int)
                    && i < self@.estimates.len(),
                None => first_where(self@.estimates, estimate_expired(now)) is None,
            },
    {
        let ghost p = estimate_expired(now);
        let mut i: usize = 0;
        while i < self.estimates.len()
            invariant
                i <= self.estimates@.len(),
                p == estimate_expired(now),
                forall|j: int| 0 <= j < i ==> !p(#[trigger] self.estimates@[j]),
            decreases self.estimates@.len() - i,
        {
            if self.estimates[i].expires_millis <= now {
                proof {
                    lemma_first_where_at(self.estimates@, p, i as int);
                }
                return Some(i);
            }
            i = i + 1;
        }
        proof {
            lemma_first_where_none(self.estimates@, p);
        }
        None
    }

    /// Adds what gossip has told of a key. Rules this node does not know are
    /// passed over.
    pub fn add_remote_estimate(
        &mut self,
        rule_id: RuleId,
        key: KeyHash,
        bucket: u64,
        now_millis: u64,
        delta: u64,
    )
        requires
            old(self).wf(),
        ensures
            final(self).wf(),
            final(self).spec_rules() == old(self).spec_rules(),
            final(self)@ == told(
                old(self)@,
                old(self).spec_rules(),
                rule_id,
                key,
                bucket,
                now_millis,
                delta,
            ),
    {
        let ghost before = self@;
        let index: usize = match self.find_rule(rule_id) {
            Some(i) => i,
            None => {
                return;
            },
        };
        let ghost rule = self.rules@[index as int];
        proof {
            lemma_first_where(self.rules@, has_id(rule_id));
        }
        let expires: u64 = bucket.saturating_add(self.rules[index].window.size_millis);
        let fresh = RemoteEstimate {
            rule_id,
            key_hash: key,
            bucket_start_millis: bucket,
            count: delta,
            received_millis: now_millis,
            expires_millis: expires,
        };
        match self.find_estimate(rule_id, key, bucket) {
            Some(i) => {
                let mut e = self.estimates[i];
                e.count = e.count.saturating_add(delta);
                e.received_millis = now_millis;
                self.estimates.set(i, e);
            },
            None => if self.estimates.len() < self.max_cells {
                self.estimates.push(fresh);
            } else if let Some(i) = self.find_expired_estimate(now_millis) {
                self.estimates.set(i, fresh);
            },
        }
        assert(self@ =~= before.estimated(rule, key, bucket, now_millis, delta));
    }
}

/// The limiter after gossip told of a key.
pub open spec fn told(
    state: EngineState,
    rules: Seq<LocalRule>,
    rule_id: RuleId,
    key: KeyHash,
    bucket: u64,
    now: u64,
    delta: u64,
) -> EngineState {
    match first_where(rules, has_id(rule_id)) {
        Some(i) => state.estimated(rules[i], key, bucket, now, delta),
        None => state,
    }
}

pub open spec fn cells_of(slots: Seq<LocalSlot>) -> Seq<LocalCell> {
    Seq::new(slots.len(), |i: int| slots[i].cell)
}

/// The cells of the remembered changes.
pub open spec fn changed_cells(state: EngineState) -> Seq<LocalCell> {
    Seq::new(
        state.dirty.len(),
        |i: int| state.slots[state.dirty[i].cell_id as int].cell,
    )
}

/// The rules at `indices`.
pub open spec fn picked(rules: Seq<LocalRule>, indices: Seq<usize>) -> Seq<LocalRule> {
    Seq::new(indices.len(), |i: int| rules[indices[i] as int])
}

/// Cells for each key's whole window, at least one.
pub open spec fn default_cells(max_keys: usize, bucket_count: usize) -> usize {
    let buckets = if bucket_count == 0 {
        1int
    } else {
        bucket_count as int
    };
    let product = max_keys * buckets;
    if product == 0 {
        1
    } else if product <= usize::MAX {
        product as usize
    } else {
        usize::MAX
    }
}

/// Cells for each key's whole window, at least one.
pub fn cells_for(max_keys: usize, bucket_count: usize) -> (cells: usize)
    ensures
        cells == default_cells(max_keys, bucket_count),
{
    let buckets: usize = if bucket_count == 0 { 1 } else { bucket_count };
    let product: usize = times(max_keys, buckets);
    if product == 0 {
        1
    } else {
        product
    }
}

pub open spec fn memory_estimate(max_cells: nat, dirty_capacity: nat) -> usize {
    let cells = if max_cells * CELL_BYTES <= usize::MAX {
        max_cells * CELL_BYTES
    } else {
        usize::MAX as int
    };
    let ring = if dirty_capacity * DIRTY_ENTRY_BYTES <= usize::MAX {
        dirty_capacity * DIRTY_ENTRY_BYTES
    } else {
        usize::MAX as int
    };
    if cells + ring <= usize::MAX {
        (cells + ring) as usize
    } else {
        usize::MAX
    }
}

fn times(a: usize, b: usize) -> (product: usize)
    ensures
        product == if a * b <= usize::MAX {
            a * b
        } else {
            usize::MAX as int
        },
{
    match a.checked_mul(b) {
        Some(p) => p,
        None => usize::MAX,
    }
}

proof fn lemma_total_fits(i: int)
    requires
        0 <= i < usize::MAX,
    ensures
        i * u64::MAX + u64::MAX <= u128::MAX,
        (i + 1) * u64::MAX == i * u64::MAX + u64::MAX,
{
    assert(usize::MAX <= u64::MAX);
    assert(i * u64::MAX + u64::MAX <= u128::MAX) by (nonlinear_arith)
        requires
            0 <= i < u64::MAX,
    ;
    assert((i + 1) * u64::MAX == i * u64::MAX + u64::MAX) by (nonlinear_arith);
}

/// A rejection among the first `n` rules is the rejection of all of them.
proof fn lemma_rejection_stays(
    state: EngineState,
    rules: Seq<LocalRule>,
    domain: Seq<char>,
    descriptors: Seq<Descriptor<'_>>,
    hits: u64,
    now: u64,
    n: int,
)
    requires
        0 <= n <= rules.len(),
        state.first_rejection(rules.take(n), domain, descriptors, hits, now) is Some,
    ensures
        state.first_rejection(rules, domain, descriptors, hits, now) == state.first_rejection(
            rules.take(n),
            domain,
            descriptors,
            hits,
            now,
        ),
    decreases rules.len() - n,
{
    if n == rules.len() {
        assert(rules.take(n) =~= rules);
    } else {
        assert(rules.take(n + 1).drop_last() =~= rules.take(n));
        lemma_rejection_stays(state, rules, domain, descriptors, hits, now, n + 1);
    }
}

} // verus!
