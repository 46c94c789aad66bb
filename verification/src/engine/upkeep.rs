//! What counting leaves behind, and how requests follow each other.

use super::laws::{
    has_estimate_room, has_room, keys_of, lemma_hits_count_for_a_window, lemma_keys_counted,
    lemma_timing_kept, timed_by,
};
use crate::cells::{pushed, DirtyEntry};
use crate::crdt::KeyHash;
use crate::engine::{
    cells_of, changed_cells, default_cells, estimate_expired, estimate_is, has_id,
    local_applicable, local_sum, memory_estimate, remote_sum, request_key, slot_expired, slot_is,
    told, EngineState, LocalCell, LocalRule, LocalSlot, OverflowPolicy, RemoteEstimate,
    CELL_BYTES, DIRTY_ENTRY_BYTES, OVERFLOW_KEY,
};
use crate::requests::{Decision, HashedLimitRequest, LimitRequest, RejectReason};
use crate::rules::{Descriptor, EnforcementMode, RuleId};
use crate::seqs::{first_where, lemma_first_where, lemma_first_where_at, lemma_first_where_none};
use vstd::prelude::*;

verus! {

// -- sums -------------------------------------------------------------------

/// A key's hits on this node are those of all its cells that still count.
pub proof fn lemma_local_total(slots: Seq<LocalSlot>, rule_id: RuleId, key: KeyHash, now: u64)
    ensures
        local_sum(slots, rule_id, key, now) == slots.filter(
            |slot: LocalSlot|
                slot.cell.rule_id == rule_id && slot.cell.key_hash == key && slot.expires_millis
                    > now,
        ).fold_left(0int, |sum: int, slot: LocalSlot| sum + slot.cell.count),
    decreases slots.len(),
{
    reveal(Seq::filter);
    if slots.len() > 0 {
        let p = |slot: LocalSlot|
            slot.cell.rule_id == rule_id && slot.cell.key_hash == key && slot.expires_millis > now;
        lemma_local_total(slots.drop_last(), rule_id, key, now);
        if p(slots.last()) {
            assert(slots.filter(p).drop_last() =~= slots.drop_last().filter(p));
        }
    }
}

/// What is known of a key elsewhere is all that was told of it and still counts.
pub proof fn lemma_remote_total(
    estimates: Seq<RemoteEstimate>,
    rule_id: RuleId,
    key: KeyHash,
    now: u64,
)
    ensures
        remote_sum(estimates, rule_id, key, now) == estimates.filter(
            |e: RemoteEstimate| e.rule_id == rule_id && e.key_hash == key && e.expires_millis > now,
        ).fold_left(0int, |sum: int, e: RemoteEstimate| sum + e.count),
    decreases estimates.len(),
{
    reveal(Seq::filter);
    if estimates.len() > 0 {
        let p = |e: RemoteEstimate|
            e.rule_id == rule_id && e.key_hash == key && e.expires_millis > now;
        lemma_remote_total(estimates.drop_last(), rule_id, key, now);
        if p(estimates.last()) {
            assert(estimates.filter(p).drop_last() =~= estimates.drop_last().filter(p));
        }
    }
}

// -- what gossip told -------------------------------------------------------

/// Whether there is one estimate per rule, key and bucket.
pub open spec fn told_once(estimates: Seq<RemoteEstimate>) -> bool {
    forall|i: int, j: int|
        0 <= i < j < estimates.len() ==> !((#[trigger] estimates[i]).rule_id == (
        #[trigger] estimates[j]).rule_id && estimates[i].key_hash == estimates[j].key_hash
            && estimates[i].bucket_start_millis == estimates[j].bucket_start_millis)
}

/// What gossip tells of a key's bucket is kept in one place, and never in more
/// than there is room for.
pub proof fn lemma_told_in_one_place(
    state: EngineState,
    rules: Seq<LocalRule>,
    rule_id: RuleId,
    key: KeyHash,
    bucket: u64,
    now: u64,
    delta: u64,
)
    requires
        told_once(state.estimates),
    ensures
        ({
            let after = told(state, rules, rule_id, key, bucket, now, delta);
            &&& told_once(after.estimates)
            &&& after.estimates.len() <= vstd::math::max(
                state.estimates.len() as int,
                state.max_cells as int,
            )
            &&& after == (EngineState { estimates: after.estimates, ..state })
        }),
{
    lemma_first_where(rules, has_id(rule_id));
    lemma_first_where(state.estimates, estimate_is(rule_id, key, bucket));
    lemma_first_where(state.estimates, estimate_expired(now));
}

/// What gossip tells of a rule that is not known here, or what there is no room
/// for, changes nothing.
pub proof fn lemma_told_in_vain(
    state: EngineState,
    rules: Seq<LocalRule>,
    rule_id: RuleId,
    key: KeyHash,
    bucket: u64,
    now: u64,
    delta: u64,
)
    requires
        (forall|i: int| 0 <= i < rules.len() ==> (#[trigger] rules[i]).id != rule_id)
            || !has_estimate_room(state, rule_id, key, bucket, now),
    ensures
        told(state, rules, rule_id, key, bucket, now, delta) == state,
{
    lemma_first_where(rules, has_id(rule_id));
    lemma_first_where(state.estimates, estimate_is(rule_id, key, bucket));
    lemma_first_where(state.estimates, estimate_expired(now));
    if let Some(i) = first_where(state.estimates, estimate_is(rule_id, key, bucket)) {
        assert(state.estimates[i].rule_id == rule_id);
    }
    if let Some(i) = first_where(state.estimates, estimate_expired(now)) {
        assert(state.estimates[i].expires_millis <= now);
    }
    if let Some(i) = first_where(rules, has_id(rule_id)) {
        assert(rules[i].id == rule_id);
    }
}

// -- what counting notes ----------------------------------------------------

/// A queue of changes that is full forgets the oldest for the newest; one that
/// has room forgets nothing.
pub proof fn lemma_queue_keeps_newest(ring: Seq<DirtyEntry>, capacity: nat, entry: DirtyEntry)
    requires
        0 < capacity,
        ring.len() <= capacity,
    ensures
        pushed(ring, capacity, entry).last() == entry,
        pushed(ring, capacity, entry).len() == vstd::math::min(
            (ring.len() + 1) as int,
            capacity as int,
        ),
        pushed(ring, capacity, entry).drop_last().is_suffix_of(ring),
{
}

/// What was counted is noted: the cell is one of the limiter's, with a number of
/// its own, the next one, under this node's name if it is new, and the change is
/// the last of those remembered. That some were forgotten is remembered, too. No
/// other cell changes.
pub proof fn lemma_change_noted(
    state: EngineState,
    rule: LocalRule,
    key: KeyHash,
    hits: u64,
    now: u64,
)
    requires
        state.bounded(),
        0 < state.dirty_capacity,
        state.sequence < u64::MAX,
        state.slots.len() < usize::MAX,
    ensures
        ({
            let (after, noted) = state.counted(rule, key, hits, now);
            &&& noted is None ==> after == state
            &&& noted matches Some(cell) ==> {
                let last = after.dirty.last();
                let i = last.cell_id as int;
                &&& cell.rule_id == rule.id
                &&& cell.bucket_start_millis == rule.window.bucket_start(now)
                &&& cell.last_update_millis == now
                &&& cell.sequence == state.sequence + 1
                &&& after.sequence == state.sequence + 1
                &&& after.dirty.len() == vstd::math::min(
                    (state.dirty.len() + 1) as int,
                    state.dirty_capacity as int,
                )
                &&& last.sequence == cell.sequence
                &&& 0 <= i < after.slots.len()
                &&& after.slots[i].cell == cell
                &&& after.dirty.drop_last().is_suffix_of(state.dirty)
                &&& after.overflowed == (state.overflowed || state.dirty.len()
                    == state.dirty_capacity)
                &&& forall|j: int|
                    0 <= j < state.slots.len() && j != i ==> after.slots[j]
                        == #[trigger] state.slots[j]
                &&& after.estimates == state.estimates
                &&& i < state.slots.len() && state.slots[i].cell.rule_id == cell.rule_id
                    && state.slots[i].cell.key_hash == cell.key_hash
                    && state.slots[i].cell.bucket_start_millis == cell.bucket_start_millis ==> {
                    &&& cell.count == vstd::math::min(
                        state.slots[i].cell.count + hits,
                        u64::MAX as int,
                    )
                    &&& cell.origin_node_id == state.slots[i].cell.origin_node_id
                    &&& cell.origin_incarnation == state.slots[i].cell.origin_incarnation
                    &&& after.slots[i].expires_millis == state.slots[i].expires_millis
                }
                &&& i >= state.slots.len() || state.slots[i].cell.rule_id != cell.rule_id
                    || state.slots[i].cell.key_hash != cell.key_hash
                    || state.slots[i].cell.bucket_start_millis != cell.bucket_start_millis ==> {
                    &&& cell.count == hits
                    &&& cell.origin_node_id == state.identity.node_id
                    &&& cell.origin_incarnation == state.identity.incarnation
                }
            }
        }),
{
    if let Some(counted) = state.counted_key(rule, key) {
        let bucket = rule.window.bucket_start(now);
        lemma_first_where(state.slots, slot_is(rule.id, counted, bucket));
        lemma_first_where(state.slots, slot_expired(now));
    }
}

/// The remembered changes are the cells as they are now, in the order in which
/// they changed, and all cells are at hand.
pub proof fn lemma_cells_at_hand(state: EngineState, i: int)
    requires
        state.bounded(),
    ensures
        cells_of(state.slots).len() == state.slots.len(),
        0 <= i < state.slots.len() ==> cells_of(state.slots)[i] == state.slots[i].cell,
        changed_cells(state).len() == state.dirty.len(),
        0 <= i < state.dirty.len() ==> changed_cells(state)[i]
            == state.slots[state.dirty[i].cell_id as int].cell,
{
}

/// A key for which there is no more room is counted under the one that all such
/// keys share, or not at all, as its rule says. A key that has cells never counts
/// as such.
pub proof fn lemma_keys_overflow(
    state: EngineState,
    rule: LocalRule,
    key: KeyHash,
    hits: u64,
    now: u64,
)
    ensures
        ({
            let counted = state.counted(rule, key, hits, now);
            let full = !keys_of(state.slots).contains((rule.id, key)) && keys_of(
                state.slots,
            ).len() >= state.max_keys;
            &&& full && rule.overflow_policy == OverflowPolicy::Untracked ==> counted == (
                state,
                None::<LocalCell>,
            )
            &&& full && rule.overflow_policy == OverflowPolicy::UseOverflowKey && counted.1 is Some
                ==> counted.1->0.key_hash == KeyHash(OVERFLOW_KEY)
            &&& !full && counted.1 is Some ==> counted.1->0.key_hash == key
            &&& counted.1 is Some ==> counted.1->0.rule_id == rule.id
        }),
{
    lemma_keys_counted(state.slots);
    assert(crate::engine::tracks(state.slots, rule.id, key) <==> keys_of(state.slots).contains(
        (rule.id, key),
    ));
    if let Some(counted) = state.counted_key(rule, key) {
        let bucket = rule.window.bucket_start(now);
        lemma_first_where(state.slots, slot_is(rule.id, counted, bucket));
        lemma_first_where(state.slots, slot_expired(now));
    }
}

/// A key that overflows shares the room of all that do: what is counted of it
/// adds to what is known of the key they share.
pub proof fn lemma_overflow_counts_together(
    state: EngineState,
    rule: LocalRule,
    key: KeyHash,
    hits: u64,
    now: u64,
)
    requires
        !keys_of(state.slots).contains((rule.id, key)),
        keys_of(state.slots).len() >= state.max_keys,
        keys_of(state.slots).contains((rule.id, KeyHash(OVERFLOW_KEY))),
        rule.overflow_policy == OverflowPolicy::UseOverflowKey,
    ensures
        state.counted(rule, key, hits, now) == state.counted(
            rule,
            KeyHash(OVERFLOW_KEY),
            hits,
            now,
        ),
{
    lemma_keys_counted(state.slots);
    assert(crate::engine::tracks(state.slots, rule.id, key) <==> keys_of(state.slots).contains(
        (rule.id, key),
    ));
    assert(crate::engine::tracks(state.slots, rule.id, KeyHash(OVERFLOW_KEY)) <==> keys_of(
        state.slots,
    ).contains((rule.id, KeyHash(OVERFLOW_KEY))));
}

// -- requests ---------------------------------------------------------------

/// The reason that a request is given is that of the first rule that applies and
/// rejects it.
pub proof fn lemma_first_reason_given(
    state: EngineState,
    rules: Seq<LocalRule>,
    domain: Seq<char>,
    descriptors: Seq<Descriptor<'_>>,
    hits: u64,
    now: u64,
    i: int,
)
    requires
        ({
            let applying = local_applicable(rules, domain, descriptors);
            &&& 0 <= i < applying.len()
            &&& state.rejects(
                applying[i],
                request_key(applying[i], domain, descriptors),
                hits,
                now,
            ) is Some
            &&& forall|j: int|
                0 <= j < i ==> state.rejects(
                    #[trigger] applying[j],
                    request_key(applying[j], domain, descriptors),
                    hits,
                    now,
                ) is None
        }),
    ensures
        ({
            let applying = local_applicable(rules, domain, descriptors);
            state.decided(rules, domain, descriptors, hits, now) == (
                state,
                Decision::Reject(
                    state.rejects(
                        applying[i],
                        request_key(applying[i], domain, descriptors),
                        hits,
                        now,
                    )->0,
                ),
            )
        }),
{
    let applying = local_applicable(rules, domain, descriptors);
    lemma_first_reason(state, applying, domain, descriptors, hits, now, i);
}

proof fn lemma_first_reason(
    state: EngineState,
    rules: Seq<LocalRule>,
    domain: Seq<char>,
    descriptors: Seq<Descriptor<'_>>,
    hits: u64,
    now: u64,
    i: int,
)
    requires
        0 <= i <= rules.len(),
        i < rules.len() ==> state.rejects(
            rules[i],
            request_key(rules[i], domain, descriptors),
            hits,
            now,
        ) is Some,
        forall|j: int|
            0 <= j < i ==> state.rejects(
                #[trigger] rules[j],
                request_key(rules[j], domain, descriptors),
                hits,
                now,
            ) is None,
    ensures
        state.first_rejection(rules, domain, descriptors, hits, now) == if i < rules.len() {
            state.rejects(rules[i], request_key(rules[i], domain, descriptors), hits, now)
        } else {
            None::<RejectReason>
        },
    decreases rules.len(),
{
    if rules.len() > 0 {
        let front = rules.drop_last();
        let k = if i < front.len() {
            i
        } else {
            front.len() as int
        };
        assert forall|j: int| 0 <= j < k implies state.rejects(
            #[trigger] front[j],
            request_key(front[j], domain, descriptors),
            hits,
            now,
        ) is None by {
            assert(front[j] == rules[j]);
        }
        lemma_first_reason(state, front, domain, descriptors, hits, now, k);
    }
}

proof fn lemma_counted_step(
    state: EngineState,
    rule: LocalRule,
    key: KeyHash,
    hits: u64,
    now: u64,
)
    requires
        state.slots.len() < state.max_cells,
    ensures
        ({
            let after = state.counted(rule, key, hits, now).0;
            &&& after.slots.len() <= state.slots.len() + 1
            &&& after.max_cells == state.max_cells
            &&& after.max_keys == state.max_keys
            &&& keys_of(after.slots).len() <= keys_of(state.slots).len() + 1
            &&& forall|j: int|
                0 <= j < after.slots.len() && (#[trigger] after.slots[j]).cell.rule_id != rule.id
                    ==> j < state.slots.len() && after.slots[j] == state.slots[j]
        }),
{
    let after = state.counted(rule, key, hits, now).0;
    lemma_keys_counted(state.slots);
    lemma_keys_counted(after.slots);
    if let Some(counted) = state.counted_key(rule, key) {
        let bucket = rule.window.bucket_start(now);
        let found = first_where(state.slots, slot_is(rule.id, counted, bucket));
        lemma_first_where(state.slots, slot_is(rule.id, counted, bucket));
        let pair = |slot: LocalSlot| (slot.cell.rule_id, slot.cell.key_hash);
        if let Some(i) = found {
            assert(after.slots.map_values(pair) =~= state.slots.map_values(pair));
        } else {
            assert(after.slots.drop_last() =~= state.slots);
        }
    }
}

proof fn lemma_counted_all_adds(
    state: EngineState,
    rules: Seq<LocalRule>,
    domain: Seq<char>,
    descriptors: Seq<Descriptor<'_>>,
    hits: u64,
    now: u64,
    at: u64,
    all: Seq<LocalRule>,
)
    requires
        forall|i: int, j: int|
            0 <= i < j < all.len() ==> (#[trigger] all[i]).id != (#[trigger] all[j]).id,
        rules.is_prefix_of(all),
        forall|i: int| 0 <= i < all.len() ==> timed_by(state.slots, #[trigger] all[i]),
        now <= at < u64::MAX,
        state.slots.len() + rules.len() <= state.max_cells,
        keys_of(state.slots).len() + rules.len() <= state.max_keys,
        forall|i: int|
            0 <= i < state.slots.len() ==> (#[trigger] state.slots[i]).cell.count + hits
                <= u64::MAX,
    ensures
        ({
            let after = state.counted_all(rules, domain, descriptors, hits, now);
            &&& after.slots.len() <= state.slots.len() + rules.len()
            &&& after.max_cells == state.max_cells
            &&& after.max_keys == state.max_keys
            &&& keys_of(after.slots).len() <= keys_of(state.slots).len() + rules.len()
            &&& forall|i: int| 0 <= i < all.len() ==> timed_by(after.slots, #[trigger] all[i])
            &&& forall|k: int, j: int|
                rules.len() <= k < all.len() && 0 <= j < after.slots.len() && (
                #[trigger] after.slots[j]).cell.rule_id == (#[trigger] all[k]).id
                    ==> after.slots[j].cell.count + hits <= u64::MAX
            &&& forall|r: RuleId, k: KeyHash|
                (forall|i: int| 0 <= i < rules.len() ==> (#[trigger] rules[i]).id != r)
                    ==> #[trigger] local_sum(after.slots, r, k, at) == local_sum(
                    state.slots,
                    r,
                    k,
                    at,
                )
            &&& forall|i: int|
                0 <= i < rules.len() ==> ({
                    let rule = #[trigger] rules[i];
                    let key = request_key(rule, domain, descriptors);
                    local_sum(after.slots, rule.id, key, at) == local_sum(
                        state.slots,
                        rule.id,
                        key,
                        at,
                    ) + if at < rule.window.bucket_start(now) + rule.window.size_millis {
                        hits as int
                    } else {
                        0
                    }
                })
        }),
    decreases rules.len(),
{
    if rules.len() > 0 {
        let front = rules.drop_last();
        let n = front.len() as int;
        let rule = rules.last();
        let key = request_key(rule, domain, descriptors);
        assert(all[n] == rule);
        lemma_counted_all_adds(state, front, domain, descriptors, hits, now, at, all);
        let before = state.counted_all(front, domain, descriptors, hits, now);
        let after = before.counted(rule, key, hits, now).0;
        assert(after == state.counted_all(rules, domain, descriptors, hits, now));
        lemma_counted_step(before, rule, key, hits, now);
        assert forall|j: int|
            0 <= j < before.slots.len() && (#[trigger] before.slots[j]).cell.rule_id
                == rule.id implies before.slots[j].cell.count + hits <= u64::MAX by {
            assert(before.slots[j].cell.rule_id == all[n].id);
        }
        assert(has_room(before, rule, key, now));
        lemma_hits_count_for_a_window(before, rule, key, hits, now, at);
        assert forall|i: int| 0 <= i < all.len() implies timed_by(
            after.slots,
            #[trigger] all[i],
        ) by {
            assert(all[i].id == rule.id ==> i == n);
            lemma_timing_kept(before, rule, key, hits, now, all[i]);
        }
        assert forall|k: int, j: int|
            rules.len() <= k < all.len() && 0 <= j < after.slots.len() && (
            #[trigger] after.slots[j]).cell.rule_id == (
            #[trigger] all[k]).id implies after.slots[j].cell.count + hits <= u64::MAX by {
            assert(all[n].id != all[k].id);
            assert(after.slots[j] == before.slots[j]);
            assert(before.slots[j].cell.rule_id == all[k].id);
        }
        assert forall|r: RuleId, k: KeyHash|
            (forall|i: int| 0 <= i < rules.len() ==> (#[trigger] rules[i]).id
                != r) implies #[trigger] local_sum(after.slots, r, k, at) == local_sum(
            state.slots,
            r,
            k,
            at,
        ) by {
            assert(rules[n].id != r);
            assert forall|i: int| 0 <= i < front.len() implies (#[trigger] front[i]).id != r by {
                assert(front[i] == rules[i]);
            }
            assert(local_sum(before.slots, r, k, at) == local_sum(state.slots, r, k, at));
        }
        assert forall|i: int| 0 <= i < rules.len() implies ({
            let rule = #[trigger] rules[i];
            let key = request_key(rule, domain, descriptors);
            local_sum(after.slots, rule.id, key, at) == local_sum(state.slots, rule.id, key, at)
                + if at < rule.window.bucket_start(now) + rule.window.size_millis {
                hits as int
            } else {
                0
            }
        }) by {
            let other = rules[i];
            let k = request_key(other, domain, descriptors);
            assert(all[i] == other);
            if i < n {
                assert(front[i] == other);
                assert(all[i].id != all[n].id);
                assert(local_sum(after.slots, other.id, k, at) == local_sum(
                    before.slots,
                    other.id,
                    k,
                    at,
                ));
            } else {
                assert forall|m: int| 0 <= m < front.len() implies (#[trigger] front[m]).id
                    != rule.id by {
                    assert(all[m].id != all[n].id);
                    assert(front[m] == all[m]);
                }
                assert(local_sum(before.slots, rule.id, key, at) == local_sum(
                    state.slots,
                    rule.id,
                    key,
                    at,
                ));
            }
        }
    }
}

/// What is allowed is counted under every rule that applies: under each, the hits
/// count for the key of the request from then on until a window has passed since
/// the start of their bucket. Under no other rule does anything change. It needs
/// room for them all, and counts that fit 64 bits; rules have different numbers.
pub proof fn lemma_allowed_counts_everywhere(
    state: EngineState,
    rules: Seq<LocalRule>,
    domain: Seq<char>,
    descriptors: Seq<Descriptor<'_>>,
    hits: u64,
    now: u64,
    at: u64,
)
    requires
        ({
            let applying = local_applicable(rules, domain, descriptors);
            &&& forall|i: int, j: int|
                0 <= i < j < applying.len() ==> (#[trigger] applying[i]).id != (
                #[trigger] applying[j]).id
            &&& forall|i: int|
                0 <= i < applying.len() ==> timed_by(state.slots, #[trigger] applying[i])
            &&& state.slots.len() + applying.len() <= state.max_cells
            &&& keys_of(state.slots).len() + applying.len() <= state.max_keys
        }),
        now <= at < u64::MAX,
        forall|i: int|
            0 <= i < state.slots.len() ==> (#[trigger] state.slots[i]).cell.count + hits
                <= u64::MAX,
        state.decided(rules, domain, descriptors, hits, now).1 == Decision::Allow,
    ensures
        ({
            let applying = local_applicable(rules, domain, descriptors);
            let after = state.decided(rules, domain, descriptors, hits, now).0;
            &&& forall|i: int|
                0 <= i < applying.len() ==> ({
                    let rule = #[trigger] applying[i];
                    let key = request_key(rule, domain, descriptors);
                    local_sum(after.slots, rule.id, key, at) == local_sum(
                        state.slots,
                        rule.id,
                        key,
                        at,
                    ) + if at < rule.window.bucket_start(now) + rule.window.size_millis {
                        hits as int
                    } else {
                        0
                    }
                })
            &&& forall|r: RuleId, k: KeyHash|
                (forall|i: int| 0 <= i < applying.len() ==> (#[trigger] applying[i]).id != r)
                    ==> #[trigger] local_sum(after.slots, r, k, at) == local_sum(
                    state.slots,
                    r,
                    k,
                    at,
                )
        }),
{
    let applying = local_applicable(rules, domain, descriptors);
    lemma_counted_all_adds(state, applying, domain, descriptors, hits, now, at, applying);
}

/// A request for a known rule and key that is allowed is counted, and the cell
/// that holds it is handed out. One for a rule that is not known or is disabled is
/// allowed and counted nowhere.
pub proof fn lemma_allowed_is_counted(
    state: EngineState,
    rules: Seq<LocalRule>,
    request: HashedLimitRequest,
    now: u64,
    at: u64,
    index: int,
)
    requires
        0 <= index < rules.len(),
        rules[index].id == request.rule_id,
        forall|j: int| 0 <= j < index ==> (#[trigger] rules[j]).id != request.rule_id,
        timed_by(state.slots, rules[index]),
        now <= at < u64::MAX,
        has_room(state, rules[index], request.key_hash, now),
        forall|i: int|
            0 <= i < state.slots.len() && (#[trigger] state.slots[i]).cell.rule_id
                == request.rule_id ==> state.slots[i].cell.count + request.hits <= u64::MAX,
        state.decided_hashed(rules, request, now).1 == Decision::Allow,
    ensures
        ({
            let rule = rules[index];
            let (after, decision, cell) = state.decided_hashed(rules, request, now);
            &&& rule.mode == EnforcementMode::Disabled ==> after == state && cell is None
            &&& rule.mode != EnforcementMode::Disabled ==> {
                &&& local_sum(after.slots, rule.id, request.key_hash, at) == local_sum(
                    state.slots,
                    rule.id,
                    request.key_hash,
                    at,
                ) + if at < rule.window.bucket_start(now) + rule.window.size_millis {
                    request.hits as int
                } else {
                    0
                }
                &&& cell is Some
                &&& cell->0.rule_id == rule.id
                &&& cell->0.key_hash == request.key_hash
            }
        }),
{
    let rule = rules[index];
    lemma_first_where_at(rules, has_id(request.rule_id), index);
    if rule.mode != EnforcementMode::Disabled {
        lemma_hits_count_for_a_window(state, rule, request.key_hash, request.hits, now, at);
        lemma_keys_overflow(state, rule, request.key_hash, request.hits, now);
        let key = request.key_hash;
        let bucket = rule.window.bucket_start(now);
        lemma_keys_counted(state.slots);
        assert(crate::engine::tracks(state.slots, rule.id, key) <==> keys_of(
            state.slots,
        ).contains((rule.id, key)));
        lemma_first_where(state.slots, slot_is(rule.id, key, bucket));
        lemma_first_where(state.slots, slot_expired(now));
        if state.slots.len() >= state.max_cells {
            let i = choose|i: int|
                0 <= i < state.slots.len() && ((#[trigger] state.slots[i]).expires_millis <= now
                    || (state.slots[i].cell.rule_id == rule.id && state.slots[i].cell.key_hash
                    == key && state.slots[i].cell.bucket_start_millis == bucket));
            if state.slots[i].expires_millis <= now {
                assert(slot_expired(now)(state.slots[i]));
            } else {
                assert(slot_is(rule.id, key, bucket)(state.slots[i]));
            }
        }
    }
}

/// A request for a rule that is not known is allowed, and counted nowhere.
pub proof fn lemma_unknown_rule_allowed(
    state: EngineState,
    rules: Seq<LocalRule>,
    request: HashedLimitRequest,
    now: u64,
)
    requires
        forall|i: int| 0 <= i < rules.len() ==> (#[trigger] rules[i]).id != request.rule_id,
    ensures
        state.decided_hashed(rules, request, now) == (state, Decision::Allow, None::<LocalCell>),
{
    lemma_first_where_none(rules, has_id(request.rule_id));
}

/// Requests are decided one after the other: each finds what those before it left
/// behind.
pub proof fn lemma_requests_in_turn(
    state: EngineState,
    rules: Seq<LocalRule>,
    first: Seq<LimitRequest<'_>>,
    then: Seq<LimitRequest<'_>>,
    now: u64,
)
    ensures
        ({
            let (between, decisions) = state.decided_all(rules, first, now);
            let (after, more) = between.decided_all(rules, then, now);
            &&& state.decided_all(rules, first + then, now) == (after, decisions + more)
            &&& decisions.len() == first.len()
        }),
    decreases first.len() + then.len(),
{
    if then.len() > 0 {
        lemma_requests_in_turn(state, rules, first, then.drop_last(), now);
        assert((first + then).drop_last() =~= first + then.drop_last());
    } else {
        assert(first + then =~= first);
        if first.len() > 0 {
            lemma_requests_in_turn(state, rules, first.drop_last(), Seq::empty(), now);
        }
    }
}

/// One request on its own is decided as it would be by itself.
pub proof fn lemma_single_request(
    state: EngineState,
    rules: Seq<LocalRule>,
    request: LimitRequest<'_>,
    now: u64,
)
    ensures
        ({
            let (after, decision) = state.decided(
                rules,
                request.domain@,
                request.descriptors@,
                request.hits,
                now,
            );
            state.decided_all(rules, seq![request], now) == (after, seq![decision])
        }),
{
    reveal_with_fuel(EngineState::decided_all, 2);
    assert(seq![request].drop_last() =~= Seq::<LimitRequest<'_>>::empty());
}

// -- sizes ------------------------------------------------------------------

/// There is a cell for every bucket of every key, or one, as far as a machine
/// word holds it.
pub proof fn lemma_cells_for_all(max_keys: usize, bucket_count: usize)
    ensures
        default_cells(max_keys, bucket_count) >= 1,
        0 < max_keys && 0 < bucket_count && max_keys * bucket_count <= usize::MAX ==> default_cells(
            max_keys,
            bucket_count,
        ) == max_keys * bucket_count,
        0 < max_keys && bucket_count == 0 ==> default_cells(max_keys, bucket_count) == max_keys,
        max_keys == 0 ==> default_cells(max_keys, bucket_count) == 1,
{
    if 0 < max_keys && 0 < bucket_count {
        assert(max_keys * bucket_count > 0) by (nonlinear_arith)
            requires
                0 < max_keys,
                0 < bucket_count,
        ;
    }
}

/// Memory grows by as much with every cell and every remembered change.
pub proof fn lemma_memory_grows(max_cells: nat, dirty_capacity: nat)
    requires
        (max_cells + 1) * CELL_BYTES + (dirty_capacity + 1) * DIRTY_ENTRY_BYTES <= usize::MAX,
    ensures
        memory_estimate(max_cells + 1, dirty_capacity) == memory_estimate(
            max_cells,
            dirty_capacity,
        ) + CELL_BYTES,
        memory_estimate(max_cells, dirty_capacity + 1) == memory_estimate(
            max_cells,
            dirty_capacity,
        ) + DIRTY_ENTRY_BYTES,
        memory_estimate(0, 0) == 0,
{
}

} // verus!
