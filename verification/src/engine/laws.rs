//! What a limiter promises of its decisions.

use crate::crdt::KeyHash;
use crate::engine::{
    distinct_keys, estimate_expired, estimate_is, estimate_of, has_id, known_fresh,
    local_applicable, local_sum, remote_sum, request_key, same_local_key, slot_counts,
    slot_expired, slot_is, told, tracks, EngineState, LocalRule, LocalSlot, RemoteEstimate,
    WindowSpec,
};
use crate::requests::{Decision, HashedLimitRequest, RejectReason};
use crate::rules::{
    domain_input, lemma_patterns_fit, patterns_fit, stable_hash, Descriptor, EnforcementMode,
    RuleId,
};
use crate::seqs::{first_where, lemma_first_where, lemma_first_where_at};
use vstd::prelude::*;

verus! {

/// Whether a key's hits are within all that holds of a rule now: this node's
/// hard cap, and the cluster's limit less the margin or, as long as nothing
/// fresh is known of the cluster, the fallback cap.
pub open spec fn within_caps(
    state: EngineState,
    rule: LocalRule,
    key: KeyHash,
    hits: u64,
    now: u64,
) -> bool {
    let local = local_sum(state.slots, rule.id, key, now);
    let remote = remote_sum(state.estimates, rule.id, key, now);
    &&& local + hits <= rule.local_absolute_limit
    &&& if known_fresh(state.estimates, rule.id, key, rule.stale_after_millis, now) {
        local + remote + hits + rule.safety_margin.hits <= rule.limit
    } else {
        local + hits <= rule.local_fallback_limit
    }
}

/// Whether a key's hits are over what an enforced rule allows.
pub open spec fn exceeds(
    state: EngineState,
    rule: LocalRule,
    key: KeyHash,
    hits: u64,
    now: u64,
) -> bool {
    rule.mode == EnforcementMode::Enforce && !within_caps(state, rule, key, hits, now)
}

/// A request for a known rule and key is rejected exactly if the rule is
/// enforced and the hits are over what it allows: unknown, disabled and dry-run
/// rules let everything through. What is rejected leaves the limiter as it was.
pub proof fn lemma_decision_sound(
    state: EngineState,
    rules: Seq<LocalRule>,
    request: HashedLimitRequest,
    now: u64,
)
    ensures
        ({
            let (after, decision, cell) = state.decided_hashed(rules, request, now);
            &&& decision is Reject <==> match first_where(rules, has_id(request.rule_id)) {
                Some(i) => exceeds(state, rules[i], request.key_hash, request.hits, now),
                None => false,
            }
            &&& decision is Reject ==> after == state && cell is None
        }),
{
}

/// There is a rejection among some rules exactly if one of them is exceeded.
proof fn lemma_rejection_exists(
    state: EngineState,
    rules: Seq<LocalRule>,
    domain: Seq<char>,
    descriptors: Seq<Descriptor<'_>>,
    hits: u64,
    now: u64,
)
    ensures
        state.first_rejection(rules, domain, descriptors, hits, now) is Some <==> exists|i: int|
            0 <= i < rules.len() && exceeds(
                state,
                #[trigger] rules[i],
                request_key(rules[i], domain, descriptors),
                hits,
                now,
            ),
    decreases rules.len(),
{
    if rules.len() > 0 {
        let prefix = rules.drop_last();
        lemma_rejection_exists(state, prefix, domain, descriptors, hits, now);
        let last = rules.last();
        assert(rules[rules.len() - 1] == last);
        assert forall|i: int| 0 <= i < prefix.len() implies #[trigger] prefix[i] == rules[i] by {}
        if state.first_rejection(prefix, domain, descriptors, hits, now) is Some {
            let i = choose|i: int|
                0 <= i < prefix.len() && exceeds(
                    state,
                    #[trigger] prefix[i],
                    request_key(prefix[i], domain, descriptors),
                    hits,
                    now,
                );
            assert(rules[i] == prefix[i]);
        } else {
            assert forall|i: int| 0 <= i < prefix.len() implies !exceeds(
                state,
                #[trigger] rules[i],
                request_key(rules[i], domain, descriptors),
                hits,
                now,
            ) by {
                assert(prefix[i] == rules[i]);
            }
        }
    }
}

/// Every rule that applies has a say: a request is rejected exactly if some
/// enforced rule that applies is exceeded. What is rejected is counted under no
/// rule; what no rule applies to is allowed and not counted.
pub proof fn lemma_every_rule_decides(
    state: EngineState,
    rules: Seq<LocalRule>,
    domain: Seq<char>,
    descriptors: Seq<Descriptor<'_>>,
    hits: u64,
    now: u64,
)
    ensures
        ({
            let (after, decision) = state.decided(rules, domain, descriptors, hits, now);
            let applying = local_applicable(rules, domain, descriptors);
            &&& decision is Reject <==> exists|i: int|
                0 <= i < applying.len() && exceeds(
                    state,
                    #[trigger] applying[i],
                    request_key(applying[i], domain, descriptors),
                    hits,
                    now,
                )
            &&& decision is Reject ==> after == state
            &&& applying.len() == 0 ==> decision == Decision::Allow && after == state
        }),
{
    lemma_rejection_exists(
        state,
        local_applicable(rules, domain, descriptors),
        domain,
        descriptors,
        hits,
        now,
    );
}

// -- counting ---------------------------------------------------------------

/// Whether the cells of a rule stop counting a window after their bucket starts.
pub open spec fn timed_by(slots: Seq<LocalSlot>, rule: LocalRule) -> bool {
    forall|i: int|
        0 <= i < slots.len() && (#[trigger] slots[i]).cell.rule_id == rule.id
            ==> slots[i].expires_millis == vstd::math::min(
            slots[i].cell.bucket_start_millis + rule.window.size_millis,
            u64::MAX as int,
        )
}

/// Counting keeps the cells of a rule timed by its window, whichever rule it is
/// for, as long as a rule's number has one window.
pub proof fn lemma_timing_kept(
    state: EngineState,
    counted: LocalRule,
    key: KeyHash,
    hits: u64,
    now: u64,
    rule: LocalRule,
)
    requires
        timed_by(state.slots, rule),
        counted.id == rule.id ==> counted.window == rule.window,
    ensures
        timed_by(state.counted(counted, key, hits, now).0.slots, rule),
{
    let after = state.counted(counted, key, hits, now).0;
    if after != state {
        let key = state.counted_key(counted, key)->0;
        let bucket = counted.window.bucket_start(now);
        lemma_first_where(state.slots, slot_is(counted.id, key, bucket));
        lemma_first_where(state.slots, slot_expired(now));
        let i = state.place_for(counted.id, key, bucket, now)->0;
        assert(after == state.written(i, state.counted_slot(i, counted, key, hits, now)));
        assert forall|j: int| 0 <= j < after.slots.len() && (#[trigger] after.slots[j]).cell.rule_id
            == rule.id implies after.slots[j].expires_millis == rule.window.expiry(
            after.slots[j].cell.bucket_start_millis,
        ) by {
            if j != i {
                assert(after.slots[j] == state.slots[j]);
            }
        }
    }
}

/// The bucket that a moment is in still counts at that moment.
proof fn lemma_bucket_counts(window: WindowSpec, now: u64)
    requires
        window.size_millis >= 1,
        now < u64::MAX,
    ensures
        window.expiry(window.bucket_start(now)) > now,
{
    let width = window.spec_bucket_millis();
    assert(1 <= width <= window.size_millis) by {
        if window.bucket_count > 0 && window.size_millis >= window.bucket_count {
            let size = window.size_millis as int;
            let count = window.bucket_count as int;
            assert(1 <= size / count <= size) by (nonlinear_arith)
                requires
                    1 <= count <= size,
            ;
        }
    }
    vstd::arithmetic::div_mod::lemma_mod_bound(now as int, width as int);
    vstd::arithmetic::div_mod::lemma_mod_decreases(now as nat, width as nat);
}

/// What a slot adds to a key's hits.
pub open spec fn share(slot: LocalSlot, rule_id: RuleId, key: KeyHash, now: u64) -> nat {
    if slot_counts(slot, rule_id, key, now) {
        slot.cell.count as nat
    } else {
        0
    }
}

/// One slot is at most the whole.
proof fn lemma_share_within(
    slots: Seq<LocalSlot>,
    i: int,
    rule_id: RuleId,
    key: KeyHash,
    now: u64,
)
    requires
        0 <= i < slots.len(),
    ensures
        share(slots[i], rule_id, key, now) <= local_sum(slots, rule_id, key, now),
    decreases slots.len(),
{
    if i < slots.len() - 1 {
        lemma_share_within(slots.drop_last(), i, rule_id, key, now);
    }
}

/// A slot that is replaced takes its share along and brings its own.
proof fn lemma_sum_updated(
    slots: Seq<LocalSlot>,
    i: int,
    slot: LocalSlot,
    rule_id: RuleId,
    key: KeyHash,
    now: u64,
)
    requires
        0 <= i < slots.len(),
    ensures
        local_sum(slots.update(i, slot), rule_id, key, now) + share(slots[i], rule_id, key, now)
            == local_sum(slots, rule_id, key, now) + share(slot, rule_id, key, now),
    decreases slots.len(),
{
    let prefix = slots.drop_last();
    if i == slots.len() - 1 {
        assert(slots.update(i, slot).drop_last() =~= prefix);
    } else {
        lemma_sum_updated(prefix, i, slot, rule_id, key, now);
        assert(slots.update(i, slot).drop_last() =~= prefix.update(i, slot));
    }
}

/// Counting adds the hits to the key's own, as far as a count goes, and to no
/// other key's or rule's. It needs room: the key is tracked or can be, and there
/// is a place for its bucket.
pub proof fn lemma_counting_adds(
    state: EngineState,
    rule: LocalRule,
    key: KeyHash,
    hits: u64,
    now: u64,
)
    requires
        timed_by(state.slots, rule),
        rule.window.size_millis >= 1,
        now < u64::MAX,
        state.counted_key(rule, key) == Some(key),
        state.place_for(rule.id, key, rule.window.bucket_start(now), now) is Some,
        local_sum(state.slots, rule.id, key, now) + hits <= u64::MAX,
    ensures
        ({
            let after = state.counted(rule, key, hits, now).0;
            &&& local_sum(after.slots, rule.id, key, now) == local_sum(
                state.slots,
                rule.id,
                key,
                now,
            ) + hits
            &&& forall|r: RuleId, k: KeyHash|
                r != rule.id || k != key ==> #[trigger] local_sum(after.slots, r, k, now)
                    == local_sum(state.slots, r, k, now)
        }),
{
    let bucket = rule.window.bucket_start(now);
    lemma_bucket_counts(rule.window, now);
    lemma_first_where(state.slots, slot_is(rule.id, key, bucket));
    lemma_first_where(state.slots, slot_expired(now));
    let i = state.place_for(rule.id, key, bucket, now)->0;
    let after = state.counted(rule, key, hits, now).0;
    let slot = after.slots[i];
    assert(after == state.written(i, state.counted_slot(i, rule, key, hits, now)));
    if i < state.slots.len() {
        assert(after.slots =~= state.slots.update(i, slot));
        lemma_share_within(state.slots, i, rule.id, key, now);
        lemma_sum_updated(state.slots, i, slot, rule.id, key, now);
        assert forall|r: RuleId, k: KeyHash| r != rule.id || k != key implies #[trigger] local_sum(
            after.slots,
            r,
            k,
            now,
        ) == local_sum(state.slots, r, k, now) by {
            lemma_sum_updated(state.slots, i, slot, r, k, now);
        }
    } else {
        assert(after.slots.drop_last() =~= state.slots);
    }
}

/// A cap that is enforced is kept: after a request that was allowed and that
/// there was room to count, the key's hits on this node are within the hard cap,
/// and, with those known of the cluster and the margin, within the limit or, as
/// long as nothing fresh is known, within the fallback cap.
pub proof fn lemma_caps_kept(
    state: EngineState,
    rules: Seq<LocalRule>,
    request: HashedLimitRequest,
    now: u64,
)
    requires
        first_where(rules, has_id(request.rule_id)) is Some,
        ({
            let rule = rules[first_where(rules, has_id(request.rule_id))->0];
            &&& rule.mode == EnforcementMode::Enforce
            &&& timed_by(state.slots, rule)
            &&& rule.window.size_millis >= 1
            &&& now < u64::MAX
            &&& state.counted_key(rule, request.key_hash) == Some(request.key_hash)
            &&& state.place_for(
                rule.id,
                request.key_hash,
                rule.window.bucket_start(now),
                now,
            ) is Some
        }),
        state.decided_hashed(rules, request, now).1 == Decision::Allow,
    ensures
        ({
            let rule = rules[first_where(rules, has_id(request.rule_id))->0];
            let after = state.decided_hashed(rules, request, now).0;
            within_caps(after, rule, request.key_hash, 0, now)
        }),
{
    let rule = rules[first_where(rules, has_id(request.rule_id))->0];
    lemma_decision_sound(state, rules, request, now);
    lemma_counting_adds(state, rule, request.key_hash, request.hits, now);
    let after = state.decided_hashed(rules, request, now).0;
    assert(after.estimates == state.estimates);
}

// -- windows ----------------------------------------------------------------

/// Buckets cut a window evenly: as many as the window has, a millisecond at the
/// least, and none of them wider than that makes them.
pub proof fn lemma_bucket_width(window: WindowSpec)
    ensures
        window.spec_bucket_millis() >= 1,
        1 <= window.bucket_count <= window.size_millis ==> {
            &&& window.spec_bucket_millis() * window.bucket_count <= window.size_millis
            &&& (window.spec_bucket_millis() + 1) * window.bucket_count > window.size_millis
        },
        window.bucket_count > window.size_millis ==> window.spec_bucket_millis() == 1,
        window.bucket_count == 0 && window.size_millis > 0 ==> window.spec_bucket_millis()
            == window.size_millis,
{
    if 1 <= window.bucket_count <= window.size_millis {
        let size = window.size_millis as int;
        let count = window.bucket_count as int;
        let width = window.spec_bucket_millis() as int;
        assert(width >= 1 && width * count <= size && (width + 1) * count > size)
            by (nonlinear_arith)
            requires
                1 <= count <= size,
                width == size / count,
        ;
    }
}

/// A moment lies in its bucket, and buckets follow each other without gaps: a
/// bucket starts at a multiple of its width and ends where the next one starts.
pub proof fn lemma_moment_in_bucket(window: WindowSpec, now: u64)
    ensures
        ({
            let width = window.spec_bucket_millis();
            let start = window.bucket_start(now);
            &&& start % width == 0
            &&& start <= now < start + width
        }),
{
    lemma_bucket_width(window);
    let width = window.spec_bucket_millis() as int;
    let n = now as int;
    vstd::arithmetic::div_mod::lemma_mod_bound(n, width);
    vstd::arithmetic::div_mod::lemma_fundamental_div_mod(n, width);
    vstd::arithmetic::div_mod::lemma_mod_decreases(now as nat, width as nat);
    vstd::arithmetic::div_mod::lemma_mod_multiples_basic(n / width, width);
    assert(n - n % width == (n / width) * width) by (nonlinear_arith)
        requires
            n == width * (n / width) + n % width,
    ;
}

/// The keys that have cells.
pub open spec fn keys_of(slots: Seq<LocalSlot>) -> Set<(RuleId, KeyHash)> {
    slots.map_values(|slot: LocalSlot| (slot.cell.rule_id, slot.cell.key_hash)).to_set()
}

/// The number of tracked keys is the number of different keys that have cells.
pub proof fn lemma_keys_counted(slots: Seq<LocalSlot>)
    ensures
        distinct_keys(slots) == keys_of(slots).len(),
        keys_of(slots).finite(),
        forall|rule_id: RuleId, key: KeyHash|
            tracks(slots, rule_id, key) <==> #[trigger] keys_of(slots).contains((rule_id, key)),
    decreases slots.len(),
{
    let pair = |slot: LocalSlot| (slot.cell.rule_id, slot.cell.key_hash);
    let pairs = slots.map_values(pair);
    assert forall|rule_id: RuleId, key: KeyHash|
        tracks(slots, rule_id, key) <==> #[trigger] keys_of(slots).contains((rule_id, key)) by {
        if tracks(slots, rule_id, key) {
            let i = choose|i: int|
                0 <= i < slots.len() && same_local_key(#[trigger] slots[i], rule_id, key);
            assert(pairs[i] == (rule_id, key));
        }
        if keys_of(slots).contains((rule_id, key)) {
            let i = choose|i: int| 0 <= i < pairs.len() && pairs[i] == (rule_id, key);
            assert(same_local_key(slots[i], rule_id, key));
        }
    }
    if slots.len() == 0 {
        assert(keys_of(slots) =~= Set::empty());
    } else {
        let front = slots.drop_last();
        lemma_keys_counted(front);
        let last = pair(slots.last());
        assert(pairs =~= front.map_values(pair).push(last));
        assert(keys_of(slots) =~= keys_of(front).insert(last)) by {
            assert forall|p: (RuleId, KeyHash)| keys_of(slots).contains(p) <==> keys_of(
                front,
            ).insert(last).contains(p) by {
                let before = front.map_values(pair);
                if keys_of(slots).contains(p) {
                    let i = choose|i: int| 0 <= i < pairs.len() && pairs[i] == p;
                    if i < front.len() {
                        assert(before[i] == p);
                    }
                }
                if keys_of(front).contains(p) {
                    let i = choose|i: int| 0 <= i < before.len() && before[i] == p;
                    assert(pairs[i] == p);
                }
                assert(pairs[front.len() as int] == last);
            }
        }
        assert(tracks(front, last.0, last.1) <==> keys_of(front).contains((last.0, last.1)));
    }
}

/// Whether there is room to count a key at a moment: the key has cells or may
/// get some, and its bucket has a cell, or there is a place for a new one, or
/// one that no longer counts.
pub open spec fn has_room(state: EngineState, rule: LocalRule, key: KeyHash, now: u64) -> bool {
    let bucket = rule.window.bucket_start(now);
    &&& keys_of(state.slots).contains((rule.id, key)) || keys_of(state.slots).len()
        < state.max_keys
    &&& state.slots.len() < state.max_cells || (exists|i: int|
        0 <= i < state.slots.len() && ((#[trigger] state.slots[i]).expires_millis <= now || (
        state.slots[i].cell.rule_id == rule.id && state.slots[i].cell.key_hash == key
            && state.slots[i].cell.bucket_start_millis == bucket)))
}

proof fn lemma_room_is_used(state: EngineState, rule: LocalRule, key: KeyHash, now: u64)
    requires
        has_room(state, rule, key, now),
    ensures
        state.counted_key(rule, key) == Some(key),
        state.place_for(rule.id, key, rule.window.bucket_start(now), now) is Some,
{
    lemma_keys_counted(state.slots);
    let bucket = rule.window.bucket_start(now);
    lemma_first_where(state.slots, slot_is(rule.id, key, bucket));
    lemma_first_where(state.slots, slot_expired(now));
    assert(tracks(state.slots, rule.id, key) <==> keys_of(state.slots).contains((rule.id, key)));
    if state.slots.len() >= state.max_cells {
        let i = choose|i: int|
            0 <= i < state.slots.len() && ((#[trigger] state.slots[i]).expires_millis <= now || (
            state.slots[i].cell.rule_id == rule.id && state.slots[i].cell.key_hash == key
                && state.slots[i].cell.bucket_start_millis == bucket));
        if state.slots[i].expires_millis <= now {
            assert(slot_expired(now)(state.slots[i]));
        } else {
            assert(slot_is(rule.id, key, bucket)(state.slots[i]));
        }
    }
}

/// A hit counts for its window and no longer: hits counted at `now` are among
/// the key's own from then on until a window has passed since the start of
/// their bucket, and at no time after that. No other key's or rule's hits
/// change. It needs room, and counts that fit 64 bits.
pub proof fn lemma_hits_count_for_a_window(
    state: EngineState,
    rule: LocalRule,
    key: KeyHash,
    hits: u64,
    now: u64,
    at: u64,
)
    requires
        timed_by(state.slots, rule),
        now <= at < u64::MAX,
        has_room(state, rule, key, now),
        forall|i: int|
            0 <= i < state.slots.len() && (#[trigger] state.slots[i]).cell.rule_id == rule.id
                ==> state.slots[i].cell.count + hits <= u64::MAX,
    ensures
        ({
            let after = state.counted(rule, key, hits, now).0;
            &&& local_sum(after.slots, rule.id, key, at) == local_sum(
                state.slots,
                rule.id,
                key,
                at,
            ) + if at < rule.window.bucket_start(now) + rule.window.size_millis {
                hits as int
            } else {
                0
            }
            &&& forall|r: RuleId, k: KeyHash|
                r != rule.id || k != key ==> #[trigger] local_sum(after.slots, r, k, at)
                    == local_sum(state.slots, r, k, at)
        }),
{
    let bucket = rule.window.bucket_start(now);
    lemma_room_is_used(state, rule, key, now);
    lemma_first_where(state.slots, slot_is(rule.id, key, bucket));
    lemma_first_where(state.slots, slot_expired(now));
    let i = state.place_for(rule.id, key, bucket, now)->0;
    let after = state.counted(rule, key, hits, now).0;
    let slot = after.slots[i];
    assert(after == state.written(i, state.counted_slot(i, rule, key, hits, now)));
    if i < state.slots.len() {
        assert(after.slots =~= state.slots.update(i, slot));
        lemma_sum_updated(state.slots, i, slot, rule.id, key, at);
        assert forall|r: RuleId, k: KeyHash| r != rule.id || k != key implies #[trigger] local_sum(
            after.slots,
            r,
            k,
            at,
        ) == local_sum(state.slots, r, k, at) by {
            lemma_sum_updated(state.slots, i, slot, r, k, at);
        }
    } else {
        assert(after.slots.drop_last() =~= state.slots);
    }
}

// -- what gossip tells ------------------------------------------------------

/// Whether the estimates of a rule stop counting a window after their bucket
/// starts.
pub open spec fn estimates_timed_by(estimates: Seq<RemoteEstimate>, rule: LocalRule) -> bool {
    forall|i: int|
        0 <= i < estimates.len() && (#[trigger] estimates[i]).rule_id == rule.id
            ==> estimates[i].expires_millis == vstd::math::min(
            estimates[i].bucket_start_millis + rule.window.size_millis,
            u64::MAX as int,
        )
}

/// What an estimate adds to a key's hits.
pub open spec fn told_share(e: RemoteEstimate, rule_id: RuleId, key: KeyHash, now: u64) -> nat {
    if e.rule_id == rule_id && e.key_hash == key && e.expires_millis > now {
        e.count as nat
    } else {
        0
    }
}

proof fn lemma_remote_updated(
    estimates: Seq<RemoteEstimate>,
    i: int,
    e: RemoteEstimate,
    rule_id: RuleId,
    key: KeyHash,
    now: u64,
)
    requires
        0 <= i < estimates.len(),
    ensures
        remote_sum(estimates.update(i, e), rule_id, key, now) + told_share(
            estimates[i],
            rule_id,
            key,
            now,
        ) == remote_sum(estimates, rule_id, key, now) + told_share(e, rule_id, key, now),
    decreases estimates.len(),
{
    let prefix = estimates.drop_last();
    if i == estimates.len() - 1 {
        assert(estimates.update(i, e).drop_last() =~= prefix);
    } else {
        lemma_remote_updated(prefix, i, e, rule_id, key, now);
        assert(estimates.update(i, e).drop_last() =~= prefix.update(i, e));
    }
}

/// Whether there is room for what gossip tells of a key in a bucket.
pub open spec fn has_estimate_room(
    state: EngineState,
    rule_id: RuleId,
    key: KeyHash,
    bucket: u64,
    now: u64,
) -> bool {
    state.estimates.len() < state.max_cells || (exists|i: int|
        0 <= i < state.estimates.len() && ((#[trigger] state.estimates[i]).expires_millis <= now
            || (state.estimates[i].rule_id == rule_id && state.estimates[i].key_hash == key
            && state.estimates[i].bucket_start_millis == bucket)))
}

/// What gossip tells adds up: `delta` more hits of a key in a bucket raise what
/// is known of that key by exactly as much, whatever its other buckets hold, as
/// long as the bucket counts, and by nothing after that. What is known of any
/// other key or rule stays. It needs room, and counts that fit 64 bits.
pub proof fn lemma_telling_adds_up(
    state: EngineState,
    rules: Seq<LocalRule>,
    index: int,
    key: KeyHash,
    bucket: u64,
    now: u64,
    delta: u64,
    at: u64,
)
    requires
        0 <= index < rules.len(),
        forall|j: int| 0 <= j < index ==> (#[trigger] rules[j]).id != rules[index].id,
        estimates_timed_by(state.estimates, rules[index]),
        now <= at < u64::MAX,
        has_estimate_room(state, rules[index].id, key, bucket, now),
        forall|i: int|
            0 <= i < state.estimates.len() && (#[trigger] state.estimates[i]).rule_id
                == rules[index].id ==> state.estimates[i].count + delta <= u64::MAX,
    ensures
        ({
            let rule = rules[index];
            let after = told(state, rules, rule.id, key, bucket, now, delta);
            &&& remote_sum(after.estimates, rule.id, key, at) == remote_sum(
                state.estimates,
                rule.id,
                key,
                at,
            ) + if at < bucket + rule.window.size_millis {
                delta as int
            } else {
                0
            }
            &&& forall|r: RuleId, k: KeyHash|
                r != rule.id || k != key ==> #[trigger] remote_sum(after.estimates, r, k, at)
                    == remote_sum(state.estimates, r, k, at)
            &&& estimates_timed_by(after.estimates, rule)
            &&& after.slots == state.slots
        }),
{
    let rule = rules[index];
    let same = estimate_is(rule.id, key, bucket);
    lemma_first_where_at(rules, has_id(rule.id), index);
    lemma_first_where(state.estimates, same);
    lemma_first_where(state.estimates, estimate_expired(now));
    let after = told(state, rules, rule.id, key, bucket, now, delta);
    assert(after == state.estimated(rule, key, bucket, now, delta));
    let found = first_where(state.estimates, same);
    if found is None && state.estimates.len() >= state.max_cells {
        let i = choose|i: int|
            0 <= i < state.estimates.len() && ((#[trigger] state.estimates[i]).expires_millis <= now
                || (state.estimates[i].rule_id == rule.id && state.estimates[i].key_hash == key
                && state.estimates[i].bucket_start_millis == bucket));
        assert(!same(state.estimates[i]));
        assert(estimate_expired(now)(state.estimates[i]));
    }
    if found is None && state.estimates.len() < state.max_cells {
        assert(after.estimates.drop_last() =~= state.estimates);
    } else {
        let i = if found is Some {
            found->0
        } else {
            first_where(state.estimates, estimate_expired(now))->0
        };
        let e = after.estimates[i];
        assert(after.estimates =~= state.estimates.update(i, e));
        lemma_remote_updated(state.estimates, i, e, rule.id, key, at);
        assert forall|r: RuleId, k: KeyHash| r != rule.id || k != key implies #[trigger] remote_sum(
            after.estimates,
            r,
            k,
            at,
        ) == remote_sum(state.estimates, r, k, at) by {
            lemma_remote_updated(state.estimates, i, e, r, k, at);
        }
    }
}

/// Nothing is known of the rest of the cluster, and nothing is counted, in a
/// limiter that was told and asked nothing.
pub proof fn lemma_nothing_counted_at_first(rule_id: RuleId, key: KeyHash, now: u64)
    ensures
        remote_sum(Seq::empty(), rule_id, key, now) == 0,
        local_sum(Seq::empty(), rule_id, key, now) == 0,
{
}

/// What gossip tells of a key keeps it known until it is stale, and keeps no
/// other key known: after it was told of a key, the key is known until as long
/// as the rule says has passed.
pub proof fn lemma_known_until_stale(
    state: EngineState,
    rules: Seq<LocalRule>,
    index: int,
    key: KeyHash,
    bucket: u64,
    now: u64,
    delta: u64,
    stale_after: u64,
    at: u64,
)
    requires
        0 <= index < rules.len(),
        forall|j: int| 0 <= j < index ==> (#[trigger] rules[j]).id != rules[index].id,
        has_estimate_room(state, rules[index].id, key, bucket, now),
        !(exists|i: int|
            0 <= i < state.estimates.len() && (#[trigger] state.estimates[i]).rule_id
                == rules[index].id && state.estimates[i].key_hash == key),
    ensures
        ({
            let after = told(state, rules, rules[index].id, key, bucket, now, delta);
            known_fresh(after.estimates, rules[index].id, key, stale_after, at) <==> at < now
                + stale_after
        }),
{
    let rule = rules[index];
    let same = estimate_is(rule.id, key, bucket);
    lemma_first_where_at(rules, has_id(rule.id), index);
    lemma_first_where(state.estimates, same);
    lemma_first_where(state.estimates, estimate_expired(now));
    let after = told(state, rules, rule.id, key, bucket, now, delta);
    assert(after == state.estimated(rule, key, bucket, now, delta));
    if first_where(state.estimates, same) is Some {
        let i = first_where(state.estimates, same)->0;
        assert(state.estimates[i].rule_id == rule.id);
    }
    if state.estimates.len() >= state.max_cells {
        let i = choose|i: int|
            0 <= i < state.estimates.len() && ((#[trigger] state.estimates[i]).expires_millis <= now
                || (state.estimates[i].rule_id == rule.id && state.estimates[i].key_hash == key
                && state.estimates[i].bucket_start_millis == bucket));
        assert(estimate_expired(now)(state.estimates[i]));
        let p = first_where(state.estimates, estimate_expired(now))->0;
        assert(estimate_of(after.estimates[p], rule.id, key));
        assert forall|j: int|
            0 <= j < after.estimates.len() && estimate_of(
                #[trigger] after.estimates[j],
                rule.id,
                key,
            ) implies j == p by {
            if j != p {
                assert(after.estimates[j] == state.estimates[j]);
            }
        }
    } else {
        let p = state.estimates.len() as int;
        assert(estimate_of(after.estimates[p], rule.id, key));
        assert forall|j: int|
            0 <= j < after.estimates.len() && estimate_of(
                #[trigger] after.estimates[j],
                rule.id,
                key,
            ) implies j == p by {
            if j != p {
                assert(after.estimates[j] == state.estimates[j]);
            }
        }
    }
}

// -- which rules, and why ---------------------------------------------------

/// The rules that apply are all rules that are not disabled, are for the
/// request's domain, and have as many patterns as the request has descriptors,
/// each with the key of its descriptor and with its value or none; they come in
/// table order.
pub proof fn lemma_applying_rules_complete(
    rules: Seq<LocalRule>,
    domain: Seq<char>,
    descriptors: Seq<Descriptor<'_>>,
)
    ensures
        local_applicable(rules, domain, descriptors) == rules.filter(
            |rule: LocalRule|
                {
                    &&& rule.mode != EnforcementMode::Disabled
                    &&& rule.domain_hash == KeyHash(stable_hash(domain_input(domain)))
                    &&& patterns_fit(rule.descriptors@, descriptors)
                },
        ),
    decreases rules.len(),
{
    reveal(Seq::filter);
    if rules.len() > 0 {
        lemma_applying_rules_complete(rules.drop_last(), domain, descriptors);
        lemma_patterns_fit(rules.last().descriptors@, descriptors);
    }
}

/// The reason a request is rejected for is the first that holds: this node's
/// hard cap, then the cluster's limit if something fresh is known of it, then
/// the fallback cap if nothing is.
pub proof fn lemma_rejection_reason(
    state: EngineState,
    rule: LocalRule,
    key: KeyHash,
    hits: u64,
    now: u64,
)
    ensures
        ({
            let local = local_sum(state.slots, rule.id, key, now);
            let remote = remote_sum(state.estimates, rule.id, key, now);
            let fresh = exists|i: int|
                0 <= i < state.estimates.len() && (#[trigger] state.estimates[i]).rule_id == rule.id
                    && state.estimates[i].key_hash == key && state.estimates[i].received_millis
                    + rule.stale_after_millis > now;
            let reason = state.rejects(rule, key, hits, now);
            let enforced = rule.mode == EnforcementMode::Enforce;
            &&& reason == Some(RejectReason::LocalAbsoluteLimit) <==> enforced && local + hits
                > rule.local_absolute_limit
            &&& reason == Some(RejectReason::GlobalLimit) <==> enforced && local + hits
                <= rule.local_absolute_limit && fresh && local + remote + hits
                + rule.safety_margin.hits > rule.limit
            &&& reason == Some(RejectReason::LocalFallbackLimit) <==> enforced && local + hits
                <= rule.local_absolute_limit && !fresh && local + hits > rule.local_fallback_limit
        }),
{
    let fresh = exists|i: int|
        0 <= i < state.estimates.len() && (#[trigger] state.estimates[i]).rule_id == rule.id
            && state.estimates[i].key_hash == key && state.estimates[i].received_millis
            + rule.stale_after_millis > now;
    if fresh {
        let i = choose|i: int|
            0 <= i < state.estimates.len() && (#[trigger] state.estimates[i]).rule_id == rule.id
                && state.estimates[i].key_hash == key && state.estimates[i].received_millis
                + rule.stale_after_millis > now;
        assert(estimate_of(state.estimates[i], rule.id, key));
    }
    if known_fresh(state.estimates, rule.id, key, rule.stale_after_millis, now) {
        let i = choose|i: int|
            0 <= i < state.estimates.len() && estimate_of(
                #[trigger] state.estimates[i],
                rule.id,
                key,
            ) && state.estimates[i].received_millis + rule.stale_after_millis > now;
        assert(state.estimates[i].rule_id == rule.id);
    }
}

/// News of a key that is known already keep it known: from the last of them on, for
/// as long as they are not stale.
pub proof fn lemma_news_refresh(
    state: EngineState,
    rules: Seq<LocalRule>,
    index: int,
    key: KeyHash,
    bucket: u64,
    now: u64,
    delta: u64,
    stale_after: u64,
    at: u64,
)
    requires
        0 <= index < rules.len(),
        forall|j: int| 0 <= j < index ==> (#[trigger] rules[j]).id != rules[index].id,
        has_estimate_room(state, rules[index].id, key, bucket, now),
        forall|i: int|
            0 <= i < state.estimates.len() && (#[trigger] state.estimates[i]).rule_id
                == rules[index].id && state.estimates[i].key_hash == key
                ==> state.estimates[i].received_millis <= now,
    ensures
        ({
            let after = told(state, rules, rules[index].id, key, bucket, now, delta);
            known_fresh(after.estimates, rules[index].id, key, stale_after, at) <==> at < now
                + stale_after
        }),
{
    let rule = rules[index];
    let same = estimate_is(rule.id, key, bucket);
    lemma_first_where_at(rules, has_id(rule.id), index);
    lemma_first_where(state.estimates, same);
    lemma_first_where(state.estimates, estimate_expired(now));
    let after = told(state, rules, rule.id, key, bucket, now, delta);
    assert(after == state.estimated(rule, key, bucket, now, delta));
    if state.estimates.len() >= state.max_cells {
        let i = choose|i: int|
            0 <= i < state.estimates.len() && ((#[trigger] state.estimates[i]).expires_millis <= now
                || (state.estimates[i].rule_id == rule.id && state.estimates[i].key_hash == key
                && state.estimates[i].bucket_start_millis == bucket));
        assert(same(state.estimates[i]) || estimate_expired(now)(state.estimates[i]));
    }
    let place = match first_where(state.estimates, same) {
        Some(i) => i,
        None => if state.estimates.len() < state.max_cells {
            state.estimates.len() as int
        } else {
            first_where(state.estimates, estimate_expired(now))->0
        },
    };
    assert(0 <= place < after.estimates.len());
    assert(estimate_of(after.estimates[place], rule.id, key));
    assert(after.estimates[place].received_millis == now);
    assert forall|i: int|
        0 <= i < after.estimates.len() && estimate_of(
            #[trigger] after.estimates[i],
            rule.id,
            key,
        ) implies after.estimates[i].received_millis <= now by {
        if i != place {
            assert(after.estimates[i] == state.estimates[i]);
        }
    }
}

} // verus!
