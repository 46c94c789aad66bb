//! What marking, sweeping and choosing cells to tell of come to.

use super::frontier::{held_by, no_acks, slot_for, vacant, FrontierRow};
use super::state::{
    free_slot, gathered, handle_at, holds_key, is_free, looked_at, resolve, CellHandle, CellKey,
    CellSlot, StoreState,
};
use super::{
    AggregateKey, Count, NodeDescriptor, NodeId, Observation, PeerFrontierTable, RuleDescriptor,
};
use crate::seqs::{lemma_first_where, lemma_first_where_at};
use vstd::prelude::*;

verus! {

// -- marking ----------------------------------------------------------------

/// A cell that is raised is marked: if any cell changes, it is the one with the
/// key, which then holds the count and keeps the later of both times and of both
/// sequences; and it waits to be told of among those that changed here, or among
/// those that changed elsewhere, as the change did, if there is room. The others
/// that wait keep their places.
pub proof fn lemma_raised_is_marked<C: Count>(
    state: StoreState<C>,
    key: CellKey,
    aggregate: AggregateKey,
    count: C,
    millis: u64,
    sequence: u64,
    local: bool,
)
    ensures
        ({
            let after = state.raised(key, aggregate, count, millis, sequence, local).state;
            let waiting = if local {
                (state.local_dirty, after.local_dirty, state.config.local_dirty_capacity)
            } else {
                (
                    state.forwarded_dirty,
                    after.forwarded_dirty,
                    state.config.forwarded_dirty_capacity,
                )
            };
            &&& local ==> after.forwarded_dirty == state.forwarded_dirty
            &&& !local ==> after.local_dirty == state.local_dirty
            &&& waiting.0.is_prefix_of(waiting.1)
            &&& waiting.1.len() <= waiting.0.len() + 1
            &&& waiting.0.len() >= waiting.2 ==> waiting.1 == waiting.0
            &&& waiting.0.no_duplicates() ==> waiting.1.no_duplicates()
            &&& after.slots == state.slots ==> waiting.1 == waiting.0
            &&& after.slots != state.slots ==> exists|i: int|
                {
                    let handle = CellHandle {
                        index: i as u32,
                        generation: (#[trigger] after.slots[i]).generation,
                    };
                    let row = after.slots[i].row->0;
                    &&& 0 <= i < after.slots.len()
                    &&& after.slots[i].row is Some
                    &&& row.key == key
                    &&& row.count == count
                    &&& waiting.0.len() < waiting.2 ==> waiting.1.contains(handle)
                    &&& row.last_update_millis >= millis
                    &&& row.origin_sequence >= sequence
                    &&& i < state.slots.len() && state.slots[i].row is Some ==> {
                        let was = state.slots[i].row->0;
                        &&& was.key == key
                        &&& was.count.value() < count.value()
                        &&& row.last_update_millis == vstd::math::max(
                            was.last_update_millis as int,
                            millis as int,
                        )
                        &&& row.origin_sequence == vstd::math::max(
                            was.origin_sequence as int,
                            sequence as int,
                        )
                    }
                    &&& i >= state.slots.len() || state.slots[i].row is None
                        ==> row.last_update_millis == millis && row.origin_sequence == sequence
                    &&& forall|j: int|
                        0 <= j < state.slots.len() && j != i ==> after.slots[j]
                            == #[trigger] state.slots[j]
                }
        }),
{
    let after = state.raised(key, aggregate, count, millis, sequence, local).state;
    lemma_first_where(state.slots, holds_key::<C>(key));
    lemma_first_where(state.slots, is_free::<C>());
    let place = match state.position(key) {
        Some(i) => Some(i),
        None => free_slot(state.slots, state.config.cell_capacity as nat),
    };
    if after.slots != state.slots {
        let i = place->0;
        let handle = handle_at(after.slots, i);
        let ring = if local {
            after.local_dirty
        } else {
            after.forwarded_dirty
        };
        let was = if local {
            state.local_dirty
        } else {
            state.forwarded_dirty
        };
        assert(after.slots[i].row is Some);
        if ring != was {
            assert(ring.last() == handle);
            assert(ring.contains(handle));
        }
    }
}

/// A new cell takes the first free place, so that no more places are used than
/// needed: it takes one that no cell has, if there is one.
pub proof fn lemma_first_free_place<C: Count>(slots: Seq<CellSlot<C>>, capacity: nat, i: int)
    requires
        0 <= i < slots.len(),
        slots[i].row is None,
        forall|j: int| 0 <= j < i ==> (#[trigger] slots[j]).row is Some,
    ensures
        free_slot(slots, capacity) == Some(i),
{
    lemma_first_where_at(slots, is_free::<C>(), i);
}

/// If every place is taken, a new cell gets a new one as long as the store may
/// grow, and none after that.
pub proof fn lemma_no_free_place<C: Count>(slots: Seq<CellSlot<C>>, capacity: nat)
    requires
        forall|j: int| 0 <= j < slots.len() ==> (#[trigger] slots[j]).row is Some,
    ensures
        slots.len() < capacity ==> free_slot(slots, capacity) == Some(slots.len() as int),
        slots.len() >= capacity ==> free_slot(slots, capacity) is None,
{
    lemma_first_where(slots, is_free::<C>());
}

/// Every count of this node's own hits gets a sequence number of its own, the
/// next one, and the cell carries it.
pub proof fn lemma_hits_numbered<C: Count>(
    state: StoreState<C>,
    o: Observation<C>,
    rule: int,
    node: int,
    i: int,
)
    requires
        0 <= rule < state.rules.len() <= u16::MAX,
        state.rules[rule].fingerprint == o.rule_fingerprint,
        forall|r: int| 0 <= r < rule ==> (#[trigger] state.rules[r]).fingerprint
            != o.rule_fingerprint,
        0 <= node < state.nodes.len() <= u16::MAX,
        state.nodes[node].node_id == state.identity.node_id,
        state.nodes[node].incarnation == state.identity.incarnation,
        forall|n: int| 0 <= n < node ==> #[trigger] state.nodes[n] != state.nodes[node],
        0 <= i < state.slots.len(),
        state.slots[i].row matches Some(row) && row.key == (CellKey {
            rule: rule as u16,
            key_hash: o.key_hash,
            bucket: o.bucket,
            origin: node as u16,
            incarnation: state.identity.incarnation,
        }),
        forall|j: int|
            0 <= j < i && (#[trigger] state.slots[j]).row is Some ==> state.slots[j].row->0.key
                != state.slots[i].row->0.key,
        state.slots[i].row->0.origin_sequence < state.next_sequence < u64::MAX,
        o.count.value() > 0,
        state.slots[i].row->0.count.value() + o.count.value() <= C::of(u64::MAX as nat).value(),
    ensures
        ({
            let after = state.ingested_one(o).state;
            &&& after.next_sequence == state.next_sequence + 1
            &&& after.slots[i].row is Some
            &&& after.slots[i].row->0.origin_sequence == state.next_sequence
            &&& after.slots[i].row->0.count.value() == state.slots[i].row->0.count.value()
                + o.count.value()
        }),
{
    let own = NodeDescriptor {
        node_id: state.identity.node_id,
        incarnation: state.identity.incarnation,
    };
    assert(state.nodes[node] == own);
    lemma_first_where_at(
        state.rules,
        super::dictionary::same_rule(o.rule_fingerprint),
        rule,
    );
    lemma_first_where_at(state.nodes, super::dictionary::same_node(own), node);
    let key = state.slots[i].row->0.key;
    lemma_first_where_at(state.slots, holds_key::<C>(key), i);
    let sum = state.slots[i].row->0.count.value() + o.count.value();
    C::lemma_of(sum);
    C::lemma_of(u64::MAX as nat);
    state.slots[i].row->0.count.lemma_value();
    assert(state.interned(o, own) =~= state);
}

// -- sweeping ---------------------------------------------------------------

/// The sweep takes a cell exactly when its window has passed, as
/// [`lemma_ages_out_after_window`](super::dictionary::lemma_ages_out_after_window)
/// says when that is, leaves every other as it is, and no handle of a cell that
/// was taken finds anything any more.
pub proof fn lemma_sweep_takes_the_old<C: Count>(
    state: StoreState<C>,
    i: int,
    now_millis: u64,
    covering: nat,
)
    requires
        0 <= i < state.slots.len() <= u32::MAX,
        state.slots[i].row is Some,
        ({
            let rule = state.rules[state.slots[i].row->0.key.rule as int];
            &&& rule.window_millis > 0
            &&& rule.bucket_millis > 0
            &&& covering * rule.bucket_millis >= rule.window_millis
            &&& (covering - 1) * rule.bucket_millis < rule.window_millis
        }),
    ensures
        ({
            let row = state.slots[i].row->0;
            let rule = state.rules[row.key.rule as int];
            let swept = Seq::new(
                state.slots.len(),
                |k: int| state.swept(state.slots[k], now_millis),
            );
            let handle = CellHandle { index: i as u32, generation: state.slots[i].generation };
            if now_millis >= (row.key.bucket + covering) * rule.bucket_millis {
                swept[i].row is None && resolve(swept, handle) is None
                    && swept[i].generation != state.slots[i].generation
            } else {
                swept[i] == state.slots[i] && resolve(swept, handle) == Some(row)
            }
        }),
{
    let row = state.slots[i].row->0;
    super::dictionary::lemma_ages_out_after_window(
        state.rules[row.key.rule as int],
        row.key.bucket,
        now_millis,
        covering,
    );
}

/// What the sweep hands on is the count of every cell that it takes, in the order
/// of their places, each under its rule, key and bucket.
pub proof fn lemma_sweep_reports_all<C: Count>(state: StoreState<C>, n: nat, now_millis: u64)
    requires
        n <= state.slots.len(),
    ensures
        state.expirations(n, now_millis) == state.slots.take(n as int).filter_map(
            |slot: CellSlot<C>|
                match slot.row {
                    Some(row) => if state.rules[row.key.rule as int].aged_out(
                        row.key.bucket,
                        now_millis,
                    ) {
                        Some(
                            (
                                AggregateKey {
                                    rule_fingerprint: state.rules[row.key.rule as int].fingerprint,
                                    key_hash: row.key.key_hash,
                                    bucket: row.key.bucket,
                                },
                                row.count,
                            ),
                        )
                    } else {
                        None
                    },
                    None => None,
                },
        ),
    decreases n,
{
    if n > 0 {
        lemma_sweep_reports_all(state, (n - 1) as nat, now_millis);
        assert(state.slots.take(n as int).drop_last() =~= state.slots.take(n - 1));
    }
}

/// All places that hold a cell are live, and no other.
pub proof fn lemma_live_counts<C: Count>(state: StoreState<C>, n: nat)
    requires
        n <= state.slots.len(),
    ensures
        state.live(n) == state.slots.take(n as int).filter(
            |slot: CellSlot<C>| slot.row is Some,
        ).len(),
        state.live_handles(n) == Seq::new(n, |i: int| i).filter_map(
            |i: int|
                if state.slots[i].row is Some {
                    Some(
                        CellHandle { index: i as u32, generation: state.slots[i].generation },
                    )
                } else {
                    None
                },
        ),
    decreases n,
{
    reveal(Seq::filter);
    if n > 0 {
        lemma_live_counts(state, (n - 1) as nat);
        assert(state.slots.take(n as int).drop_last() =~= state.slots.take(n - 1));
        assert(Seq::new(n, |i: int| i).drop_last() =~= Seq::new((n - 1) as nat, |i: int| i));
    }
}

// -- choosing ---------------------------------------------------------------

/// The first so many, or all.
pub open spec fn at_most<A>(s: Seq<A>, n: int) -> Seq<A> {
    s.take(vstd::math::min(s.len() as int, n))
}

proof fn lemma_gathered_filters(
    handles: Seq<CellHandle>,
    p: spec_fn(CellHandle) -> bool,
    candidates: Seq<Option<CellHandle>>,
    n: nat,
    max: nat,
    out: Seq<CellHandle>,
)
    requires
        handles.no_duplicates(),
        candidates.len() == handles.len(),
        n <= handles.len(),
        forall|j: int|
            0 <= j < handles.len() ==> #[trigger] candidates[j] == if p(handles[j]) {
                Some(handles[j])
            } else {
                None
            },
        out.len() <= max,
    ensures
        gathered(candidates, n, max, out) == out + at_most(
            handles.take(n as int).filter(|h: CellHandle| p(h) && !out.contains(h)),
            max - out.len(),
        ),
    decreases n,
{
    reveal(Seq::filter);
    let q = |h: CellHandle| p(h) && !out.contains(h);
    let now = handles.take(n as int).filter(q);
    if n == 0 {
        assert(now.len() == 0);
        assert(out + at_most(now, max - out.len()) =~= out);
    } else {
        lemma_gathered_filters(handles, p, candidates, (n - 1) as nat, max, out);
        assert(handles.take(n as int).drop_last() =~= handles.take(n - 1));
        let was = handles.take(n - 1).filter(q);
        let h = handles[n - 1];
        let before = gathered(candidates, (n - 1) as nat, max, out);
        assert(candidates[n - 1] == if p(h) {
            Some(h)
        } else {
            None
        });
        if was.contains(h) {
            let front = handles.take(n - 1);
            front.lemma_filter_contains_rev(q, h);
            let k = choose|k: int| 0 <= k < front.len() && front[k] == h;
            assert(handles[k] == h);
        }
        if before.contains(h) {
            let k = choose|k: int| 0 <= k < before.len() && before[k] == h;
            if k < out.len() {
                assert(out[k] == h);
            } else {
                assert(was[k - out.len()] == h);
            }
        }
        if out.contains(h) {
            let k = choose|k: int| 0 <= k < out.len() && out[k] == h;
            assert(before[k] == h);
        }
        assert(gathered(candidates, n, max, out) =~= out + at_most(now, max - out.len()));
    }
}

/// What waits in a ring and is still to be told: a cell that lives, and, for a
/// known peer, one whose last change the peer has not acknowledged.
pub open spec fn to_tell<C: Count>(state: StoreState<C>, peer: Option<u16>) -> spec_fn(
    CellHandle,
) -> bool {
    |h: CellHandle|
        {
            &&& h.index < state.slots.len()
            &&& state.slots[h.index as int].generation == h.generation
            &&& state.slots[h.index as int].row is Some
            &&& peer matches Some(p) ==> {
                let row = state.slots[h.index as int].row->0;
                let known = p < state.frontiers.len() && row.key.origin
                    < state.frontiers[p as int].acked.len();
                !(known && row.origin_sequence > 0
                    && state.frontiers[p as int].acked[row.key.origin as int]
                    >= row.origin_sequence)
            }
        }
}

/// The handles of some places.
pub open spec fn handles_of<C: Count>(slots: Seq<CellSlot<C>>, from: int, to: int) -> Seq<
    CellHandle,
> {
    Seq::new(
        (to - from) as nat,
        |j: int| CellHandle { index: (from + j) as u32, generation: slots[from + j].generation },
    )
}

/// Whether a handle's place holds a cell.
pub open spec fn place_taken<C: Count>(slots: Seq<CellSlot<C>>) -> spec_fn(CellHandle) -> bool {
    |h: CellHandle| slots[h.index as int].row is Some
}

proof fn lemma_handles_distinct<C: Count>(slots: Seq<CellSlot<C>>, from: int, to: int)
    requires
        0 <= from <= to <= slots.len() <= u32::MAX,
    ensures
        handles_of(slots, from, to).no_duplicates(),
{
    let all = handles_of(slots, from, to);
    assert forall|i: int, j: int| 0 <= i < all.len() && 0 <= j < all.len() && i != j implies all[i]
        != all[j] by {
        assert(all[i].index == from + i);
        assert(all[j].index == from + j);
    }
}

/// A frame tells first what changed here, then what changed elsewhere, each in
/// the order in which it changed and each cell once, and then, as far as there is
/// room, any live cell from the repair cursor on, round to it.
pub proof fn lemma_frame_order<C: Count>(state: StoreState<C>, peer: Option<u16>, max: nat)
    requires
        state.slots.len() <= u32::MAX,
        state.local_dirty.no_duplicates(),
        state.forwarded_dirty.no_duplicates(),
        state.repair_cursor <= state.slots.len(),
    ensures
        ({
            let cursor = state.repair_cursor as int;
            let end = state.slots.len() as int;
            let here = at_most(state.local_dirty.filter(to_tell(state, peer)), max as int);
            let dirty = here + at_most(
                state.forwarded_dirty.filter(
                    |h: CellHandle| to_tell(state, peer)(h) && !here.contains(h),
                ),
                max - here.len(),
            );
            let upper = dirty + at_most(
                handles_of(state.slots, cursor, end).filter(
                    |h: CellHandle| place_taken(state.slots)(h) && !dirty.contains(h),
                ),
                max - dirty.len(),
            );
            state.frame(peer, max) == upper + at_most(
                handles_of(state.slots, 0, cursor).filter(
                    |h: CellHandle| place_taken(state.slots)(h) && !upper.contains(h),
                ),
                max - upper.len(),
            )
        }),
{
    let cursor = state.repair_cursor as int;
    let end = state.slots.len() as int;
    let p = to_tell(state, peer);
    let taken = place_taken(state.slots);
    let none = Seq::<CellHandle>::empty();
    assert forall|h: CellHandle| p(h) == #[trigger] state.due(peer, h) by {}
    let local = state.local_dirty;
    lemma_gathered_filters(local, p, state.ring_candidates(peer, local), local.len(), max, none);
    assert(local.take(local.len() as int) =~= local);
    assert(local.filter(|h: CellHandle| p(h) && !none.contains(h)) =~= local.filter(p)) by {
        lemma_filter_same(local, |h: CellHandle| p(h) && !none.contains(h), p);
    }
    let here = at_most(local.filter(p), max as int);
    assert(state.frame_local(peer, max) =~= here);
    let forwarded = state.forwarded_dirty;
    lemma_gathered_filters(
        forwarded,
        p,
        state.ring_candidates(peer, forwarded),
        forwarded.len(),
        max,
        here,
    );
    assert(forwarded.take(forwarded.len() as int) =~= forwarded);
    let dirty = state.frame_dirty(peer, max);
    let high = handles_of(state.slots, cursor, end);
    lemma_handles_distinct(state.slots, cursor, end);
    lemma_gathered_filters(
        high,
        taken,
        state.slot_candidates(cursor, end),
        high.len(),
        max,
        dirty,
    );
    assert(high.take(high.len() as int) =~= high);
    let upper = state.frame_upper(peer, max);
    let low = handles_of(state.slots, 0, cursor);
    lemma_handles_distinct(state.slots, 0, cursor);
    lemma_gathered_filters(low, taken, state.slot_candidates(0, cursor), low.len(), max, upper);
    assert(low.take(low.len() as int) =~= low);
}

proof fn lemma_filter_same<A>(s: Seq<A>, p: spec_fn(A) -> bool, q: spec_fn(A) -> bool)
    requires
        forall|a: A| #[trigger] p(a) == q(a),
    ensures
        s.filter(p) == s.filter(q),
    decreases s.len(),
{
    reveal(Seq::filter);
    if s.len() > 0 {
        lemma_filter_same(s.drop_last(), p, q);
        assert(p(s.last()) == q(s.last()));
    }
}

/// The last candidate that is looked at is the one that fills the frame; if none
/// does, all are looked at.
proof fn lemma_looked_at(
    candidates: Seq<Option<CellHandle>>,
    n: nat,
    max: nat,
    out: Seq<CellHandle>,
)
    requires
        out.len() < max,
        n <= candidates.len(),
    ensures
        ({
            let k = looked_at(candidates, n, max, out);
            let full = gathered(candidates, n, max, out);
            &&& k <= n
            &&& out.is_prefix_of(full)
            &&& full.len() <= max
            &&& full.len() < max ==> k == n
            &&& full.len() == max ==> 0 < k && candidates[k - 1] == Some(full.last())
            &&& k < n ==> full.len() == max
        }),
    decreases n,
{
    if n > 0 {
        lemma_looked_at(candidates, (n - 1) as nat, max, out);
    }
}

/// The sweep over all places goes on where it stopped. If the last cell of a full
/// frame was not waiting to be told, the sweep found it, and goes on behind it, or
/// from the start again behind the last place; a frame that is not full has been
/// all round.
pub proof fn lemma_sweep_goes_on<C: Count>(state: StoreState<C>, peer: Option<u16>, max: nat)
    requires
        0 < max,
        state.slots.len() <= u32::MAX,
        state.local_dirty.no_duplicates(),
        state.forwarded_dirty.no_duplicates(),
        state.repair_cursor <= state.slots.len(),
    ensures
        ({
            let frame = state.frame(peer, max);
            let next = state.next_cursor(peer, max);
            let last = frame.last();
            &&& frame.len() < max ==> next == state.repair_cursor
            &&& frame.len() == max && !state.local_dirty.contains(last)
                && !state.forwarded_dirty.contains(last) ==> {
                ||| next == last.index + 1
                ||| next == 0 && last.index + 1 == state.slots.len()
            }
        }),
{
    lemma_frame_order(state, peer, max);
    let start = state.repair_cursor as int;
    let end = state.slots.len() as int;
    let p = to_tell(state, peer);
    let none = Seq::<CellHandle>::empty();
    assert forall|h: CellHandle| p(h) == #[trigger] state.due(peer, h) by {}
    let local = state.local_dirty;
    let forwarded = state.forwarded_dirty;
    lemma_gathered_filters(local, p, state.ring_candidates(peer, local), local.len(), max, none);
    assert(local.take(local.len() as int) =~= local);
    let here = state.frame_local(peer, max);
    lemma_gathered_filters(
        forwarded,
        p,
        state.ring_candidates(peer, forwarded),
        forwarded.len(),
        max,
        here,
    );
    assert(forwarded.take(forwarded.len() as int) =~= forwarded);
    let dirty = state.frame_dirty(peer, max);
    let upper = state.frame_upper(peer, max);
    let frame = state.frame(peer, max);
    assert(dirty.len() <= max);
    assert forall|k: int| 0 <= k < dirty.len() implies local.contains(#[trigger] dirty[k])
        || forwarded.contains(dirty[k]) by {
        let q = |h: CellHandle| p(h) && !none.contains(h);
        let r = |h: CellHandle| p(h) && !here.contains(h);
        if k < here.len() {
            assert(local.filter(q)[k] == dirty[k]);
            assert(local.filter(q).contains(dirty[k]));
            local.lemma_filter_contains_rev(q, dirty[k]);
        } else {
            assert(forwarded.filter(r)[k - here.len()] == dirty[k]);
            assert(forwarded.filter(r).contains(dirty[k]));
            forwarded.lemma_filter_contains_rev(r, dirty[k]);
        }
    }
    let high = state.slot_candidates(start, end);
    let low = state.slot_candidates(0, start);
    if dirty.len() < max {
        lemma_looked_at(high, (end - start) as nat, max, dirty);
        if upper.len() < max {
            lemma_looked_at(low, start as nat, max, upper);
        } else {
            super::state::lemma_gathered_full(low, 0, start as nat, max, upper);
        }
    } else {
        super::state::lemma_gathered_full(high, 0, (end - start) as nat, max, dirty);
        super::state::lemma_gathered_full(low, 0, start as nat, max, upper);
        assert(frame == dirty);
        assert(frame.last() == dirty[dirty.len() - 1]);
    }
}

// -- frontiers --------------------------------------------------------------

/// What a peer acknowledged of a node never falls, whatever it acknowledges, and
/// no other peer's or node's does; an acknowledgement of more is kept.
pub proof fn lemma_acks_never_fall(
    rows: Seq<FrontierRow>,
    peer: int,
    node: int,
    sequence: u64,
    other: int,
    k: int,
)
    requires
        0 <= peer < rows.len(),
        0 <= node < rows[peer].acked.len(),
        0 <= other < rows.len(),
        0 <= k < rows[other].acked.len(),
    ensures
        ({
            let after = PeerFrontierTable::with_ack(rows, peer, node, sequence);
            &&& after.len() == rows.len()
            &&& after[other].node == rows[other].node
            &&& after[other].acked.len() == rows[other].acked.len()
            &&& after[other].acked[k] == if other == peer && k == node && sequence
                > rows[other].acked[k] {
                sequence
            } else {
                rows[other].acked[k]
            }
        }),
{
}

/// A peer keeps its place; a new one takes the first that nobody has, or else a
/// new one, as long as there is one.
pub proof fn lemma_peer_places(rows: Seq<FrontierRow>, capacity: nat, peer: NodeId)
    ensures
        match slot_for(rows, capacity, peer) {
            Some(i) => {
                &&& 0 <= i <= rows.len()
                &&& i < rows.len() ==> rows[i].node == Some(peer) || rows[i].node is None
                &&& i == rows.len() ==> rows.len() < capacity
                &&& i == rows.len() || rows[i].node is None ==> forall|j: int|
                    0 <= j < rows.len() ==> (#[trigger] rows[j]).node != Some(peer)
                &&& i == rows.len() || rows[i].node is None ==> forall|j: int|
                    0 <= j < i ==> (#[trigger] rows[j]).node is Some
            },
            None => rows.len() >= capacity && forall|j: int|
                0 <= j < rows.len() ==> (#[trigger] rows[j]).node is Some && rows[j].node != Some(
                    peer,
                ),
        },
{
    lemma_first_where(rows, held_by(peer));
    lemma_first_where(rows, vacant());
}

/// A new peer has acknowledged nothing.
pub proof fn lemma_no_acks(nodes: nat)
    ensures
        no_acks(nodes).len() == nodes,
        forall|i: int| 0 <= i < nodes ==> #[trigger] no_acks(nodes)[i] == 0,
{
}

// -- what is handed on ------------------------------------------------------

/// A rule that only the wire has named is kept for a minute, in buckets of a second,
/// limits nothing, and is marked as such.
pub proof fn lemma_wire_only_rule(fingerprint: u128)
    ensures
        ({
            let rule = RuleDescriptor::spec_wire_only(fingerprint);
            &&& rule.fingerprint == fingerprint
            &&& rule.window_millis == 60_000
            &&& rule.bucket_millis == 1_000
            &&& rule.limit == 0
            &&& rule.flags == 0x8000_0000
        }),
{
}

/// What is heard is handed on under its own rule, key and bucket, and what is counted
/// here is, too.
pub proof fn lemma_handed_on_as_heard<C: Count>(
    state: StoreState<C>,
    o: Observation<C>,
    sequence: u64,
)
    ensures
        forall|i: int|
            0 <= i < state.merged_one(o, sequence).deltas.len() ==> {
                let key = (#[trigger] state.merged_one(o, sequence).deltas[i]).0;
                &&& key.rule_fingerprint == o.rule_fingerprint
                &&& key.key_hash == o.key_hash
                &&& key.bucket == o.bucket
            },
        forall|i: int|
            0 <= i < state.ingested_one(o).deltas.len() ==> {
                let key = (#[trigger] state.ingested_one(o).deltas[i]).0;
                &&& key.rule_fingerprint == o.rule_fingerprint
                &&& key.key_hash == o.key_hash
                &&& key.bucket == o.bucket
            },
        state.merged_one(o, sequence).deltas.len() <= 1,
        state.ingested_one(o).deltas.len() <= 1,
{
}

/// What is heard is taken in one after the other, and so is what is counted here.
pub proof fn lemma_taken_in_turn<C: Count>(
    state: StoreState<C>,
    first: Seq<Observation<C>>,
    then: Seq<Observation<C>>,
    sequences: Seq<u64>,
)
    requires
        sequences.len() == first.len() + then.len(),
    ensures
        ({
            let a = state.merged(first, sequences);
            let b = a.state.merged(then, sequences.skip(first.len() as int));
            let both = state.merged(first + then, sequences);
            both.state == b.state && both.deltas == a.deltas + b.deltas
        }),
        ({
            let a = state.ingested(first);
            let b = a.state.ingested(then);
            let both = state.ingested(first + then);
            both.state == b.state && both.deltas == a.deltas + b.deltas
        }),
    decreases then.len(),
{
    if then.len() > 0 {
        let front = sequences.drop_last();
        lemma_taken_in_turn(state, first, then.drop_last(), front);
        assert((first + then).drop_last() =~= first + then.drop_last());
        lemma_sequences_used(state, first, sequences, front);
        lemma_sequences_used(state, first + then.drop_last(), sequences, front);
        lemma_sequences_used(
            state.merged(first, sequences).state,
            then.drop_last(),
            sequences.skip(first.len() as int),
            front.skip(first.len() as int),
        );
    } else {
        assert(first + then =~= first);
    }
}

proof fn lemma_sequences_used<C: Count>(
    state: StoreState<C>,
    batch: Seq<Observation<C>>,
    a: Seq<u64>,
    b: Seq<u64>,
)
    requires
        batch.len() <= a.len(),
        batch.len() <= b.len(),
        forall|i: int| 0 <= i < batch.len() ==> #[trigger] a[i] == b[i],
    ensures
        state.merged(batch, a) == state.merged(batch, b),
    decreases batch.len(),
{
    if batch.len() > 0 {
        lemma_sequences_used(state, batch.drop_last(), a, b);
        assert(a[batch.len() - 1] == b[batch.len() - 1]);
    }
}

} // verus!
