//! What a workload writes in a window of time.

use crate::bench::scenario::{Workload, WorkloadView, MILLI};
use vstd::prelude::*;

verus! {

pub const RULE_FINGERPRINT: u128 = 0xC0FE_DEAD_BEEF_BABE_F00D;

pub const KEY: u128 = 0x0123_4567_89AB_CDEF;

pub const BUCKET: u32 = 1;

pub const RULE_LIMIT: u64 = 1_000_000;

pub const HOT_RULE_FINGERPRINT: u128 = 0xA110_7B07_7B07_7B07;

pub const COLD_RULE_FINGERPRINT: u128 = 0xC01D_CAFE_CAFE_CAFE;

pub const HOT_KEY: u128 = 0x1111_1111_1111_1111;

pub const COLD_KEY: u128 = 0x2222_2222_2222_2222;

/// Hits to record at a node.
#[derive(Clone, Copy, Debug, PartialEq, Eq, Structural)]
pub struct Write {
    pub node: usize,
    pub rule_fingerprint: u128,
    pub key_hash: u128,
    pub hits: u64,
    pub rule_limit: u64,
    pub now_millis: u64,
}

/// One thing to do.
#[derive(Clone, Copy, Debug, PartialEq, Eq, Structural)]
pub enum WorkloadAction {
    Record(Write),
    /// Virtual time moves on by a millisecond.
    Advance,
}

/// Hits issued: all of them, and those of the hot and of the cold rule.
#[derive(Clone, Copy, Debug, PartialEq, Eq, Structural)]
pub struct IssuedHits {
    pub total: u64,
    pub hot: u64,
    pub cold: u64,
}

/// What a workload does in a window.
#[derive(Debug)]
pub struct WorkloadWindow {
    pub actions: Vec<WorkloadAction>,
    pub issued: IssuedHits,
}

/// A workload names a node that there is none of.
#[derive(Debug, PartialEq, Eq)]
pub struct NodeOutOfRange {
    pub node: usize,
    /// What there is to do before that node comes up.
    pub actions: Vec<WorkloadAction>,
}

// -- model ------------------------------------------------------------------

/// The least multiple of `modulus` that is not below `value`.
pub open spec fn ceil_multiple(value: u64, modulus: u64) -> int {
    if modulus == 0 {
        value as int
    } else {
        rounds_up(value, modulus) * modulus
    }
}

/// How often `modulus` goes into `value`, rounded up.
pub open spec fn rounds_up(value: u64, modulus: u64) -> int {
    (value + modulus - 1) / (modulus as int)
}

/// Number of multiples of `interval` from `start` on and before `end`.
pub open spec fn multiples(start: u64, end: u64, interval: u64) -> nat {
    let n = rounds_up(end, interval) - rounds_up(start, interval);
    if n > 0 {
        n as nat
    } else {
        0
    }
}

/// The `i`th multiple of `interval` from `start` on, in milliseconds.
pub open spec fn multiple_millis(start: u64, interval: u64, i: int) -> u64 {
    (((rounds_up(start, interval) + i) * interval) / (MILLI as int)) as u64
}

/// A write of the ordinary rule.
pub open spec fn plain_write(node: usize, hits: u64, limit: u64, now_millis: u64) -> WorkloadAction {
    WorkloadAction::Record(
        Write {
            node,
            rule_fingerprint: RULE_FINGERPRINT,
            key_hash: KEY,
            hits,
            rule_limit: limit,
            now_millis,
        },
    )
}

/// Milliseconds in a span, at least one.
pub open spec fn span_millis(span: int) -> int {
    if span / (MILLI as int) < 1 {
        1
    } else {
        span / (MILLI as int)
    }
}

/// The part of a compressed burst that lies in a window, in milliseconds: from
/// when on, and how long. None if they do not meet.
pub open spec fn overlap(at: u64, span: u64, start: u64, end: u64) -> Option<(u64, int)> {
    if at < end && at + span > start {
        let from = if at < start {
            start
        } else {
            at
        };
        let to = if at + span < end {
            at + span
        } else {
            end as int
        };
        Some(((from / MILLI) as u64, span_millis(if to < from { 0 } else { to - from })))
    } else {
        None
    }
}

/// The share of a burst's hits that falls into `len` of its milliseconds.
pub open spec fn share(hits: u64, len: int, span: u64) -> int {
    (hits * len) / span_millis(span as int)
}

/// The hits of one of `len` equal steps.
pub open spec fn step_hits(hits: int, len: int, step: int) -> u64 {
    (hits / len + if step < hits % len {
        1int
    } else {
        0
    }) as u64
}

/// The first `k` steps of a burst: what is to be written, if anything, and a
/// millisecond.
pub open spec fn steps(node: usize, hits: int, len: int, base: u64, k: nat) -> Seq<WorkloadAction>
    decreases k,
{
    if k == 0 {
        Seq::empty()
    } else {
        let before = steps(node, hits, len, base, (k - 1) as nat);
        let count = step_hits(hits, len, k - 1);
        let with = if count > 0 {
            before.push(plain_write(node, count, 1, (base + (k - 1)) as u64))
        } else {
            before
        };
        with.push(WorkloadAction::Advance)
    }
}

/// The key of the `i`th write to distinct keys.
pub open spec fn distinct_key(i: u32) -> u128 {
    KEY ^ ((i as u128) << 64u128)
}

/// What a workload does in the window from `start` on and before `end`.
pub open spec fn planned(workload: WorkloadView, start: u64, end: u64) -> Seq<WorkloadAction> {
    match workload {
        WorkloadView::SingleWrite { node, hits, at } => if start <= at < end {
            seq![plain_write(node, hits, RULE_LIMIT, at / MILLI)]
        } else {
            Seq::empty()
        },
        WorkloadView::Sustained { sources, per_tick, rule_limit } => {
            let limit = match rule_limit {
                Some(limit) => limit,
                None => RULE_LIMIT,
            };
            Seq::new(
                sources.len(),
                |i: int| plain_write(sources[i], per_tick, limit, end / MILLI),
            )
        },
        WorkloadView::Burst { node, per_burst, interval } => Seq::new(
            multiples(start, end, interval),
            |i: int|
                plain_write(node, per_burst, RULE_LIMIT, multiple_millis(start, interval, i)),
        ),
        WorkloadView::BurstCompressed { node, hits, at, burst_span } => match overlap(
            at,
            burst_span,
            start,
            end,
        ) {
            None => Seq::empty(),
            Some((base, len)) => {
                let mine = share(hits, len, burst_span);
                if mine == 0 {
                    Seq::empty()
                } else {
                    steps(node, mine, len, base, len as nat)
                }
            },
        },
        WorkloadView::DistinctKeyBurst { node, cells, at } => if start <= at < end {
            Seq::new(
                cells as nat,
                |i: int|
                    WorkloadAction::Record(
                        Write {
                            node,
                            rule_fingerprint: RULE_FINGERPRINT,
                            key_hash: distinct_key(i as u32),
                            hits: 1,
                            rule_limit: RULE_LIMIT,
                            now_millis: at / MILLI,
                        },
                    ),
            )
        } else {
            Seq::empty()
        },
        WorkloadView::TwoRule {
            hot_node,
            hot_per_tick,
            hot_limit,
            cold_node,
            cold_per_interval,
            cold_interval,
            cold_limit,
        } => seq![
            WorkloadAction::Record(
                Write {
                    node: hot_node,
                    rule_fingerprint: HOT_RULE_FINGERPRINT,
                    key_hash: HOT_KEY,
                    hits: hot_per_tick,
                    rule_limit: hot_limit,
                    now_millis: end / MILLI,
                },
            ),
        ] + Seq::new(
            multiples(start, end, cold_interval),
            |i: int|
                WorkloadAction::Record(
                    Write {
                        node: cold_node,
                        rule_fingerprint: COLD_RULE_FINGERPRINT,
                        key_hash: COLD_KEY,
                        hits: cold_per_interval,
                        rule_limit: cold_limit,
                        now_millis: multiple_millis(start, cold_interval, i),
                    },
                ),
        ),
    }
}

/// The nodes that a workload looks up in a window, in order. A node may be
/// looked up and then not be written to.
pub open spec fn looked_up(workload: WorkloadView, start: u64, end: u64) -> Seq<usize> {
    match workload {
        WorkloadView::Sustained { sources, .. } => sources,
        WorkloadView::TwoRule { hot_node, cold_node, .. } => seq![hot_node, cold_node],
        WorkloadView::SingleWrite { node, .. } => if planned(workload, start, end).len() > 0 {
            seq![node]
        } else {
            Seq::empty()
        },
        WorkloadView::DistinctKeyBurst { node, at, .. } => if start <= at < end {
            seq![node]
        } else {
            Seq::empty()
        },
        WorkloadView::Burst { node, .. } => if planned(workload, start, end).len() > 0 {
            seq![node]
        } else {
            Seq::empty()
        },
        WorkloadView::BurstCompressed { node, .. } => if planned(workload, start, end).len() > 0 {
            seq![node]
        } else {
            Seq::empty()
        },
    }
}

pub open spec fn in_range(nodes: usize, looked: Seq<usize>) -> bool {
    forall|i: int| 0 <= i < looked.len() ==> (#[trigger] looked[i]) < nodes
}

/// Whether the `i`th node looked up is the first that there is none of.
pub open spec fn missing_at(nodes: usize, looked: Seq<usize>, i: int, node: usize) -> bool {
    &&& 0 <= i < looked.len()
    &&& looked[i] == node
    &&& node >= nodes
    &&& forall|j: int| 0 <= j < i ==> (#[trigger] looked[j]) < nodes
}

/// Whether a node is the first of those looked up that there is none of, and
/// these are the writes before it: one for each node looked up until then.
pub open spec fn first_missing(
    nodes: usize,
    workload: WorkloadView,
    start: u64,
    end: u64,
    missing: NodeOutOfRange,
) -> bool {
    exists|i: int| #[trigger]
        missing_at(nodes, looked_up(workload, start, end), i, missing.node)
            && missing.actions@ == planned(workload, start, end).take(i)
}

/// Whether bursts come at some distance from each other.
pub open spec fn spaced(workload: WorkloadView) -> bool {
    match workload {
        WorkloadView::Burst { interval, .. } => interval > 0,
        WorkloadView::TwoRule { cold_interval, .. } => cold_interval > 0,
        _ => true,
    }
}

/// The hits of an action, if its rule is wanted.
pub open spec fn hits_of(action: WorkloadAction, rule: Option<u128>) -> nat {
    match action {
        WorkloadAction::Record(write) => if rule is None || rule == Some(write.rule_fingerprint) {
            write.hits as nat
        } else {
            0
        },
        WorkloadAction::Advance => 0,
    }
}

/// All hits of some actions, or those of a rule.
pub open spec fn total_hits(actions: Seq<WorkloadAction>, rule: Option<u128>) -> nat
    decreases actions.len(),
{
    if actions.len() == 0 {
        0
    } else {
        total_hits(actions.drop_last(), rule) + hits_of(actions.last(), rule)
    }
}

pub open spec fn capped(sum: nat) -> u64 {
    if sum <= u64::MAX {
        sum as u64
    } else {
        u64::MAX
    }
}

/// What some actions issue.
pub open spec fn issued_by(actions: Seq<WorkloadAction>) -> IssuedHits {
    IssuedHits {
        total: capped(total_hits(actions, None)),
        hot: capped(total_hits(actions, Some(HOT_RULE_FINGERPRINT))),
        cold: capped(total_hits(actions, Some(COLD_RULE_FINGERPRINT))),
    }
}

// -- code -------------------------------------------------------------------

/// The least multiple of `modulus` that is not below `value`; `value` itself if
/// there are no multiples.
pub fn ceil_to_multiple(value: u64, modulus: u64) -> (rounded: u128)
    ensures
        rounded == ceil_multiple(value, modulus),
{
    if modulus == 0 {
        return value as u128;
    }
    let rounds: u128 = (value as u128 + modulus as u128 - 1) / modulus as u128;
    proof {
        let r = rounds as int;
        let m = modulus as int;
        assert(r == rounds_up(value, modulus));
        assert(r * m <= value + m - 1) by (nonlinear_arith)
            requires
                m > 0,
                r == (value + m - 1) / m,
        ;
    }
    rounds * modulus as u128
}

fn tally(actions: &Vec<WorkloadAction>) -> (issued: IssuedHits)
    ensures
        issued == issued_by(actions@),
{
    let mut issued = IssuedHits { total: 0, hot: 0, cold: 0 };
    let mut i: usize = 0;
    assert(actions@.take(0) =~= Seq::<WorkloadAction>::empty());
    while i < actions.len()
        invariant
            i <= actions@.len(),
            issued == issued_by(actions@.take(i as int)),
        decreases actions@.len() - i,
    {
        assert(actions@.take(i + 1).drop_last() =~= actions@.take(i as int));
        if let WorkloadAction::Record(write) = actions[i] {
            issued.total = issued.total.saturating_add(write.hits);
            if write.rule_fingerprint == HOT_RULE_FINGERPRINT {
                issued.hot = issued.hot.saturating_add(write.hits);
            }
            if write.rule_fingerprint == COLD_RULE_FINGERPRINT {
                issued.cold = issued.cold.saturating_add(write.hits);
            }
        }
        i = i + 1;
    }
    assert(actions@.take(i as int) =~= actions@);
    issued
}

/// Writes at every multiple of an interval in a window.
fn push_multiples(
    actions: &mut Vec<WorkloadAction>,
    write: Write,
    start: u64,
    end: u64,
    interval: u64,
)
    requires
        interval > 0,
    ensures
        final(actions)@ == old(actions)@ + Seq::new(
            multiples(start, end, interval),
            |i: int|
                WorkloadAction::Record(
                    Write { now_millis: multiple_millis(start, interval, i), ..write },
                ),
        ),
{
    let ghost rest = Seq::new(
        multiples(start, end, interval),
        |i: int|
            WorkloadAction::Record(
                Write { now_millis: multiple_millis(start, interval, i), ..write },
            ),
    );
    let ghost first = rounds_up(start, interval);
    let ghost mut k: int = 0;
    let mut t: u128 = ceil_to_multiple(start, interval);
    assert(actions@ =~= old(actions)@ + rest.take(0));
    proof {
        lemma_round(start, interval);
        lemma_round(end, interval);
        lemma_none_left(start, end, interval, 0);
    }
    while t < end as u128
        invariant
            interval > 0,
            first == rounds_up(start, interval),
            t == (first + k) * interval,
            t <= u64::MAX + interval,
            0 <= k,
            k <= rest.len(),
            t < end ==> k < rest.len(),
            t >= end ==> k == rest.len(),
            rest == Seq::new(
                multiples(start, end, interval),
                |i: int|
                    WorkloadAction::Record(
                        Write { now_millis: multiple_millis(start, interval, i), ..write },
                    ),
            ),
            actions@ == old(actions)@ + rest.take(k),
        decreases rest.len() - k,
    {
        assert(t / (MILLI as u128) <= u64::MAX);
        actions.push(
            WorkloadAction::Record(Write { now_millis: (t / MILLI as u128) as u64, ..write }),
        );
        proof {
            assert(actions@ =~= old(actions)@ + rest.take(k + 1));
            assert((first + k + 1) * interval == (first + k) * interval + interval)
                by (nonlinear_arith);
            lemma_round(end, interval);
            lemma_none_left(start, end, interval, k + 1);
            k = k + 1;
        }
        t = t + interval as u128;
    }
    assert(rest.take(k) =~= rest);
}

/// Rounding up is tight.
proof fn lemma_round(value: u64, modulus: u64)
    requires
        modulus > 0,
    ensures
        rounds_up(value, modulus) >= 0,
        rounds_up(value, modulus) * modulus >= value,
        rounds_up(value, modulus) * modulus < value + modulus,
{
    let m = modulus as int;
    let r = rounds_up(value, modulus);
    assert(r >= 0 && r * m >= value && r * m < value + m) by (nonlinear_arith)
        requires
            m > 0,
            r == (value + m - 1) / m,
            value >= 0,
    ;
}

/// The `k`th multiple lies in the window as long as there are more than `k`.
proof fn lemma_none_left(start: u64, end: u64, interval: u64, k: int)
    requires
        interval > 0,
        k >= 0,
    ensures
        ((rounds_up(start, interval) + k) * interval < end) <==> (k < rounds_up(end, interval)
            - rounds_up(start, interval)),
{
    lemma_round(end, interval);
    let m = rounds_up(start, interval) + k;
    let r = rounds_up(end, interval);
    let i = interval as int;
    if m < r {
        assert(m * i <= (r - 1) * i) by (nonlinear_arith)
            requires
                m <= r - 1,
                i > 0,
        ;
        assert((r - 1) * i == r * i - i) by (nonlinear_arith);
    } else {
        assert(m * i >= r * i) by (nonlinear_arith)
            requires
                m >= r,
                i > 0,
        ;
    }
}

/// Writes of a burst spread over the milliseconds of a window.
fn push_steps(actions: &mut Vec<WorkloadAction>, node: usize, hits: u64, len: u64, base: u64)
    requires
        len > 0,
        base + len <= u64::MAX,
    ensures
        final(actions)@ == old(actions)@ + steps(
            node,
            hits as int,
            len as int,
            base,
            len as nat,
        ),
{
    let per_step: u64 = hits / len;
    let remainder: u64 = hits % len;
    let mut step: u64 = 0;
    assert(actions@ =~= old(actions)@ + steps(node, hits as int, len as int, base, 0));
    while step < len
        invariant
            step <= len,
            len > 0,
            base + len <= u64::MAX,
            per_step == hits / len,
            remainder == hits % len,
            actions@ == old(actions)@ + steps(node, hits as int, len as int, base, step as nat),
        decreases len - step,
    {
        let ghost before = actions@;
        assert(step < remainder ==> per_step < u64::MAX) by (nonlinear_arith)
            requires
                per_step == hits / len,
                remainder == hits % len,
                remainder < len,
                len > 0,
                hits <= u64::MAX,
        ;
        let count: u64 = if step < remainder { per_step + 1 } else { per_step };
        assert(count == step_hits(hits as int, len as int, step as int));
        if count > 0 {
            actions.push(
                WorkloadAction::Record(
                    Write {
                        node,
                        rule_fingerprint: RULE_FINGERPRINT,
                        key_hash: KEY,
                        hits: count,
                        rule_limit: 1,
                        now_millis: base + step,
                    },
                ),
            );
        }
        actions.push(WorkloadAction::Advance);
        assert(actions@ =~= old(actions)@ + steps(
            node,
            hits as int,
            len as int,
            base,
            (step + 1) as nat,
        ));
        step = step + 1;
    }
}

/// The share of a compressed burst in a window: when it begins, how long it is,
/// and how many hits it has, in milliseconds.
fn burst_share(hits: u64, at: u64, span: u64, start: u64, end: u64) -> (part: Option<
    (u64, u64, u64),
>)
    ensures
        match overlap(at, span, start, end) {
            None => part is None,
            Some((base, len)) => {
                &&& part matches Some((b, l, n)) && b == base && l == len && n == share(
                    hits,
                    len,
                    span,
                )
                &&& len >= 1
                &&& base + len <= u64::MAX
            },
        },
{
    let burst_end: u128 = at as u128 + span as u128;
    if !(at < end && burst_end > start as u128) {
        return None;
    }
    let from: u64 = if at < start { start } else { at };
    let to: u128 = if burst_end < end as u128 { burst_end } else { end as u128 };
    let met: u128 = if to < from as u128 { 0 } else { to - from as u128 };
    let total: u128 = if (span / MILLI) < 1 { 1 } else { (span / MILLI) as u128 };
    let len: u128 = if met / (MILLI as u128) < 1 { 1 } else { met / MILLI as u128 };
    proof {
        assert(met <= span);
        assert(len <= total);
        assert(total == span_millis(span as int));
        assert(len == span_millis(met as int));
        let h = hits as int;
        let l = len as int;
        let t = total as int;
        assert(0 <= h * l <= u64::MAX * u64::MAX) by (nonlinear_arith)
            requires
                0 <= h <= u64::MAX,
                0 <= l <= u64::MAX,
        ;
        assert((h * l) / t <= h) by (nonlinear_arith)
            requires
                0 <= h,
                0 <= l <= t,
                t >= 1,
        ;
        assert((h * l) / t >= 0) by (nonlinear_arith)
            requires
                0 <= h,
                0 <= l,
                t >= 1,
        ;
    }
    let mine: u128 = (hits as u128 * len) / total;
    Some((from / MILLI, len as u64, mine as u64))
}

/// What a workload does in the window from `window_start` on and before
/// `window_end`, in a cluster of that many nodes; only what comes before it if a
/// node that there is none of comes up. Bursts must be spaced: there is no end
/// to bursts that are not.
pub fn apply_workload(
    workload: &Workload,
    nodes: usize,
    window_start: u64,
    window_end: u64,
) -> (window: Result<WorkloadWindow, NodeOutOfRange>)
    requires
        spaced(workload@),
    ensures
        match window {
            Ok(window) => {
                &&& in_range(nodes, looked_up(workload@, window_start, window_end))
                &&& window.actions@ == planned(workload@, window_start, window_end)
                &&& window.issued == issued_by(window.actions@)
            },
            Err(missing) => first_missing(
                nodes,
                workload@,
                window_start,
                window_end,
                missing,
            ),
        },
{
    let ghost looked = looked_up(workload@, window_start, window_end);
    let ghost plan = planned(workload@, window_start, window_end);
    let mut actions: Vec<WorkloadAction> = Vec::new();
    match workload {
        Workload::SingleWrite { node, hits, at } => {
            if *at >= window_start && *at < window_end {
                if *node >= nodes {
                    assert(actions@ =~= plan.take(0));
                    let missing = NodeOutOfRange { node: *node, actions };
                    assert(missing_at(nodes, looked, 0, missing.node));
                    return Err(missing);
                }
                actions.push(
                    WorkloadAction::Record(
                        Write {
                            node: *node,
                            rule_fingerprint: RULE_FINGERPRINT,
                            key_hash: KEY,
                            hits: *hits,
                            rule_limit: RULE_LIMIT,
                            now_millis: *at / MILLI,
                        },
                    ),
                );
            }
        },
        Workload::Sustained { sources, per_tick, rule_limit } => {
            let limit: u64 = match rule_limit {
                Some(limit) => *limit,
                None => RULE_LIMIT,
            };
            let mut i: usize = 0;
            while i < sources.len()
                invariant
                    i <= sources@.len(),
                    looked == sources@,
                    forall|j: int| 0 <= j < i ==> (#[trigger] looked[j]) < nodes,
                    limit == match *rule_limit {
                        Some(limit) => limit,
                        None => RULE_LIMIT,
                    },
                    actions@ =~= Seq::new(
                        i as nat,
                        |j: int| plain_write(sources@[j], *per_tick, limit, window_end / MILLI),
                    ),
                    workload@ == (WorkloadView::Sustained {
                        sources: sources@,
                        per_tick: *per_tick,
                        rule_limit: *rule_limit,
                    }),
                    looked == looked_up(workload@, window_start, window_end),
                    plan == planned(workload@, window_start, window_end),
                decreases sources@.len() - i,
            {
                if sources[i] >= nodes {
                    assert(actions@ =~= plan.take(i as int));
                    let missing = NodeOutOfRange { node: sources[i], actions };
                    assert(missing_at(nodes, looked, i as int, missing.node));
                    return Err(missing);
                }
                actions.push(
                    WorkloadAction::Record(
                        Write {
                            node: sources[i],
                            rule_fingerprint: RULE_FINGERPRINT,
                            key_hash: KEY,
                            hits: *per_tick,
                            rule_limit: limit,
                            now_millis: window_end / MILLI,
                        },
                    ),
                );
                i = i + 1;
            }
        },
        Workload::Burst { node, per_burst, interval } => {
            let write = Write {
                node: *node,
                rule_fingerprint: RULE_FINGERPRINT,
                key_hash: KEY,
                hits: *per_burst,
                rule_limit: RULE_LIMIT,
                now_millis: 0,
            };
            push_multiples(&mut actions, write, window_start, window_end, *interval);
            assert(actions@ =~= planned(workload@, window_start, window_end));
            if actions.len() > 0 && *node >= nodes {
                let none: Vec<WorkloadAction> = Vec::new();
                assert(none@ =~= plan.take(0));
                let missing = NodeOutOfRange { node: *node, actions: none };
                assert(missing_at(nodes, looked, 0, missing.node));
                return Err(missing);
            }
        },
        Workload::BurstCompressed { node, hits, at, burst_span } => {
            let part = burst_share(*hits, *at, *burst_span, window_start, window_end);
            if let Some((base, len, mine)) = part {
                if mine > 0 {
                    proof {
                        lemma_steps_len(*node, mine as int, len as int, base, len as nat);
                    }
                    if *node >= nodes {
                        assert(actions@ =~= plan.take(0));
                        let missing = NodeOutOfRange { node: *node, actions };
                        assert(missing_at(nodes, looked, 0, missing.node));
                        return Err(missing);
                    }
                    push_steps(&mut actions, *node, mine, len, base);
                    assert(actions@ =~= planned(workload@, window_start, window_end));
                }
            }
        },
        Workload::DistinctKeyBurst { node, cells, at } => {
            if *at >= window_start && *at < window_end {
                if *node >= nodes {
                    assert(actions@ =~= plan.take(0));
                    let missing = NodeOutOfRange { node: *node, actions };
                    assert(missing_at(nodes, looked, 0, missing.node));
                    return Err(missing);
                }
                let mut i: u32 = 0;
                while i < *cells
                    invariant
                        i <= *cells,
                        window_start <= *at < window_end,
                        workload@ == (WorkloadView::DistinctKeyBurst {
                            node: *node,
                            cells: *cells,
                            at: *at,
                        }),
                        actions@ =~= planned(workload@, window_start, window_end).take(i as int),
                    decreases *cells - i,
                {
                    actions.push(
                        WorkloadAction::Record(
                            Write {
                                node: *node,
                                rule_fingerprint: RULE_FINGERPRINT,
                                key_hash: KEY ^ ((i as u128) << 64u128),
                                hits: 1,
                                rule_limit: RULE_LIMIT,
                                now_millis: *at / MILLI,
                            },
                        ),
                    );
                    i = i + 1;
                }
                assert(actions@ =~= planned(workload@, window_start, window_end));
            }
        },
        Workload::TwoRule {
            hot_node,
            hot_per_tick,
            hot_limit,
            cold_node,
            cold_per_interval,
            cold_interval,
            cold_limit,
        } => {
            if *hot_node >= nodes {
                assert(actions@ =~= plan.take(0));
                let missing = NodeOutOfRange { node: *hot_node, actions };
                assert(missing_at(nodes, looked, 0, missing.node));
                return Err(missing);
            }
            actions.push(
                WorkloadAction::Record(
                    Write {
                        node: *hot_node,
                        rule_fingerprint: HOT_RULE_FINGERPRINT,
                        key_hash: HOT_KEY,
                        hits: *hot_per_tick,
                        rule_limit: *hot_limit,
                        now_millis: window_end / MILLI,
                    },
                ),
            );
            if *cold_node >= nodes {
                assert(actions@ =~= plan.take(1));
                let missing = NodeOutOfRange { node: *cold_node, actions };
                assert(missing_at(nodes, looked, 1, missing.node));
                return Err(missing);
            }
            let write = Write {
                node: *cold_node,
                rule_fingerprint: COLD_RULE_FINGERPRINT,
                key_hash: COLD_KEY,
                hits: *cold_per_interval,
                rule_limit: *cold_limit,
                now_millis: 0,
            };
            push_multiples(&mut actions, write, window_start, window_end, *cold_interval);
            assert(actions@ =~= planned(workload@, window_start, window_end));
        },
    }
    assert(actions@ =~= planned(workload@, window_start, window_end));
    let issued = tally(&actions);
    Ok(WorkloadWindow { actions, issued })
}

proof fn lemma_steps_len(node: usize, hits: int, len: int, base: u64, k: nat)
    ensures
        steps(node, hits, len, base, k).len() >= k,
    decreases k,
{
    if k > 0 {
        lemma_steps_len(node, hits, len, base, (k - 1) as nat);
    }
}

// -- laws -------------------------------------------------------------------

/// The steps of a burst add up to its hits: none is lost to rounding.
pub proof fn lemma_steps_add_up(node: usize, hits: u64, len: u64, base: u64)
    requires
        len > 0,
    ensures
        total_hits(steps(node, hits as int, len as int, base, len as nat), None) == hits,
{
    lemma_steps_sum(node, hits as int, len as int, base, len as nat);
    let q = hits as int / len as int;
    let r = hits as int % len as int;
    assert(len * q + r == hits) by (nonlinear_arith)
        requires
            len > 0,
            q == hits as int / len as int,
            r == hits as int % len as int,
    ;
}

proof fn lemma_steps_sum(node: usize, hits: int, len: int, base: u64, k: nat)
    requires
        0 <= hits <= u64::MAX,
        0 < len,
        k <= len,
    ensures
        total_hits(steps(node, hits, len, base, k), None) == k * (hits / len) + if k < hits % len {
            k as int
        } else {
            hits % len
        },
    decreases k,
{
    let q = hits / len;
    let r = hits % len;
    assert(0 <= q <= hits && 0 <= r < len && len * q + r == hits) by (nonlinear_arith)
        requires
            0 <= hits,
            0 < len,
            q == hits / len,
            r == hits % len,
    ;
    if k > 0 {
        lemma_steps_sum(node, hits, len, base, (k - 1) as nat);
        let before = steps(node, hits, len, base, (k - 1) as nat);
        let count = step_hits(hits, len, k - 1);
        assert(r > 0 ==> q < u64::MAX) by (nonlinear_arith)
            requires
                len * q + r == hits,
                hits <= u64::MAX,
                0 < len,
                0 <= q,
                r < len,
        ;
        assert(count == q + if k - 1 < r { 1int } else { 0 });
        let with = if count > 0 {
            before.push(plain_write(node, count, 1, (base + (k - 1)) as u64))
        } else {
            before
        };
        assert(steps(node, hits, len, base, k).drop_last() =~= with);
        if count > 0 {
            assert(with.drop_last() =~= before);
            assert(with.last() == plain_write(node, count, 1, (base + (k - 1)) as u64));
        }
        assert(total_hits(with, None) == total_hits(before, None) + count);
        assert(steps(node, hits, len, base, k).last() == WorkloadAction::Advance);
        assert(k * q == (k - 1) * q + q) by (nonlinear_arith);
    } else {
        assert(0 * q == 0) by (nonlinear_arith);
    }
}

/// A burst is at every multiple of its interval in the window, and nowhere else.
pub proof fn lemma_bursts_at_multiples(
    node: usize,
    per_burst: u64,
    interval: u64,
    start: u64,
    end: u64,
    m: int,
)
    requires
        interval > 0,
        start <= m * interval < end,
    ensures
        ({
            let i = m - rounds_up(start, interval);
            let done = planned(WorkloadView::Burst { node, per_burst, interval }, start, end);
            0 <= i < done.len() && done[i] == plain_write(
                node,
                per_burst,
                RULE_LIMIT,
                ((m * interval) / (MILLI as int)) as u64,
            )
        }),
{
    lemma_round(start, interval);
    lemma_round(end, interval);
    let r = rounds_up(start, interval);
    let s = rounds_up(end, interval);
    let i = interval as int;
    assert(m >= r) by (nonlinear_arith)
        requires
            m * i >= start,
            r * i < start + i,
            i > 0,
    ;
    assert(m < s) by (nonlinear_arith)
        requires
            m * i < end,
            s * i >= end,
            i > 0,
    ;
}

} // verus!
