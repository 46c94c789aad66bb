//! What plans, workloads and counts of a run come to.

use super::fanout::{fanouts, fewer, in_order, is_fanout_quantile, Fanout};
use super::headline::{lemma_quantile_place, quantile_rank, TickSnapshot};
use super::plan::{
    addr_text, changes_until, fault, initial_links, links_set, others, policy_of, row_links,
    spec_node_addr, spec_node_identity, spec_store_config, step_end, tick_cells, uniform_links,
    BASE_PORT, MAX_NODES,
};
use super::run::{changes_made, issued_too, Run};
use super::scenario::{
    example_of, split_links, ChangeView, LinkAction, LinkModel, ScenarioView, WorkloadView,
};
use super::workload::{
    ceil_multiple, distinct_key, in_range, issued_by, looked_up, multiples, overlap, planned,
    rounds_up, share, spaced, span_millis, step_hits, steps, total_hits, IssuedHits,
    WorkloadAction, Write, COLD_KEY, COLD_RULE_FINGERPRINT, HOT_KEY, HOT_RULE_FINGERPRINT, KEY,
    RULE_FINGERPRINT, RULE_LIMIT,
};
use crate::gossip::sim::{LinkPolicy, SimState};
use vstd::prelude::*;

verus! {

// -- plans ------------------------------------------------------------------

/// The changes that are due by some time are those up to the first that is not.
pub proof fn lemma_changes_due(schedule: Seq<ChangeView>, from: nat, end: u64)
    requires
        from <= schedule.len(),
    ensures
        ({
            let next = changes_until(schedule, from, end);
            &&& from <= next <= schedule.len()
            &&& forall|i: int| from <= i < next ==> (#[trigger] schedule[i]).0 <= end
            &&& next < schedule.len() ==> schedule[next as int].0 > end
        }),
    decreases schedule.len() - from,
{
    if from < schedule.len() && schedule[from as int].0 <= end {
        lemma_changes_due(schedule, from + 1, end);
    }
}

/// A scenario can be run exactly if it has two nodes at least and an address for
/// each, ticks, spaces out what it writes, and speaks only of links between nodes
/// that it has: at first, and in every change up to the first that comes too late.
pub proof fn lemma_runnable(scenario: ScenarioView, late: nat)
    requires
        late <= scenario.schedule.len(),
        forall|i: int| 0 <= i < late ==> (#[trigger] scenario.schedule[i]).0 <= scenario.duration,
        late < scenario.schedule.len() ==> scenario.schedule[late as int].0 > scenario.duration,
        scenario.duration > 0,
    ensures
        fault(scenario) is None <==> {
            &&& 2 <= scenario.nodes <= 65_536 - BASE_PORT
            &&& scenario.tick_interval > 0
            &&& spaced(scenario.workload)
            &&& forall|k: int|
                0 <= k < scenario.links.len() ==> (#[trigger] scenario.links[k]).from
                    < scenario.nodes && scenario.links[k].to < scenario.nodes
            &&& forall|i: int, k: int|
                0 <= i < late && 0 <= k < scenario.schedule[i].1.len() ==> (
                #[trigger] scenario.schedule[i].1[k]).from < scenario.nodes
                    && scenario.schedule[i].1[k].to < scenario.nodes
        },
{
    lemma_changes_due(scenario.schedule, 0, scenario.duration);
    let next = changes_until(scenario.schedule, 0, scenario.duration);
    assert(next == late) by {
        if next < late {
            assert(scenario.schedule[next as int].0 <= scenario.duration);
        }
    }
    let fits = forall|i: int|
        0 <= i < late ==> super::plan::links_fit(
            (#[trigger] scenario.schedule[i]).1,
            scenario.nodes,
        );
    if fits {
        assert forall|i: int, k: int|
            0 <= i < late && 0 <= k < scenario.schedule[i].1.len() implies (
        #[trigger] scenario.schedule[i].1[k]).from < scenario.nodes
            && scenario.schedule[i].1[k].to < scenario.nodes by {
            assert(super::plan::links_fit(scenario.schedule[i].1, scenario.nodes));
        }
    }
}

/// No two nodes have the same address, nor the same name.
pub proof fn lemma_nodes_apart(i: int, j: int)
    requires
        0 <= i < MAX_NODES,
        0 <= j < MAX_NODES,
        i != j,
    ensures
        spec_node_addr(i) != spec_node_addr(j),
        spec_node_identity(i).node_id != spec_node_identity(j).node_id,
{
}

/// A node knows of all the others, in order.
pub proof fn lemma_others_all(nodes: nat, i: int)
    requires
        0 <= i < nodes,
    ensures
        others(nodes, i) == Seq::new(nodes, |k: int| spec_node_addr(k)).remove(i),
{
}

/// An address is written with the port's digits behind the host's.
pub proof fn lemma_address_text(i: int)
    requires
        0 <= i < MAX_NODES,
    ensures
        ({
            let text = addr_text(i);
            &&& text.len() == 15
            &&& (text[10] - 48) * 10_000 + (text[11] - 48) * 1_000 + (text[12] - 48) * 100 + (
            text[13] - 48) * 10 + (text[14] - 48) == BASE_PORT + i
            &&& text.take(10) == addr_text(0).take(10)
        }),
{
    let port = BASE_PORT + i;
    assert(port / 10 == 10 * (port / 100) + (port / 10) % 10);
    assert(port / 100 == 10 * (port / 1_000) + (port / 100) % 10);
    assert(port / 1_000 == 10 * (port / 10_000) + (port / 1_000) % 10);
    assert(port / 10_000 < 10);
}

/// Stores and ticks are made for the scenario, and never for less than a small
/// cluster takes.
pub proof fn lemma_sizes(scenario: ScenarioView)
    requires
        scenario.nodes <= MAX_NODES,
    ensures
        ({
            let config = spec_store_config(scenario);
            let cells = vstd::math::max(
                scenario.cell_capacity as int,
                vstd::math::max(scenario.nodes * 4, 4_096),
            );
            &&& config.cell_capacity == cells
            &&& config.local_dirty_capacity == vstd::math::max(cells, 8_192)
            &&& config.forwarded_dirty_capacity == vstd::math::min(
                vstd::math::max(cells * 16, 65_536),
                u32::MAX as int,
            )
            &&& config.node_dictionary_capacity == vstd::math::max(scenario.nodes + 16, 1_024)
            &&& config.peer_capacity == vstd::math::max(scenario.nodes + 16, 256)
            &&& tick_cells(scenario) == vstd::math::max(
                scenario.max_cells_per_tick as int,
                vstd::math::max(scenario.nodes * 4, 4_096),
            )
        }),
{
}

/// A step ends a sample later, or a tick if those are longer, and no later than the
/// run.
pub proof fn lemma_step_ends(scenario: ScenarioView, elapsed: u64)
    ensures
        step_end(scenario, elapsed) == vstd::math::min(
            elapsed + vstd::math::max(
                scenario.sample_interval as int,
                scenario.tick_interval as int,
            ),
            scenario.duration as int,
        ),
{
}

// -- links ------------------------------------------------------------------

/// Links are set one after the other, so that the last word on a link holds.
pub proof fn lemma_links_in_turn(state: SimState, first: Seq<LinkModel>, then: Seq<LinkModel>)
    ensures
        links_set(state, first + then) == links_set(links_set(state, first), then),
        first.len() == 1 ==> links_set(state, first) == state.with_policy(
            spec_node_addr(first[0].from as int),
            spec_node_addr(first[0].to as int),
            policy_of(first[0].action, first[0].from as int, first[0].to as int),
        ),
    decreases then.len(),
{
    if then.len() > 0 {
        lemma_links_in_turn(state, first, then.drop_last());
        assert((first + then).drop_last() =~= first + then.drop_last());
    } else {
        assert(first + then =~= first);
    }
    if first.len() == 1 {
        reveal_with_fuel(links_set, 2);
        assert(first.drop_last() =~= Seq::<LinkModel>::empty());
    }
}

/// A link does what it was set to; losses by chance start from a seed that the two
/// ends give.
pub proof fn lemma_actions_carry_over(from: int, to: int, count: u32, threshold: u32)
    ensures
        policy_of(LinkAction::Pass, from, to) == LinkPolicy::Pass,
        policy_of(LinkAction::Block, from, to) == LinkPolicy::Block,
        policy_of(LinkAction::DropFirst { count }, from, to) == (LinkPolicy::DropFirst { count }),
        policy_of(LinkAction::DropProb { threshold }, from, to) matches LinkPolicy::DropProb {
            threshold: t,
            ..
        } && t == threshold,
{
}

proof fn lemma_row_complete(from: nat, to: nat, action: LinkAction)
    requires
        from <= usize::MAX,
        to <= usize::MAX,
    ensures
        row_links(from, to, action).len() == to - if from < to {
            1int
        } else {
            0
        },
        forall|link: LinkModel| #[trigger]
            row_links(from, to, action).contains(link) <==> link.from == from && link.to < to
                && link.to != from && link.action == action,
    decreases to,
{
    if to > 0 {
        lemma_row_complete(from, (to - 1) as nat, action);
        let before = row_links(from, (to - 1) as nat, action);
        let after = row_links(from, to, action);
        assert forall|link: LinkModel| #[trigger] after.contains(link) <==> link.from == from
            && link.to < to && link.to != from && link.action == action by {
            assert(before.contains(link) <==> link.from == from && link.to < to - 1 && link.to
                != from && link.action == action);
            if before.contains(link) {
                let k = choose|k: int| 0 <= k < before.len() && before[k] == link;
                assert(after[k] == link);
            }
            if after.contains(link) {
                let k = choose|k: int| 0 <= k < after.len() && after[k] == link;
                if k < before.len() {
                    assert(before[k] == link);
                }
            }
            if to - 1 != from {
                assert(after.last() == (LinkModel {
                    from: from as usize,
                    to: (to - 1) as usize,
                    action,
                }));
            }
        }
    }
}

/// Uniform losses are on every link between two different nodes, in both
/// directions, and on each once.
pub proof fn lemma_uniform_everywhere(nodes: nat, from: nat, action: LinkAction)
    requires
        from <= nodes <= usize::MAX,
    ensures
        uniform_links(nodes, from, action).len() == from * (nodes - 1),
        forall|link: LinkModel| #[trigger]
            uniform_links(nodes, from, action).contains(link) <==> link.from < from && link.to
                < nodes && link.from != link.to && link.action == action,
    decreases from,
{
    if from > 0 {
        let prev = (from - 1) as nat;
        lemma_uniform_everywhere(nodes, prev, action);
        lemma_row_complete(prev, nodes, action);
        let before = uniform_links(nodes, prev, action);
        let row = row_links(prev, nodes, action);
        let after = uniform_links(nodes, from, action);
        assert(from * (nodes - 1) == prev * (nodes - 1) + (nodes - 1)) by (nonlinear_arith)
            requires
                from == prev + 1,
        ;
        assert forall|link: LinkModel| #[trigger] after.contains(link) <==> link.from < from
            && link.to < nodes && link.from != link.to && link.action == action by {
            assert(before.contains(link) <==> link.from < prev && link.to < nodes && link.from
                != link.to && link.action == action);
            assert(row.contains(link) <==> link.from == prev && link.to < nodes && link.to != prev
                && link.action == action);
            if before.contains(link) {
                let k = choose|k: int| 0 <= k < before.len() && before[k] == link;
                assert(after[k] == link);
            }
            if row.contains(link) {
                let k = choose|k: int| 0 <= k < row.len() && row[k] == link;
                assert(after[before.len() + k] == link);
            }
            if after.contains(link) {
                let k = choose|k: int| 0 <= k < after.len() && after[k] == link;
                if k < before.len() {
                    assert(before[k] == link);
                } else {
                    assert(row[k - before.len()] == link);
                }
            }
        }
    }
}

/// At first all links lose what is lost everywhere, if anything is, and then what
/// was said of each holds.
pub proof fn lemma_first_links(scenario: ScenarioView)
    ensures
        scenario.uniform_loss == LinkAction::Pass ==> initial_links(scenario) == scenario.links,
        scenario.uniform_loss != LinkAction::Pass ==> initial_links(scenario) == uniform_links(
            scenario.nodes as nat,
            scenario.nodes as nat,
            scenario.uniform_loss,
        ) + scenario.links,
{
    assert(Seq::<LinkModel>::empty() + scenario.links =~= scenario.links);
}

// -- runs -------------------------------------------------------------------

/// Changes are made in order, however a run is cut into steps, and each once.
pub proof fn lemma_changes_in_turn(
    state: SimState,
    schedule: Seq<ChangeView>,
    from: nat,
    mid: nat,
    to: nat,
)
    requires
        from <= mid <= to <= schedule.len(),
    ensures
        changes_made(state, schedule, from, to) == changes_made(
            changes_made(state, schedule, from, mid),
            schedule,
            mid,
            to,
        ),
        from < schedule.len() ==> changes_made(state, schedule, from, from + 1) == links_set(
            state,
            schedule[from as int].1,
        ),
    decreases to,
{
    if mid < to {
        lemma_changes_in_turn(state, schedule, from, mid, (to - 1) as nat);
    }
    reveal_with_fuel(changes_made, 2);
}

/// What was issued adds up over the steps of a run, as far as 64 bits hold it.
pub proof fn lemma_issued_adds_up(before: IssuedHits, then: IssuedHits)
    ensures
        issued_too(before, then).total == vstd::math::min(
            before.total + then.total,
            u64::MAX as int,
        ),
        issued_too(before, then).hot == vstd::math::min(before.hot + then.hot, u64::MAX as int),
        issued_too(before, then).cold == vstd::math::min(before.cold + then.cold, u64::MAX as int),
{
}

// -- workloads --------------------------------------------------------------

/// Hits are those of every write, or of every write for a rule.
pub proof fn lemma_hits_of_all_writes(actions: Seq<WorkloadAction>, rule: Option<u128>)
    ensures
        total_hits(actions, rule) == actions.filter_map(
            |action: WorkloadAction|
                match action {
                    WorkloadAction::Record(write) => if rule is None || rule == Some(
                        write.rule_fingerprint,
                    ) {
                        Some(write.hits)
                    } else {
                        None
                    },
                    WorkloadAction::Advance => None,
                },
        ).fold_left(0int, |sum: int, hits: u64| sum + hits),
    decreases actions.len(),
{
    if actions.len() > 0 {
        let f = |action: WorkloadAction|
            match action {
                WorkloadAction::Record(write) => if rule is None || rule == Some(
                    write.rule_fingerprint,
                ) {
                    Some(write.hits)
                } else {
                    None
                },
                WorkloadAction::Advance => None,
            };
        let front = actions.drop_last();
        lemma_hits_of_all_writes(front, rule);
        if let Some(hits) = f(actions.last()) {
            assert(actions.filter_map(f) == front.filter_map(f) + seq![hits]);
            assert((front.filter_map(f) + seq![hits]).drop_last() =~= front.filter_map(f));
        }
    }
}

/// What is issued is counted for both rules and for each of the two.
pub proof fn lemma_issued_by_rule(actions: Seq<WorkloadAction>)
    ensures
        issued_by(actions).total == vstd::math::min(
            total_hits(actions, None) as int,
            u64::MAX as int,
        ),
        issued_by(actions).hot == vstd::math::min(
            total_hits(actions, Some(HOT_RULE_FINGERPRINT)) as int,
            u64::MAX as int,
        ),
        issued_by(actions).cold == vstd::math::min(
            total_hits(actions, Some(COLD_RULE_FINGERPRINT)) as int,
            u64::MAX as int,
        ),
{
}

proof fn lemma_rounds(value: u64, modulus: u64)
    requires
        modulus > 0,
    ensures
        ({
            let r = rounds_up(value, modulus);
            &&& r >= 0
            &&& value <= r * modulus < value + modulus
        }),
{
    let v = value as int;
    let m = modulus as int;
    let r = (v + m - 1) / m;
    assert(r >= 0 && v <= r * m && r * m < v + m) by (nonlinear_arith)
        requires
            r == (v + m - 1) / m,
            m > 0,
            v >= 0,
    ;
}

/// A number is rounded up to the least multiple that is not smaller.
pub proof fn lemma_rounded_up(value: u64, modulus: u64, m: int)
    requires
        modulus > 0,
    ensures
        ceil_multiple(value, modulus) % (modulus as int) == 0,
        ceil_multiple(value, modulus) >= value,
        m * modulus >= value ==> m * modulus >= ceil_multiple(value, modulus),
{
    lemma_rounds(value, modulus);
    let r = rounds_up(value, modulus);
    let d = modulus as int;
    vstd::arithmetic::div_mod::lemma_mod_multiples_basic(r, d);
    if m * modulus >= value {
        assert(m >= r) by (nonlinear_arith)
            requires
                m * d >= value,
                r * d < value + d,
                d > 0,
        ;
        assert(m * d >= r * d) by (nonlinear_arith)
            requires
                m >= r,
                d > 0,
        ;
    }
}

proof fn lemma_multiples_split(start: u64, mid: u64, end: u64, interval: u64)
    requires
        start <= mid <= end,
        interval > 0,
    ensures
        multiples(start, end, interval) == multiples(start, mid, interval) + multiples(
            mid,
            end,
            interval,
        ),
        rounds_up(start, interval) + multiples(start, mid, interval) == rounds_up(mid, interval),
{
    let i = interval as int;
    let a = start + i - 1;
    let b = mid + i - 1;
    let c = end + i - 1;
    vstd::arithmetic::div_mod::lemma_div_is_ordered(a, b, i);
    vstd::arithmetic::div_mod::lemma_div_is_ordered(b, c, i);
}

/// What a workload writes at its own times, it writes the same way however a run is
/// cut into steps: a single write, a burst of keys, and bursts at an interval.
pub proof fn lemma_steps_write_the_same(
    workload: WorkloadView,
    start: u64,
    mid: u64,
    end: u64,
)
    requires
        start <= mid <= end,
        workload is SingleWrite || workload is DistinctKeyBurst || workload is Burst,
        spaced(workload),
    ensures
        planned(workload, start, end) == planned(workload, start, mid) + planned(
            workload,
            mid,
            end,
        ),
{
    match workload {
        WorkloadView::Burst { node, per_burst, interval } => {
            lemma_multiples_split(start, mid, end, interval);
        },
        _ => {},
    }
    assert(planned(workload, start, end) =~= planned(workload, start, mid) + planned(
        workload,
        mid,
        end,
    ));
}

/// A single write is one, of so many hits, at its time, and not before or after.
pub proof fn lemma_written_once(node: usize, hits: u64, at: u64, start: u64, end: u64)
    ensures
        ({
            let done = planned(WorkloadView::SingleWrite { node, hits, at }, start, end);
            if start <= at < end {
                done.len() == 1 && done[0] == WorkloadAction::Record(
                    Write {
                        node,
                        rule_fingerprint: RULE_FINGERPRINT,
                        key_hash: KEY,
                        hits,
                        rule_limit: RULE_LIMIT,
                        now_millis: at / 1_000_000,
                    },
                )
            } else {
                done.len() == 0
            }
        }),
{
}

/// Every source writes in every step.
pub proof fn lemma_sources_write(
    sources: Seq<usize>,
    per_tick: u64,
    rule_limit: Option<u64>,
    start: u64,
    end: u64,
    i: int,
)
    requires
        0 <= i < sources.len(),
    ensures
        ({
            let done = planned(
                WorkloadView::Sustained { sources, per_tick, rule_limit },
                start,
                end,
            );
            &&& done.len() == sources.len()
            &&& done[i] matches WorkloadAction::Record(write) && write.node == sources[i]
                && write.hits == per_tick && write.now_millis == end / 1_000_000
                && write.rule_limit == (match rule_limit {
                Some(limit) => limit,
                None => RULE_LIMIT,
            })
        }),
{
}

/// Every burst is at a multiple of the interval within the step.
pub proof fn lemma_bursts_within(
    node: usize,
    per_burst: u64,
    interval: u64,
    start: u64,
    end: u64,
    i: int,
)
    requires
        interval > 0,
        0 <= i < planned(WorkloadView::Burst { node, per_burst, interval }, start, end).len(),
    ensures
        exists|m: int| #[trigger]
            (m * interval) >= start && m * interval < end && planned(
                WorkloadView::Burst { node, per_burst, interval },
                start,
                end,
            )[i] == WorkloadAction::Record(
                Write {
                    node,
                    rule_fingerprint: RULE_FINGERPRINT,
                    key_hash: KEY,
                    hits: per_burst,
                    rule_limit: RULE_LIMIT,
                    now_millis: ((m * interval) / 1_000_000) as u64,
                },
            ),
{
    lemma_rounds(start, interval);
    lemma_rounds(end, interval);
    let r = rounds_up(start, interval);
    let s = rounds_up(end, interval);
    let d = interval as int;
    let m = r + i;
    assert(m < s);
    assert(m * d >= r * d) by (nonlinear_arith)
        requires
            m >= r,
            d > 0,
    ;
    assert(m * d <= (s - 1) * d) by (nonlinear_arith)
        requires
            m <= s - 1,
            d > 0,
    ;
    assert((s - 1) * d == s * d - d) by (nonlinear_arith);
    assert((m * interval) >= start);
}

/// The keys of a burst of keys are all different.
pub proof fn lemma_keys_of_burst_apart(i: u32, j: u32)
    requires
        i != j,
    ensures
        distinct_key(i) != distinct_key(j),
{
    let a = i as u128;
    let b = j as u128;
    let key = KEY;
    assert(key ^ (a << 64u128) != key ^ (b << 64u128)) by (bit_vector)
        requires
            a != b,
            a <= 0xffff_ffffu128,
            b <= 0xffff_ffffu128,
    ;
}

/// A burst of keys writes one hit to each of them, at its time.
pub proof fn lemma_burst_of_keys(node: usize, cells: u32, at: u64, start: u64, end: u64, i: int)
    requires
        start <= at < end,
        0 <= i < cells,
    ensures
        ({
            let done = planned(WorkloadView::DistinctKeyBurst { node, cells, at }, start, end);
            &&& done.len() == cells
            &&& done[i] matches WorkloadAction::Record(write) && write.hits == 1 && write.node
                == node && write.key_hash == distinct_key(i as u32) && write.now_millis == at
                / 1_000_000
        }),
{
}

/// With two rules, the hot one is written to in every step, and the cold one at
/// every multiple of its interval.
pub proof fn lemma_two_rules(
    hot_node: usize,
    hot_per_tick: u64,
    hot_limit: u64,
    cold_node: usize,
    cold_per_interval: u64,
    cold_interval: u64,
    cold_limit: u64,
    start: u64,
    end: u64,
)
    requires
        cold_interval > 0,
    ensures
        ({
            let done = planned(
                WorkloadView::TwoRule {
                    hot_node,
                    hot_per_tick,
                    hot_limit,
                    cold_node,
                    cold_per_interval,
                    cold_interval,
                    cold_limit,
                },
                start,
                end,
            );
            let bursts = planned(
                WorkloadView::Burst {
                    node: cold_node,
                    per_burst: cold_per_interval,
                    interval: cold_interval,
                },
                start,
                end,
            );
            &&& done.len() == 1 + bursts.len()
            &&& done[0] == WorkloadAction::Record(
                Write {
                    node: hot_node,
                    rule_fingerprint: HOT_RULE_FINGERPRINT,
                    key_hash: HOT_KEY,
                    hits: hot_per_tick,
                    rule_limit: hot_limit,
                    now_millis: end / 1_000_000,
                },
            )
            &&& forall|i: int|
                1 <= i < done.len() ==> #[trigger] done[i] == WorkloadAction::Record(
                    Write {
                        rule_fingerprint: COLD_RULE_FINGERPRINT,
                        key_hash: COLD_KEY,
                        rule_limit: cold_limit,
                        ..bursts[i - 1]->Record_0
                    },
                )
        }),
{
}

/// A burst that is squeezed into some time is all written if the step holds all of
/// that time.
pub proof fn lemma_squeezed_burst_complete(
    node: usize,
    hits: u64,
    at: u64,
    burst_span: u64,
    start: u64,
    end: u64,
)
    requires
        start <= at,
        at + burst_span <= end,
        0 < burst_span,
        at < end,
    ensures
        total_hits(
            planned(WorkloadView::BurstCompressed { node, hits, at, burst_span }, start, end),
            None,
        ) == hits,
{
    let len = span_millis(burst_span as int);
    assert(overlap(at, burst_span, start, end) == Some(
        ((at / 1_000_000) as u64, span_millis(burst_span as int)),
    ));
    assert((hits * len) / len == hits) by (nonlinear_arith)
        requires
            len >= 1,
    ;
    assert(share(hits, len, burst_span) == hits);
    if hits > 0 {
        super::workload::lemma_steps_add_up(
            node,
            hits,
            len as u64,
            (at / 1_000_000) as u64,
        );
    } else {
        assert(total_hits(Seq::<WorkloadAction>::empty(), None) == 0);
    }
}

/// A burst that is squeezed into some time is spread over it: no two milliseconds
/// differ by more than a hit, and none gets more than one before it.
pub proof fn lemma_spread_evenly(hits: u64, len: u64, i: int, j: int)
    requires
        0 < len,
        0 <= i <= j < len,
    ensures
        step_hits(hits as int, len as int, j) <= step_hits(hits as int, len as int, i)
            <= step_hits(hits as int, len as int, j) + 1,
        step_hits(hits as int, len as int, i) * len <= hits + len,
        (step_hits(hits as int, len as int, i) + 1) * len > hits,
{
    let h = hits as int;
    let n = len as int;
    let q = h / n;
    let r = h % n;
    vstd::arithmetic::div_mod::lemma_fundamental_div_mod(h, n);
    vstd::arithmetic::div_mod::lemma_mod_bound(h, n);
    assert(0 <= q <= h) by (nonlinear_arith)
        requires
            q == h / n,
            n >= 1,
            h >= 0,
    ;
    if r > 0 {
        assert(q < h) by (nonlinear_arith)
            requires
                n * q + r == h,
                r > 0,
                n >= 1,
                q >= 0,
        ;
    }
    assert(n * q == q * n) by (nonlinear_arith);
    assert((q + 1) * n == q * n + n) by (nonlinear_arith);
    assert((q + 1 + 1) * n == q * n + n + n) by (nonlinear_arith);
}

// -- fanouts ----------------------------------------------------------------

/// Fanouts compare as packets per tick: by packets where the ticks are as many, and
/// the same if both are counted over so many times as long.
pub proof fn lemma_fewer_is_a_ratio(a: Fanout, b: Fanout, times: u64, longer: Fanout)
    requires
        a.dirty_ticks > 0,
        b.dirty_ticks > 0,
        times > 0,
        longer.packets == a.packets * times,
        longer.dirty_ticks == a.dirty_ticks * times,
    ensures
        a.dirty_ticks == b.dirty_ticks ==> (fewer(a, b) <==> a.packets < b.packets),
        fewer(longer, b) <==> fewer(a, b),
        fewer(b, longer) <==> fewer(b, a),
        !fewer(a, longer) && !fewer(longer, a),
{
    let (ap, ad) = (a.packets as int, a.dirty_ticks as int);
    let (bp, bd) = (b.packets as int, b.dirty_ticks as int);
    let t = times as int;
    assert(ad == bd ==> (ap * bd < bp * ad <==> ap < bp)) by (nonlinear_arith)
        requires
            ad > 0,
            bd > 0,
    ;
    assert((ap * t) * bd < bp * (ad * t) <==> ap * bd < bp * ad) by (nonlinear_arith)
        requires
            t > 0,
    ;
    assert(bp * (ad * t) < (ap * t) * bd <==> bp * ad < ap * bd) by (nonlinear_arith)
        requires
            t > 0,
    ;
    assert(ap * (ad * t) == (ap * t) * ad) by (nonlinear_arith);
}

/// There is a fanout for every two samples in a row between which a tick had
/// something to send: the packets over those ticks.
pub proof fn lemma_fanouts_complete(samples: Seq<TickSnapshot>)
    requires
        forall|i: int, j: int|
            0 <= i <= j < samples.len() ==> (#[trigger] samples[i]).packets_sent_total <= (
            #[trigger] samples[j]).packets_sent_total && samples[i].dirty_ticks_total
                <= samples[j].dirty_ticks_total,
        samples.len() > 0,
    ensures
        fanouts(samples) == Seq::new((samples.len() - 1) as nat, |i: int| i).filter_map(
            |i: int|
                if samples[i].dirty_ticks_total < samples[i + 1].dirty_ticks_total {
                    Some(
                        Fanout {
                            packets: (samples[i + 1].packets_sent_total
                                - samples[i].packets_sent_total) as u64,
                            dirty_ticks: (samples[i + 1].dirty_ticks_total
                                - samples[i].dirty_ticks_total) as u64,
                        },
                    )
                } else {
                    None
                },
        ),
{
    lemma_fanouts_of_prefix(samples, samples.len());
    assert(samples.take(samples.len() as int) =~= samples);
}

proof fn lemma_fanouts_of_prefix(samples: Seq<TickSnapshot>, n: nat)
    requires
        0 < n <= samples.len(),
        forall|i: int, j: int|
            0 <= i <= j < samples.len() ==> (#[trigger] samples[i]).packets_sent_total <= (
            #[trigger] samples[j]).packets_sent_total && samples[i].dirty_ticks_total
                <= samples[j].dirty_ticks_total,
    ensures
        fanouts(samples.take(n as int)) == Seq::new((n - 1) as nat, |i: int| i).filter_map(
            |i: int|
                if samples[i].dirty_ticks_total < samples[i + 1].dirty_ticks_total {
                    Some(
                        Fanout {
                            packets: (samples[i + 1].packets_sent_total
                                - samples[i].packets_sent_total) as u64,
                            dirty_ticks: (samples[i + 1].dirty_ticks_total
                                - samples[i].dirty_ticks_total) as u64,
                        },
                    )
                } else {
                    None
                },
        ),
    decreases n,
{
    let all = Seq::new((n - 1) as nat, |i: int| i);
    let part = samples.take(n as int);
    if n > 1 {
        lemma_fanouts_of_prefix(samples, (n - 1) as nat);
        assert(part.drop_last() =~= samples.take(n - 1));
        assert(all.drop_last() =~= Seq::new((n - 2) as nat, |i: int| i));
        assert(part[n - 2] == samples[n - 2] && part.last() == samples[n - 1]);
        assert(samples[n - 2].packets_sent_total <= samples[n - 1].packets_sent_total);
    }
}

// -- steps ------------------------------------------------------------------

/// A step of a run takes it to the step's end, past the changes that are due by
/// then, and issues what the workload writes in it.
pub proof fn lemma_step_taken(run: Run, scenario: ScenarioView)
    requires
        run.next_change <= scenario.schedule.len() <= usize::MAX,
    ensures
        ({
            let after = run.after_step(scenario);
            let end = vstd::math::min(
                run.elapsed + vstd::math::max(
                    scenario.sample_interval as int,
                    scenario.tick_interval as int,
                ),
                scenario.duration as int,
            );
            let done = planned(scenario.workload, run.elapsed, end as u64);
            &&& after.elapsed == end
            &&& run.next_change <= after.next_change <= scenario.schedule.len()
            &&& forall|i: int|
                run.next_change <= i < after.next_change ==> (#[trigger] scenario.schedule[i]).0
                    <= end
            &&& after.next_change < scenario.schedule.len()
                ==> scenario.schedule[after.next_change as int].0 > end
            &&& after.issued.total == vstd::math::min(
                run.issued.total + vstd::math::min(
                    total_hits(done, None) as int,
                    u64::MAX as int,
                ),
                u64::MAX as int,
            )
        }),
{
    lemma_step_ends(scenario, run.elapsed);
    let end = step_end(scenario, run.elapsed) as u64;
    lemma_changes_due(scenario.schedule, run.next_change as nat, end);
}

/// A step whose nodes are all there writes to nodes that are there.
pub proof fn lemma_writes_in_range(nodes: usize, workload: WorkloadView, start: u64, end: u64)
    requires
        in_range(nodes, looked_up(workload, start, end)),
    ensures
        forall|i: int|
            0 <= i < planned(workload, start, end).len() ==> match #[trigger] planned(
                workload,
                start,
                end,
            )[i] {
                WorkloadAction::Record(write) => write.node < nodes,
                WorkloadAction::Advance => true,
            },
{
    let done = planned(workload, start, end);
    let looked = looked_up(workload, start, end);
    match workload {
        WorkloadView::SingleWrite { node, .. } => {
            if done.len() > 0 {
                assert(looked[0] == node);
            }
        },
        WorkloadView::Sustained { sources, .. } => {
            assert forall|i: int| 0 <= i < done.len() implies match #[trigger] done[i] {
                WorkloadAction::Record(write) => write.node < nodes,
                WorkloadAction::Advance => true,
            } by {
                assert(looked[i] == sources[i]);
            }
        },
        WorkloadView::Burst { node, .. } => {
            if done.len() > 0 {
                assert(looked[0] == node);
            }
        },
        WorkloadView::BurstCompressed { node, hits, at, burst_span } => {
            if done.len() > 0 {
                assert(looked[0] == node);
                let (base, len) = overlap(at, burst_span, start, end)->0;
                lemma_steps_of_node(node, share(hits, len, burst_span), len, base, len as nat);
            }
        },
        WorkloadView::DistinctKeyBurst { node, .. } => {
            if done.len() > 0 {
                assert(looked[0] == node);
            }
        },
        WorkloadView::TwoRule { hot_node, cold_node, .. } => {
            assert(looked[0] == hot_node && looked[1] == cold_node);
        },
    }
}

proof fn lemma_steps_of_node(node: usize, hits: int, len: int, base: u64, k: nat)
    ensures
        forall|i: int|
            0 <= i < steps(node, hits, len, base, k).len() ==> match #[trigger] steps(
                node,
                hits,
                len,
                base,
                k,
            )[i] {
                WorkloadAction::Record(write) => write.node == node,
                WorkloadAction::Advance => true,
            },
    decreases k,
{
    if k > 0 {
        lemma_steps_of_node(node, hits, len, base, (k - 1) as nat);
        let before = steps(node, hits, len, base, (k - 1) as nat);
        let after = steps(node, hits, len, base, k);
        assert forall|i: int| 0 <= i < after.len() implies match #[trigger] after[i] {
            WorkloadAction::Record(write) => write.node == node,
            WorkloadAction::Advance => true,
        } by {
            if i < before.len() {
                assert(after[i] == before[i]);
            }
        }
    }
}

// -- examples ---------------------------------------------------------------

/// A cluster of six that is split in two has every link between the halves in the
/// split, in both directions, and no other.
pub proof fn lemma_split_between_halves(action: LinkAction, link: LinkModel)
    ensures
        split_links(action).contains(link) <==> {
            &&& link.action == action
            &&& link.from < 3 <= link.to < 6 || link.to < 3 <= link.from < 6
        },
{
    let all = split_links(action);
    if all.contains(link) {
        let i = choose|i: int| 0 <= i < all.len() && all[i] == link;
        assert(0 <= (i / 2) / 3 < 3);
        assert(0 <= (i / 2) % 3 < 3);
    }
    if link.action == action && link.from < 3 <= link.to < 6 {
        let i = 2 * (3 * link.from + (link.to - 3));
        assert(i / 2 == 3 * link.from + (link.to - 3));
        assert((i / 2) / 3 == link.from && (i / 2) % 3 == link.to - 3);
        assert(all[i] == link);
    }
    if link.action == action && link.to < 3 <= link.from < 6 {
        let i = 2 * (3 * link.to + (link.from - 3)) + 1;
        assert(i / 2 == 3 * link.to + (link.from - 3));
        assert((i / 2) / 3 == link.to && (i / 2) % 3 == link.from - 3);
        assert(all[i] == link);
    }
}

/// Every example can be run.
pub proof fn lemma_examples_run(kind: Seq<char>)
    ensures
        example_of(kind) matches Some(example) ==> fault(example) is None,
{
    if let Some(example) = example_of(kind) {
        assert forall|k: int| 0 <= k < example.links.len() implies (
        #[trigger] example.links[k]).from < example.nodes && example.links[k].to
            < example.nodes by {
            assert(0 <= (k / 2) / 3 < 3 && 0 <= (k / 2) % 3 < 3);
        }
        assert forall|i: int, k: int|
            0 <= i < example.schedule.len() && 0 <= k < example.schedule[i].1.len() implies (
        #[trigger] example.schedule[i].1[k]).from < example.nodes && example.schedule[i].1[k].to
            < example.nodes by {
            assert(0 <= (k / 2) / 3 < 3 && 0 <= (k / 2) % 3 < 3);
        }
        lemma_runnable(example, example.schedule.len());
    }
}

// -- quantiles of fanouts ---------------------------------------------------

/// A quantile of fanouts stands at its place: in order of packets per tick, it is
/// one of them, and none that comes later has fewer, none that comes before has
/// more. Of no fanouts there is none.
pub proof fn lemma_fanout_quantile_stands(
    all: Seq<Fanout>,
    numerator: nat,
    denominator: nat,
    q: Option<Fanout>,
)
    requires
        is_fanout_quantile(all, numerator, denominator, q),
        numerator < denominator,
    ensures
        q is None <==> all.len() == 0,
        q matches Some(v) ==> all.contains(v) && exists|ordered: Seq<Fanout>, rank: int|
            {
                &&& ordered.to_multiset() == all.to_multiset()
                &&& 0 <= rank < ordered.len()
                &&& #[trigger] ordered[rank] == v
                &&& rank * denominator <= all.len() * numerator < (rank + 1) * denominator
                &&& forall|i: int|
                    rank <= i < ordered.len() ==> ordered[i].packets * v.dirty_ticks >= v.packets
                        * (#[trigger] ordered[i]).dirty_ticks
                &&& forall|i: int|
                    0 <= i <= rank ==> ordered[i].packets * v.dirty_ticks <= v.packets * (
                    #[trigger] ordered[i]).dirty_ticks
            },
{
    let ordered = choose|ordered: Seq<Fanout>|
        {
            &&& #[trigger] in_order(ordered)
            &&& ordered.to_multiset() == all.to_multiset()
            &&& q == if ordered.len() == 0 {
                None
            } else {
                Some(ordered[quantile_rank(ordered.len(), numerator, denominator) as int])
            }
        };
    broadcast use vstd::seq_lib::group_to_multiset_ensures;

    assert(ordered.len() == ordered.to_multiset().len());
    assert(all.len() == all.to_multiset().len());
    if ordered.len() > 0 {
        let v = q->0;
        let rank = quantile_rank(ordered.len(), numerator, denominator) as int;
        lemma_quantile_place(ordered.len(), numerator, denominator);
        assert(ordered[rank] == v);
        assert(ordered.contains(v));
        assert(ordered.to_multiset().count(v) > 0);
        assert(all.contains(v));
        assert forall|i: int| rank <= i < ordered.len() implies ordered[i].packets * v.dirty_ticks
            >= v.packets * (#[trigger] ordered[i]).dirty_ticks by {
            if i > rank {
                assert(!fewer(ordered[i], ordered[rank]));
            }
        }
        assert forall|i: int| 0 <= i <= rank implies ordered[i].packets * v.dirty_ticks
            <= v.packets * (#[trigger] ordered[i]).dirty_ticks by {
            if i < rank {
                assert(!fewer(ordered[rank], ordered[i]));
            }
        }
    }
}

/// How often the clock is moved on by some actions.
pub open spec fn advances(actions: Seq<WorkloadAction>) -> nat {
    actions.filter(|action: WorkloadAction| action is Advance).len()
}

proof fn lemma_advances_push(actions: Seq<WorkloadAction>, action: WorkloadAction)
    ensures
        advances(actions.push(action)) == advances(actions) + if action is Advance {
            1nat
        } else {
            0nat
        },
{
    reveal(Seq::filter);
    assert(actions.push(action).drop_last() =~= actions);
}

proof fn lemma_steps_timed(node: usize, hits: int, len: int, base: u64, k: nat)
    requires
        base + k <= u64::MAX,
    ensures
        ({
            let done = steps(node, hits, len, base, k);
            &&& advances(done) == k
            &&& forall|p: int|
                0 <= p < done.len() ==> (#[trigger] done[p] matches WorkloadAction::Record(write)
                    ==> {
                    &&& write.node == node
                    &&& write.rule_limit == 1
                    &&& write.hits > 0
                    &&& write.now_millis == base + advances(done.take(p))
                })
        }),
    decreases k,
{
    if k == 0 {
        reveal(Seq::filter);
    } else {
        let before = steps(node, hits, len, base, (k - 1) as nat);
        let done = steps(node, hits, len, base, k);
        lemma_steps_timed(node, hits, len, base, (k - 1) as nat);
        let count = step_hits(hits, len, k - 1);
        let write = super::workload::plain_write(node, count, 1, (base + (k - 1)) as u64);
        let with = if count > 0 {
            before.push(write)
        } else {
            before
        };
        lemma_advances_push(before, write);
        lemma_advances_push(with, WorkloadAction::Advance);
        assert(done == with.push(WorkloadAction::Advance));
        assert forall|p: int| 0 <= p < done.len() implies (#[trigger] done[p] matches
            WorkloadAction::Record(write) ==> {
            &&& write.node == node
            &&& write.rule_limit == 1
            &&& write.hits > 0
            &&& write.now_millis == base + advances(done.take(p))
        }) by {
            if p < before.len() {
                assert(done[p] == before[p]);
                assert(done.take(p) =~= before.take(p));
            } else if p < with.len() {
                assert(done.take(p) =~= before);
            }
        }
    }
}

/// A burst that is squeezed into some time is written while that time and the step
/// overlap: from the later of their starts on, for as many milliseconds as they share
/// but at least one, moving the clock on by one after each. Every write is stamped
/// with what the clock shows, and they come to the part of the burst that the shared
/// time is of all its time.
pub proof fn lemma_squeezed_burst_in_time(
    node: usize,
    hits: u64,
    at: u64,
    burst_span: u64,
    start: u64,
    end: u64,
)
    requires
        at < end,
        at + burst_span > start,
        start <= end,
    ensures
        ({
            let done = planned(
                WorkloadView::BurstCompressed { node, hits, at, burst_span },
                start,
                end,
            );
            let from = vstd::math::max(at as int, start as int);
            let to = vstd::math::min(at + burst_span, end as int);
            let part = vstd::math::max((to - from) / 1_000_000, 1);
            let whole = vstd::math::max(burst_span as int / 1_000_000, 1);
            &&& total_hits(done, None) == (hits * part) / whole
            &&& done.len() > 0 ==> advances(done) == part
            &&& forall|p: int|
                0 <= p < done.len() ==> (#[trigger] done[p] matches WorkloadAction::Record(write)
                    ==> {
                    &&& write.node == node
                    &&& write.now_millis == from / 1_000_000 + advances(done.take(p))
                    &&& write.now_millis < from / 1_000_000 + part
                })
        }),
{
    let workload = WorkloadView::BurstCompressed { node, hits, at, burst_span };
    let done = planned(workload, start, end);
    let from = vstd::math::max(at as int, start as int);
    let to = vstd::math::min(at + burst_span, end as int);
    let part = vstd::math::max((to - from) / 1_000_000, 1);
    let whole = vstd::math::max(burst_span as int / 1_000_000, 1);
    let base = (from / 1_000_000) as u64;
    assert(overlap(at, burst_span, start, end) == Some((base, part)));
    let mine = (hits * part) / whole;
    assert(share(hits, part, burst_span) == mine);
    assert(0 <= mine <= hits) by (nonlinear_arith)
        requires
            mine == (hits * part) / whole,
            1 <= part <= whole,
    ;
    if mine == 0 {
        assert(total_hits(done, None) == 0);
    } else {
        super::workload::lemma_steps_add_up(node, mine as u64, part as u64, base);
        lemma_steps_timed(node, mine, part, base, part as nat);
        assert forall|p: int| 0 <= p < done.len() implies (#[trigger] done[p] matches
            WorkloadAction::Record(write) ==> write.now_millis < base + part) by {
            if done[p] is Record {
                lemma_advances_end(done, p);
            }
        }
        assert(done.len() > 0) by {
            reveal(Seq::filter);
        }
    }
}

proof fn lemma_advances_end(actions: Seq<WorkloadAction>, p: int)
    requires
        0 <= p < actions.len(),
        actions.last() is Advance,
        actions[p] !is Advance,
    ensures
        advances(actions.take(p)) < advances(actions),
{
    let front = actions.drop_last();
    assert(front.push(actions.last()) =~= actions);
    lemma_advances_push(front, actions.last());
    lemma_advances_grow(front, p);
    assert(front.take(p) =~= actions.take(p));
}

proof fn lemma_advances_grow(actions: Seq<WorkloadAction>, p: int)
    requires
        0 <= p <= actions.len(),
    ensures
        advances(actions.take(p)) <= advances(actions),
    decreases actions.len(),
{
    if p < actions.len() {
        let front = actions.drop_last();
        lemma_advances_grow(front, p);
        assert(front.take(p) =~= actions.take(p));
        assert(front.push(actions.last()) =~= actions);
        lemma_advances_push(front, actions.last());
    } else {
        assert(actions.take(p) =~= actions);
    }
}

} // verus!
