//! Scenarios, workloads and what is made of a run.

use gabion::bench::counters::CountingHandle;
use gabion::bench::fanout::{effective_fanout_quantiles, Fanout};
use gabion::bench::headline::{
    compute_headline, staleness_quantiles, take_snapshot, NodeMetrics, NodeReading, TickSnapshot,
};
use gabion::bench::plan::{
    apply_links, check_scenario, drain_budget, make_links, next_step, node_addr, node_config,
    node_identity, store_config, ScenarioError,
};
use gabion::bench::run::Run;
use gabion::bench::scenario::{
    example_scenario, LinkAction, LinkModel, Scenario, ScenarioKind, ScheduledNetworkChange,
    Workload, MILLI,
};
use gabion::bench::workload::{
    apply_workload, ceil_to_multiple, IssuedHits, NodeOutOfRange, WorkloadAction, Write, BUCKET,
    COLD_RULE_FINGERPRINT, HOT_RULE_FINGERPRINT, KEY, RULE_FINGERPRINT, RULE_LIMIT,
};
use gabion::crdt::{AggregateKey, CellStore, DeltaSink, ExpirationSink, KeyHash};
use gabion::gossip::aggregate::{AggregateStore, BenchAggregateStore};
use gabion::gossip::node::{GossipNode, LimitHit};
use gabion::gossip::sim::SimRouter;

fn example() -> Scenario {
    example_scenario("convergence").unwrap()
}

fn records(actions: &[WorkloadAction]) -> Vec<Write> {
    actions
        .iter()
        .filter_map(|action| match action {
            WorkloadAction::Record(write) => Some(*write),
            WorkloadAction::Advance => None,
        })
        .collect()
}

fn advances(actions: &[WorkloadAction]) -> usize {
    actions.iter().filter(|action| **action == WorkloadAction::Advance).count()
}

fn sample(t_millis: u64, per_node_total: Vec<u64>, ground_truth_total: u64) -> TickSnapshot {
    TickSnapshot {
        t_millis,
        per_node_total,
        ground_truth_total,
        bytes_sent_total: 0,
        packets_sent_total: 0,
        threshold_fires_total: 0,
        ticks_total: 0,
        dirty_ticks_total: 0,
        per_node_hot_total: Vec::new(),
        per_node_cold_total: Vec::new(),
        ground_truth_hot_total: 0,
        ground_truth_cold_total: 0,
    }
}

// -- scenarios --------------------------------------------------------------

#[test]
fn examples_can_be_run() {
    for kind in ["convergence", "loss", "partition", "sustained", "scale_n", "fanout_sweep"] {
        let scenario = example_scenario(kind).unwrap();
        assert_eq!(check_scenario(&scenario), Ok(()), "{kind}");
    }
    assert!(example_scenario("").is_none());
    assert!(example_scenario("Convergence").is_none());
    assert_eq!(example_scenario("partition").unwrap().network.links.len(), 18);
    assert_eq!(example_scenario("scale_n").unwrap().nodes, 32);
}

#[test]
fn bad_scenarios_are_refused() {
    let mut few = example();
    few.nodes = 1;
    assert_eq!(check_scenario(&few), Err(ScenarioError::TooFewNodes));
    let mut many = example();
    many.nodes = 25_537;
    assert_eq!(check_scenario(&many), Err(ScenarioError::TooManyNodes));
    let mut still = example();
    still.tick_interval = 0;
    assert_eq!(check_scenario(&still), Err(ScenarioError::NoTick));
    let mut dense = example();
    dense.workload = Workload::Burst { node: 0, per_burst: 1, interval: 0 };
    assert_eq!(check_scenario(&dense), Err(ScenarioError::NotSpaced));
    let mut loose = example();
    loose.network.links.push(LinkModel { from: 0, to: 8, action: LinkAction::Block });
    assert_eq!(check_scenario(&loose), Err(ScenarioError::LinkOutOfRange));
}

/// Changes that a run does not come to do not matter.
#[test]
fn only_the_changes_a_run_makes_are_checked() {
    let stray = vec![LinkModel { from: 0, to: 8, action: LinkAction::Block }];
    for (at, expected) in [
        (0, Err(ScenarioError::LinkOutOfRange)),
        (5_000 * MILLI, Err(ScenarioError::LinkOutOfRange)),
        (5_000 * MILLI + 1, Ok(())),
    ] {
        let mut scenario = example();
        scenario.network.schedule.push(ScheduledNetworkChange { at, apply: stray.clone() });
        assert_eq!(check_scenario(&scenario), expected);
        scenario.duration = 0;
        assert_eq!(check_scenario(&scenario), Ok(()));
    }
    // One that is not due keeps those after it waiting.
    let mut scenario = example();
    scenario.network.schedule.push(ScheduledNetworkChange { at: u64::MAX, apply: Vec::new() });
    scenario.network.schedule.push(ScheduledNetworkChange { at: 0, apply: stray });
    assert_eq!(check_scenario(&scenario), Ok(()));
    let mut router = SimRouter::new();
    let mut run = Run::new();
    while run.begin_step(&scenario, &mut router).unwrap().is_some() {}
    assert_eq!(run.next_change, 0);
}

#[test]
fn nodes_are_numbered_from_the_base_port() {
    assert_eq!(node_addr(0).port, 40_000);
    assert_eq!(node_addr(7).port, 40_007);
    assert_ne!(node_identity(0), node_identity(1));
    let scenario = example();
    let config = node_config(&scenario, 2);
    assert_eq!(config.bootstrap_peers.len(), 7);
    assert!(!config.bootstrap_peers.contains(&node_addr(2)));
    assert_eq!(config.fanout, 3);
    assert_eq!(config.tick_interval_nanos, 100_000_000);
    let mut quick = example();
    quick.tick_interval = 1_500_000;
    assert_eq!(node_config(&quick, 0).tick_interval_nanos, 1_500_000);
    assert_eq!(config.target_err_bps, 100);
    assert_eq!(config.min_emit_interval_millis, 5);
    assert_eq!(store_config(&scenario).cell_capacity, 4_096);
    assert_eq!(store_config(&scenario).forwarded_dirty_capacity, 65_536);
}

#[test]
fn every_link_gets_the_uniform_loss() {
    let scenario = example_scenario("loss").unwrap();
    let links = make_links(&scenario);
    assert_eq!(links.len(), 8 * 7);
    assert!(links.iter().all(|link| link.from != link.to));
    assert!(links.iter().all(|link| link.action == LinkAction::DropProb { threshold: 1_288_490_188 }));
    let mut router = SimRouter::new();
    apply_links(&mut router, &links);
    assert!(make_links(&example()).is_empty());
}

#[test]
fn turns_grow_with_the_cluster() {
    assert_eq!(drain_budget(1), 16);
    assert_eq!(drain_budget(8), 32);
}

// -- steps ------------------------------------------------------------------

#[test]
fn steps_cover_the_run() {
    let mut scenario = example();
    scenario.duration = 1_050 * MILLI;
    scenario.sample_interval = 250 * MILLI;
    let mut elapsed = 0;
    let mut steps = 0;
    while let Some(step) = next_step(&scenario, elapsed, 0) {
        assert_eq!(step.start, elapsed);
        assert_eq!(step.full_ticks * 100 * MILLI + step.last_tick, step.end - step.start);
        assert_eq!(step.next_change, 0);
        elapsed = step.end;
        steps += 1;
    }
    assert_eq!(elapsed, 1_050 * MILLI);
    assert_eq!(steps, 5);
}

#[test]
fn changes_come_when_they_are_due() {
    let scenario = example_scenario("partition").unwrap();
    let before = next_step(&scenario, 9_800 * MILLI, 0).unwrap();
    assert_eq!(before.next_change, 0);
    let at = next_step(&scenario, 9_900 * MILLI, 0).unwrap();
    assert_eq!(at.next_change, 1);
    assert!(next_step(&scenario, 20_000 * MILLI, 1).is_none());
}

#[test]
fn run_issues_a_single_write_once() {
    let scenario = example();
    let mut router = SimRouter::new();
    let mut run = Run::new();
    let mut steps = 0;
    while let Some(step) = run.begin_step(&scenario, &mut router).unwrap() {
        assert_eq!(step.actions.len(), if steps == 1 { 1 } else { 0 });
        steps += 1;
    }
    assert_eq!(steps, 50);
    assert_eq!(run.elapsed, scenario.duration);
    assert_eq!(run.issued, IssuedHits { total: 10, hot: 0, cold: 0 });
    let sample = run.sample(&scenario, &Vec::new());
    assert_eq!((sample.t_millis, sample.ground_truth_total), (5_000, 10));
}

#[test]
fn run_changes_the_network_and_stops_at_missing_nodes() {
    let scenario = example_scenario("partition").unwrap();
    let mut router = SimRouter::new();
    router.bind(node_addr(3));
    apply_links(&mut router, &make_links(&scenario));
    router.try_send_to(node_addr(0), node_addr(3), &[1]);
    assert_eq!(router.received_count(node_addr(3)), 0);
    let mut run = Run::new();
    while run.next_change == 0 {
        assert!(run.begin_step(&scenario, &mut router).unwrap().is_some());
    }
    assert_eq!(run.elapsed, 10_000 * MILLI);
    router.try_send_to(node_addr(0), node_addr(3), &[1]);
    assert_eq!(router.received_count(node_addr(3)), 1);
    let mut wrong = example();
    wrong.workload = Workload::SingleWrite { node: 8, hits: 1, at: 0 };
    let mut run = Run::new();
    let refused = run.begin_step(&wrong, &mut SimRouter::new());
    assert_eq!(refused.unwrap_err(), NodeOutOfRange { node: 8, actions: Vec::new() });
    assert_eq!(run, Run::new());
}

// -- workloads --------------------------------------------------------------

#[test]
fn rounding_up_to_a_multiple() {
    assert_eq!(ceil_to_multiple(0, 10), 0);
    assert_eq!(ceil_to_multiple(1, 10), 10);
    assert_eq!(ceil_to_multiple(10, 10), 10);
    assert_eq!(ceil_to_multiple(7, 0), 7);
    assert_eq!(ceil_to_multiple(u64::MAX, 1 << 63), 1 << 64);
}

#[test]
fn single_write_falls_into_one_window() {
    let write = Workload::SingleWrite { node: 3, hits: 10, at: 100 * MILLI };
    let early = apply_workload(&write, 8, 0, 100 * MILLI).unwrap();
    assert!(early.actions.is_empty());
    let hit = apply_workload(&write, 8, 100 * MILLI, 200 * MILLI).unwrap();
    assert_eq!(
        hit.actions,
        vec![WorkloadAction::Record(Write {
            node: 3,
            rule_fingerprint: RULE_FINGERPRINT,
            key_hash: KEY,
            hits: 10,
            rule_limit: RULE_LIMIT,
            now_millis: 100,
        })],
    );
    assert_eq!(hit.issued, IssuedHits { total: 10, hot: 0, cold: 0 });
    assert_eq!(
        apply_workload(&write, 3, 100 * MILLI, 200 * MILLI).unwrap_err(),
        NodeOutOfRange { node: 3, actions: Vec::new() },
    );
}

#[test]
fn sustained_writes_at_each_source() {
    let write = Workload::Sustained { sources: vec![0, 2], per_tick: 4, rule_limit: Some(500) };
    let window = apply_workload(&write, 3, 0, 100 * MILLI).unwrap();
    let writes = records(&window.actions);
    assert_eq!(writes.iter().map(|w| w.node).collect::<Vec<_>>(), vec![0, 2]);
    assert!(writes.iter().all(|w| w.hits == 4 && w.rule_limit == 500));
    assert_eq!(window.issued.total, 8);
    // What was written before the missing node came up stays written.
    let refused = apply_workload(&write, 2, 0, 1).unwrap_err();
    assert_eq!(refused.node, 2);
    assert_eq!(records(&refused.actions).iter().map(|w| w.node).collect::<Vec<_>>(), vec![0]);
    let two = Workload::TwoRule {
        hot_node: 0,
        hot_per_tick: 3,
        hot_limit: 10,
        cold_node: 9,
        cold_per_interval: 1,
        cold_interval: 100 * MILLI,
        cold_limit: 10,
    };
    let refused = apply_workload(&two, 2, 0, 100 * MILLI).unwrap_err();
    assert_eq!((refused.node, refused.actions.len()), (9, 1));
    assert_eq!(records(&refused.actions)[0].rule_fingerprint, HOT_RULE_FINGERPRINT);
}

#[test]
fn bursts_come_at_multiples() {
    let write = Workload::Burst { node: 0, per_burst: 3, interval: 50 * MILLI };
    let window = apply_workload(&write, 1, 0, 200 * MILLI).unwrap();
    let times: Vec<u64> = records(&window.actions).iter().map(|w| w.now_millis).collect();
    assert_eq!(times, vec![0, 50, 100, 150]);
    let later = apply_workload(&write, 1, 160 * MILLI, 210 * MILLI).unwrap();
    assert_eq!(records(&later.actions).iter().map(|w| w.now_millis).collect::<Vec<_>>(), vec![200]);
    assert_eq!(window.issued.total, 12);
}

#[test]
fn compressed_burst_adds_up() {
    let write = Workload::BurstCompressed { node: 0, hits: 25, at: 0, burst_span: 10 * MILLI };
    let window = apply_workload(&write, 1, 0, 100 * MILLI).unwrap();
    let writes = records(&window.actions);
    assert_eq!(writes.iter().map(|w| w.hits).sum::<u64>(), 25);
    assert_eq!(window.issued.total, 25);
    assert_eq!(advances(&window.actions), 10);
}

#[test]
fn distinct_keys_are_distinct() {
    let write = Workload::DistinctKeyBurst { node: 0, cells: 5, at: 0 };
    let window = apply_workload(&write, 1, 0, MILLI).unwrap();
    let mut keys: Vec<u128> = records(&window.actions).iter().map(|w| w.key_hash).collect();
    keys.sort();
    keys.dedup();
    assert_eq!(keys.len(), 5);
    assert_eq!(window.issued.total, 5);
}

#[test]
fn two_rules_are_told_apart() {
    let write = Workload::TwoRule {
        hot_node: 0,
        hot_per_tick: 7,
        hot_limit: 100,
        cold_node: 1,
        cold_per_interval: 2,
        cold_interval: 100 * MILLI,
        cold_limit: 50,
    };
    let window = apply_workload(&write, 2, 0, 200 * MILLI).unwrap();
    let writes = records(&window.actions);
    assert_eq!(writes.iter().filter(|w| w.rule_fingerprint == HOT_RULE_FINGERPRINT).count(), 1);
    assert_eq!(writes.iter().filter(|w| w.rule_fingerprint == COLD_RULE_FINGERPRINT).count(), 2);
    assert_eq!(window.issued, IssuedHits { total: 11, hot: 7, cold: 4 });
}

// -- headlines --------------------------------------------------------------

#[test]
fn headline_of_a_run() {
    let samples = vec![
        sample(0, vec![0, 0], 0),
        sample(100, vec![10, 0], 10),
        sample(200, vec![10, 4], 10),
        sample(300, vec![10, 10], 10),
    ];
    let node = |i: usize| NodeMetrics {
        node_index: i,
        final_total: 10,
        bytes_sent: 100,
        packets_sent: 3,
        apply_calls: 1,
        aggregate_rows: 1,
    };
    let headline = compute_headline(&example(), &samples, &vec![node(0), node(1)]);
    assert_eq!(headline.convergence_millis, Some(200));
    assert_eq!(headline.final_divergence, 0);
    assert_eq!(headline.total_bytes, 200);
    assert_eq!(headline.total_packets, 6);
    assert_eq!(headline.max_lag, 10);
    assert!(headline.error_budget.is_none());
    assert_eq!(headline.reconvergence_millis_after_heal, None);
}

#[test]
fn convergence_counts_from_the_first_write() {
    let samples = vec![
        sample(0, vec![0, 0], 0),
        sample(200, vec![5, 0], 5),
        sample(300, vec![5, 5], 5),
    ];
    let converged = |workload: Workload| {
        let mut scenario = example();
        scenario.nodes = 2;
        scenario.workload = workload;
        compute_headline(&scenario, &samples, &Vec::new()).convergence_millis
    };
    let at = 100 * MILLI;
    assert_eq!(converged(Workload::SingleWrite { node: 0, hits: 5, at }), Some(200));
    assert_eq!(converged(Workload::DistinctKeyBurst { node: 0, cells: 5, at }), Some(200));
    let burst_span = 50 * MILLI;
    assert_eq!(converged(Workload::BurstCompressed { node: 0, hits: 5, at, burst_span }), Some(200));
    let sustained = Workload::Sustained { sources: vec![0], per_tick: 5, rule_limit: None };
    assert_eq!(converged(sustained), Some(300));
    assert_eq!(converged(Workload::Burst { node: 0, per_burst: 5, interval: at }), Some(300));
    assert_eq!(converged(Workload::SingleWrite { node: 0, hits: 5, at: 400 * MILLI }), Some(0));
}

#[test]
fn headline_of_nothing() {
    let headline = compute_headline(&example(), &Vec::new(), &Vec::new());
    assert_eq!(headline.convergence_millis, None);
    assert_eq!((headline.final_divergence, headline.max_lag), (0, 0));
    assert_eq!((headline.p50_staleness_millis, headline.p95_staleness_millis), (None, None));
}

#[test]
fn headline_of_an_error_budget() {
    let mut scenario = example();
    scenario.kind = ScenarioKind::ErrorBudget;
    scenario.target_err_bps = Some(200);
    scenario.workload =
        Workload::Sustained { sources: vec![0], per_tick: 1, rule_limit: Some(10_000) };
    let budget = compute_headline(&scenario, &Vec::new(), &Vec::new()).error_budget.unwrap();
    assert_eq!(budget.theoretical_max_lag, 200);
    assert_eq!(budget.target_err_bps, 200);
    assert_eq!(budget.rule_limit, 10_000);
}

#[test]
fn delays_are_ranked() {
    let samples = vec![sample(0, vec![5, 5], 5), sample(40, vec![5, 5], 9), sample(100, vec![9, 9], 9)];
    let (p50, p95) = staleness_quantiles(&samples);
    assert!(p50.is_some());
    assert!(p50 <= p95);
}

#[test]
fn snapshot_adds_up_the_readings() {
    let reading = NodeReading {
        total: 4,
        hot_total: 3,
        cold_total: 1,
        bytes_sent: 10,
        packets_sent: 2,
        threshold_fires: 1,
        ticks: 5,
        dirty_ticks: 3,
    };
    let one = take_snapshot(7, &vec![reading, reading], 8, 6, 2, true);
    assert_eq!(one.t_millis, 7);
    assert_eq!(one.per_node_total, vec![4, 4]);
    assert_eq!((one.bytes_sent_total, one.packets_sent_total), (20, 4));
    assert_eq!((one.threshold_fires_total, one.ticks_total, one.dirty_ticks_total), (2, 10, 6));
    assert_eq!((one.per_node_hot_total, one.per_node_cold_total), (vec![3, 3], vec![1, 1]));
    assert_eq!((one.ground_truth_total, one.ground_truth_hot_total), (8, 6));
    let other = take_snapshot(7, &vec![reading], 8, 0, 0, false);
    assert!(other.per_node_hot_total.is_empty());
}

#[test]
fn counters_count() {
    let mut handle = CountingHandle::new();
    handle.record_send(10);
    handle.record_send(5);
    handle.record_recv();
    assert_eq!(handle.bytes_sent(), 15);
    assert_eq!(handle.packets_sent(), 2);
    assert_eq!(handle.packets_received(), 1);
}

// -- a run ------------------------------------------------------------------

/// Two nodes of a scenario agree after a tick.
#[test]
fn scenario_nodes_converge() {
    let mut scenario = example();
    scenario.nodes = 2;
    let mut router = SimRouter::new();
    let mut nodes: Vec<GossipNode<u32>> = (0..2)
        .map(|i| {
            router.bind(node_addr(i));
            GossipNode::new(
                node_config(&scenario, i),
                CellStore::new(store_config(&scenario), node_identity(i)),
            )
        })
        .collect();
    let mut totals: Vec<BenchAggregateStore> = (0..2).map(|_| BenchAggregateStore::new()).collect();
    let mut deltas = DeltaSink::with_capacity(4);
    let mut expirations = ExpirationSink::with_capacity(4);
    let hit = LimitHit {
        rule_fingerprint: RULE_FINGERPRINT,
        key_hash: KeyHash(KEY),
        bucket: BUCKET,
        hits: 10,
        rule_limit: RULE_LIMIT,
        now_millis: 0,
    };
    nodes[0].handle_limit_request(hit, 0, &mut deltas);
    nodes[0].finish_event(&mut deltas, &mut expirations, &mut totals[0]);
    nodes[0].handle_gossip_tick(100, 1, &mut expirations);
    while let Some((dst, bytes)) = nodes[0].next_send() {
        let outcome = router.try_send_to(node_addr(0), dst, bytes);
        nodes[0].finish_send(outcome);
    }
    while let Some(packet) = router.recv_from(node_addr(1)) {
        assert!(nodes[1].handle_inbound(&packet.bytes, packet.src, &mut deltas).is_none());
        nodes[1].finish_event(&mut deltas, &mut expirations, &mut totals[1]);
    }
    assert_eq!((totals[0].total(), totals[1].total()), (10, 10));
    assert_eq!(totals[1].total_for_rule(RULE_FINGERPRINT), 10);
    assert_eq!(totals[1].total_for_rule(1), 0);
    assert_eq!((totals[1].rows(), totals[1].apply_calls()), (1, 1));
}

/// The totals of the rules come to the total; a rule with nothing left, or that
/// never had anything, has none.
#[test]
fn totals_of_rules_come_to_the_total() {
    let key = |rule: u128, key: u128| AggregateKey {
        rule_fingerprint: rule,
        key_hash: KeyHash(key),
        bucket: 0,
    };
    let mut store = BenchAggregateStore::new();
    let mut deltas = DeltaSink::<u32>::with_capacity(4);
    let mut expirations = ExpirationSink::<u32>::with_capacity(4);
    for (rule, k, count) in [(1, 1, 5), (1, 2, 7), (2, 1, 11), (3, 1, 13), (1, 1, 1)] {
        deltas.keys.push(key(rule, k));
        deltas.deltas.push(count);
    }
    store.apply(&deltas, &expirations);
    assert_eq!((store.total(), store.rows()), (37, 4));
    let by_rule = |store: &BenchAggregateStore| [1, 2, 3, 4].map(|r| store.total_for_rule(r));
    assert_eq!(by_rule(&store), [13, 11, 13, 0]);
    deltas.clear();
    for (rule, k, count) in [(1, 1, 6), (2, 1, 12), (4, 1, 9)] {
        expirations.keys.push(key(rule, k));
        expirations.last_counts.push(count);
    }
    store.apply(&deltas, &expirations);
    assert_eq!(by_rule(&store), [7, 0, 13, 0]);
    assert_eq!((store.total(), store.rows()), (20, 2));
}

#[test]
fn fanout_is_packets_per_tick_that_sends() {
    let at = |packets: u64, dirty_ticks: u64| TickSnapshot {
        packets_sent_total: packets,
        dirty_ticks_total: dirty_ticks,
        ..sample(0, Vec::new(), 0)
    };
    let few = vec![at(3, 1)];
    assert_eq!(effective_fanout_quantiles(&few), (None, None));
    let idle = vec![at(3, 1), at(9, 1)];
    assert_eq!(effective_fanout_quantiles(&idle), (None, None));
    // 8/2, nothing, 3/1, 10/2, 1/3.
    let busy = vec![at(0, 0), at(8, 2), at(9, 2), at(12, 3), at(22, 5), at(23, 8)];
    let (median, high) = effective_fanout_quantiles(&busy);
    assert_eq!(median, Some(Fanout { packets: 8, dirty_ticks: 2 }));
    assert_eq!(high, Some(Fanout { packets: 10, dirty_ticks: 2 }));
}
