//! What to make of the samples of a run.
//!
//! Rates and ratios are left to whoever shows them.

use crate::bench::plan::TARGET_ERR_BPS;
use crate::bench::scenario::{Scenario, ScenarioKind, ScenarioView, Workload, WorkloadView, MILLI};
use crate::bench::workload::RULE_LIMIT;
use crate::seqs::{
    first_where, lemma_first_where, lemma_first_where_at, lemma_first_where_none,
};
use vstd::prelude::*;

verus! {

/// The cluster at one moment.
#[derive(Debug)]
pub struct TickSnapshot {
    pub t_millis: u64,
    /// What each node counts.
    pub per_node_total: Vec<u64>,
    /// What was issued.
    pub ground_truth_total: u64,
    pub bytes_sent_total: u64,
    pub packets_sent_total: u64,
    pub threshold_fires_total: u64,
    pub ticks_total: u64,
    pub dirty_ticks_total: u64,
    pub per_node_hot_total: Vec<u64>,
    pub per_node_cold_total: Vec<u64>,
    pub ground_truth_hot_total: u64,
    pub ground_truth_cold_total: u64,
}

/// One node at the end of a run.
#[derive(Clone, Copy, Debug, PartialEq, Eq, Structural)]
pub struct NodeMetrics {
    pub node_index: usize,
    pub final_total: u64,
    pub bytes_sent: u64,
    pub packets_sent: u64,
    pub apply_calls: u64,
    pub aggregate_rows: usize,
}

/// A node as it is read for a sample.
#[derive(Clone, Copy, Debug, PartialEq, Eq, Structural)]
pub struct NodeReading {
    pub total: u64,
    pub hot_total: u64,
    pub cold_total: u64,
    pub bytes_sent: u64,
    pub packets_sent: u64,
    pub threshold_fires: u64,
    pub ticks: u64,
    pub dirty_ticks: u64,
}

/// The numbers of a run.
#[derive(Debug)]
pub struct Headline {
    /// From the first write to the first sample in which every node counts all
    /// that was issued.
    pub convergence_millis: Option<u64>,
    /// Between the nodes that count the most and the least, at the end.
    pub final_divergence: u64,
    pub total_bytes: u64,
    pub total_packets: u64,
    pub p50_staleness_millis: Option<u64>,
    pub p95_staleness_millis: Option<u64>,
    /// The furthest that any node ever lagged behind.
    pub max_lag: u64,
    /// From the first change of the network on.
    pub reconvergence_millis_after_heal: Option<u64>,
    pub hot_convergence_millis: Option<u64>,
    pub cold_convergence_millis: Option<u64>,
    pub error_budget: Option<ErrorBudget>,
    pub min_emit_interval_ms: Option<u64>,
}

/// What an error budget allows.
#[derive(Clone, Copy, Debug, PartialEq, Eq, Structural)]
pub struct ErrorBudget {
    pub theoretical_max_lag: u64,
    pub target_err_bps: u64,
    pub rule_limit: u64,
}

// -- model ------------------------------------------------------------------

/// A sample as contracts speak of it.
#[verifier::ext_equal]
pub struct SampleView {
    pub t_millis: u64,
    pub totals: Seq<u64>,
    pub issued: u64,
    pub hot_totals: Seq<u64>,
    pub hot_issued: u64,
    pub cold_totals: Seq<u64>,
    pub cold_issued: u64,
}

impl TickSnapshot {
    pub open spec fn view(&self) -> SampleView {
        SampleView {
            t_millis: self.t_millis,
            totals: self.per_node_total@,
            issued: self.ground_truth_total,
            hot_totals: self.per_node_hot_total@,
            hot_issued: self.ground_truth_hot_total,
            cold_totals: self.per_node_cold_total@,
            cold_issued: self.ground_truth_cold_total,
        }
    }
}

pub open spec fn sample_views(samples: Seq<TickSnapshot>) -> Seq<SampleView> {
    Seq::new(samples.len(), |i: int| samples[i]@)
}

/// Something was issued, and every node counts exactly that.
pub open spec fn converged(sample: SampleView) -> bool {
    &&& sample.issued > 0
    &&& forall|i: int| 0 <= i < sample.totals.len() ==> #[trigger] sample.totals[i] == sample.issued
}

/// Something was issued, and every node counts that at least.
pub open spec fn caught_up(totals: Seq<u64>, issued: u64) -> bool {
    &&& issued > 0
    &&& forall|i: int| 0 <= i < totals.len() ==> #[trigger] totals[i] >= issued
}

/// Converged, from a moment on.
pub open spec fn converged_from(since: u64) -> spec_fn(SampleView) -> bool {
    |sample: SampleView| sample.t_millis >= since && converged(sample)
}

pub open spec fn hot_caught_up() -> spec_fn(SampleView) -> bool {
    |sample: SampleView| caught_up(sample.hot_totals, sample.hot_issued)
}

pub open spec fn cold_caught_up() -> spec_fn(SampleView) -> bool {
    |sample: SampleView| caught_up(sample.cold_totals, sample.cold_issued)
}

/// When something first held.
pub open spec fn first_time(
    samples: Seq<SampleView>,
    p: spec_fn(SampleView) -> bool,
) -> Option<u64> {
    match first_where(samples, p) {
        Some(i) => Some(samples[i].t_millis),
        None => None,
    }
}

/// The largest, zero if there is none.
pub open spec fn largest(values: Seq<u64>) -> u64
    decreases values.len(),
{
    if values.len() == 0 {
        0
    } else {
        let rest = largest(values.drop_last());
        if rest < values.last() {
            values.last()
        } else {
            rest
        }
    }
}

/// The smallest, zero if there is none.
pub open spec fn smallest(values: Seq<u64>) -> u64
    decreases values.len(),
{
    if values.len() == 0 {
        0
    } else if values.len() == 1 {
        values[0]
    } else {
        let rest = smallest(values.drop_last());
        if values.last() < rest {
            values.last()
        } else {
            rest
        }
    }
}

/// How far the last node lags behind.
pub open spec fn lag(sample: SampleView) -> u64 {
    if sample.issued < smallest(sample.totals) {
        0
    } else {
        (sample.issued - smallest(sample.totals)) as u64
    }
}

pub open spec fn lags(samples: Seq<SampleView>) -> Seq<u64> {
    Seq::new(samples.len(), |i: int| lag(samples[i]))
}

/// A sum that stops at the largest number.
pub open spec fn capped(sum: int) -> u64 {
    if sum <= u64::MAX {
        sum as u64
    } else {
        u64::MAX
    }
}

/// The sum of some numbers.
pub open spec fn sum_of(values: Seq<u64>) -> nat
    decreases values.len(),
{
    if values.len() == 0 {
        0
    } else {
        sum_of(values.drop_last()) + values.last() as nat
    }
}

// -- staleness --------------------------------------------------------------

/// The totals that were ever issued, in the order in which they were reached.
pub open spec fn levels(samples: Seq<SampleView>) -> Seq<u64>
    decreases samples.len(),
{
    if samples.len() == 0 {
        Seq::empty()
    } else {
        let before = levels(samples.drop_last());
        let issued = samples.last().issued;
        if issued > 0 && !before.contains(issued) {
            before.push(issued)
        } else {
            before
        }
    }
}

pub open spec fn issued_by_then(level: u64) -> spec_fn(SampleView) -> bool {
    |sample: SampleView| sample.issued >= level
}

pub open spec fn seen_by_then(node: int, level: u64) -> spec_fn(SampleView) -> bool {
    |sample: SampleView|
        (if 0 <= node < sample.totals.len() {
            sample.totals[node]
        } else {
            0
        }) >= level
}

/// How long after a level was issued a node had it, if it ever did.
pub open spec fn delay(samples: Seq<SampleView>, node: int, level: u64) -> Option<u64> {
    match (
        first_time(samples, issued_by_then(level)),
        first_time(samples, seen_by_then(node, level)),
    ) {
        (Some(issued), Some(seen)) => Some(
            if seen < issued {
                0
            } else {
                (seen - issued) as u64
            },
        ),
        _ => None,
    }
}

/// The delays of the first `nodes` nodes for a level.
pub open spec fn level_delays(samples: Seq<SampleView>, level: u64, nodes: nat) -> Seq<u64>
    decreases nodes,
{
    if nodes == 0 {
        Seq::empty()
    } else {
        let before = level_delays(samples, level, (nodes - 1) as nat);
        match delay(samples, nodes - 1, level) {
            Some(d) => before.push(d),
            None => before,
        }
    }
}

/// The delays of all nodes for some levels.
pub open spec fn delays(samples: Seq<SampleView>, wanted: Seq<u64>, nodes: nat) -> Seq<u64>
    decreases wanted.len(),
{
    if wanted.len() == 0 {
        Seq::empty()
    } else {
        delays(samples, wanted.drop_last(), nodes) + level_delays(samples, wanted.last(), nodes)
    }
}

/// The delays that staleness is read from. None if the run ends with nothing
/// issued.
pub open spec fn all_delays(samples: Seq<SampleView>) -> Seq<u64> {
    if samples.len() == 0 || samples.last().issued == 0 {
        Seq::empty()
    } else {
        delays(samples, levels(samples), samples[0].totals.len())
    }
}

/// How many values are less than `v`.
pub open spec fn below(values: Seq<u64>, v: int) -> nat
    decreases values.len(),
{
    if values.len() == 0 {
        0
    } else {
        below(values.drop_last(), v) + if values.last() < v {
            1nat
        } else {
            0
        }
    }
}

/// Whether `v` is what stands at a place, counted from zero, once the values are
/// in order.
pub open spec fn at_rank(values: Seq<u64>, rank: nat, v: u64) -> bool {
    below(values, v as int) <= rank < below(values, v + 1)
}

/// The place of a quantile, given as a fraction.
pub open spec fn quantile_rank(len: nat, numerator: nat, denominator: nat) -> nat {
    let place = (len * numerator) / denominator;
    if place < len {
        place
    } else {
        (len - 1) as nat
    }
}

/// Whether `q` is a quantile of the values; none of no values.
pub open spec fn is_quantile(
    values: Seq<u64>,
    numerator: nat,
    denominator: nat,
    q: Option<u64>,
) -> bool {
    if values.len() == 0 {
        q is None
    } else {
        q matches Some(v) && at_rank(
            values,
            quantile_rank(values.len(), numerator, denominator),
            v,
        )
    }
}

// -- headline ---------------------------------------------------------------

/// The limit of the rule that a workload writes to.
pub open spec fn limit_of(workload: WorkloadView) -> u64 {
    match workload {
        WorkloadView::Sustained { rule_limit: Some(limit), .. } => limit,
        _ => RULE_LIMIT,
    }
}

pub open spec fn bps_of(scenario: ScenarioView) -> u64 {
    match scenario.target_err_bps {
        Some(bps) => bps as u64,
        None => TARGET_ERR_BPS as u64,
    }
}

/// When a workload first writes. What is written in every window, or at every
/// multiple of an interval, is first written as a run begins.
pub open spec fn first_write_millis(workload: WorkloadView) -> u64 {
    match workload {
        WorkloadView::SingleWrite { at, .. } => (at / MILLI) as u64,
        WorkloadView::BurstCompressed { at, .. } => (at / MILLI) as u64,
        WorkloadView::DistinctKeyBurst { at, .. } => (at / MILLI) as u64,
        WorkloadView::Sustained { .. } => 0,
        WorkloadView::Burst { .. } => 0,
        WorkloadView::TwoRule { .. } => 0,
    }
}

/// Milliseconds from one moment to another, none if that came before.
pub open spec fn millis_since(from: u64, to: u64) -> u64 {
    if from <= to {
        (to - from) as u64
    } else {
        0
    }
}

/// What an error budget allows the cluster to lag: its share of the limit, or a
/// hit per node.
pub open spec fn allowed_lag(scenario: ScenarioView) -> int {
    let share = (limit_of(scenario.workload) * bps_of(scenario)) / 10_000;
    if share < scenario.nodes {
        scenario.nodes as int
    } else {
        share
    }
}

/// The numbers of a run are what its samples say.
pub open spec fn headline_of(
    headline: Headline,
    scenario: ScenarioView,
    samples: Seq<SampleView>,
    bytes: Seq<u64>,
    packets: Seq<u64>,
) -> bool {
    &&& headline.convergence_millis == match first_time(samples, converged_from(0)) {
        Some(t) => Some(millis_since(first_write_millis(scenario.workload), t)),
        None => None,
    }
    &&& headline.final_divergence == if samples.len() == 0 {
        0
    } else {
        largest(samples.last().totals) - smallest(samples.last().totals)
    }
    &&& headline.total_bytes == capped(sum_of(bytes) as int)
    &&& headline.total_packets == capped(sum_of(packets) as int)
    &&& is_quantile(all_delays(samples), 1, 2, headline.p50_staleness_millis)
    &&& is_quantile(all_delays(samples), 19, 20, headline.p95_staleness_millis)
    &&& headline.max_lag == largest(lags(samples))
    &&& headline.reconvergence_millis_after_heal == if scenario.kind == ScenarioKind::Partition
        && scenario.schedule.len() > 0 {
        let healed = scenario.schedule[0].0 / MILLI;
        match first_time(samples, converged_from(healed)) {
            Some(t) => Some((t - healed) as u64),
            None => None,
        }
    } else {
        None
    }
    &&& headline.hot_convergence_millis == if scenario.kind == ScenarioKind::HeartbeatThresholdMix {
        first_time(samples, hot_caught_up())
    } else {
        None
    }
    &&& headline.cold_convergence_millis == if scenario.kind == ScenarioKind::HeartbeatThresholdMix
    {
        first_time(samples, cold_caught_up())
    } else {
        None
    }
    &&& headline.error_budget == if scenario.kind == ScenarioKind::ErrorBudget {
        Some(
            ErrorBudget {
                theoretical_max_lag: allowed_lag(scenario) as u64,
                target_err_bps: bps_of(scenario),
                rule_limit: limit_of(scenario.workload),
            },
        )
    } else {
        None
    }
    &&& headline.min_emit_interval_ms == if scenario.kind == ScenarioKind::MinEmitClamp {
        match scenario.min_emit_interval {
            Some(interval) => Some((interval / MILLI) as u64),
            None => None,
        }
    } else {
        None
    }
}

// -- code -------------------------------------------------------------------

fn find_largest(values: &Vec<u64>) -> (found: u64)
    ensures
        found == largest(values@),
{
    let mut found: u64 = 0;
    let mut i: usize = 0;
    assert(values@.take(0) =~= Seq::<u64>::empty());
    while i < values.len()
        invariant
            i <= values@.len(),
            found == largest(values@.take(i as int)),
        decreases values@.len() - i,
    {
        assert(values@.take(i + 1).drop_last() =~= values@.take(i as int));
        if found < values[i] {
            found = values[i];
        }
        i = i + 1;
    }
    assert(values@.take(i as int) =~= values@);
    found
}

fn find_smallest(values: &Vec<u64>) -> (found: u64)
    ensures
        found == smallest(values@),
{
    if values.len() == 0 {
        return 0;
    }
    let mut found: u64 = values[0];
    let mut i: usize = 1;
    assert(values@.take(1).len() == 1);
    while i < values.len()
        invariant
            1 <= i <= values@.len(),
            found == smallest(values@.take(i as int)),
        decreases values@.len() - i,
    {
        assert(values@.take(i + 1).drop_last() =~= values@.take(i as int));
        if values[i] < found {
            found = values[i];
        }
        i = i + 1;
    }
    assert(values@.take(i as int) =~= values@);
    found
}

/// The largest and the smallest are among the values, and in that order.
proof fn lemma_bounds(values: Seq<u64>)
    ensures
        smallest(values) <= largest(values),
    decreases values.len(),
{
    if values.len() > 1 {
        lemma_bounds(values.drop_last());
    }
}

/// One more number added to a sum that stops at the largest.
fn add_capped(sum: u64, value: u64, Ghost(values): Ghost<Seq<u64>>, Ghost(i): Ghost<int>) -> (next:
    u64)
    requires
        0 <= i < values.len(),
        value == values[i],
        sum == capped(sum_of(values.take(i)) as int),
    ensures
        next == capped(sum_of(values.take(i + 1)) as int),
{
    assert(values.take(i + 1).drop_last() =~= values.take(i));
    sum.saturating_add(value)
}

fn is_converged(sample: &TickSnapshot) -> (yes: bool)
    ensures
        yes == converged(sample@),
{
    if sample.ground_truth_total == 0 {
        return false;
    }
    let mut i: usize = 0;
    while i < sample.per_node_total.len()
        invariant
            i <= sample.per_node_total@.len(),
            forall|j: int|
                0 <= j < i ==> #[trigger] sample.per_node_total@[j] == sample.ground_truth_total,
        decreases sample.per_node_total@.len() - i,
    {
        if sample.per_node_total[i] != sample.ground_truth_total {
            assert(sample@.totals[i as int] != sample@.issued);
            return false;
        }
        i = i + 1;
    }
    true
}

fn is_caught_up(totals: &Vec<u64>, issued: u64) -> (yes: bool)
    ensures
        yes == caught_up(totals@, issued),
{
    if issued == 0 {
        return false;
    }
    let mut i: usize = 0;
    while i < totals.len()
        invariant
            i <= totals@.len(),
            forall|j: int| 0 <= j < i ==> #[trigger] totals@[j] >= issued,
        decreases totals@.len() - i,
    {
        if totals[i] < issued {
            assert(!(totals@[i as int] >= issued));
            return false;
        }
        i = i + 1;
    }
    true
}

/// What to look for in the samples.
#[derive(Clone, Copy, Debug, PartialEq, Eq, Structural)]
enum Search {
    Converged { since: u64 },
    HotCaughtUp,
    ColdCaughtUp,
    Issued { level: u64 },
    Seen { node: usize, level: u64 },
}

impl Search {
    spec fn wants(self) -> spec_fn(SampleView) -> bool {
        match self {
            Search::Converged { since } => converged_from(since),
            Search::HotCaughtUp => hot_caught_up(),
            Search::ColdCaughtUp => cold_caught_up(),
            Search::Issued { level } => issued_by_then(level),
            Search::Seen { node, level } => seen_by_then(node as int, level),
        }
    }

    fn fits(&self, sample: &TickSnapshot) -> (yes: bool)
        ensures
            yes == self.wants()(sample@),
    {
        match *self {
            Search::Converged { since } => sample.t_millis >= since && is_converged(sample),
            Search::HotCaughtUp => is_caught_up(
                &sample.per_node_hot_total,
                sample.ground_truth_hot_total,
            ),
            Search::ColdCaughtUp => is_caught_up(
                &sample.per_node_cold_total,
                sample.ground_truth_cold_total,
            ),
            Search::Issued { level } => sample.ground_truth_total >= level,
            Search::Seen { node, level } => {
                let seen: u64 = if node < sample.per_node_total.len() {
                    sample.per_node_total[node]
                } else {
                    0
                };
                seen >= level
            },
        }
    }
}

fn find_time(samples: &Vec<TickSnapshot>, search: Search) -> (time: Option<u64>)
    ensures
        time == first_time(sample_views(samples@), search.wants()),
        time matches Some(t) ==> exists|i: int|
            0 <= i < samples@.len() && search.wants()(#[trigger] samples@[i]@) && t
                == samples@[i].t_millis,
{
    let ghost views = sample_views(samples@);
    let ghost p = search.wants();
    let mut i: usize = 0;
    while i < samples.len()
        invariant
            i <= samples@.len(),
            views == sample_views(samples@),
            p == search.wants(),
            forall|j: int| 0 <= j < i ==> !p(#[trigger] views[j]),
        decreases samples@.len() - i,
    {
        assert(views[i as int] == samples@[i as int]@);
        if search.fits(&samples[i]) {
            proof {
                lemma_first_where_at(views, p, i as int);
            }
            assert(search.wants()(samples@[i as int]@));
            return Some(samples[i].t_millis);
        }
        i = i + 1;
    }
    proof {
        lemma_first_where_none(views, p);
    }
    None
}

fn find_levels(samples: &Vec<TickSnapshot>) -> (found: Vec<u64>)
    ensures
        found@ == levels(sample_views(samples@)),
{
    let ghost views = sample_views(samples@);
    let mut found: Vec<u64> = Vec::new();
    let mut i: usize = 0;
    assert(views.take(0) =~= Seq::<SampleView>::empty());
    while i < samples.len()
        invariant
            i <= samples@.len(),
            views == sample_views(samples@),
            found@ == levels(views.take(i as int)),
        decreases samples@.len() - i,
    {
        assert(views.take(i + 1).drop_last() =~= views.take(i as int));
        assert(views.take(i + 1).last() == samples@[i as int]@);
        let issued: u64 = samples[i].ground_truth_total;
        let mut k: usize = 0;
        while k < found.len() && found[k] != issued
            invariant
                k <= found@.len(),
                forall|j: int| 0 <= j < k ==> found@[j] != issued,
            decreases found@.len() - k,
        {
            k = k + 1;
        }
        assert(found@.contains(issued) == (k < found@.len())) by {
            if k < found@.len() {
                assert(found@[k as int] == issued);
            }
        }
        if issued > 0 && k == found.len() {
            found.push(issued);
        }
        i = i + 1;
    }
    assert(views.take(i as int) =~= views);
    found
}

fn find_delays(samples: &Vec<TickSnapshot>) -> (found: Vec<u64>)
    ensures
        found@ == all_delays(sample_views(samples@)),
{
    let ghost views = sample_views(samples@);
    let mut found: Vec<u64> = Vec::new();
    if samples.len() == 0 {
        return found;
    }
    assert(views.last() == samples@[samples@.len() - 1]@);
    assert(views[0] == samples@[0]@);
    if samples[samples.len() - 1].ground_truth_total == 0 {
        return found;
    }
    let nodes: usize = samples[0].per_node_total.len();
    let wanted = find_levels(samples);
    let mut i: usize = 0;
    assert(wanted@.take(0) =~= Seq::<u64>::empty());
    while i < wanted.len()
        invariant
            i <= wanted@.len(),
            views == sample_views(samples@),
            found@ == delays(views, wanted@.take(i as int), nodes as nat),
        decreases wanted@.len() - i,
    {
        let ghost before = found@;
        let level: u64 = wanted[i];
        let issued = find_time(samples, Search::Issued { level });
        let mut node: usize = 0;
        assert(found@ =~= before + level_delays(views, level, 0));
        while node < nodes
            invariant
                node <= nodes,
                views == sample_views(samples@),
                issued == first_time(views, issued_by_then(level)),
                found@ == before + level_delays(views, level, node as nat),
            decreases nodes - node,
        {
            let seen = find_time(samples, Search::Seen { node, level });
            if let (Some(issued), Some(seen)) = (issued, seen) {
                found.push(seen.saturating_sub(issued));
            }
            assert(found@ =~= before + level_delays(views, level, (node + 1) as nat));
            node = node + 1;
        }
        assert(wanted@.take(i + 1).drop_last() =~= wanted@.take(i as int));
        i = i + 1;
    }
    assert(wanted@.take(i as int) =~= wanted@);
    found
}

fn count_below(values: &Vec<u64>, v: u128) -> (count: usize)
    ensures
        count == below(values@, v as int),
        count <= values@.len(),
{
    let mut count: usize = 0;
    let mut i: usize = 0;
    assert(values@.take(0) =~= Seq::<u64>::empty());
    while i < values.len()
        invariant
            i <= values@.len(),
            count <= i,
            count == below(values@.take(i as int), v as int),
        decreases values@.len() - i,
    {
        assert(values@.take(i + 1).drop_last() =~= values@.take(i as int));
        if (values[i] as u128) < v {
            count = count + 1;
        }
        i = i + 1;
    }
    assert(values@.take(i as int) =~= values@);
    count
}

proof fn lemma_below_ends(values: Seq<u64>)
    ensures
        below(values, 0) == 0,
        below(values, u64::MAX + 1) == values.len(),
    decreases values.len(),
{
    if values.len() > 0 {
        lemma_below_ends(values.drop_last());
    }
}

proof fn lemma_below_grows(values: Seq<u64>, a: int, b: int)
    requires
        a <= b,
    ensures
        below(values, a) <= below(values, b),
    decreases values.len(),
{
    if values.len() > 0 {
        lemma_below_grows(values.drop_last(), a, b);
    }
}

/// At each place there is one value, and it is one of the values.
pub proof fn lemma_rank_unique(values: Seq<u64>, rank: nat, a: u64, b: u64)
    requires
        at_rank(values, rank, a),
        at_rank(values, rank, b),
    ensures
        a == b,
        values.contains(a),
{
    if a < b {
        lemma_below_grows(values, a + 1, b as int);
    } else if b < a {
        lemma_below_grows(values, b + 1, a as int);
    }
    lemma_rank_occurs(values, a);
}

proof fn lemma_rank_occurs(values: Seq<u64>, v: u64)
    requires
        below(values, v as int) < below(values, v + 1),
    ensures
        values.contains(v),
    decreases values.len(),
{
    if values.len() > 0 {
        if values.last() == v {
            assert(values[values.len() - 1] == v);
        } else {
            lemma_rank_occurs(values.drop_last(), v);
            let i = choose|i: int|
                0 <= i < values.drop_last().len() && values.drop_last()[i] == v;
            assert(values[i] == v);
        }
    }
}

/// The value at a place once the values are in order, found by halving.
fn value_at_rank(values: &Vec<u64>, rank: usize) -> (v: u64)
    requires
        rank < values@.len(),
    ensures
        at_rank(values@, rank as nat, v),
{
    let mut low: u128 = 0;
    let mut high: u128 = 0x1_0000_0000_0000_0000;
    proof {
        lemma_below_ends(values@);
    }
    while high - low > 1
        invariant
            0 <= low < high <= 0x1_0000_0000_0000_0000,
            below(values@, low as int) <= rank < below(values@, high as int),
        decreases high - low,
    {
        let middle: u128 = low + (high - low) / 2;
        if count_below(values, middle) <= rank {
            low = middle;
        } else {
            high = middle;
        }
    }
    low as u64
}

fn quantile(values: &Vec<u64>, numerator: u64, denominator: u64) -> (q: Option<u64>)
    requires
        0 < denominator,
        numerator <= denominator,
    ensures
        is_quantile(values@, numerator as nat, denominator as nat, q),
{
    if values.len() == 0 {
        return None;
    }
    let len: u128 = values.len() as u128;
    proof {
        let l = len as int;
        let n = numerator as int;
        assert(0 <= l * n <= u64::MAX * u64::MAX) by (nonlinear_arith)
            requires
                0 <= l <= u64::MAX,
                0 <= n <= u64::MAX,
        ;
        let d = denominator as int;
        assert(0 <= (l * n) / d <= l) by (nonlinear_arith)
            requires
                0 <= l,
                0 <= n <= d,
                d > 0,
        ;
    }
    let place: u128 = (len * numerator as u128) / denominator as u128;
    let rank: usize = if place < len { place as usize } else { values.len() - 1 };
    Some(value_at_rank(values, rank))
}

/// The median of the delays, and the delay that all but one in twenty keep to.
pub fn staleness_quantiles(samples: &Vec<TickSnapshot>) -> (quantiles: (Option<u64>, Option<u64>))
    ensures
        is_quantile(all_delays(sample_views(samples@)), 1, 2, quantiles.0),
        is_quantile(all_delays(sample_views(samples@)), 19, 20, quantiles.1),
{
    let found = find_delays(samples);
    (quantile(&found, 1, 2), quantile(&found, 19, 20))
}

fn find_max_lag(samples: &Vec<TickSnapshot>) -> (found: u64)
    ensures
        found == largest(lags(sample_views(samples@))),
{
    let ghost all = lags(sample_views(samples@));
    let mut found: u64 = 0;
    let mut i: usize = 0;
    assert(all.take(0) =~= Seq::<u64>::empty());
    while i < samples.len()
        invariant
            i <= samples@.len() == all.len(),
            all == lags(sample_views(samples@)),
            found == largest(all.take(i as int)),
        decreases samples@.len() - i,
    {
        assert(all.take(i + 1).drop_last() =~= all.take(i as int));
        assert(all[i as int] == lag(samples@[i as int]@));
        let behind: u64 = samples[i].ground_truth_total.saturating_sub(
            find_smallest(&samples[i].per_node_total),
        );
        if found < behind {
            found = behind;
        }
        i = i + 1;
    }
    assert(all.take(i as int) =~= all);
    found
}

pub open spec fn bytes_of(nodes: Seq<NodeMetrics>) -> Seq<u64> {
    Seq::new(nodes.len(), |i: int| nodes[i].bytes_sent)
}

pub open spec fn packets_of(nodes: Seq<NodeMetrics>) -> Seq<u64> {
    Seq::new(nodes.len(), |i: int| nodes[i].packets_sent)
}

/// The budget that a scenario gives the cluster. The limit's share must fit a
/// machine word.
fn budget_of(scenario: &Scenario) -> (budget: ErrorBudget)
    requires
        limit_of(scenario@.workload) * bps_of(scenario@) <= u64::MAX,
    ensures
        budget == (ErrorBudget {
            theoretical_max_lag: allowed_lag(scenario@) as u64,
            target_err_bps: bps_of(scenario@),
            rule_limit: limit_of(scenario@.workload),
        }),
        budget.theoretical_max_lag == allowed_lag(scenario@),
{
    let bps: u64 = match scenario.target_err_bps {
        Some(bps) => bps as u64,
        None => TARGET_ERR_BPS as u64,
    };
    let limit: u64 = match &scenario.workload {
        Workload::Sustained { rule_limit: Some(limit), .. } => *limit,
        _ => RULE_LIMIT,
    };
    let share: u64 = limit * bps / 10_000;
    let nodes: u64 = scenario.nodes as u64;
    ErrorBudget {
        theoretical_max_lag: if share < nodes { nodes } else { share },
        target_err_bps: bps,
        rule_limit: limit,
    }
}

fn find_first_write(workload: &Workload) -> (millis: u64)
    ensures
        millis == first_write_millis(workload@),
{
    match workload {
        Workload::SingleWrite { at, .. } => *at / MILLI,
        Workload::BurstCompressed { at, .. } => *at / MILLI,
        Workload::DistinctKeyBurst { at, .. } => *at / MILLI,
        _ => 0,
    }
}

/// The numbers of a run. For a scenario about error budgets, the limit's share
/// must fit a machine word.
pub fn compute_headline(
    scenario: &Scenario,
    samples: &Vec<TickSnapshot>,
    nodes: &Vec<NodeMetrics>,
) -> (headline: Headline)
    requires
        scenario.kind == ScenarioKind::ErrorBudget ==> limit_of(scenario@.workload) * bps_of(
            scenario@,
        ) <= u64::MAX,
    ensures
        headline_of(
            headline,
            scenario@,
            sample_views(samples@),
            bytes_of(nodes@),
            packets_of(nodes@),
        ),
{
    let ghost views = sample_views(samples@);
    let convergence_millis: Option<u64> = match find_time(
        samples,
        Search::Converged { since: 0 },
    ) {
        Some(t) => Some(t.saturating_sub(find_first_write(&scenario.workload))),
        None => None,
    };
    let final_divergence: u64 = if samples.len() == 0 {
        0
    } else {
        let last = &samples[samples.len() - 1];
        assert(views.last() == samples@[samples@.len() - 1]@);
        proof {
            lemma_bounds(last.per_node_total@);
        }
        find_largest(&last.per_node_total) - find_smallest(&last.per_node_total)
    };
    let mut total_bytes: u64 = 0;
    let mut total_packets: u64 = 0;
    let mut i: usize = 0;
    assert(bytes_of(nodes@).take(0) =~= Seq::<u64>::empty());
    assert(packets_of(nodes@).take(0) =~= Seq::<u64>::empty());
    while i < nodes.len()
        invariant
            i <= nodes@.len(),
            total_bytes == capped(sum_of(bytes_of(nodes@).take(i as int)) as int),
            total_packets == capped(sum_of(packets_of(nodes@).take(i as int)) as int),
        decreases nodes@.len() - i,
    {
        total_bytes =
        add_capped(total_bytes, nodes[i].bytes_sent, Ghost(bytes_of(nodes@)), Ghost(i as int));
        total_packets =
        add_capped(
            total_packets,
            nodes[i].packets_sent,
            Ghost(packets_of(nodes@)),
            Ghost(i as int),
        );
        i = i + 1;
    }
    assert(bytes_of(nodes@).take(i as int) =~= bytes_of(nodes@));
    assert(packets_of(nodes@).take(i as int) =~= packets_of(nodes@));
    let (p50_staleness_millis, p95_staleness_millis) = staleness_quantiles(samples);
    let reconvergence_millis_after_heal: Option<u64> = if scenario.kind == ScenarioKind::Partition
        && scenario.network.schedule.len() > 0 {
        assert(scenario@.schedule[0].0 == scenario.network.schedule@[0].at);
        let healed: u64 = scenario.network.schedule[0].at / MILLI;
        match find_time(samples, Search::Converged { since: healed }) {
            Some(t) => Some(t - healed),
            None => None,
        }
    } else {
        None
    };
    let mixed: bool = scenario.kind == ScenarioKind::HeartbeatThresholdMix;
    let hot_convergence_millis: Option<u64> = if mixed {
        find_time(samples, Search::HotCaughtUp)
    } else {
        None
    };
    let cold_convergence_millis: Option<u64> = if mixed {
        find_time(samples, Search::ColdCaughtUp)
    } else {
        None
    };
    let error_budget: Option<ErrorBudget> = if scenario.kind == ScenarioKind::ErrorBudget {
        Some(budget_of(scenario))
    } else {
        None
    };
    let min_emit_interval_ms: Option<u64> = if scenario.kind == ScenarioKind::MinEmitClamp {
        match scenario.min_emit_interval {
            Some(interval) => Some(interval / MILLI),
            None => None,
        }
    } else {
        None
    };
    Headline {
        convergence_millis,
        final_divergence,
        total_bytes,
        total_packets,
        p50_staleness_millis,
        p95_staleness_millis,
        max_lag: find_max_lag(samples),
        reconvergence_millis_after_heal,
        hot_convergence_millis,
        cold_convergence_millis,
        error_budget,
        min_emit_interval_ms,
    }
}

// -- samples ----------------------------------------------------------------

/// One column of some readings.
pub open spec fn column(
    readings: Seq<NodeReading>,
    field: spec_fn(NodeReading) -> u64,
) -> Seq<u64> {
    Seq::new(readings.len(), |i: int| field(readings[i]))
}

/// Reads the cluster. Totals by rule are of interest only if there are two
/// rules.
pub fn take_snapshot(
    t_millis: u64,
    readings: &Vec<NodeReading>,
    ground_truth: u64,
    ground_truth_hot: u64,
    ground_truth_cold: u64,
    is_two_rule: bool,
) -> (snapshot: TickSnapshot)
    ensures
        snapshot.t_millis == t_millis,
        snapshot.per_node_total@ == column(readings@, |r: NodeReading| r.total),
        snapshot.ground_truth_total == ground_truth,
        snapshot.bytes_sent_total == capped(
            sum_of(column(readings@, |r: NodeReading| r.bytes_sent)) as int,
        ),
        snapshot.packets_sent_total == capped(
            sum_of(column(readings@, |r: NodeReading| r.packets_sent)) as int,
        ),
        snapshot.threshold_fires_total == capped(
            sum_of(column(readings@, |r: NodeReading| r.threshold_fires)) as int,
        ),
        snapshot.ticks_total == capped(
            sum_of(column(readings@, |r: NodeReading| r.ticks)) as int,
        ),
        snapshot.dirty_ticks_total == capped(
            sum_of(column(readings@, |r: NodeReading| r.dirty_ticks)) as int,
        ),
        snapshot.per_node_hot_total@ == if is_two_rule {
            column(readings@, |r: NodeReading| r.hot_total)
        } else {
            Seq::empty()
        },
        snapshot.per_node_cold_total@ == if is_two_rule {
            column(readings@, |r: NodeReading| r.cold_total)
        } else {
            Seq::empty()
        },
        snapshot.ground_truth_hot_total == ground_truth_hot,
        snapshot.ground_truth_cold_total == ground_truth_cold,
{
    let ghost bytes = column(readings@, |r: NodeReading| r.bytes_sent);
    let ghost packets = column(readings@, |r: NodeReading| r.packets_sent);
    let ghost fires = column(readings@, |r: NodeReading| r.threshold_fires);
    let ghost ticks = column(readings@, |r: NodeReading| r.ticks);
    let ghost dirty = column(readings@, |r: NodeReading| r.dirty_ticks);
    let ghost totals = column(readings@, |r: NodeReading| r.total);
    let ghost hot = column(readings@, |r: NodeReading| r.hot_total);
    let ghost cold = column(readings@, |r: NodeReading| r.cold_total);
    let mut snapshot = TickSnapshot {
        t_millis,
        per_node_total: Vec::new(),
        ground_truth_total: ground_truth,
        bytes_sent_total: 0,
        packets_sent_total: 0,
        threshold_fires_total: 0,
        ticks_total: 0,
        dirty_ticks_total: 0,
        per_node_hot_total: Vec::new(),
        per_node_cold_total: Vec::new(),
        ground_truth_hot_total: ground_truth_hot,
        ground_truth_cold_total: ground_truth_cold,
    };
    let mut i: usize = 0;
    proof {
        assert(bytes.take(0) =~= Seq::<u64>::empty());
        assert(packets.take(0) =~= Seq::<u64>::empty());
        assert(fires.take(0) =~= Seq::<u64>::empty());
        assert(ticks.take(0) =~= Seq::<u64>::empty());
        assert(dirty.take(0) =~= Seq::<u64>::empty());
    }
    while i < readings.len()
        invariant
            i <= readings@.len(),
            bytes == column(readings@, |r: NodeReading| r.bytes_sent),
            packets == column(readings@, |r: NodeReading| r.packets_sent),
            fires == column(readings@, |r: NodeReading| r.threshold_fires),
            ticks == column(readings@, |r: NodeReading| r.ticks),
            dirty == column(readings@, |r: NodeReading| r.dirty_ticks),
            totals == column(readings@, |r: NodeReading| r.total),
            hot == column(readings@, |r: NodeReading| r.hot_total),
            cold == column(readings@, |r: NodeReading| r.cold_total),
            snapshot.t_millis == t_millis,
            snapshot.ground_truth_total == ground_truth,
            snapshot.ground_truth_hot_total == ground_truth_hot,
            snapshot.ground_truth_cold_total == ground_truth_cold,
            snapshot.per_node_total@ =~= totals.take(i as int),
            snapshot.bytes_sent_total == capped(sum_of(bytes.take(i as int)) as int),
            snapshot.packets_sent_total == capped(sum_of(packets.take(i as int)) as int),
            snapshot.threshold_fires_total == capped(sum_of(fires.take(i as int)) as int),
            snapshot.ticks_total == capped(sum_of(ticks.take(i as int)) as int),
            snapshot.dirty_ticks_total == capped(sum_of(dirty.take(i as int)) as int),
            snapshot.per_node_hot_total@ =~= if is_two_rule {
                hot.take(i as int)
            } else {
                Seq::empty()
            },
            snapshot.per_node_cold_total@ =~= if is_two_rule {
                cold.take(i as int)
            } else {
                Seq::empty()
            },
        decreases readings@.len() - i,
    {
        let reading = readings[i];
        snapshot.per_node_total.push(reading.total);
        if is_two_rule {
            snapshot.per_node_hot_total.push(reading.hot_total);
            snapshot.per_node_cold_total.push(reading.cold_total);
        }
        snapshot.bytes_sent_total =
        add_capped(
            snapshot.bytes_sent_total,
            reading.bytes_sent,
            Ghost(bytes),
            Ghost(i as int),
        );
        snapshot.packets_sent_total =
        add_capped(
            snapshot.packets_sent_total,
            reading.packets_sent,
            Ghost(packets),
            Ghost(i as int),
        );
        snapshot.threshold_fires_total =
        add_capped(
            snapshot.threshold_fires_total,
            reading.threshold_fires,
            Ghost(fires),
            Ghost(i as int),
        );
        snapshot.ticks_total =
        add_capped(snapshot.ticks_total, reading.ticks, Ghost(ticks), Ghost(i as int));
        snapshot.dirty_ticks_total =
        add_capped(snapshot.dirty_ticks_total, reading.dirty_ticks, Ghost(dirty), Ghost(i as int));
        i = i + 1;
    }
    proof {
        assert(bytes.take(i as int) =~= bytes);
        assert(packets.take(i as int) =~= packets);
        assert(fires.take(i as int) =~= fires);
        assert(ticks.take(i as int) =~= ticks);
        assert(dirty.take(i as int) =~= dirty);
        assert(totals.take(i as int) =~= totals);
        assert(hot.take(i as int) =~= hot);
        assert(cold.take(i as int) =~= cold);
    }
    snapshot
}

// -- laws -------------------------------------------------------------------

/// Once converged, no node lags and all nodes agree.
pub proof fn lemma_converged_agree(sample: SampleView)
    requires
        converged(sample),
        sample.totals.len() > 0,
    ensures
        lag(sample) == 0,
        largest(sample.totals) == smallest(sample.totals),
{
    lemma_all_same(sample.totals, sample.issued);
}

proof fn lemma_all_same(values: Seq<u64>, v: u64)
    requires
        values.len() > 0,
        forall|i: int| 0 <= i < values.len() ==> #[trigger] values[i] == v,
    ensures
        largest(values) == v,
        smallest(values) == v,
    decreases values.len(),
{
    assert(values.last() == v);
    if values.len() > 1 {
        let rest = values.drop_last();
        assert forall|i: int| 0 <= i < rest.len() implies #[trigger] rest[i] == v by {
            assert(rest[i] == values[i]);
        }
        lemma_all_same(rest, v);
    } else {
        assert(values[0] == v);
        assert(largest(values.drop_last()) == 0);
    }
}

// -- staleness --------------------------------------------------------------

/// A delay is measured between two samples: the first by which the level was
/// issued, and the first in which the node shows it. A level shown before it was
/// issued has no delay to speak of.
pub proof fn lemma_delay_measured(
    samples: Seq<SampleView>,
    node: int,
    level: u64,
    issued: int,
    seen: int,
)
    requires
        0 <= issued < samples.len(),
        samples[issued].issued >= level,
        forall|k: int| 0 <= k < issued ==> (#[trigger] samples[k]).issued < level,
        0 <= seen < samples.len(),
        0 <= node < samples[seen].totals.len(),
        samples[seen].totals[node] >= level,
        level > 0,
        forall|k: int|
            0 <= k < seen && node < (#[trigger] samples[k]).totals.len()
                ==> samples[k].totals[node] < level,
    ensures
        delay(samples, node, level) is Some,
        samples[issued].t_millis <= samples[seen].t_millis ==> samples[issued].t_millis + delay(
            samples,
            node,
            level,
        )->0 == samples[seen].t_millis,
        samples[seen].t_millis < samples[issued].t_millis ==> delay(samples, node, level)->0 == 0,
{
    lemma_first_where_at(samples, issued_by_then(level), issued);
    lemma_first_where_at(samples, seen_by_then(node, level), seen);
}

/// A node that never shows a level has no delay for it, and neither has any node
/// for a level that was never issued.
pub proof fn lemma_no_delay(samples: Seq<SampleView>, node: int, level: u64)
    requires
        level > 0,
        0 <= node,
        (forall|k: int| 0 <= k < samples.len() ==> (#[trigger] samples[k]).issued < level) || (
        forall|k: int|
            0 <= k < samples.len() && node < (#[trigger] samples[k]).totals.len()
                ==> samples[k].totals[node] < level),
    ensures
        delay(samples, node, level) is None,
{
    if forall|k: int| 0 <= k < samples.len() ==> (#[trigger] samples[k]).issued < level {
        lemma_first_where_none(samples, issued_by_then(level));
    } else {
        lemma_first_where_none(samples, seen_by_then(node, level));
    }
}

/// A node that shows a level in the sample in which it was first issued is not
/// stale at all, as long as samples are taken one after the other.
pub proof fn lemma_shown_at_once(samples: Seq<SampleView>, node: int, level: u64, i: int)
    requires
        level > 0,
        0 <= i < samples.len(),
        samples[i].issued >= level,
        forall|k: int| 0 <= k < i ==> (#[trigger] samples[k]).issued < level,
        0 <= node < samples[i].totals.len(),
        samples[i].totals[node] >= level,
        forall|j: int, k: int|
            0 <= j <= k < samples.len() ==> (#[trigger] samples[j]).t_millis <= (
            #[trigger] samples[k]).t_millis,
    ensures
        delay(samples, node, level) == Some(0u64),
{
    lemma_first_where_at(samples, issued_by_then(level), i);
    let p = seen_by_then(node, level);
    lemma_first_where(samples, p);
    assert(p(samples[i]));
}

/// The same samples, all taken later by as much.
pub open spec fn taken_later(samples: Seq<SampleView>, later: Seq<SampleView>, by: int) -> bool {
    &&& later.len() == samples.len()
    &&& forall|i: int|
        0 <= i < samples.len() ==> {
            &&& (#[trigger] later[i]).t_millis == samples[i].t_millis + by
            &&& later[i].totals == samples[i].totals
            &&& later[i].issued == samples[i].issued
        }
}

proof fn lemma_first_where_same(
    samples: Seq<SampleView>,
    later: Seq<SampleView>,
    p: spec_fn(SampleView) -> bool,
)
    requires
        later.len() == samples.len(),
        forall|i: int| 0 <= i < samples.len() ==> p(#[trigger] later[i]) == p(samples[i]),
    ensures
        first_where(later, p) == first_where(samples, p),
{
    lemma_first_where(samples, p);
    match first_where(samples, p) {
        Some(i) => {
            assert(p(later[i]));
            assert forall|j: int| 0 <= j < i implies !p(#[trigger] later[j]) by {
                assert(!p(samples[j]));
            }
            lemma_first_where_at(later, p, i);
        },
        None => {
            assert forall|j: int| 0 <= j < later.len() implies !p(#[trigger] later[j]) by {
                assert(!p(samples[j]));
            }
            lemma_first_where_none(later, p);
        },
    }
}

proof fn lemma_level_delays_shift(
    samples: Seq<SampleView>,
    later: Seq<SampleView>,
    by: int,
    level: u64,
    nodes: nat,
)
    requires
        taken_later(samples, later, by),
    ensures
        forall|node: int| delay(later, node, level) == #[trigger] delay(samples, node, level),
        level_delays(later, level, nodes) == level_delays(samples, level, nodes),
    decreases nodes,
{
    assert forall|node: int| delay(later, node, level) == #[trigger] delay(
        samples,
        node,
        level,
    ) by {
        lemma_first_where_same(samples, later, issued_by_then(level));
        lemma_first_where_same(samples, later, seen_by_then(node, level));
        lemma_first_where(samples, issued_by_then(level));
        lemma_first_where(samples, seen_by_then(node, level));
    }
    if nodes > 0 {
        lemma_level_delays_shift(samples, later, by, level, (nodes - 1) as nat);
        assert(delay(later, nodes - 1, level) == delay(samples, nodes - 1, level));
    }
}

proof fn lemma_delays_shift(
    samples: Seq<SampleView>,
    later: Seq<SampleView>,
    by: int,
    wanted: Seq<u64>,
    nodes: nat,
)
    requires
        taken_later(samples, later, by),
    ensures
        delays(later, wanted, nodes) == delays(samples, wanted, nodes),
    decreases wanted.len(),
{
    if wanted.len() > 0 {
        lemma_delays_shift(samples, later, by, wanted.drop_last(), nodes);
        lemma_level_delays_shift(samples, later, by, wanted.last(), nodes);
    }
}

proof fn lemma_levels_shift(samples: Seq<SampleView>, later: Seq<SampleView>, by: int)
    requires
        taken_later(samples, later, by),
    ensures
        levels(later) == levels(samples),
    decreases samples.len(),
{
    if samples.len() > 0 {
        let a = samples.drop_last();
        let b = later.drop_last();
        assert forall|i: int| 0 <= i < a.len() implies {
            &&& (#[trigger] b[i]).t_millis == a[i].t_millis + by
            &&& b[i].totals == a[i].totals
            &&& b[i].issued == a[i].issued
        } by {
            assert(b[i] == later[i]);
        }
        lemma_levels_shift(a, b, by);
        assert(later[later.len() - 1].issued == samples[samples.len() - 1].issued);
    }
}

/// Staleness is relative to when a level was issued: if all samples had been
/// taken later by as much, no delay would be another.
pub proof fn lemma_staleness_shift(samples: Seq<SampleView>, later: Seq<SampleView>, by: int)
    requires
        taken_later(samples, later, by),
    ensures
        forall|node: int, level: u64|
            delay(later, node, level) == #[trigger] delay(samples, node, level),
        all_delays(later) == all_delays(samples),
{
    assert forall|node: int, level: u64|
        delay(later, node, level) == #[trigger] delay(samples, node, level) by {
        lemma_level_delays_shift(samples, later, by, level, 0);
    }
    lemma_levels_shift(samples, later, by);
    if samples.len() > 0 {
        assert(later[0].totals == samples[0].totals);
        assert(later[later.len() - 1].issued == samples[samples.len() - 1].issued);
        lemma_delays_shift(samples, later, by, levels(samples), samples[0].totals.len());
    }
}

/// The levels are all totals but zero that were ever issued, each of them once.
pub proof fn lemma_levels_are_what_was_issued(samples: Seq<SampleView>)
    ensures
        levels(samples).no_duplicates(),
        forall|level: u64| #[trigger]
            levels(samples).contains(level) <==> level > 0 && exists|i: int|
                0 <= i < samples.len() && (#[trigger] samples[i]).issued == level,
    decreases samples.len(),
{
    if samples.len() > 0 {
        let front = samples.drop_last();
        let issued = samples.last().issued;
        lemma_levels_are_what_was_issued(front);
        let before = levels(front);
        let all = levels(samples);
        assert forall|level: u64| #[trigger]
            all.contains(level) <==> level > 0 && exists|i: int|
                0 <= i < samples.len() && (#[trigger] samples[i]).issued == level by {
            if all.contains(level) {
                let k = choose|k: int| 0 <= k < all.len() && all[k] == level;
                if k < before.len() {
                    assert(before[k] == level);
                    assert(before.contains(level));
                    let i = choose|i: int|
                        0 <= i < front.len() && (#[trigger] front[i]).issued == level;
                    assert(samples[i].issued == level);
                } else {
                    assert(samples[samples.len() - 1].issued == level);
                }
            }
            if level > 0 && exists|i: int|
                0 <= i < samples.len() && (#[trigger] samples[i]).issued == level {
                let i = choose|i: int|
                    0 <= i < samples.len() && (#[trigger] samples[i]).issued == level;
                if i < front.len() {
                    assert(front[i].issued == level);
                    assert(before.contains(level));
                } else {
                    assert(issued == level);
                }
                if before.contains(level) {
                    let k = choose|k: int| 0 <= k < before.len() && before[k] == level;
                    assert(all[k] == level);
                } else {
                    assert(all.last() == level);
                }
            }
        }
    }
}

/// The delays of a level are those of all nodes that have one.
pub proof fn lemma_level_delays_complete(samples: Seq<SampleView>, level: u64, nodes: nat)
    ensures
        level_delays(samples, level, nodes) == Seq::new(nodes, |node: int| node).filter_map(
            |node: int| delay(samples, node, level),
        ),
    decreases nodes,
{
    let all = Seq::new(nodes, |node: int| node);
    if nodes > 0 {
        lemma_level_delays_complete(samples, level, (nodes - 1) as nat);
        assert(all.drop_last() =~= Seq::new((nodes - 1) as nat, |node: int| node));
    }
}

proof fn lemma_delays_flatten(samples: Seq<SampleView>, wanted: Seq<u64>, nodes: nat)
    ensures
        delays(samples, wanted, nodes) == wanted.map_values(
            |level: u64| level_delays(samples, level, nodes),
        ).flatten_alt(),
    decreases wanted.len(),
{
    let f = |level: u64| level_delays(samples, level, nodes);
    if wanted.len() > 0 {
        lemma_delays_flatten(samples, wanted.drop_last(), nodes);
        assert(wanted.map_values(f).drop_last() =~= wanted.drop_last().map_values(f));
    }
}

/// Staleness is read from every delay of every node for every level, unless the
/// run ends with nothing issued.
pub proof fn lemma_delays_complete(samples: Seq<SampleView>)
    requires
        samples.len() > 0,
        samples.last().issued > 0,
    ensures
        all_delays(samples) == levels(samples).map_values(
            |level: u64|
                Seq::new(samples[0].totals.len(), |node: int| node).filter_map(
                    |node: int| delay(samples, node, level),
                ),
        ).flatten_alt(),
{
    let nodes = samples[0].totals.len();
    let f = |level: u64| level_delays(samples, level, nodes);
    let g = |level: u64|
        Seq::new(nodes, |node: int| node).filter_map(|node: int| delay(samples, node, level));
    lemma_delays_flatten(samples, levels(samples), nodes);
    assert(levels(samples).map_values(f) =~= levels(samples).map_values(g)) by {
        assert forall|i: int| 0 <= i < levels(samples).len() implies #[trigger] f(
            levels(samples)[i],
        ) == g(levels(samples)[i]) by {
            lemma_level_delays_complete(samples, levels(samples)[i], nodes);
        }
    }
}

proof fn lemma_below_filters(values: Seq<u64>, v: int)
    ensures
        below(values, v) == values.filter(|x: u64| x < v).len(),
    decreases values.len(),
{
    reveal(Seq::filter);
    if values.len() > 0 {
        lemma_below_filters(values.drop_last(), v);
    }
}

/// What stands at a place once the values are in order: no more values than the
/// place counts are less, and more than it counts are not greater. It is one of
/// the values.
pub proof fn lemma_rank_counts(values: Seq<u64>, rank: nat, v: u64)
    ensures
        at_rank(values, rank, v) <==> {
            &&& values.filter(|x: u64| x < v).len() <= rank
            &&& values.filter(|x: u64| x < v + 1).len() > rank
        },
{
    lemma_below_filters(values, v as int);
    lemma_below_filters(values, v + 1);
}

/// A quantile is at least as large as its share of the values, rounded down, and
/// that place is one of theirs.
pub proof fn lemma_quantile_place(len: nat, numerator: nat, denominator: nat)
    requires
        len > 0,
        numerator < denominator,
    ensures
        ({
            let rank = quantile_rank(len, numerator, denominator);
            &&& rank < len
            &&& rank * denominator <= len * numerator < (rank + 1) * denominator
        }),
{
    let place = (len * numerator) / denominator;
    assert(place < len && place * denominator <= len * numerator < (place + 1) * denominator)
        by (nonlinear_arith)
        requires
            len > 0,
            numerator < denominator,
            place == (len * numerator) / denominator,
    ;
}

// -- numbers ----------------------------------------------------------------

/// The largest of some values is one of them, and none is larger; the smallest
/// is one of them, and none is smaller.
pub proof fn lemma_extremes(values: Seq<u64>)
    requires
        values.len() > 0,
    ensures
        values.contains(largest(values)),
        values.contains(smallest(values)),
        forall|i: int|
            0 <= i < values.len() ==> smallest(values) <= #[trigger] values[i] <= largest(values),
    decreases values.len(),
{
    assert(values[values.len() - 1] == values.last());
    if values.len() > 1 {
        let rest = values.drop_last();
        lemma_extremes(rest);
        let a = choose|a: int| 0 <= a < rest.len() && rest[a] == largest(rest);
        let b = choose|b: int| 0 <= b < rest.len() && rest[b] == smallest(rest);
        assert(values[a] == largest(rest));
        assert(values[b] == smallest(rest));
        assert forall|i: int| 0 <= i < values.len() implies smallest(values)
            <= #[trigger] values[i] <= largest(values) by {
            if i < rest.len() {
                assert(rest[i] == values[i]);
            }
        }
    } else {
        assert(largest(values.drop_last()) == 0);
        assert(values[0] == largest(values));
        assert(values[0] == smallest(values));
    }
}

/// A sum is of all the numbers.
pub proof fn lemma_sum_of_all(values: Seq<u64>)
    ensures
        sum_of(values) == values.fold_left(0int, |a: int, v: u64| a + v),
    decreases values.len(),
{
    if values.len() > 0 {
        lemma_sum_of_all(values.drop_last());
    }
}

/// How far the cluster lags is how far its last node does: no node lags further,
/// and one lags as far, unless all have what was issued.
pub proof fn lemma_lag_of_last_node(sample: SampleView)
    requires
        sample.totals.len() > 0,
    ensures
        forall|i: int|
            0 <= i < sample.totals.len() ==> #[trigger] sample.totals[i] + lag(sample)
                >= sample.issued,
        lag(sample) > 0 ==> exists|i: int|
            0 <= i < sample.totals.len() && #[trigger] sample.totals[i] + lag(sample)
                == sample.issued,
{
    lemma_extremes(sample.totals);
    let i = choose|i: int|
        0 <= i < sample.totals.len() && sample.totals[i] == smallest(sample.totals);
    assert(sample.totals[i] == smallest(sample.totals));
}

/// What a headline says of the last sample and of the worst one: all nodes are
/// within the divergence of each other, two of them as far apart; and no node in
/// any sample lagged further than the largest lag, though one did as far unless
/// none ever did.
pub proof fn lemma_headline_extremes(
    headline: Headline,
    scenario: ScenarioView,
    samples: Seq<SampleView>,
    bytes: Seq<u64>,
    packets: Seq<u64>,
)
    requires
        headline_of(headline, scenario, samples, bytes, packets),
        samples.len() > 0,
        forall|k: int| 0 <= k < samples.len() ==> (#[trigger] samples[k]).totals.len() > 0,
    ensures
        ({
            let totals = samples.last().totals;
            &&& forall|i: int, j: int|
                0 <= i < totals.len() && 0 <= j < totals.len() ==> #[trigger] totals[i]
                    - #[trigger] totals[j] <= headline.final_divergence
            &&& exists|i: int, j: int|
                0 <= i < totals.len() && 0 <= j < totals.len() && #[trigger] totals[i]
                    - #[trigger] totals[j] == headline.final_divergence
        }),
        forall|k: int, i: int|
            0 <= k < samples.len() && 0 <= i < samples[k].totals.len()
                ==> #[trigger] samples[k].totals[i] + headline.max_lag >= samples[k].issued,
        headline.max_lag > 0 ==> exists|k: int, i: int|
            0 <= k < samples.len() && 0 <= i < samples[k].totals.len()
                && #[trigger] samples[k].totals[i] + headline.max_lag == samples[k].issued,
{
    let last = samples[samples.len() - 1];
    lemma_extremes(last.totals);
    let a = choose|a: int| 0 <= a < last.totals.len() && last.totals[a] == largest(last.totals);
    let b = choose|b: int| 0 <= b < last.totals.len() && last.totals[b] == smallest(last.totals);
    assert(last.totals[a] - last.totals[b] == headline.final_divergence);
    lemma_extremes(lags(samples));
    assert forall|k: int, i: int|
        0 <= k < samples.len() && 0 <= i < samples[k].totals.len() implies #[trigger] samples[
        k].totals[i] + headline.max_lag >= samples[k].issued by {
        lemma_lag_of_last_node(samples[k]);
        assert(lags(samples)[k] == lag(samples[k]));
    }
    if headline.max_lag > 0 {
        let k = choose|k: int| 0 <= k < samples.len() && lags(samples)[k] == headline.max_lag;
        assert(lags(samples)[k] == lag(samples[k]));
        assert(samples[k].totals.len() > 0);
        lemma_lag_of_last_node(samples[k]);
        let i = choose|i: int|
            0 <= i < samples[k].totals.len() && #[trigger] samples[k].totals[i] + lag(samples[k])
                == samples[k].issued;
        assert(samples[k].totals[i] + headline.max_lag == samples[k].issued);
    }
}

/// What a headline says was sent is what all nodes sent together, as far as 64
/// bits hold it.
pub proof fn lemma_headline_sums(
    headline: Headline,
    scenario: ScenarioView,
    samples: Seq<SampleView>,
    bytes: Seq<u64>,
    packets: Seq<u64>,
)
    requires
        headline_of(headline, scenario, samples, bytes, packets),
    ensures
        headline.total_bytes == vstd::math::min(
            bytes.fold_left(0int, |a: int, v: u64| a + v),
            u64::MAX as int,
        ),
        headline.total_packets == vstd::math::min(
            packets.fold_left(0int, |a: int, v: u64| a + v),
            u64::MAX as int,
        ),
{
    lemma_sum_of_all(bytes);
    lemma_sum_of_all(packets);
}

/// Whether in a sample something was issued and all nodes count it, and nothing
/// else.
pub open spec fn agrees(sample: SampleView) -> bool {
    &&& sample.issued > 0
    &&& forall|i: int| 0 <= i < sample.totals.len() ==> #[trigger] sample.totals[i] == sample.issued
}

/// A run has converged by the first sample in which all nodes agree with what
/// was issued. How long that took counts from when its workload first wrote; for
/// one that writes once, that is when it does. After the network was healed it
/// counts from then, and earlier samples do not matter.
pub proof fn lemma_headline_convergence(
    headline: Headline,
    scenario: ScenarioView,
    samples: Seq<SampleView>,
    bytes: Seq<u64>,
    packets: Seq<u64>,
    i: int,
)
    requires
        headline_of(headline, scenario, samples, bytes, packets),
        0 <= i < samples.len(),
        agrees(samples[i]),
    ensures
        headline.convergence_millis is Some,
        (forall|j: int| 0 <= j < i ==> !agrees(#[trigger] samples[j])) ==> match scenario.workload {
            WorkloadView::SingleWrite { at, .. } => at <= samples[i].t_millis * 1_000_000
                ==> at / 1_000_000 + headline.convergence_millis->0 == samples[i].t_millis,
            WorkloadView::BurstCompressed { at, .. } => at <= samples[i].t_millis * 1_000_000
                ==> at / 1_000_000 + headline.convergence_millis->0 == samples[i].t_millis,
            WorkloadView::DistinctKeyBurst { at, .. } => at <= samples[i].t_millis * 1_000_000
                ==> at / 1_000_000 + headline.convergence_millis->0 == samples[i].t_millis,
            _ => headline.convergence_millis->0 == samples[i].t_millis,
        },
        scenario.kind == ScenarioKind::Partition && scenario.schedule.len() > 0 ==> {
            let healed = scenario.schedule[0].0 / 1_000_000;
            samples[i].t_millis >= healed ==> {
                &&& headline.reconvergence_millis_after_heal is Some
                &&& (forall|j: int|
                    0 <= j < i && (#[trigger] samples[j]).t_millis >= healed ==> !agrees(
                        samples[j],
                    )) ==> healed + headline.reconvergence_millis_after_heal->0
                    == samples[i].t_millis
            }
        },
{
    let p = converged_from(0);
    lemma_first_where(samples, p);
    assert(p(samples[i]));
    if forall|j: int| 0 <= j < i ==> !agrees(#[trigger] samples[j]) {
        assert forall|j: int| 0 <= j < i implies !p(#[trigger] samples[j]) by {
            assert(!agrees(samples[j]));
        }
        lemma_first_where_at(samples, p, i);
    }
    if scenario.kind == ScenarioKind::Partition && scenario.schedule.len() > 0 {
        let healed = scenario.schedule[0].0 / 1_000_000;
        let q = converged_from(healed);
        lemma_first_where(samples, q);
        if samples[i].t_millis >= healed {
            assert(q(samples[i]));
            if forall|j: int|
                0 <= j < i && (#[trigger] samples[j]).t_millis >= healed ==> !agrees(samples[j]) {
                assert forall|j: int| 0 <= j < i implies !q(#[trigger] samples[j]) by {}
                lemma_first_where_at(samples, q, i);
            }
        }
    }
}

/// A run in which the nodes never agree with what was issued has not converged,
/// neither at all nor after it was healed.
pub proof fn lemma_headline_never_converged(
    headline: Headline,
    scenario: ScenarioView,
    samples: Seq<SampleView>,
    bytes: Seq<u64>,
    packets: Seq<u64>,
)
    requires
        headline_of(headline, scenario, samples, bytes, packets),
        forall|j: int| 0 <= j < samples.len() ==> !agrees(#[trigger] samples[j]),
    ensures
        headline.convergence_millis is None,
        headline.reconvergence_millis_after_heal is None,
{
    lemma_first_where(samples, converged_from(0));
    lemma_first_where(samples, converged_from((scenario.schedule[0].0 / MILLI) as u64));
}

/// With two rules, each has converged by the first sample in which every node
/// counts what was issued for that rule, or more; with one, neither is of
/// interest.
pub proof fn lemma_headline_two_rules(
    headline: Headline,
    scenario: ScenarioView,
    samples: Seq<SampleView>,
    bytes: Seq<u64>,
    packets: Seq<u64>,
)
    requires
        headline_of(headline, scenario, samples, bytes, packets),
    ensures
        scenario.kind != ScenarioKind::HeartbeatThresholdMix ==> headline.hot_convergence_millis
            is None && headline.cold_convergence_millis is None,
        scenario.kind == ScenarioKind::HeartbeatThresholdMix ==> {
            &&& match headline.hot_convergence_millis {
                Some(t) => exists|i: int|
                    {
                        &&& 0 <= i < samples.len() && (#[trigger] samples[i]).t_millis == t
                        &&& samples[i].hot_issued > 0
                        &&& forall|n: int|
                            0 <= n < samples[i].hot_totals.len()
                                ==> #[trigger] samples[i].hot_totals[n] >= samples[i].hot_issued
                    },
                None => forall|i: int|
                    0 <= i < samples.len() && (#[trigger] samples[i]).hot_issued > 0
                        ==> exists|n: int|
                        0 <= n < samples[i].hot_totals.len() && #[trigger] samples[i].hot_totals[n]
                            < samples[i].hot_issued,
            }
            &&& match headline.cold_convergence_millis {
                Some(t) => exists|i: int|
                    {
                        &&& 0 <= i < samples.len() && (#[trigger] samples[i]).t_millis == t
                        &&& samples[i].cold_issued > 0
                        &&& forall|n: int|
                            0 <= n < samples[i].cold_totals.len()
                                ==> #[trigger] samples[i].cold_totals[n] >= samples[i].cold_issued
                    },
                None => forall|i: int|
                    0 <= i < samples.len() && (#[trigger] samples[i]).cold_issued > 0
                        ==> exists|n: int|
                        0 <= n < samples[i].cold_totals.len()
                            && #[trigger] samples[i].cold_totals[n] < samples[i].cold_issued,
            }
        },
{
    lemma_first_where(samples, hot_caught_up());
    lemma_first_where(samples, cold_caught_up());
}

/// An error budget allows a lag of as many hits as its share of the limit, in
/// basis points and rounded down, or of one hit per node where that is more.
pub proof fn lemma_budget_share(scenario: ScenarioView, limit: u64, bps: u32)
    requires
        scenario.target_err_bps == Some(bps),
        scenario.workload matches WorkloadView::Sustained { rule_limit: Some(l), .. } && l == limit,
    ensures
        allowed_lag(scenario) >= scenario.nodes,
        allowed_lag(scenario) * 10_000 > limit * bps - 10_000,
        allowed_lag(scenario) > scenario.nodes ==> allowed_lag(scenario) * 10_000 <= limit * bps,
{
}

/// A quantile is one of the values: no more of them are less than it than its share
/// of them all, and more than that are not greater. Of no values there is none.
pub proof fn lemma_quantile_splits(
    values: Seq<u64>,
    numerator: nat,
    denominator: nat,
    q: Option<u64>,
)
    requires
        is_quantile(values, numerator, denominator, q),
        numerator < denominator,
    ensures
        q is None <==> values.len() == 0,
        q matches Some(v) ==> {
            &&& values.contains(v)
            &&& values.filter(|x: u64| x < v).len() * denominator <= values.len() * numerator
            &&& values.len() * numerator < values.filter(|x: u64| x < v + 1).len() * denominator
        },
{
    if let Some(v) = q {
        let rank = quantile_rank(values.len(), numerator, denominator);
        lemma_rank_counts(values, rank, v);
        lemma_rank_unique(values, rank, v, v);
        lemma_quantile_place(values.len(), numerator, denominator);
        let less = values.filter(|x: u64| x < v).len();
        let not_more = values.filter(|x: u64| x < v + 1).len();
        assert(less * denominator <= rank * denominator) by (nonlinear_arith)
            requires
                less <= rank,
        ;
        assert((rank + 1) * denominator <= not_more * denominator) by (nonlinear_arith)
            requires
                rank + 1 <= not_more,
        ;
    }
}

/// The median and the delay that all but one in twenty keep to are quantiles of all
/// delays.
pub proof fn lemma_headline_staleness(
    headline: Headline,
    scenario: ScenarioView,
    samples: Seq<SampleView>,
    bytes: Seq<u64>,
    packets: Seq<u64>,
)
    requires
        headline_of(headline, scenario, samples, bytes, packets),
    ensures
        ({
            let all = all_delays(samples);
            &&& headline.p50_staleness_millis matches Some(v) ==> {
                &&& all.contains(v)
                &&& all.filter(|x: u64| x < v).len() * 2 <= all.len()
                &&& all.len() < all.filter(|x: u64| x < v + 1).len() * 2
            }
            &&& headline.p95_staleness_millis matches Some(v) ==> {
                &&& all.contains(v)
                &&& all.filter(|x: u64| x < v).len() * 20 <= all.len() * 19
                &&& all.len() * 19 < all.filter(|x: u64| x < v + 1).len() * 20
            }
            &&& headline.p50_staleness_millis is None <==> all.len() == 0
            &&& headline.p95_staleness_millis is None <==> all.len() == 0
        }),
{
    lemma_quantile_splits(all_delays(samples), 1, 2, headline.p50_staleness_millis);
    lemma_quantile_splits(all_delays(samples), 19, 20, headline.p95_staleness_millis);
}

/// A headline speaks of an error budget, or of a floor on emits, only where the
/// scenario is about one, and then says what the scenario does.
pub proof fn lemma_headline_settings(
    headline: Headline,
    scenario: ScenarioView,
    samples: Seq<SampleView>,
    bytes: Seq<u64>,
    packets: Seq<u64>,
)
    requires
        headline_of(headline, scenario, samples, bytes, packets),
    ensures
        headline.error_budget is Some <==> scenario.kind == ScenarioKind::ErrorBudget,
        headline.error_budget matches Some(budget) ==> {
            &&& scenario.target_err_bps matches Some(bps) ==> budget.target_err_bps == bps
            &&& scenario.target_err_bps is None ==> budget.target_err_bps == 100
            &&& scenario.workload matches WorkloadView::Sustained { rule_limit: Some(limit), .. }
                ==> budget.rule_limit == limit
            &&& !(scenario.workload is Sustained) ==> budget.rule_limit == 1_000_000
        },
        scenario.kind != ScenarioKind::MinEmitClamp ==> headline.min_emit_interval_ms is None,
        scenario.kind == ScenarioKind::MinEmitClamp ==> match scenario.min_emit_interval {
            Some(interval) => headline.min_emit_interval_ms == Some((interval / 1_000_000) as u64),
            None => headline.min_emit_interval_ms is None,
        },
        samples.len() == 0 ==> headline.final_divergence == 0 && headline.max_lag == 0
            && headline.convergence_millis is None,
{
    lemma_first_where(samples, converged_from(0));
}

} // verus!
