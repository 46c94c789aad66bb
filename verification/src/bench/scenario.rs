//! What to run.

use crate::text::same_text;
use vstd::prelude::*;

verus! {

/// One experiment.
#[derive(Debug)]
pub struct Scenario {
    pub name: String,
    pub nodes: usize,
    pub fanout: usize,
    pub tick_interval: u64,
    pub duration: u64,
    pub sample_interval: u64,
    pub network: NetworkModel,
    pub workload: Workload,
    pub kind: ScenarioKind,
    pub seed: u64,
    pub cell_capacity: u32,
    pub max_cells_per_tick: usize,
    /// Error budget of each rule, if not the usual one.
    pub target_err_bps: Option<u32>,
    /// Least time between two emits for the same rule, if not the usual one.
    pub min_emit_interval: Option<u64>,
}

/// Seed of a scenario that names none.
pub const DEFAULT_SEED: u64 = 0x9E37_79B9_7F4A_7C15;

/// Cells per node of a scenario that names none.
pub const DEFAULT_CELL_CAPACITY: u32 = 256;

/// Cells per tick of a scenario that names none.
pub const DEFAULT_MAX_CELLS_PER_TICK: usize = 256;

/// What a scenario is about.
#[derive(Clone, Copy, Debug, PartialEq, Eq, Structural)]
pub enum ScenarioKind {
    /// How long until every node has the same total.
    Convergence,
    /// Bytes and packets per node and second.
    NetworkCost,
    /// Convergence when packets are lost.
    LossTolerance,
    /// Convergence once a split has healed.
    Partition,
    /// How far nodes lag behind sustained writes.
    Staleness,
    /// Convergence by cluster size.
    ScaleN,
    /// How many peers a tick sends to: as many as it takes to cover a cluster of
    /// that size, however much there is to tell.
    CoverageFanout,
    /// Lag and cost by error budget.
    ErrorBudget,
    /// How often a flood of writes makes a node emit.
    MinEmitClamp,
    /// A hot rule and a cold one side by side.
    HeartbeatThresholdMix,
}

/// What the network does. Links go from node to node, by number.
#[derive(Debug)]
pub struct NetworkModel {
    /// What every link does.
    pub uniform_loss: LinkAction,
    /// Links that do something else.
    pub links: Vec<LinkModel>,
    /// Changes during the run, in order.
    pub schedule: Vec<ScheduledNetworkChange>,
}

#[derive(Clone, Copy, Debug, PartialEq, Eq, Structural)]
pub struct LinkModel {
    pub from: usize,
    pub to: usize,
    pub action: LinkAction,
}

#[derive(Clone, Copy, Debug, PartialEq, Eq, Structural)]
pub enum LinkAction {
    Pass,
    Block,
    /// The first `count` packets are lost.
    DropFirst { count: u32 },
    /// Each packet is lost if its sample lies under `threshold`.
    DropProb { threshold: u32 },
}

#[derive(Debug)]
pub struct ScheduledNetworkChange {
    pub at: u64,
    pub apply: Vec<LinkModel>,
}

/// What is written where, and when.
#[derive(Debug)]
pub enum Workload {
    /// One write.
    SingleWrite { node: usize, hits: u64, at: u64 },
    /// Writes at each source in every window.
    Sustained { sources: Vec<usize>, per_tick: u64, rule_limit: Option<u64> },
    /// A burst at every multiple of the interval.
    Burst { node: usize, per_burst: u64, interval: u64 },
    /// Writes spread over a span, a millisecond apart.
    BurstCompressed { node: usize, hits: u64, at: u64, burst_span: u64 },
    /// Writes to that many keys at once. How many peers a tick sends to does not
    /// depend on it.
    DistinctKeyBurst { node: usize, cells: u32, at: u64 },
    /// A hot rule in every window, and a cold one at every multiple of an
    /// interval.
    TwoRule {
        hot_node: usize,
        hot_per_tick: u64,
        hot_limit: u64,
        cold_node: usize,
        cold_per_interval: u64,
        cold_interval: u64,
        cold_limit: u64,
    },
}

/// A workload as contracts speak of it.
#[verifier::ext_equal]
pub enum WorkloadView {
    SingleWrite { node: usize, hits: u64, at: u64 },
    Sustained { sources: Seq<usize>, per_tick: u64, rule_limit: Option<u64> },
    Burst { node: usize, per_burst: u64, interval: u64 },
    BurstCompressed { node: usize, hits: u64, at: u64, burst_span: u64 },
    DistinctKeyBurst { node: usize, cells: u32, at: u64 },
    TwoRule {
        hot_node: usize,
        hot_per_tick: u64,
        hot_limit: u64,
        cold_node: usize,
        cold_per_interval: u64,
        cold_interval: u64,
        cold_limit: u64,
    },
}

impl Workload {
    pub open spec fn view(&self) -> WorkloadView {
        match *self {
            Workload::SingleWrite { node, hits, at } => WorkloadView::SingleWrite {
                node,
                hits,
                at,
            },
            Workload::Sustained { sources, per_tick, rule_limit } => WorkloadView::Sustained {
                sources: sources@,
                per_tick,
                rule_limit,
            },
            Workload::Burst { node, per_burst, interval } => WorkloadView::Burst {
                node,
                per_burst,
                interval,
            },
            Workload::BurstCompressed { node, hits, at, burst_span } => {
                WorkloadView::BurstCompressed { node, hits, at, burst_span }
            },
            Workload::DistinctKeyBurst { node, cells, at } => WorkloadView::DistinctKeyBurst {
                node,
                cells,
                at,
            },
            Workload::TwoRule {
                hot_node,
                hot_per_tick,
                hot_limit,
                cold_node,
                cold_per_interval,
                cold_interval,
                cold_limit,
            } => WorkloadView::TwoRule {
                hot_node,
                hot_per_tick,
                hot_limit,
                cold_node,
                cold_per_interval,
                cold_interval,
                cold_limit,
            },
        }
    }
}

/// A change as contracts speak of it: when, and to which links.
pub type ChangeView = (u64, Seq<LinkModel>);

/// A scenario as contracts speak of it.
#[verifier::ext_equal]
pub struct ScenarioView {
    pub name: Seq<char>,
    pub nodes: usize,
    pub fanout: usize,
    pub tick_interval: u64,
    pub duration: u64,
    pub sample_interval: u64,
    pub uniform_loss: LinkAction,
    pub links: Seq<LinkModel>,
    pub schedule: Seq<ChangeView>,
    pub workload: WorkloadView,
    pub kind: ScenarioKind,
    pub seed: u64,
    pub cell_capacity: u32,
    pub max_cells_per_tick: usize,
    pub target_err_bps: Option<u32>,
    pub min_emit_interval: Option<u64>,
}

pub open spec fn schedule_view(schedule: Seq<ScheduledNetworkChange>) -> Seq<ChangeView> {
    Seq::new(schedule.len(), |i: int| (schedule[i].at, schedule[i].apply@))
}

impl Scenario {
    pub open spec fn view(&self) -> ScenarioView {
        ScenarioView {
            name: self.name@,
            nodes: self.nodes,
            fanout: self.fanout,
            tick_interval: self.tick_interval,
            duration: self.duration,
            sample_interval: self.sample_interval,
            uniform_loss: self.network.uniform_loss,
            links: self.network.links@,
            schedule: schedule_view(self.network.schedule@),
            workload: self.workload@,
            kind: self.kind,
            seed: self.seed,
            cell_capacity: self.cell_capacity,
            max_cells_per_tick: self.max_cells_per_tick,
            target_err_bps: self.target_err_bps,
            min_emit_interval: self.min_emit_interval,
        }
    }
}

// -- examples ---------------------------------------------------------------

/// A millisecond.
pub const MILLI: u64 = 1_000_000;

/// The plain example: one write, eight nodes.
pub open spec fn base_example() -> ScenarioView {
    ScenarioView {
        name: "example"@,
        nodes: 8,
        fanout: 3,
        tick_interval: 100_000_000,
        duration: 5_000_000_000,
        sample_interval: 100_000_000,
        uniform_loss: LinkAction::Pass,
        links: Seq::empty(),
        schedule: Seq::empty(),
        workload: WorkloadView::SingleWrite { node: 0, hits: 10, at: 100_000_000 },
        kind: ScenarioKind::Convergence,
        seed: 0xDEAD_BEEF,
        cell_capacity: 256,
        max_cells_per_tick: 256,
        target_err_bps: None,
        min_emit_interval: None,
    }
}

/// Links between nodes 0 to 2 on one side and 3 to 5 on the other, both ways.
pub open spec fn split_links(action: LinkAction) -> Seq<LinkModel> {
    Seq::new(
        18,
        |i: int|
            {
                let near = ((i / 2) / 3) as usize;
                let far = (3 + (i / 2) % 3) as usize;
                if i % 2 == 0 {
                    LinkModel { from: near, to: far, action }
                } else {
                    LinkModel { from: far, to: near, action }
                }
            },
    )
}

/// The example of a kind, if there is one.
pub open spec fn example_of(kind: Seq<char>) -> Option<ScenarioView> {
    let base = base_example();
    if kind == "convergence"@ {
        Some(base)
    } else if kind == "loss"@ {
        Some(
            ScenarioView {
                name: "loss_30pct"@,
                uniform_loss: LinkAction::DropProb { threshold: 1_288_490_188 },
                kind: ScenarioKind::LossTolerance,
                duration: 10_000_000_000,
                ..base
            },
        )
    } else if kind == "partition"@ {
        Some(
            ScenarioView {
                name: "partition_then_heal"@,
                nodes: 6,
                kind: ScenarioKind::Partition,
                duration: 20_000_000_000,
                links: split_links(LinkAction::Block),
                schedule: seq![(10_000_000_000u64, split_links(LinkAction::Pass))],
                ..base
            },
        )
    } else if kind == "sustained"@ {
        Some(
            ScenarioView {
                name: "sustained_4_sources"@,
                kind: ScenarioKind::Staleness,
                workload: WorkloadView::Sustained {
                    sources: seq![0usize, 1usize, 2usize, 3usize],
                    per_tick: 1,
                    rule_limit: None,
                },
                duration: 10_000_000_000,
                ..base
            },
        )
    } else if kind == "scale_n"@ {
        Some(
            ScenarioView {
                name: "scale_n_32"@,
                kind: ScenarioKind::ScaleN,
                nodes: 32,
                duration: 10_000_000_000,
                ..base
            },
        )
    } else if kind == "fanout_sweep"@ {
        Some(ScenarioView { name: "fanout_5"@, fanout: 5, ..base })
    } else {
        None
    }
}

/// Three packets in ten: the sample threshold of that loss.
pub const LOSS_30_PCT: u32 = 1_288_490_188;

fn make_split(action: LinkAction) -> (links: Vec<LinkModel>)
    ensures
        links@ == split_links(action),
{
    let mut links: Vec<LinkModel> = Vec::new();
    let mut near: usize = 0;
    while near < 3
        invariant
            near <= 3,
            links@ =~= split_links(action).take(6 * near),
        decreases 3 - near,
    {
        let mut far: usize = 3;
        while far < 6
            invariant
                near < 3,
                3 <= far <= 6,
                links@ =~= split_links(action).take(6 * near + 2 * (far - 3)),
            decreases 6 - far,
        {
            let ghost at = 6 * near + 2 * (far - 3);
            assert(at / 2 == 3 * near + (far - 3));
            assert((at / 2) / 3 == near && (at / 2) % 3 == far - 3);
            assert((at + 1) / 2 == at / 2);
            links.push(LinkModel { from: near, to: far, action });
            links.push(LinkModel { from: far, to: near, action });
            far = far + 1;
        }
        near = near + 1;
    }
    assert(links@ =~= split_links(action));
    links
}

/// A scenario to start from.
pub fn example_scenario(kind: &str) -> (scenario: Option<Scenario>)
    ensures
        match example_of(kind@) {
            Some(example) => scenario is Some && scenario->0@ == example,
            None => scenario is None,
        },
{
    proof {
        reveal_strlit("convergence");
        reveal_strlit("loss");
        reveal_strlit("partition");
        reveal_strlit("sustained");
        reveal_strlit("scale_n");
        reveal_strlit("fanout_sweep");
    }
    let mut base = Scenario {
        name: "example".to_owned(),
        nodes: 8,
        fanout: 3,
        tick_interval: 100_000_000,
        duration: 5_000_000_000,
        sample_interval: 100_000_000,
        network: NetworkModel {
            uniform_loss: LinkAction::Pass,
            links: Vec::new(),
            schedule: Vec::new(),
        },
        workload: Workload::SingleWrite { node: 0, hits: 10, at: 100_000_000 },
        kind: ScenarioKind::Convergence,
        seed: 0xDEAD_BEEF,
        cell_capacity: 256,
        max_cells_per_tick: 256,
        target_err_bps: None,
        min_emit_interval: None,
    };
    assert(base@ =~= base_example());
    if same_text(kind, "convergence") {
    } else if same_text(kind, "loss") {
        base.name = "loss_30pct".to_owned();
        base.network.uniform_loss = LinkAction::DropProb { threshold: LOSS_30_PCT };
        base.kind = ScenarioKind::LossTolerance;
        base.duration = 10_000_000_000;
    } else if same_text(kind, "partition") {
        base.name = "partition_then_heal".to_owned();
        base.nodes = 6;
        base.kind = ScenarioKind::Partition;
        base.duration = 20_000_000_000;
        base.network.links = make_split(LinkAction::Block);
        base.network.schedule.push(
            ScheduledNetworkChange {
                at: 10_000_000_000,
                apply: make_split(LinkAction::Pass),
            },
        );
        assert(base@.schedule =~= seq![(10_000_000_000u64, split_links(LinkAction::Pass))]);
    } else if same_text(kind, "sustained") {
        base.name = "sustained_4_sources".to_owned();
        base.kind = ScenarioKind::Staleness;
        let sources: Vec<usize> = vec![0, 1, 2, 3];
        assert(sources@ =~= seq![0usize, 1usize, 2usize, 3usize]);
        base.workload = Workload::Sustained { sources, per_tick: 1, rule_limit: None };
        base.duration = 10_000_000_000;
    } else if same_text(kind, "scale_n") {
        base.name = "scale_n_32".to_owned();
        base.kind = ScenarioKind::ScaleN;
        base.nodes = 32;
        base.duration = 10_000_000_000;
    } else if same_text(kind, "fanout_sweep") {
        base.name = "fanout_5".to_owned();
        base.fanout = 5;
    } else {
        return None;
    }
    assert(example_of(kind@) is Some && base@ =~= example_of(kind@)->0);
    Some(base)
}

} // verus!
