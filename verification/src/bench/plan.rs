//! How a scenario is set up and stepped through.

use crate::bench::scenario::{
    schedule_view, ChangeView, LinkAction, LinkModel, Scenario, ScenarioView,
    ScheduledNetworkChange, Workload, MILLI,
};
use crate::bench::workload::spaced;
use crate::crdt::{CellStoreConfig, NodeId, NodeIdentity};
use crate::discovery::{PeerAddr, PeerIp};
use crate::gossip::node::GossipConfig;
use crate::gossip::sim::{folded, link_seed, LinkPolicy, SimRouter, SimState, FNV_OFFSET};
use crate::wire::FrameLimits;
use vstd::prelude::*;

verus! {

/// Port of the first node; the others follow.
pub const BASE_PORT: u16 = 40_000;

/// As many nodes as there are ports.
pub const MAX_NODES: usize = 25_536;

/// Packets that an inbox holds.
pub const INBOX_CAPACITY: usize = 256;

/// Hash that all nodes of a run share.
pub const CLUSTER_ID_HASH: u128 = 0xC1;

/// Usual error budget, in hundredths of a percent.
pub const TARGET_ERR_BPS: u32 = 100;

/// Usual least time between two emits.
pub const MIN_EMIT_INTERVAL_MILLIS: u64 = 5;

// -- what can be run --------------------------------------------------------

/// Why a scenario cannot be run.
#[derive(Clone, Copy, Debug, PartialEq, Eq, Structural)]
pub enum ScenarioError {
    /// A cluster has at least two nodes.
    TooFewNodes,
    /// There are not that many ports.
    TooManyNodes,
    /// Time would stand still.
    NoTick,
    /// Bursts at no distance have no end.
    NotSpaced,
    /// A link ends nowhere.
    LinkOutOfRange,
}

pub open spec fn links_fit(links: Seq<LinkModel>, nodes: usize) -> bool {
    forall|i: int|
        0 <= i < links.len() ==> (#[trigger] links[i]).from < nodes && links[i].to < nodes
}

/// How many changes a run makes: none if it is over at once, else all up to the
/// first that is not due at its end.
pub open spec fn reached(scenario: ScenarioView) -> nat {
    if scenario.duration == 0 {
        0
    } else {
        changes_until(scenario.schedule, 0, scenario.duration)
    }
}

/// Whether the first `reached` changes lead somewhere.
pub open spec fn schedule_fits(schedule: Seq<ChangeView>, reached: nat, nodes: usize) -> bool {
    forall|i: int| 0 <= i < reached ==> links_fit((#[trigger] schedule[i]).1, nodes)
}

/// What is wrong with a scenario, if anything. Changes that the run does not
/// come to do not matter.
pub open spec fn fault(scenario: ScenarioView) -> Option<ScenarioError> {
    if scenario.nodes < 2 {
        Some(ScenarioError::TooFewNodes)
    } else if scenario.nodes > MAX_NODES {
        Some(ScenarioError::TooManyNodes)
    } else if scenario.tick_interval == 0 {
        Some(ScenarioError::NoTick)
    } else if scenario.duration > 0 && !spaced(scenario.workload) {
        Some(ScenarioError::NotSpaced)
    } else if !links_fit(scenario.links, scenario.nodes) || !schedule_fits(
        scenario.schedule,
        reached(scenario),
        scenario.nodes,
    ) {
        Some(ScenarioError::LinkOutOfRange)
    } else {
        None
    }
}

fn all_links_fit(links: &Vec<LinkModel>, nodes: usize) -> (fit: bool)
    ensures
        fit == links_fit(links@, nodes),
{
    let mut i: usize = 0;
    while i < links.len()
        invariant
            i <= links@.len(),
            forall|j: int|
                0 <= j < i ==> (#[trigger] links@[j]).from < nodes && links@[j].to < nodes,
        decreases links@.len() - i,
    {
        if links[i].from >= nodes || links[i].to >= nodes {
            assert(!(links@[i as int].from < nodes && links@[i as int].to < nodes));
            return false;
        }
        i = i + 1;
    }
    true
}

/// Whether a scenario can be run.
pub fn check_scenario(scenario: &Scenario) -> (checked: Result<(), ScenarioError>)
    ensures
        match fault(scenario@) {
            None => checked is Ok,
            Some(e) => checked == Err::<(), ScenarioError>(e),
        },
{
    if scenario.nodes < 2 {
        return Err(ScenarioError::TooFewNodes);
    }
    if scenario.nodes > MAX_NODES {
        return Err(ScenarioError::TooManyNodes);
    }
    if scenario.tick_interval == 0 {
        return Err(ScenarioError::NoTick);
    }
    let gap: u64 = match &scenario.workload {
        Workload::Burst { interval, .. } => *interval,
        Workload::TwoRule { cold_interval, .. } => *cold_interval,
        _ => 1,
    };
    if scenario.duration > 0 && gap == 0 {
        return Err(ScenarioError::NotSpaced);
    }
    if !all_links_fit(&scenario.network.links, scenario.nodes) {
        return Err(ScenarioError::LinkOutOfRange);
    }
    let ghost schedule = scenario@.schedule;
    let changes: usize = if scenario.duration == 0 {
        0
    } else {
        due_changes(&scenario.network.schedule, 0, scenario.duration)
    };
    let mut i: usize = 0;
    while i < changes
        invariant
            i <= changes <= scenario.network.schedule@.len() == schedule.len(),
            changes == reached(scenario@),
            schedule == schedule_view(scenario.network.schedule@),
            schedule == scenario@.schedule,
            forall|j: int|
                0 <= j < i ==> links_fit((#[trigger] schedule[j]).1, scenario.nodes),
            links_fit(scenario@.links, scenario.nodes),
            2 <= scenario.nodes <= MAX_NODES,
            scenario.tick_interval > 0,
            scenario.duration > 0 ==> spaced(scenario@.workload),
        decreases changes - i,
    {
        assert(schedule[i as int].1 == scenario.network.schedule@[i as int].apply@);
        if !all_links_fit(&scenario.network.schedule[i].apply, scenario.nodes) {
            assert(!schedule_fits(schedule, reached(scenario@), scenario.nodes));
            return Err(ScenarioError::LinkOutOfRange);
        }
        i = i + 1;
    }
    Ok(())
}

// -- nodes ------------------------------------------------------------------

pub open spec fn larger(a: int, b: int) -> int {
    if a < b {
        b
    } else {
        a
    }
}

pub open spec fn smaller(a: int, b: int) -> int {
    if a < b {
        a
    } else {
        b
    }
}

/// Where a node listens.
pub open spec fn spec_node_addr(i: int) -> PeerAddr {
    PeerAddr { ip: PeerIp::V4(0x7F00_0001), port: (BASE_PORT + i) as u16 }
}

/// Where a node listens.
pub fn node_addr(i: usize) -> (addr: PeerAddr)
    requires
        i < MAX_NODES,
    ensures
        addr == spec_node_addr(i as int),
{
    PeerAddr { ip: PeerIp::V4(0x7F00_0001), port: BASE_PORT + i as u16 }
}

/// Sizes of a node's store: as the scenario has it, and no less than a node in
/// use would have.
pub open spec fn spec_store_config(scenario: ScenarioView) -> CellStoreConfig {
    let cells = larger(scenario.cell_capacity as int, larger(scenario.nodes * 4, 4_096));
    CellStoreConfig {
        cell_capacity: cells as u32,
        rule_dictionary_capacity: 64,
        node_dictionary_capacity: larger(scenario.nodes + 16, 1_024) as u16,
        local_dirty_capacity: larger(cells, 8_192) as u32,
        forwarded_dirty_capacity: smaller(larger(cells * 16, 65_536), u32::MAX as int) as u32,
        peer_capacity: larger(scenario.nodes + 16, 256) as u16,
    }
}

/// Sizes of a node's store.
pub fn store_config(scenario: &Scenario) -> (config: CellStoreConfig)
    requires
        scenario.nodes <= MAX_NODES,
    ensures
        config == spec_store_config(scenario@),
{
    let nodes: u32 = scenario.nodes as u32;
    let floor: u32 = if nodes * 4 < 4_096 { 4_096 } else { nodes * 4 };
    let cells: u32 = if scenario.cell_capacity < floor { floor } else { scenario.cell_capacity };
    let forwarded: u64 = cells as u64 * 16;
    let forwarded: u64 = if forwarded < 65_536 { 65_536 } else { forwarded };
    CellStoreConfig {
        cell_capacity: cells,
        rule_dictionary_capacity: 64,
        node_dictionary_capacity: if nodes + 16 < 1_024 { 1_024 } else { (nodes + 16) as u16 },
        local_dirty_capacity: if cells < 8_192 { 8_192 } else { cells },
        forwarded_dirty_capacity: if forwarded > u32::MAX as u64 {
            u32::MAX
        } else {
            forwarded as u32
        },
        peer_capacity: if nodes + 16 < 256 { 256 } else { (nodes + 16) as u16 },
    }
}

/// Who a node is.
pub open spec fn spec_node_identity(i: int) -> NodeIdentity {
    NodeIdentity { node_id: NodeId((i * 0x100 + 1) as u128), incarnation: 1 }
}

/// Who a node is.
pub fn node_identity(i: usize) -> (identity: NodeIdentity)
    requires
        i < MAX_NODES,
    ensures
        identity == spec_node_identity(i as int),
{
    NodeIdentity { node_id: NodeId(i as u128 * 0x100 + 1), incarnation: 1 }
}

/// All other nodes of a cluster, in order.
pub open spec fn others(nodes: nat, i: int) -> Seq<PeerAddr> {
    Seq::new(
        (nodes - 1) as nat,
        |k: int|
            if k < i {
                spec_node_addr(k)
            } else {
                spec_node_addr(k + 1)
            },
    )
}

/// Cells a tick may send.
pub open spec fn tick_cells(scenario: ScenarioView) -> int {
    larger(scenario.max_cells_per_tick as int, larger(scenario.nodes * 4, 4_096))
}

/// A node's part in the gossip.
pub fn node_config(scenario: &Scenario, i: usize) -> (config: GossipConfig)
    requires
        2 <= scenario.nodes <= MAX_NODES,
        i < scenario.nodes,
    ensures
        config.local_identity == spec_node_identity(i as int),
        config.cluster_id_hash == CLUSTER_ID_HASH,
        config.bootstrap_peers@ == others(scenario.nodes as nat, i as int),
        config.fanout == scenario.fanout,
        config.max_cells_per_tick == tick_cells(scenario@),
        config.wire_limits == (FrameLimits {
            max_payload_bytes: 1_400,
            max_cells: larger(
                (tick_cells(scenario@) as usize) as u32 as int,
                4_096,
            ) as u32,
        }),
        config.send_queue_capacity == 128,
        config.limit_queue_capacity == 8_192,
        config.tick_interval_nanos == scenario.tick_interval,
        config.auth_key is None,
        config.rng_seed == scenario.seed.wrapping_add(i as u64),
        config.target_err_bps == match scenario.target_err_bps {
            Some(bps) => bps,
            None => TARGET_ERR_BPS,
        },
        config.min_emit_interval_millis == match scenario.min_emit_interval {
            Some(interval) => interval / MILLI,
            None => MIN_EMIT_INTERVAL_MILLIS,
        },
{
    let mut bootstrap_peers: Vec<PeerAddr> = Vec::new();
    let ghost all = others(scenario.nodes as nat, i as int);
    let mut j: usize = 0;
    while j < scenario.nodes
        invariant
            j <= scenario.nodes <= MAX_NODES,
            i < scenario.nodes,
            all == others(scenario.nodes as nat, i as int),
            bootstrap_peers@ =~= all.take(
                if j <= i {
                    j as int
                } else {
                    j - 1
                },
            ),
        decreases scenario.nodes - j,
    {
        if j != i {
            bootstrap_peers.push(node_addr(j));
        }
        j = j + 1;
    }
    assert(bootstrap_peers@ =~= all);
    let floor: usize = if scenario.nodes * 4 < 4_096 { 4_096 } else { scenario.nodes * 4 };
    let per_tick: usize = if scenario.max_cells_per_tick < floor {
        floor
    } else {
        scenario.max_cells_per_tick
    };
    #[verifier::truncate]
    let per_frame: u32 = per_tick as u32;
    GossipConfig {
        local_identity: node_identity(i),
        cluster_id_hash: CLUSTER_ID_HASH,
        bootstrap_peers,
        fanout: scenario.fanout,
        max_cells_per_tick: per_tick,
        wire_limits: FrameLimits {
            max_payload_bytes: 1_400,
            max_cells: if per_frame < 4_096 { 4_096 } else { per_frame },
        },
        send_queue_capacity: 128,
        limit_queue_capacity: 8_192,
        tick_interval_nanos: scenario.tick_interval,
        auth_key: None,
        rng_seed: scenario.seed.wrapping_add(i as u64),
        target_err_bps: match scenario.target_err_bps {
            Some(bps) => bps,
            None => TARGET_ERR_BPS,
        },
        min_emit_interval_millis: match scenario.min_emit_interval {
            Some(interval) => interval / MILLI,
            None => MIN_EMIT_INTERVAL_MILLIS,
        },
    }
}

/// How often the nodes are given a turn after each step of time.
pub fn drain_budget(nodes: usize) -> (turns: usize)
    ensures
        turns == larger(smaller(nodes * 4, usize::MAX as int), 16),
{
    let turns: usize = match nodes.checked_mul(4) {
        Some(turns) => turns,
        None => usize::MAX,
    };
    if turns < 16 {
        16
    } else {
        turns
    }
}

// -- links ------------------------------------------------------------------

/// A digit as text.
pub open spec fn digit(n: int) -> u8 {
    (48 + n % 10) as u8
}

/// A node's address as text.
pub open spec fn addr_text(i: int) -> Seq<u8> {
    let port = BASE_PORT + i;
    seq![
        49u8,
        50u8,
        55u8,
        46u8,
        48u8,
        46u8,
        48u8,
        46u8,
        49u8,
        58u8,
        digit(port / 10_000),
        digit(port / 1_000),
        digit(port / 100),
        digit(port / 10),
        digit(port),
    ]
}

fn write_addr(i: usize) -> (text: Vec<u8>)
    requires
        i < MAX_NODES,
    ensures
        text@ == addr_text(i as int),
{
    let port: u32 = BASE_PORT as u32 + i as u32;
    let text: Vec<u8> = vec![
        49,
        50,
        55,
        46,
        48,
        46,
        48,
        46,
        49,
        58,
        (48 + (port / 10_000) % 10) as u8,
        (48 + (port / 1_000) % 10) as u8,
        (48 + (port / 100) % 10) as u8,
        (48 + (port / 10) % 10) as u8,
        (48 + port % 10) as u8,
    ];
    assert(text@ =~= addr_text(i as int));
    text
}

/// What a link does, as the network takes it. A link that loses packets at
/// random draws from a seed of its own.
pub open spec fn policy_of(action: LinkAction, from: int, to: int) -> LinkPolicy {
    match action {
        LinkAction::Pass => LinkPolicy::Pass,
        LinkAction::Block => LinkPolicy::Block,
        LinkAction::DropFirst { count } => LinkPolicy::DropFirst { count },
        LinkAction::DropProb { threshold } => LinkPolicy::DropProb {
            threshold,
            seed: folded(folded(FNV_OFFSET, addr_text(from)), addr_text(to)) as u32,
        },
    }
}

fn link_policy(action: LinkAction, from: usize, to: usize) -> (policy: LinkPolicy)
    requires
        from < MAX_NODES,
        to < MAX_NODES,
    ensures
        policy == policy_of(action, from as int, to as int),
{
    match action {
        LinkAction::Pass => LinkPolicy::Pass,
        LinkAction::Block => LinkPolicy::Block,
        LinkAction::DropFirst { count } => LinkPolicy::DropFirst { count },
        LinkAction::DropProb { threshold } => {
            let src = write_addr(from);
            let dst = write_addr(to);
            #[verifier::truncate]
            let seed: u32 = link_seed(src.as_slice(), dst.as_slice()) as u32;
            LinkPolicy::DropProb { threshold, seed }
        },
    }
}

/// A link set.
pub open spec fn link_set(state: SimState, link: LinkModel) -> SimState {
    state.with_policy(
        spec_node_addr(link.from as int),
        spec_node_addr(link.to as int),
        policy_of(link.action, link.from as int, link.to as int),
    )
}

/// Links set one after the other.
pub open spec fn links_set(state: SimState, links: Seq<LinkModel>) -> SimState
    decreases links.len(),
{
    if links.len() == 0 {
        state
    } else {
        link_set(links_set(state, links.drop_last()), links.last())
    }
}

/// Sets one link.
pub fn apply_link(router: &mut SimRouter, link: LinkModel)
    requires
        link.from < MAX_NODES,
        link.to < MAX_NODES,
    ensures
        final(router)@ == link_set(old(router)@, link),
{
    router.set_link_policy(
        node_addr(link.from),
        node_addr(link.to),
        link_policy(link.action, link.from, link.to),
    );
}

/// Sets some links, one after the other.
pub fn apply_links(router: &mut SimRouter, links: &Vec<LinkModel>)
    requires
        links_fit(links@, MAX_NODES),
    ensures
        final(router)@ == links_set(old(router)@, links@),
{
    let mut i: usize = 0;
    assert(links@.take(0) =~= Seq::<LinkModel>::empty());
    while i < links.len()
        invariant
            i <= links@.len(),
            links_fit(links@, MAX_NODES),
            router@ == links_set(old(router)@, links@.take(i as int)),
        decreases links@.len() - i,
    {
        assert(links@.take(i + 1).drop_last() =~= links@.take(i as int));
        apply_link(router, links[i]);
        i = i + 1;
    }
    assert(links@.take(i as int) =~= links@);
}

/// Every link from a node to the first `to` others, all doing the same.
pub open spec fn row_links(from: nat, to: nat, action: LinkAction) -> Seq<LinkModel>
    decreases to,
{
    if to == 0 {
        Seq::empty()
    } else {
        let before = row_links(from, (to - 1) as nat, action);
        if to - 1 == from {
            before
        } else {
            before.push(LinkModel { from: from as usize, to: (to - 1) as usize, action })
        }
    }
}

/// Every link from the first `from` nodes to all others, all doing the same.
pub open spec fn uniform_links(nodes: nat, from: nat, action: LinkAction) -> Seq<LinkModel>
    decreases from,
{
    if from == 0 {
        Seq::empty()
    } else {
        uniform_links(nodes, (from - 1) as nat, action) + row_links(
            (from - 1) as nat,
            nodes,
            action,
        )
    }
}

/// The links of a cluster at the start of a run: what all of them do, if they
/// do anything, and then those that do something else.
pub open spec fn initial_links(scenario: ScenarioView) -> Seq<LinkModel> {
    let all = if scenario.uniform_loss == LinkAction::Pass {
        Seq::empty()
    } else {
        uniform_links(scenario.nodes as nat, scenario.nodes as nat, scenario.uniform_loss)
    };
    all + scenario.links
}

/// The links of a cluster at the start of a run.
pub fn make_links(scenario: &Scenario) -> (links: Vec<LinkModel>)
    requires
        scenario.nodes <= MAX_NODES,
        links_fit(scenario@.links, scenario.nodes),
    ensures
        links@ == initial_links(scenario@),
        links_fit(links@, scenario.nodes),
{
    let action = scenario.network.uniform_loss;
    let mut links: Vec<LinkModel> = Vec::new();
    if action != LinkAction::Pass {
        let mut from: usize = 0;
        while from < scenario.nodes
            invariant
                from <= scenario.nodes <= MAX_NODES,
                links@ =~= uniform_links(scenario.nodes as nat, from as nat, action),
                links_fit(links@, scenario.nodes),
            decreases scenario.nodes - from,
        {
            let ghost before = links@;
            let mut to: usize = 0;
            while to < scenario.nodes
                invariant
                    from < scenario.nodes <= MAX_NODES,
                    to <= scenario.nodes,
                    links@ =~= before + row_links(from as nat, to as nat, action),
                    links_fit(links@, scenario.nodes),
                decreases scenario.nodes - to,
            {
                if to != from {
                    links.push(LinkModel { from, to, action });
                }
                to = to + 1;
            }
            from = from + 1;
        }
    }
    let ghost all = links@;
    let mut i: usize = 0;
    while i < scenario.network.links.len()
        invariant
            i <= scenario.network.links@.len(),
            links_fit(scenario.network.links@, scenario.nodes),
            links_fit(links@, scenario.nodes),
            links@ =~= all + scenario.network.links@.take(i as int),
        decreases scenario.network.links@.len() - i,
    {
        links.push(scenario.network.links[i]);
        i = i + 1;
    }
    assert(links@ =~= initial_links(scenario@));
    links
}

// -- steps ------------------------------------------------------------------

/// A step of a run: a window of time, the changes that are due by its end, and
/// the ticks it is cut into.
#[derive(Clone, Copy, Debug, PartialEq, Eq, Structural)]
pub struct Step {
    pub start: u64,
    pub end: u64,
    /// The first change that is not due yet.
    pub next_change: usize,
    pub full_ticks: u64,
    /// What is left after the full ticks.
    pub last_tick: u64,
}

/// The first change from `from` on that is not due at `end`. Changes are in
/// order: one that is not due keeps those after it waiting.
pub open spec fn changes_until(schedule: Seq<ChangeView>, from: nat, end: u64) -> nat
    decreases schedule.len() - from,
{
    if from < schedule.len() && schedule[from as int].0 <= end {
        changes_until(schedule, from + 1, end)
    } else {
        from
    }
}

/// The window that a step covers: as long as samples are apart, and never
/// shorter than a tick, up to the end of the run.
pub open spec fn step_end(scenario: ScenarioView, elapsed: u64) -> int {
    smaller(
        elapsed + larger(scenario.sample_interval as int, scenario.tick_interval as int),
        scenario.duration as int,
    )
}

fn due_changes(schedule: &Vec<ScheduledNetworkChange>, from: usize, end: u64) -> (next: usize)
    requires
        from <= schedule@.len(),
    ensures
        next == changes_until(schedule_view(schedule@), from as nat, end),
        next <= schedule@.len(),
{
    let ghost view = schedule_view(schedule@);
    let mut next: usize = from;
    while next < schedule.len() && schedule[next].at <= end
        invariant
            next <= schedule@.len(),
            view == schedule_view(schedule@),
            changes_until(view, next as nat, end) == changes_until(view, from as nat, end),
        decreases schedule@.len() - next,
    {
        assert(view[next as int].0 == schedule@[next as int].at);
        next = next + 1;
    }
    next
}

/// The step that begins at `elapsed`, with the changes from `next_change` on
/// still to come. None once the run is over.
pub fn next_step(scenario: &Scenario, elapsed: u64, next_change: usize) -> (step: Option<Step>)
    requires
        scenario.tick_interval > 0,
        next_change <= scenario.network.schedule@.len(),
    ensures
        match step {
            None => elapsed >= scenario.duration,
            Some(step) => {
                &&& elapsed < scenario.duration
                &&& step.start == elapsed
                &&& step.end == step_end(scenario@, elapsed)
                &&& step.start < step.end <= scenario.duration
                &&& step.next_change == changes_until(
                    scenario@.schedule,
                    next_change as nat,
                    step.end,
                )
                &&& next_change <= step.next_change <= scenario.network.schedule@.len()
                &&& step.full_ticks * scenario.tick_interval + step.last_tick == step.end
                    - step.start
                &&& step.last_tick < scenario.tick_interval
            },
        },
{
    if elapsed >= scenario.duration {
        return None;
    }
    let tick: u64 = scenario.tick_interval;
    let sample: u64 = if scenario.sample_interval < tick {
        tick
    } else {
        scenario.sample_interval
    };
    let reach: u64 = elapsed.saturating_add(sample);
    let end: u64 = if reach < scenario.duration { reach } else { scenario.duration };
    let next: usize = due_changes(&scenario.network.schedule, next_change, end);
    proof {
        lemma_changes_grow(scenario@.schedule, next_change as nat, end);
    }
    let span: u64 = end - elapsed;
    let full_ticks: u64 = span / tick;
    let last_tick: u64 = span % tick;
    proof {
        vstd::arithmetic::div_mod::lemma_fundamental_div_mod(span as int, tick as int);
        assert(full_ticks * tick == tick * full_ticks) by (nonlinear_arith);
    }
    Some(Step { start: elapsed, end, next_change: next, full_ticks, last_tick })
}

proof fn lemma_changes_grow(schedule: Seq<ChangeView>, from: nat, end: u64)
    ensures
        changes_until(schedule, from, end) >= from,
    decreases schedule.len() - from,
{
    if from < schedule.len() && schedule[from as int].0 <= end {
        lemma_changes_grow(schedule, from + 1, end);
    }
}

/// A run makes no more changes than there are.
pub proof fn lemma_reached_bounded(scenario: ScenarioView)
    ensures
        reached(scenario) <= scenario.schedule.len(),
{
    lemma_changes_bounded(scenario.schedule, 0, scenario.duration);
}

proof fn lemma_changes_bounded(schedule: Seq<ChangeView>, from: nat, end: u64)
    requires
        from <= schedule.len(),
    ensures
        changes_until(schedule, from, end) <= schedule.len(),
    decreases schedule.len() - from,
{
    if from < schedule.len() && schedule[from as int].0 <= end {
        lemma_changes_bounded(schedule, from + 1, end);
    }
}

/// A step within a run makes no change that the run does not come to.
pub proof fn lemma_changes_reached(schedule: Seq<ChangeView>, from: nat, end: u64, last: u64)
    requires
        end <= last,
        from <= changes_until(schedule, 0, last),
    ensures
        changes_until(schedule, from, end) <= changes_until(schedule, 0, last),
    decreases schedule.len() - from,
{
    lemma_changes_stop(schedule, 0, last);
    if from < schedule.len() && schedule[from as int].0 <= end {
        lemma_changes_reached(schedule, from + 1, end, last);
    }
}

/// The first change that is not due keeps the others waiting.
proof fn lemma_changes_stop(schedule: Seq<ChangeView>, from: nat, end: u64)
    ensures
        ({
            let next = changes_until(schedule, from, end);
            next < schedule.len() ==> schedule[next as int].0 > end
        }),
    decreases schedule.len() - from,
{
    if from < schedule.len() && schedule[from as int].0 <= end {
        lemma_changes_stop(schedule, from + 1, end);
    }
}

/// A run takes as many steps as sample windows begin before its end.
pub open spec fn steps_taken(scenario: ScenarioView, elapsed: u64) -> nat
    decreases scenario.duration - elapsed,
    when scenario.tick_interval > 0
{
    if elapsed >= scenario.duration {
        0
    } else {
        1 + steps_taken(scenario, step_end(scenario, elapsed) as u64)
    }
}

/// The steps of a run cover its time without gaps and come to an end: from any
/// moment, the windows that follow end where the run does.
pub proof fn lemma_steps_cover_run(scenario: ScenarioView, elapsed: u64)
    requires
        scenario.tick_interval > 0,
        elapsed < scenario.duration,
    ensures
        elapsed < step_end(scenario, elapsed) <= scenario.duration,
        steps_taken(scenario, elapsed) == 1 + steps_taken(
            scenario,
            step_end(scenario, elapsed) as u64,
        ),
        step_end(scenario, elapsed) < scenario.duration ==> step_end(scenario, elapsed) - elapsed
            == larger(scenario.sample_interval as int, scenario.tick_interval as int),
{
}

} // verus!
