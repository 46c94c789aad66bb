//! A run of a scenario, step by step.

use crate::bench::headline::{
    capped, column, sum_of, take_snapshot, NodeReading, SampleView, TickSnapshot,
};
use crate::bench::plan::{
    apply_links, changes_until, fault, lemma_changes_reached, lemma_reached_bounded, links_fit,
    links_set, next_step, reached, step_end, Step, MAX_NODES,
};
use crate::bench::scenario::{
    schedule_view, ChangeView, Scenario, ScenarioView, Workload, WorkloadView, MILLI,
};
use crate::bench::workload::{
    apply_workload, first_missing, in_range, issued_by, looked_up, plain_write, planned,
    total_hits, IssuedHits, NodeOutOfRange, WorkloadAction, RULE_LIMIT,
};
use crate::gossip::sim::{SimRouter, SimState};
use vstd::prelude::*;

verus! {

/// How far a run has come.
#[derive(Clone, Copy, Debug, PartialEq, Eq, Structural)]
pub struct Run {
    pub elapsed: u64,
    /// The first change of the network that is still to come.
    pub next_change: usize,
    /// What was issued so far.
    pub issued: IssuedHits,
}

/// What to do in a step.
#[derive(Debug)]
pub struct RunStep {
    pub step: Step,
    pub actions: Vec<WorkloadAction>,
}

/// Some changes of the network made, one after the other.
pub open spec fn changes_made(
    state: SimState,
    schedule: Seq<ChangeView>,
    from: nat,
    to: nat,
) -> SimState
    decreases to,
{
    if to <= from {
        state
    } else {
        links_set(changes_made(state, schedule, from, (to - 1) as nat), schedule[to - 1].1)
    }
}

pub open spec fn capped_sum(a: u64, b: u64) -> u64 {
    if a + b <= u64::MAX {
        (a + b) as u64
    } else {
        u64::MAX
    }
}

/// Hits issued on top of others.
pub open spec fn issued_too(before: IssuedHits, then: IssuedHits) -> IssuedHits {
    IssuedHits {
        total: capped_sum(before.total, then.total),
        hot: capped_sum(before.hot, then.hot),
        cold: capped_sum(before.cold, then.cold),
    }
}

impl Run {
    pub fn new() -> (run: Run)
        ensures
            run == (Run {
                elapsed: 0,
                next_change: 0,
                issued: IssuedHits { total: 0, hot: 0, cold: 0 },
            }),
    {
        Run { elapsed: 0, next_change: 0, issued: IssuedHits { total: 0, hot: 0, cold: 0 } }
    }

    /// Where a run stands after the step that begins now.
    pub open spec fn after_step(self, scenario: ScenarioView) -> Run {
        let end = step_end(scenario, self.elapsed) as u64;
        Run {
            elapsed: end,
            next_change: changes_until(
                scenario.schedule,
                self.next_change as nat,
                end,
            ) as usize,
            issued: issued_too(
                self.issued,
                issued_by(planned(scenario.workload, self.elapsed, end)),
            ),
        }
    }

    /// Begins the next step: makes the changes of the network that are due by
    /// its end, and says what to issue and how far to move time on. None once
    /// the run is over. A workload that names a node that there is none of ends
    /// the run with an error, and with what there is to issue before that.
    pub fn begin_step(&mut self, scenario: &Scenario, router: &mut SimRouter) -> (step: Result<
        Option<RunStep>,
        NodeOutOfRange,
    >)
        requires
            fault(scenario@) is None,
            old(self).next_change <= reached(scenario@),
        ensures
            final(self).next_change <= reached(scenario@),
            if old(self).elapsed >= scenario.duration {
                &&& step == Ok::<Option<RunStep>, NodeOutOfRange>(None)
                &&& *final(self) == *old(self)
                &&& final(router)@ == old(router)@
            } else {
                let then = old(self).after_step(scenario@);
                let looked = looked_up(scenario@.workload, old(self).elapsed, then.elapsed);
                &&& final(router)@ == changes_made(
                    old(router)@,
                    scenario@.schedule,
                    old(self).next_change as nat,
                    then.next_change as nat,
                )
                &&& match step {
                    Ok(Some(step)) => {
                        &&& in_range(scenario.nodes, looked)
                        &&& *final(self) == then
                        &&& step.step.start == old(self).elapsed
                        &&& step.step.end == then.elapsed == step_end(
                            scenario@,
                            old(self).elapsed,
                        )
                        &&& step.step.next_change == then.next_change
                        &&& step.step.full_ticks * scenario.tick_interval + step.step.last_tick
                            == step.step.end - step.step.start
                        &&& step.step.last_tick < scenario.tick_interval
                        &&& step.actions@ == planned(
                            scenario@.workload,
                            old(self).elapsed,
                            then.elapsed,
                        )
                    },
                    Ok(None) => false,
                    Err(missing) => {
                        &&& first_missing(
                            scenario.nodes,
                            scenario@.workload,
                            old(self).elapsed,
                            then.elapsed,
                            missing,
                        )
                        &&& *final(self) == *old(self)
                    },
                }
            },
    {
        proof {
            lemma_reached_bounded(scenario@);
        }
        let step = match next_step(scenario, self.elapsed, self.next_change) {
            Some(step) => step,
            None => {
                return Ok(None);
            },
        };
        proof {
            lemma_changes_reached(
                scenario@.schedule,
                self.next_change as nat,
                step.end,
                scenario.duration,
            );
        }
        let ghost then = self.after_step(scenario@);
        let ghost schedule = scenario@.schedule;
        let ghost network = router@;
        let from: usize = self.next_change;
        let mut i: usize = from;
        while i < step.next_change
            invariant
                from <= i <= step.next_change <= scenario.network.schedule@.len(),
                step.next_change <= reached(scenario@),
                schedule == schedule_view(scenario.network.schedule@),
                fault(scenario@) is None,
                schedule == scenario@.schedule,
                router@ == changes_made(network, schedule, from as nat, i as nat),
            decreases step.next_change - i,
        {
            let change = &scenario.network.schedule[i];
            proof {
                assert(schedule[i as int].1 == change.apply@);
                assert(links_fit(schedule[i as int].1, scenario.nodes));
                assert(links_fit(change.apply@, MAX_NODES));
            }
            apply_links(router, &change.apply);
            i = i + 1;
        }
        let window = match apply_workload(
            &scenario.workload,
            scenario.nodes,
            step.start,
            step.end,
        ) {
            Ok(window) => window,
            Err(missing) => {
                return Err(missing);
            },
        };
        self.elapsed = step.end;
        self.next_change = step.next_change;
        self.issued = IssuedHits {
            total: self.issued.total.saturating_add(window.issued.total),
            hot: self.issued.hot.saturating_add(window.issued.hot),
            cold: self.issued.cold.saturating_add(window.issued.cold),
        };
        assert(*self == then);
        Ok(Some(RunStep { step, actions: window.actions }))
    }

    /// The cluster as it is now, from a reading of each node.
    pub fn sample(&self, scenario: &Scenario, readings: &Vec<NodeReading>) -> (sample: TickSnapshot)
        ensures
            sample@ == (SampleView {
                t_millis: (self.elapsed / MILLI) as u64,
                totals: Seq::new(readings@.len(), |i: int| readings@[i].total),
                issued: self.issued.total,
                hot_totals: if scenario.workload is TwoRule {
                    Seq::new(readings@.len(), |i: int| readings@[i].hot_total)
                } else {
                    Seq::empty()
                },
                hot_issued: self.issued.hot,
                cold_totals: if scenario.workload is TwoRule {
                    Seq::new(readings@.len(), |i: int| readings@[i].cold_total)
                } else {
                    Seq::empty()
                },
                cold_issued: self.issued.cold,
            }),
            sample.bytes_sent_total == capped(
                sum_of(column(readings@, |r: NodeReading| r.bytes_sent)) as int,
            ),
            sample.packets_sent_total == capped(
                sum_of(column(readings@, |r: NodeReading| r.packets_sent)) as int,
            ),
            sample.threshold_fires_total == capped(
                sum_of(column(readings@, |r: NodeReading| r.threshold_fires)) as int,
            ),
            sample.ticks_total == capped(
                sum_of(column(readings@, |r: NodeReading| r.ticks)) as int,
            ),
            sample.dirty_ticks_total == capped(
                sum_of(column(readings@, |r: NodeReading| r.dirty_ticks)) as int,
            ),
    {
        let is_two_rule: bool = match &scenario.workload {
            Workload::TwoRule { .. } => true,
            _ => false,
        };
        let sample = take_snapshot(
            self.elapsed / MILLI,
            readings,
            self.issued.total,
            self.issued.hot,
            self.issued.cold,
            is_two_rule,
        );
        proof {
            assert(sample@.totals =~= Seq::new(readings@.len(), |i: int| readings@[i].total));
            if scenario.workload is TwoRule {
                assert(sample@.hot_totals =~= Seq::new(
                    readings@.len(),
                    |i: int| readings@[i].hot_total,
                ));
                assert(sample@.cold_totals =~= Seq::new(
                    readings@.len(),
                    |i: int| readings@[i].cold_total,
                ));
            } else {
                assert(sample@.hot_totals =~= Seq::<u64>::empty());
                assert(sample@.cold_totals =~= Seq::<u64>::empty());
            }
        }
        sample
    }
}

// -- laws -------------------------------------------------------------------

/// Hits that the rest of a run issues.
pub open spec fn still_issued(scenario: ScenarioView, elapsed: u64) -> nat
    decreases scenario.duration - elapsed,
    when scenario.tick_interval > 0
{
    if elapsed >= scenario.duration {
        0
    } else {
        let end = step_end(scenario, elapsed) as u64;
        total_hits(planned(scenario.workload, elapsed, end), None) + still_issued(scenario, end)
    }
}

/// A single write is issued once, whichever step it falls into, and not at all
/// if the run ends before it.
pub proof fn lemma_single_write_issued_once(
    scenario: ScenarioView,
    elapsed: u64,
    node: usize,
    hits: u64,
    at: u64,
)
    requires
        scenario.tick_interval > 0,
        scenario.workload == (WorkloadView::SingleWrite { node, hits, at }),
    ensures
        still_issued(scenario, elapsed) == if elapsed <= at < scenario.duration {
            hits as nat
        } else {
            0
        },
    decreases scenario.duration - elapsed,
{
    if elapsed < scenario.duration {
        let end = step_end(scenario, elapsed) as u64;
        lemma_single_write_issued_once(scenario, end, node, hits, at);
        let actions = planned(scenario.workload, elapsed, end);
        reveal_with_fuel(total_hits, 2);
        if elapsed <= at < end {
            assert(actions =~= seq![plain_write(node, hits, RULE_LIMIT, (at / MILLI) as u64)]);
            assert(actions.drop_last() =~= Seq::<WorkloadAction>::empty());
        } else {
            assert(actions =~= Seq::<WorkloadAction>::empty());
        }
    }
}

} // verus!
