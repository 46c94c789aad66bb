//! The limiter as a service: records requests, and hands the counts that change
//! on in batches.

use crate::config::{Config, ConfigError, DiscoveryConfig, GossipConfig, RuntimeConfig};
use crate::crdt::{KeyHash, NodeId, NodeIdentity};
use crate::discovery::PeerSnapshot;
use crate::engine::{EngineState, LocalCell, LocalEngine, LocalRule};
use crate::requests::{
    cardinality_error, CardinalityLimits, Decision, HashedLimitRequest, LimitRequest, RejectReason,
    TimedHashedLimitRequest,
};
use crate::rules::{stable_hash, stable_hash_of, RuleId};
use crate::standalone::{
    blank_summary, config_for, ticked, GossipTickSummary, GossipTransport, InboundFrame,
    StandaloneGossipConfig, StandaloneGossipRuntime, TickState,
};
use vstd::prelude::*;
use vstd::utf8::encode_utf8;

verus! {

/// A key's count in one bucket, as it is handed on.
#[derive(Clone, Copy, Debug, PartialEq, Eq, Structural)]
pub struct CountAggregate {
    pub rule_id: RuleId,
    pub key_hash: KeyHash,
    pub bucket_start_millis: u64,
    pub count: u64,
}

impl Default for CountAggregate {
    fn default() -> (aggregate: CountAggregate)
        ensures
            aggregate == (CountAggregate {
                rule_id: 0,
                key_hash: KeyHash(0),
                bucket_start_millis: 0,
                count: 0,
            }),
    {
        CountAggregate { rule_id: 0, key_hash: KeyHash(0), bucket_start_millis: 0, count: 0 }
    }
}

/// What became of a batch.
#[derive(Clone, Copy, Debug, PartialEq, Eq, Structural)]
pub struct ApplyBatchOutcome {
    pub applied: usize,
    pub dropped: usize,
}

impl ApplyBatchOutcome {
    pub fn all_applied(count: usize) -> (outcome: ApplyBatchOutcome)
        ensures
            outcome == (ApplyBatchOutcome { applied: count, dropped: 0 }),
    {
        ApplyBatchOutcome { applied: count, dropped: 0 }
    }
}

/// Takes the counts that change.
pub trait CountUpdateHandler: Sized {
    /// What taking a batch makes of a handler: anything, unless the handler
    /// says more of itself.
    open spec fn took(before: Self, after: Self, batch: Seq<CountAggregate>) -> bool {
        true
    }

    fn apply_batch(&mut self, aggregates: &Vec<CountAggregate>) -> (outcome: ApplyBatchOutcome)
        ensures
            Self::took(*old(self), *final(self), aggregates@),
    ;
}

/// Does nothing with counts.
#[derive(Clone, Copy, Debug, PartialEq, Eq, Structural)]
pub struct NoOpCountUpdateHandler;

impl CountUpdateHandler for NoOpCountUpdateHandler {
    open spec fn took(before: Self, after: Self, batch: Seq<CountAggregate>) -> bool {
        after == before
    }

    fn apply_batch(&mut self, aggregates: &Vec<CountAggregate>) -> (outcome: ApplyBatchOutcome)
        ensures
            outcome == (ApplyBatchOutcome { applied: aggregates@.len() as usize, dropped: 0 }),
    {
        ApplyBatchOutcome { applied: aggregates.len(), dropped: 0 }
    }
}

pub open spec fn aggregate_of(cell: LocalCell) -> CountAggregate {
    CountAggregate {
        rule_id: cell.rule_id,
        key_hash: cell.key_hash,
        bucket_start_millis: cell.bucket_start_millis,
        count: cell.count,
    }
}

fn count_aggregate_from_cell(cell: LocalCell) -> (aggregate: CountAggregate)
    ensures
        aggregate == aggregate_of(cell),
{
    CountAggregate {
        rule_id: cell.rule_id,
        key_hash: cell.key_hash,
        bucket_start_millis: cell.bucket_start_millis,
        count: cell.count,
    }
}

/// What is handed on for one request.
pub open spec fn batch_of_one(cell: Option<LocalCell>) -> Seq<Seq<CountAggregate>> {
    match cell {
        Some(cell) => seq![seq![aggregate_of(cell)]],
        None => Seq::empty(),
    }
}

/// Requests recorded one after the other.
#[verifier::ext_equal]
pub struct Recorded {
    pub engine: EngineState,
    /// Number of requests that were allowed.
    pub allowed: nat,
    /// The counts that changed, in order.
    pub aggregates: Seq<CountAggregate>,
}

pub open spec fn recorded(
    engine: EngineState,
    rules: Seq<LocalRule>,
    requests: Seq<TimedHashedLimitRequest>,
) -> Recorded
    decreases requests.len(),
{
    if requests.len() == 0 {
        Recorded { engine, allowed: 0, aggregates: Seq::empty() }
    } else {
        let before = recorded(engine, rules, requests.drop_last());
        let timed = requests.last();
        let (after, decision, cell) = before.engine.decided_hashed(
            rules,
            timed.request,
            timed.now_millis,
        );
        Recorded {
            engine: after,
            allowed: before.allowed + if decision == Decision::Allow {
                1nat
            } else {
                0nat
            },
            aggregates: match cell {
                Some(cell) => before.aggregates.push(aggregate_of(cell)),
                None => before.aggregates,
            },
        }
    }
}

/// Requests all made at the same time.
pub open spec fn all_at(requests: Seq<HashedLimitRequest>, now: u64) -> Seq<
    TimedHashedLimitRequest,
> {
    Seq::new(
        requests.len(),
        |i: int| TimedHashedLimitRequest { request: requests[i], now_millis: now },
    )
}

/// A run cut into batches of `size`, the last one with what is left.
pub open spec fn batched(aggregates: Seq<CountAggregate>, size: nat) -> Seq<Seq<CountAggregate>>
    decreases aggregates.len(),
{
    if aggregates.len() == 0 || size == 0 {
        Seq::empty()
    } else if aggregates.len() <= size {
        seq![aggregates]
    } else {
        seq![aggregates.take(size as int)] + batched(aggregates.skip(size as int), size)
    }
}

pub open spec fn smaller_of(a: usize, b: usize) -> usize {
    if a < b {
        a
    } else {
        b
    }
}

/// How large batches are: as configured, at least one, and no larger than the
/// room for them.
pub open spec fn batch_size(config: RuntimeConfig, room: nat) -> nat {
    let wanted = if config.count_update_batch_size == 0 {
        1
    } else {
        config.count_update_batch_size as nat
    };
    if wanted < room {
        wanted
    } else {
        room
    }
}

/// A limiter with the handler its counts go to.
pub struct Runtime<H: CountUpdateHandler> {
    limiter: LocalEngine,
    limits: CardinalityLimits,
    runtime: RuntimeConfig,
    discovery: DiscoveryConfig,
    gossip: GossipConfig,
    remote_cell_capacity: usize,
    handler: H,
    shut_down: bool,
}

/// A handler before, between and after these batches.
pub open spec fn handed_through<H: CountUpdateHandler>(
    states: Seq<H>,
    batches: Seq<Seq<CountAggregate>>,
) -> bool {
    &&& states.len() == batches.len() + 1
    &&& forall|i: int|
        0 <= i < batches.len() ==> H::took(states[i], states[i + 1], #[trigger] batches[i])
}

/// Whether a handler was handed these batches: each once, in order, and no
/// other.
pub open spec fn handed_on<H: CountUpdateHandler>(
    before: H,
    after: H,
    batches: Seq<Seq<CountAggregate>>,
) -> bool {
    exists|states: Seq<H>| #[trigger]
        handed_through(states, batches) && states[0] == before && states.last() == after
}

impl<H: CountUpdateHandler> Runtime<H> {
    pub closed spec fn view(&self) -> EngineState {
        self.limiter@
    }

    pub closed spec fn spec_rules(&self) -> Seq<LocalRule> {
        self.limiter.spec_rules()
    }

    pub closed spec fn spec_limits(&self) -> CardinalityLimits {
        self.limits
    }

    pub closed spec fn spec_runtime(&self) -> RuntimeConfig {
        self.runtime
    }

    pub closed spec fn spec_gossip(&self) -> GossipConfig {
        self.gossip
    }

    pub closed spec fn spec_discovery(&self) -> DiscoveryConfig {
        self.discovery
    }

    pub closed spec fn spec_remote_cells(&self) -> usize {
        self.remote_cell_capacity
    }

    pub closed spec fn spec_handler(&self) -> H {
        self.handler
    }

    pub closed spec fn is_shut_down(&self) -> bool {
        self.shut_down
    }

    pub closed spec fn wf(&self) -> bool {
        self.limiter.wf()
    }

    /// Everything but the limiter's memory and the handler is as in `before`.
    pub open spec fn same_setup(&self, before: &Self) -> bool {
        &&& self.spec_rules() == before.spec_rules()
        &&& self.spec_limits() == before.spec_limits()
        &&& self.spec_runtime() == before.spec_runtime()
        &&& self.spec_gossip() == before.spec_gossip()
        &&& self.spec_discovery() == before.spec_discovery()
        &&& self.spec_remote_cells() == before.spec_remote_cells()
        &&& self.is_shut_down() == before.is_shut_down()
    }

    /// Whether this is what a configuration asks for.
    pub open spec fn built_from(&self, config: Config, identity: NodeIdentity, handler: H) -> bool {
        &&& self.wf()
        &&& !self.is_shut_down()
        &&& exists|engine: LocalEngine|
            #[trigger] config.builds(identity, engine) && self@ == engine@ && self.spec_rules()
                == engine.spec_rules()
        &&& self.spec_runtime() == config.runtime
        &&& self.spec_gossip() == config.gossip
        &&& self.spec_discovery() == config.discovery
        &&& self.spec_handler() == handler
        &&& self.spec_limits() == (CardinalityLimits {
            max_descriptor_count: config.storage.max_descriptor_count,
            max_descriptor_bytes: config.storage.max_descriptor_bytes,
            max_key_bytes: config.storage.max_key_bytes,
        })
        &&& self.spec_remote_cells() == config.storage.cells(
            crate::config::most_buckets(config.limits@),
        )
    }

    /// The limiter that a configuration asks for, with a handler for its counts.
    pub fn with_count_update_handler(
        config: Config,
        identity: NodeIdentity,
        handler: H,
    ) -> (runtime: Result<Self, ConfigError>)
        requires
            !config.zero_bucket(),
            config.limits@.len() <= u32::MAX,
        ensures
            match runtime {
                Ok(runtime) => config.fault() is None && runtime.built_from(
                    config,
                    identity,
                    handler,
                ),
                Err(error) => config.fault() == Some(error@),
            },
    {
        let limits = config.cardinality_limits();
        let runtime = config.runtime;
        let gossip = config.gossip;
        let bucket_count: usize = config.max_bucket_count();
        let remote_cell_capacity: usize = config.storage.cell_capacity(bucket_count);
        let (limiter, discovery) = match build_parts(config, identity) {
            Ok(parts) => parts,
            Err(error) => {
                return Err(error);
            },
        };
        Ok(
            Runtime {
                limiter,
                limits,
                runtime,
                discovery,
                gossip,
                remote_cell_capacity,
                handler,
                shut_down: false,
            },
        )
    }

    /// As [`Self::with_count_update_handler`], or `None` where the configuration
    /// gives a bucket as zero or more rules than there are numbers for.
    pub fn try_new(config: Config, identity: NodeIdentity, handler: H) -> (runtime: Option<
        Result<Self, ConfigError>,
    >)
        ensures
            runtime is None <==> config.zero_bucket() || config.limits@.len() > u32::MAX,
            match runtime {
                None => true,
                Some(Ok(runtime)) => config.fault() is None && runtime.built_from(
                    config,
                    identity,
                    handler,
                ),
                Some(Err(error)) => config.fault() == Some(error@),
            },
    {
        if config.limits.len() > u32::MAX as usize || config.has_zero_bucket() {
            return None;
        }
        Some(Self::with_count_update_handler(config, identity, handler))
    }

    /// Decides a request. After shutdown everything is allowed uncounted; a
    /// request with too many or too long descriptors is rejected uncounted.
    pub fn record_at(&mut self, request: LimitRequest<'_>, now_millis: u64) -> (decision: Decision)
        requires
            old(self).wf(),
        ensures
            final(self).wf(),
            final(self).same_setup(old(self)),
            final(self).spec_handler() == old(self).spec_handler(),
            (final(self)@, decision) == if old(self).is_shut_down() {
                (old(self)@, Decision::Allow)
            } else if cardinality_error(request.descriptors@, old(self).spec_limits()) is Some {
                (old(self)@, Decision::Reject(RejectReason::LocalFallbackLimit))
            } else {
                old(self)@.decided(
                    old(self).spec_rules(),
                    request.domain@,
                    request.descriptors@,
                    request.hits,
                    now_millis,
                )
            },
    {
        if self.shut_down {
            return Decision::Allow;
        }
        if request.validate_cardinality(self.limits).is_err() {
            return Decision::Reject(RejectReason::LocalFallbackLimit);
        }
        self.limiter.check_and_record(request, now_millis)
    }

    /// Decides a request for a known rule and key, and hands its count on if it
    /// changed.
    pub fn record_hashed_at(&mut self, request: HashedLimitRequest, now_millis: u64) -> (decision:
        Decision)
        requires
            old(self).wf(),
        ensures
            final(self).wf(),
            final(self).same_setup(old(self)),
            old(self).is_shut_down() ==> {
                &&& final(self)@ == old(self)@
                &&& final(self).spec_handler() == old(self).spec_handler()
                &&& decision == Decision::Allow
            },
            !old(self).is_shut_down() ==> {
                let (after, verdict, cell) = old(self)@.decided_hashed(
                    old(self).spec_rules(),
                    request,
                    now_millis,
                );
                &&& final(self)@ == after
                &&& decision == verdict
                &&& handed_on(
                    old(self).spec_handler(),
                    final(self).spec_handler(),
                    batch_of_one(cell),
                )
            },
    {
        if self.shut_down {
            return Decision::Allow;
        }
        let (decision, cell) = self.limiter.check_and_record_hashed_with_cell(request, now_millis);
        let ghost handler = self.spec_handler();
        match cell {
            Some(cell) => {
                let mut batch: Vec<CountAggregate> = Vec::new();
                batch.push(count_aggregate_from_cell(cell));
                assert(batch@ =~= batch_of_one(Some(cell))[0]);
                let _outcome = self.handler.apply_batch(&batch);
                let ghost states = seq![handler, self.handler];
                assert(handed_through(states, batch_of_one(Some(cell))));
            },
            None => {
                let ghost states = seq![handler];
                assert(handed_through(states, batch_of_one(None)));
            },
        }
        decision
    }

    /// Records requests, puts the counts that changed through the scratch space,
    /// and cuts them into batches.
    fn record_batches(
        &mut self,
        requests: &Vec<TimedHashedLimitRequest>,
        scratch: &mut Vec<CountAggregate>,
    ) -> (outcome: (usize, Vec<Vec<CountAggregate>>))
        requires
            old(self).wf(),
            old(scratch)@.len() > 0,
        ensures
            final(self).wf(),
            final(self).same_setup(old(self)),
            final(self).spec_handler() == old(self).spec_handler(),
            ({
                let all = recorded(old(self)@, old(self).spec_rules(), requests@);
                &&& final(self)@ == all.engine
                &&& outcome.0 == all.allowed
                &&& contents(outcome.1@) == batched(
                    all.aggregates,
                    batch_size(old(self).spec_runtime(), old(scratch)@.len()),
                )
                &&& final(scratch)@ == buffered(
                    old(scratch)@,
                    all.aggregates,
                    batch_size(old(self).spec_runtime(), old(scratch)@.len()),
                )
            }),
    {
        let ghost before = self@;
        let ghost rules = self.spec_rules();
        let ghost start = *self;
        let mut recorded_count: usize = 0;
        let mut aggregates: Vec<CountAggregate> = Vec::new();
        let n: usize = requests.len();
        let mut i: usize = 0;
        assert(requests@.take(0) =~= Seq::<TimedHashedLimitRequest>::empty());
        while i < n
            invariant
                i <= n == requests@.len(),
                self.wf(),
                self.same_setup(&start),
                self.spec_handler() == start.spec_handler(),
                self.spec_rules() == rules,
                recorded_count <= i,
                (Recorded {
                    engine: self@,
                    allowed: recorded_count as nat,
                    aggregates: aggregates@,
                }) == recorded(before, rules, requests@.take(i as int)),
            decreases n - i,
        {
            assert(requests@.take(i + 1).drop_last() =~= requests@.take(i as int));
            let (decision, cell) = self.limiter.check_and_record_hashed_with_cell(
                requests[i].request(),
                requests[i].now_millis(),
            );
            if decision == Decision::Allow {
                recorded_count = recorded_count + 1;
            }
            if let Some(cell) = cell {
                aggregates.push(count_aggregate_from_cell(cell));
            }
            i = i + 1;
        }
        assert(requests@.take(n as int) =~= requests@);
        let wanted: usize = if self.runtime.count_update_batch_size == 0 {
            1
        } else {
            self.runtime.count_update_batch_size
        };
        let room: usize = scratch.len();
        let size: usize = if wanted < room { wanted } else { room };
        buffer(scratch, &aggregates, size);
        (recorded_count, cut(&aggregates, size))
    }

    /// Hands batches to the handler, in order.
    fn publish(&mut self, batches: &Vec<Vec<CountAggregate>>)
        ensures
            *final(self) == (Runtime { handler: final(self).handler, ..*old(self) }),
            handed_on(
                old(self).spec_handler(),
                final(self).spec_handler(),
                contents(batches@),
            ),
    {
        let ghost start = *self;
        let ghost mut states: Seq<H> = seq![self.handler];
        let mut i: usize = 0;
        while i < batches.len()
            invariant
                i <= batches@.len(),
                *self == (Runtime { handler: self.handler, ..start }),
                states.len() == i + 1,
                states[0] == start.handler,
                states.last() == self.handler,
                forall|j: int|
                    0 <= j < i ==> H::took(
                        states[j],
                        states[j + 1],
                        #[trigger] contents(batches@)[j],
                    ),
            decreases batches@.len() - i,
        {
            let ghost before = states;
            let _outcome = self.handler.apply_batch(&batches[i]);
            proof {
                states = states.push(self.handler);
                assert forall|j: int| 0 <= j < i + 1 implies H::took(
                    states[j],
                    states[j + 1],
                    #[trigger] contents(batches@)[j],
                ) by {
                    assert(states[j] == before[j]);
                    if j < i {
                        assert(states[j + 1] == before[j + 1]);
                    }
                }
            }
            i = i + 1;
        }
        assert(handed_through(states, contents(batches@)));
    }

    /// Decides requests made at the same time, and hands the counts that changed
    /// on in batches no larger than the scratch space, which they go through.
    /// Returns how many requests were allowed. After shutdown, and without
    /// scratch space, nothing happens.
    pub fn record_hashed_batch_at(
        &mut self,
        requests: &Vec<HashedLimitRequest>,
        aggregate_scratch: &mut Vec<CountAggregate>,
        now_millis: u64,
    ) -> (allowed: usize)
        requires
            old(self).wf(),
        ensures
            final(self).wf(),
            final(self).same_setup(old(self)),
            final(aggregate_scratch)@ == scratch_after(
                old(self)@,
                old(self).spec_rules(),
                old(self).spec_runtime(),
                old(self).is_shut_down(),
                all_at(requests@, now_millis),
                old(aggregate_scratch)@,
            ),
            batch_recorded(
                old(self)@,
                final(self)@,
                old(self).spec_rules(),
                old(self).spec_runtime(),
                (old(self).spec_handler(), final(self).spec_handler()),
                old(self).is_shut_down(),
                all_at(requests@, now_millis),
                old(aggregate_scratch)@.len(),
                allowed,
            ),
    {
        let mut timed: Vec<TimedHashedLimitRequest> = Vec::new();
        let mut i: usize = 0;
        while i < requests.len()
            invariant
                i <= requests@.len(),
                timed@.len() == i,
                forall|j: int|
                    0 <= j < i ==> #[trigger] timed@[j] == (TimedHashedLimitRequest {
                        request: requests@[j],
                        now_millis,
                    }),
            decreases requests@.len() - i,
        {
            timed.push(TimedHashedLimitRequest::new(requests[i], now_millis));
            i = i + 1;
        }
        assert(timed@ =~= all_at(requests@, now_millis));
        self.record_timed_hashed_batch(&timed, aggregate_scratch)
    }

    /// Decides requests, each at its own time, and hands the counts that changed
    /// on in batches no larger than the scratch space, which they go through.
    /// Returns how many requests were allowed. After shutdown, and without
    /// scratch space, nothing happens.
    pub fn record_timed_hashed_batch(
        &mut self,
        requests: &Vec<TimedHashedLimitRequest>,
        aggregate_scratch: &mut Vec<CountAggregate>,
    ) -> (allowed: usize)
        requires
            old(self).wf(),
        ensures
            final(self).wf(),
            final(self).same_setup(old(self)),
            final(aggregate_scratch)@ == scratch_after(
                old(self)@,
                old(self).spec_rules(),
                old(self).spec_runtime(),
                old(self).is_shut_down(),
                requests@,
                old(aggregate_scratch)@,
            ),
            batch_recorded(
                old(self)@,
                final(self)@,
                old(self).spec_rules(),
                old(self).spec_runtime(),
                (old(self).spec_handler(), final(self).spec_handler()),
                old(self).is_shut_down(),
                requests@,
                old(aggregate_scratch)@.len(),
                allowed,
            ),
    {
        let room: usize = aggregate_scratch.len();
        if self.shut_down || requests.len() == 0 || room == 0 {
            proof {
                if requests@.len() == 0 {
                    let none = recorded(self@, self.spec_rules(), requests@);
                    let states = seq![self.handler];
                    assert(handed_through(
                        states,
                        batched(none.aggregates, batch_size(self.runtime, room as nat)),
                    ));
                    assert(none.aggregates.len() == 0);
                }
            }
            return 0;
        }
        let (allowed, batches) = self.record_batches(requests, aggregate_scratch);
        self.publish(&batches);
        allowed
    }

    /// Decides requests one after the other into `decisions`, as many as there
    /// are places for. After shutdown all are allowed uncounted; if one has too
    /// many or too long descriptors, all are rejected uncounted.
    pub fn record_all_at(
        &mut self,
        requests: &[LimitRequest<'_>],
        decisions: &mut Vec<Decision>,
        now_millis: u64,
    ) -> (count: usize)
        requires
            old(self).wf(),
        ensures
            final(self).wf(),
            final(self).same_setup(old(self)),
            final(self).spec_handler() == old(self).spec_handler(),
            ({
                let n = smaller_of(requests@.len() as usize, old(decisions)@.len() as usize);
                let taken = requests@.take(n as int);
                let (after, verdicts) = if old(self).is_shut_down() {
                    (old(self)@, Seq::new(n as nat, |i: int| Decision::Allow))
                } else if any_oversized(taken, old(self).spec_limits()) {
                    (
                        old(self)@,
                        Seq::new(
                            n as nat,
                            |i: int| Decision::Reject(RejectReason::LocalFallbackLimit),
                        ),
                    )
                } else {
                    old(self)@.decided_all(old(self).spec_rules(), taken, now_millis)
                };
                &&& count == n
                &&& final(self)@ == after
                &&& final(decisions)@ == verdicts + old(decisions)@.skip(n as int)
            }),
    {
        let ghost before = decisions@;
        let asked: usize = requests.len();
        let places: usize = decisions.len();
        let n: usize = if asked < places { asked } else { places };
        let (taken, _rest) = requests.split_at(n);
        assert(taken@ =~= requests@.take(n as int));
        if self.shut_down {
            fill(decisions, n, Decision::Allow);
            return n;
        }
        if has_oversized(taken, self.limits) {
            fill(decisions, n, Decision::Reject(RejectReason::LocalFallbackLimit));
            return n;
        }
        let verdicts = self.limiter.check_and_record_all(taken, now_millis);
        proof {
            lemma_decided_all_len(old(self)@, old(self).spec_rules(), taken@, now_millis);
        }
        let mut i: usize = 0;
        assert(decisions@ =~= verdicts@.take(0) + before.skip(0));
        while i < n
            invariant
                i <= n <= before.len(),
                verdicts@.len() == n,
                decisions@ == verdicts@.take(i as int) + before.skip(i as int),
            decreases n - i,
        {
            decisions.set(i, verdicts[i]);
            assert(decisions@ =~= verdicts@.take(i + 1) + before.skip(i + 1));
            i = i + 1;
        }
        assert(verdicts@.take(n as int) =~= verdicts@);
        n
    }

    /// From now on everything is allowed, and nothing is counted or handed on.
    pub fn shutdown(&mut self)
        ensures
            final(self).is_shut_down(),
            final(self)@ == old(self)@,
            final(self).wf() == old(self).wf(),
            final(self).spec_rules() == old(self).spec_rules(),
            final(self).spec_limits() == old(self).spec_limits(),
            final(self).spec_runtime() == old(self).spec_runtime(),
            final(self).spec_gossip() == old(self).spec_gossip(),
            final(self).spec_discovery() == old(self).spec_discovery(),
            final(self).spec_remote_cells() == old(self).spec_remote_cells(),
            final(self).spec_handler() == old(self).spec_handler(),
    {
        self.shut_down = true;
    }

    pub fn gossip_enabled(&self) -> (enabled: bool)
        ensures
            enabled == self.spec_gossip().enabled,
    {
        self.gossip.enabled
    }

    pub fn discovery(&self) -> (discovery: &DiscoveryConfig)
        ensures
            *discovery == self.spec_discovery(),
    {
        &self.discovery
    }

    pub fn gossip(&self) -> (gossip: GossipConfig)
        ensures
            gossip == self.spec_gossip(),
    {
        self.gossip
    }

    /// The part in the gossip that the configuration asks for, under this
    /// node's identity.
    pub fn standalone_config(&self) -> (config: StandaloneGossipConfig)
        ensures
            config == (StandaloneGossipConfig {
                sender_node_id: crate::cells::NodeId::spec_from_u128(self@.identity.node_id.0),
                sender_incarnation: self@.identity.incarnation as u64,
                ..config_for(self.spec_gossip(), self.spec_remote_cells())
            }),
    {
        let identity = self.limiter.identity();
        let mut config = StandaloneGossipConfig::from_config(
            &self.gossip,
            self.remote_cell_capacity,
        );
        config.sender_node_id = crate::cells::NodeId::from_u128(identity.node_id.0);
        config.sender_incarnation = identity.incarnation as u64;
        config
    }

    /// One round of gossip over this limiter.
    pub fn gossip_tick<T: GossipTransport>(
        &mut self,
        gossip: &mut StandaloneGossipRuntime,
        snapshot: &PeerSnapshot,
        transport: &mut T,
        inbox: &[InboundFrame],
        now_millis: u64,
    ) -> (summary: GossipTickSummary)
        requires
            old(self).wf(),
            old(gossip).wf(),
        ensures
            final(self).wf(),
            final(self).same_setup(old(self)),
            final(self).spec_handler() == old(self).spec_handler(),
            final(gossip).wf(),
            final(gossip).spec_config() == old(gossip).spec_config(),
            ticked(
                old(gossip).spec_config(),
                TickState { gossip: old(gossip)@, engine: old(self)@, summary: blank_summary() },
                old(self).spec_rules(),
                snapshot,
                (*old(transport), *final(transport)),
                inbox@,
                now_millis,
                TickState { gossip: final(gossip)@, engine: final(self)@, summary },
            ),
    {
        gossip.tick(&mut self.limiter, snapshot, transport, inbox, now_millis)
    }

    pub fn limiter(&self) -> (limiter: &LocalEngine)
        ensures
            limiter@ == self@,
            limiter.spec_rules() == self.spec_rules(),
            limiter.wf() == self.wf(),
    {
        &self.limiter
    }
}

impl Runtime<NoOpCountUpdateHandler> {
    /// The limiter that a configuration asks for, with its counts handed to
    /// nobody.
    pub fn new(config: Config, identity: NodeIdentity) -> (runtime: Result<Self, ConfigError>)
        requires
            !config.zero_bucket(),
            config.limits@.len() <= u32::MAX,
        ensures
            match runtime {
                Ok(runtime) => config.fault() is None && runtime.built_from(
                    config,
                    identity,
                    NoOpCountUpdateHandler,
                ),
                Err(error) => config.fault() == Some(error@),
            },
    {
        Self::with_count_update_handler(config, identity, NoOpCountUpdateHandler)
    }
}

/// The limiter and the discovery section of a configuration.
fn build_parts(config: Config, identity: NodeIdentity) -> (parts: Result<
    (LocalEngine, DiscoveryConfig),
    ConfigError,
>)
    requires
        !config.zero_bucket(),
        config.limits@.len() <= u32::MAX,
    ensures
        match parts {
            Ok((engine, discovery)) => config.fault() is None && config.builds(identity, engine)
                && discovery == config.discovery,
            Err(error) => config.fault() == Some(error@),
        },
{
    let ghost whole = config;
    let Config { storage, limits, runtime, server, discovery, gossip } = config;
    let limits_only = Config {
        storage,
        limits,
        runtime,
        server,
        discovery: DiscoveryConfig::default(),
        gossip,
    };
    proof {
        assert(limits_only.zero_bucket() == whole.zero_bucket());
    }
    match limits_only.into_engine_with_identity(identity) {
        Ok(engine) => {
            assert(whole.builds(identity, engine));
            Ok((engine, discovery))
        },
        Err(error) => Err(error),
    }
}

/// The batches that recording hands on: the counts that changed, in order. None
/// after shutdown, and none without scratch space.
pub open spec fn batches_due(
    before: EngineState,
    rules: Seq<LocalRule>,
    config: RuntimeConfig,
    shut_down: bool,
    requests: Seq<TimedHashedLimitRequest>,
    room: nat,
) -> Seq<Seq<CountAggregate>> {
    if shut_down || room == 0 {
        Seq::empty()
    } else {
        batched(recorded(before, rules, requests).aggregates, batch_size(config, room))
    }
}

/// Scratch space after some counts went through it, batch by batch: each count
/// takes the place that it has in its batch.
pub open spec fn buffered(
    scratch: Seq<CountAggregate>,
    aggregates: Seq<CountAggregate>,
    size: nat,
) -> Seq<CountAggregate>
    decreases aggregates.len(),
{
    if aggregates.len() == 0 {
        scratch
    } else {
        buffered(scratch, aggregates.drop_last(), size).update(
            (aggregates.len() - 1) % size as int,
            aggregates.last(),
        )
    }
}

/// The scratch space once requests have been recorded.
pub open spec fn scratch_after(
    before: EngineState,
    rules: Seq<LocalRule>,
    config: RuntimeConfig,
    shut_down: bool,
    requests: Seq<TimedHashedLimitRequest>,
    scratch: Seq<CountAggregate>,
) -> Seq<CountAggregate> {
    if shut_down || scratch.len() == 0 {
        scratch
    } else {
        buffered(
            scratch,
            recorded(before, rules, requests).aggregates,
            batch_size(config, scratch.len()),
        )
    }
}

/// A place of the scratch space holds the last count that went through it, or
/// what it held before if none did.
pub proof fn lemma_buffered_last(
    scratch: Seq<CountAggregate>,
    aggregates: Seq<CountAggregate>,
    size: nat,
    place: int,
)
    requires
        0 < size <= scratch.len(),
        0 <= place < scratch.len(),
    ensures
        buffered(scratch, aggregates, size).len() == scratch.len(),
        forall|k: int|
            0 <= k < aggregates.len() && #[trigger] (k % size as int) == place && (forall|later: int|
                k < later < aggregates.len() ==> #[trigger] (later % size as int) != place)
                ==> buffered(scratch, aggregates, size)[place] == aggregates[k],
        (forall|k: int| 0 <= k < aggregates.len() ==> #[trigger] (k % size as int) != place)
            ==> buffered(scratch, aggregates, size)[place] == scratch[place],
    decreases aggregates.len(),
{
    if aggregates.len() > 0 {
        let before = aggregates.drop_last();
        let last = aggregates.len() - 1;
        lemma_buffered_last(scratch, before, size, place);
        vstd::arithmetic::div_mod::lemma_mod_bound(last, size as int);
        assert forall|k: int|
            0 <= k < aggregates.len() && #[trigger] (k % size as int) == place && (forall|later: int|
                k < later < aggregates.len() ==> #[trigger] (later % size as int)
                    != place) implies buffered(scratch, aggregates, size)[place]
            == aggregates[k] by {
            if k < last {
                assert(last % size as int != place);
                assert(before[k] == aggregates[k]);
            }
        }
        if forall|k: int| 0 <= k < aggregates.len() ==> #[trigger] (k % size as int) != place {
            assert(last % size as int != place);
        }
    }
}

/// Puts counts through the scratch space, batch by batch.
fn buffer(scratch: &mut Vec<CountAggregate>, aggregates: &Vec<CountAggregate>, size: usize)
    requires
        0 < size <= old(scratch)@.len(),
    ensures
        final(scratch)@ == buffered(old(scratch)@, aggregates@, size as nat),
{
    let ghost before = scratch@;
    let mut i: usize = 0;
    let mut place: usize = 0;
    assert(aggregates@.take(0) =~= Seq::<CountAggregate>::empty());
    while i < aggregates.len()
        invariant
            i <= aggregates@.len(),
            0 < size <= scratch@.len(),
            place == i as int % size as int,
            scratch@ == buffered(before, aggregates@.take(i as int), size as nat),
        decreases aggregates@.len() - i,
    {
        assert(aggregates@.take(i + 1).drop_last() =~= aggregates@.take(i as int));
        proof {
            vstd::arithmetic::div_mod::lemma_mod_bound(i as int, size as int);
            lemma_next_place(i as int, size as int);
        }
        scratch.set(place, aggregates[i]);
        place = if place + 1 == size { 0 } else { place + 1 };
        i = i + 1;
    }
    assert(aggregates@.take(i as int) =~= aggregates@);
}

proof fn lemma_next_place(i: int, size: int)
    requires
        0 <= i,
        0 < size,
    ensures
        (i + 1) % size == if i % size + 1 == size {
            0
        } else {
            i % size + 1
        },
{
    let q = i / size;
    let r = i % size;
    vstd::arithmetic::div_mod::lemma_fundamental_div_mod(i, size);
    vstd::arithmetic::div_mod::lemma_mod_bound(i, size);
    if r + 1 == size {
        assert(i + 1 == (q + 1) * size) by (nonlinear_arith)
            requires
                i == size * q + r,
                r + 1 == size,
        ;
        vstd::arithmetic::div_mod::lemma_fundamental_div_mod_converse(i + 1, size, q + 1, 0);
    } else {
        assert(i + 1 == q * size + (r + 1)) by (nonlinear_arith)
            requires
                i == size * q + r,
        ;
        vstd::arithmetic::div_mod::lemma_fundamental_div_mod_converse(i + 1, size, q, r + 1);
    }
}

/// What recording a batch does: how many were allowed, what is counted then, and
/// what the handler was handed.
pub open spec fn batch_recorded<H: CountUpdateHandler>(
    before: EngineState,
    after: EngineState,
    rules: Seq<LocalRule>,
    config: RuntimeConfig,
    handlers: (H, H),
    shut_down: bool,
    requests: Seq<TimedHashedLimitRequest>,
    room: nat,
    allowed: usize,
) -> bool {
    if shut_down || room == 0 {
        &&& allowed == 0
        &&& after == before
        &&& handlers.1 == handlers.0
    } else {
        let all = recorded(before, rules, requests);
        &&& after == all.engine
        &&& allowed == all.allowed
        &&& handed_on(
            handlers.0,
            handlers.1,
            batches_due(before, rules, config, shut_down, requests, room),
        )
    }
}

pub open spec fn contents(batches: Seq<Vec<CountAggregate>>) -> Seq<Seq<CountAggregate>> {
    Seq::new(batches.len(), |i: int| batches[i]@)
}

/// Cuts a run into batches of `size`.
fn cut(aggregates: &Vec<CountAggregate>, size: usize) -> (batches: Vec<Vec<CountAggregate>>)
    requires
        size > 0,
    ensures
        contents(batches@) == batched(aggregates@, size as nat),
{
    let n: usize = aggregates.len();
    let mut out: Vec<Vec<CountAggregate>> = Vec::new();
    let mut at: usize = 0;
    assert(aggregates@.skip(0) =~= aggregates@);
    assert(contents(out@) + batched(aggregates@.skip(0), size as nat) =~= batched(
        aggregates@,
        size as nat,
    ));
    while at < n
        invariant
            at <= n == aggregates@.len(),
            size > 0,
            contents(out@) + batched(aggregates@.skip(at as int), size as nat) == batched(
                aggregates@,
                size as nat,
            ),
        decreases n - at,
    {
        let ghost rest = aggregates@.skip(at as int);
        let ghost before = out@;
        let end: usize = if size < n - at { at + size } else { n };
        let mut batch: Vec<CountAggregate> = Vec::new();
        let mut i: usize = at;
        assert(batch@ =~= rest.take(0));
        while i < end
            invariant
                at <= i <= end <= n == aggregates@.len(),
                rest == aggregates@.skip(at as int),
                batch@ == rest.take(i - at),
            decreases end - i,
        {
            batch.push(aggregates[i]);
            assert(batch@ =~= rest.take(i + 1 - at));
            i = i + 1;
        }
        out.push(batch);
        proof {
            let taken = rest.take(end - at);
            let left = aggregates@.skip(end as int);
            assert(contents(out@) =~= contents(before).push(taken));
            if rest.len() <= size {
                assert(taken =~= rest);
                assert(left.len() == 0);
                assert(batched(rest, size as nat) =~= seq![rest]);
                assert(contents(out@) + batched(left, size as nat) =~= contents(before) + batched(
                    rest,
                    size as nat,
                ));
            } else {
                assert(left =~= rest.skip(size as int));
                assert(contents(out@) + batched(left, size as nat) =~= contents(before) + batched(
                    rest,
                    size as nat,
                ));
            }
        }
        at = end;
    }
    assert(contents(out@) =~= batched(aggregates@, size as nat));
    out
}

/// The batches hold exactly the counts that changed, in order.
pub proof fn lemma_batches_keep_all(aggregates: Seq<CountAggregate>, size: nat)
    requires
        size > 0,
    ensures
        batched(aggregates, size).flatten() == aggregates,
        forall|i: int|
            0 <= i < batched(aggregates, size).len() ==> 0 < (#[trigger] batched(
                aggregates,
                size,
            )[i]).len() <= size,
    decreases aggregates.len(),
{
    let batches = batched(aggregates, size);
    if aggregates.len() == 0 {
        assert(batches.flatten() =~= aggregates);
    } else if aggregates.len() <= size {
        assert(batches =~= seq![aggregates]);
        assert(batches.drop_first() =~= Seq::<Seq<CountAggregate>>::empty());
        assert(batches.drop_first().flatten() =~= Seq::<CountAggregate>::empty());
        assert(batches.flatten() =~= aggregates);
    } else {
        let rest = batched(aggregates.skip(size as int), size);
        lemma_batches_keep_all(aggregates.skip(size as int), size);
        assert(batches.drop_first() =~= rest);
        assert(batches.flatten() =~= aggregates.take(size as int) + rest.flatten());
        assert(aggregates.take(size as int) + aggregates.skip(size as int) =~= aggregates);
        assert forall|i: int| 0 <= i < batches.len() implies 0 < (#[trigger] batches[i]).len()
            <= size by {
            if i > 0 {
                assert(batches[i] == rest[i - 1]);
            }
        }
    }
}

pub open spec fn any_oversized(requests: Seq<LimitRequest<'_>>, limits: CardinalityLimits) -> bool {
    exists|i: int|
        0 <= i < requests.len() && cardinality_error(
            (#[trigger] requests[i]).descriptors@,
            limits,
        ) is Some
}

fn has_oversized(requests: &[LimitRequest<'_>], limits: CardinalityLimits) -> (found: bool)
    ensures
        found == any_oversized(requests@, limits),
{
    let mut i: usize = 0;
    while i < requests.len()
        invariant
            i <= requests@.len(),
            forall|j: int|
                0 <= j < i ==> cardinality_error(
                    (#[trigger] requests@[j]).descriptors@,
                    limits,
                ) is None,
        decreases requests@.len() - i,
    {
        if requests[i].validate_cardinality(limits).is_err() {
            assert(cardinality_error(requests@[i as int].descriptors@, limits) is Some);
            return true;
        }
        i = i + 1;
    }
    false
}

fn fill(decisions: &mut Vec<Decision>, n: usize, decision: Decision)
    requires
        n <= old(decisions)@.len(),
    ensures
        final(decisions)@ == Seq::new(n as nat, |i: int| decision) + old(decisions)@.skip(
            n as int,
        ),
{
    let ghost before = decisions@;
    let mut i: usize = 0;
    assert(decisions@ =~= Seq::new(0, |i: int| decision) + before.skip(0));
    while i < n
        invariant
            i <= n <= before.len(),
            decisions@ == Seq::new(i as nat, |i: int| decision) + before.skip(i as int),
        decreases n - i,
    {
        decisions.set(i, decision);
        assert(decisions@ =~= Seq::new((i + 1) as nat, |i: int| decision) + before.skip(i + 1));
        i = i + 1;
    }
}

proof fn lemma_decided_all_len(
    state: EngineState,
    rules: Seq<LocalRule>,
    requests: Seq<LimitRequest<'_>>,
    now: u64,
)
    ensures
        state.decided_all(rules, requests, now).1.len() == requests.len(),
    decreases requests.len(),
{
    if requests.len() > 0 {
        lemma_decided_all_len(state, rules, requests.drop_last(), now);
    }
}

// -- identity ---------------------------------------------------------------

pub open spec fn usable(seed: Option<String>) -> bool {
    seed matches Some(text) && text@.len() > 0
}

/// The identity of a node named `seed`. No node has the number zero.
pub open spec fn seeded_identity(seed: Seq<char>) -> NodeIdentity {
    let hash = stable_hash(encode_utf8(seed));
    NodeIdentity {
        node_id: NodeId(if hash == 0 {
            1
        } else {
            hash
        }),
        incarnation: 1,
    }
}

/// The identity of this node: from the first name that is given and not empty,
/// or the nameless identity. The names are, in order, a name configured for the
/// node, the name of its pod and the name of its host.
pub fn runtime_node_identity(
    node_id: &Option<String>,
    pod_name: &Option<String>,
    host_name: &Option<String>,
) -> (identity: NodeIdentity)
    ensures
        identity == if usable(*node_id) {
            seeded_identity(node_id->0@)
        } else if usable(*pod_name) {
            seeded_identity(pod_name->0@)
        } else if usable(*host_name) {
            seeded_identity(host_name->0@)
        } else {
            NodeIdentity { node_id: NodeId(0), incarnation: 0 }
        },
{
    if let Some(seed) = node_id {
        if seed.as_str().unicode_len() > 0 {
            return identity_for(seed.as_str());
        }
    }
    if let Some(seed) = pod_name {
        if seed.as_str().unicode_len() > 0 {
            return identity_for(seed.as_str());
        }
    }
    if let Some(seed) = host_name {
        if seed.as_str().unicode_len() > 0 {
            return identity_for(seed.as_str());
        }
    }
    NodeIdentity::default()
}

/// The identity of a node named `seed`.
pub fn identity_for(seed: &str) -> (identity: NodeIdentity)
    ensures
        identity == seeded_identity(seed@),
        identity.node_id != NodeId(0),
{
    let hash: u128 = stable_hash_of(seed.as_bytes());
    NodeIdentity { node_id: NodeId(if hash == 0 { 1 } else { hash }), incarnation: 1 }
}

/// Every batch but the last is as large as batches may be.
pub proof fn lemma_batches_full(aggregates: Seq<CountAggregate>, size: nat, i: int)
    requires
        size > 0,
        0 <= i < batched(aggregates, size).len() - 1,
    ensures
        batched(aggregates, size)[i].len() == size,
    decreases aggregates.len(),
{
    if aggregates.len() > size {
        let rest = batched(aggregates.skip(size as int), size);
        if i > 0 {
            lemma_batches_full(aggregates.skip(size as int), size, i - 1);
            assert(batched(aggregates, size)[i] == rest[i - 1]);
        }
    }
}

/// A batch is as large as it was set to be, one at least, and never larger than
/// there is room for.
pub proof fn lemma_batch_fits(config: RuntimeConfig, room: nat)
    requires
        room > 0,
    ensures
        batch_size(config, room) == vstd::math::min(
            vstd::math::max(config.count_update_batch_size as int, 1),
            room as int,
        ),
{
}

/// Requests are recorded one after the other: each finds what those before it left
/// behind, all that were allowed are counted together, and what changed is kept in
/// order.
pub proof fn lemma_recorded_in_turn(
    engine: EngineState,
    rules: Seq<LocalRule>,
    first: Seq<TimedHashedLimitRequest>,
    then: Seq<TimedHashedLimitRequest>,
)
    ensures
        ({
            let a = recorded(engine, rules, first);
            let b = recorded(a.engine, rules, then);
            let both = recorded(engine, rules, first + then);
            &&& both.engine == b.engine
            &&& both.allowed == a.allowed + b.allowed
            &&& both.aggregates == a.aggregates + b.aggregates
        }),
    decreases then.len(),
{
    if then.len() > 0 {
        lemma_recorded_in_turn(engine, rules, first, then.drop_last());
        assert((first + then).drop_last() =~= first + then.drop_last());
    } else {
        assert(first + then =~= first);
    }
}

/// One request is decided as it would be by itself, at its own time. It is counted
/// among the allowed ones if it was, and what it changed is handed on: the count
/// that the cell now holds, under its rule, key and bucket.
pub proof fn lemma_recorded_one(
    engine: EngineState,
    rules: Seq<LocalRule>,
    timed: TimedHashedLimitRequest,
)
    ensures
        ({
            let (after, decision, cell) = engine.decided_hashed(
                rules,
                timed.request,
                timed.now_millis,
            );
            let one = recorded(engine, rules, seq![timed]);
            &&& one.engine == after
            &&& decision == Decision::Allow ==> one.allowed == 1
            &&& decision != Decision::Allow ==> one.allowed == 0
            &&& cell is None ==> one.aggregates.len() == 0
            &&& cell matches Some(cell) ==> {
                &&& one.aggregates.len() == 1
                &&& one.aggregates[0].rule_id == cell.rule_id
                &&& one.aggregates[0].key_hash == cell.key_hash
                &&& one.aggregates[0].bucket_start_millis == cell.bucket_start_millis
                &&& one.aggregates[0].count == cell.count
            }
        }),
{
    reveal_with_fuel(recorded, 2);
    assert(seq![timed].drop_last() =~= Seq::<TimedHashedLimitRequest>::empty());
}

/// A node that was given a name is never the one that was given none, and has the
/// hash of its name for a number unless that is zero.
pub proof fn lemma_named_identity(seed: Seq<char>)
    ensures
        ({
            let hash = stable_hash(encode_utf8(seed));
            let identity = seeded_identity(seed);
            &&& identity.node_id != NodeId(0)
            &&& hash != 0 ==> identity.node_id == NodeId(hash)
            &&& identity.incarnation == 1
        }),
{
}

/// A request that counted is handed on with its rule, key, bucket and count, in a
/// batch of its own; one that did not is not handed on.
pub proof fn lemma_handed_on_alone(cell: LocalCell)
    ensures
        batch_of_one(None).len() == 0,
        ({
            let batches = batch_of_one(Some(cell));
            &&& batches.len() == 1
            &&& batches[0].len() == 1
            &&& batches[0][0].rule_id == cell.rule_id
            &&& batches[0][0].key_hash == cell.key_hash
            &&& batches[0][0].bucket_start_millis == cell.bucket_start_millis
            &&& batches[0][0].count == cell.count
        }),
{
}

/// The batches hold every count that changed, in order; a limiter that is shut
/// down, or has no room for any, hands nothing on and counts nothing.
pub proof fn lemma_all_handed_on<H: CountUpdateHandler>(
    before: EngineState,
    after: EngineState,
    rules: Seq<LocalRule>,
    config: RuntimeConfig,
    handlers: (H, H),
    shut_down: bool,
    requests: Seq<TimedHashedLimitRequest>,
    room: nat,
    allowed: usize,
)
    requires
        batch_recorded(
            before,
            after,
            rules,
            config,
            handlers,
            shut_down,
            requests,
            room,
            allowed,
        ),
    ensures
        shut_down || room == 0 ==> allowed == 0 && after == before && handlers.1 == handlers.0
            && batches_due(before, rules, config, shut_down, requests, room).len() == 0,
        !shut_down && room > 0 ==> {
            &&& batches_due(before, rules, config, shut_down, requests, room).flatten()
                == recorded(before, rules, requests).aggregates
            &&& after == recorded(before, rules, requests).engine
            &&& allowed == recorded(before, rules, requests).allowed
        },
{
    if !shut_down && room > 0 {
        lemma_batch_fits(config, room);
        lemma_batches_keep_all(
            recorded(before, rules, requests).aggregates,
            batch_size(config, room),
        );
    }
}

/// Requests that come together are recorded as of the same moment, in order.
pub proof fn lemma_same_moment(requests: Seq<HashedLimitRequest>, now: u64)
    ensures
        all_at(requests, now).len() == requests.len(),
        forall|i: int|
            0 <= i < requests.len() ==> (#[trigger] all_at(requests, now)[i]).request
                == requests[i] && all_at(requests, now)[i].now_millis == now,
{
}

/// A handler is handed batch after batch: what some batches and then some more make
/// of it is what all of them do.
pub proof fn lemma_handed_in_turn<H: CountUpdateHandler>(
    states: Seq<H>,
    first: Seq<Seq<CountAggregate>>,
    then: Seq<Seq<CountAggregate>>,
)
    requires
        handed_through(states, first + then),
    ensures
        handed_on(states[0], states[first.len() as int], first),
        handed_on(states[first.len() as int], states.last(), then),
        first.len() == 1 ==> H::took(states[0], states[1], first[0]),
        first.len() == 0 && then.len() == 0 ==> states.last() == states[0],
{
    let n = first.len() as int;
    let both = first + then;
    let early = states.take(n + 1);
    let late = states.skip(n);
    assert forall|i: int| 0 <= i < first.len() implies H::took(
        early[i],
        early[i + 1],
        #[trigger] first[i],
    ) by {
        assert(both[i] == first[i]);
    }
    assert forall|i: int| 0 <= i < then.len() implies H::took(
        late[i],
        late[i + 1],
        #[trigger] then[i],
    ) by {
        assert(both[n + i] == then[i]);
    }
    assert(handed_through(early, first));
    assert(handed_through(late, then));
    assert(early.last() == states[n]);
    assert(late.last() == states.last());
    assert(early[0] == states[0] && late[0] == states[n]);
    if first.len() == 1 {
        assert(both[0] == first[0]);
    }
}

} // verus!
