use std::cell::RefCell;
use std::rc::Rc;

use gabion::config::{
    Config, DescriptorConfig, DiscoveryConfig, GossipConfig, LimitRuleConfig, RuntimeConfig,
    SafetyMarginConfig, ServerConfig, StorageConfig,
};
use gabion::crdt::{KeyHash, NodeId, NodeIdentity};
use gabion::discovery::DiscoveryMode;
use gabion::engine::{LocalEngine, OverflowPolicy};
use gabion::limiter::{
    identity_for, runtime_node_identity, ApplyBatchOutcome, CountAggregate, CountUpdateHandler,
    NoOpCountUpdateHandler, Runtime,
};
use gabion::requests::{
    CardinalityError, CardinalityLimits, Decision, HashedLimitRequest, LimitRequest, RejectReason,
    TimedHashedLimitRequest,
};
use gabion::rules::{Descriptor, EnforcementMode, RuleTable};

fn tenant_rule(limit: u64, local_fallback_limit: u64, local_absolute_limit: u64) -> LimitRuleConfig {
    LimitRuleConfig {
        name: "tenant_api_minute".to_string(),
        domain: "api".to_string(),
        descriptors: vec![DescriptorConfig {
            key: "tenant".to_string(),
            value: "*".to_string(),
        }],
        limit,
        window: "60s".to_string(),
        bucket: "1s".to_string(),
        local_fallback_limit,
        local_absolute_limit,
        stale_after: "2s".to_string(),
        safety_margin: SafetyMarginConfig::default(),
        overflow_policy: OverflowPolicy::UseOverflowKey,
        mode: EnforcementMode::Enforce,
    }
}

fn test_config() -> Config {
    Config {
        storage: StorageConfig {
            max_cells: Some(64),
            dirty_ring_entries: Some(64),
            ..StorageConfig::with_max_keys(16)
        },
        limits: vec![tenant_rule(1, 100, 100)],
        runtime: RuntimeConfig::default(),
        server: ServerConfig::default(),
        discovery: DiscoveryConfig {
            kind: DiscoveryMode::Off,
            ..Default::default()
        },
        gossip: GossipConfig::default(),
    }
}

fn identity(node: u64) -> NodeIdentity {
    NodeIdentity {
        node_id: NodeId(u128::from(node)),
        incarnation: 1,
    }
}

fn engine_with_node(node: u64) -> LocalEngine {
    test_config()
        .into_engine_with_identity(identity(node))
        .expect("engine")
}

fn request<'a>(descriptors: &'a [Descriptor<'a>]) -> LimitRequest<'a> {
    LimitRequest {
        domain: "api",
        descriptors,
        hits: 1,
    }
}

fn record_tenant(limiter: &mut LocalEngine, tenant: &str, now_millis: u64) {
    let descriptors = [Descriptor {
        key: "tenant",
        value: tenant,
    }];
    assert_eq!(
        limiter.check_and_record(request(&descriptors), now_millis),
        Decision::Allow
    );
}

#[derive(Clone, Debug, Default)]
struct RecordingCountHandler {
    batch_sizes: Rc<RefCell<Vec<usize>>>,
}

impl CountUpdateHandler for RecordingCountHandler {
    fn apply_batch(&mut self, aggregates: &Vec<CountAggregate>) -> ApplyBatchOutcome {
        self.batch_sizes.borrow_mut().push(aggregates.len());
        ApplyBatchOutcome {
            applied: aggregates.len(),
            dropped: 0,
        }
    }
}

#[test]
fn runtime_publishes_count_aggregates_in_configured_batches() {
    let mut config = test_config();
    config.runtime.count_update_batch_size = 2;
    let handler = RecordingCountHandler::default();
    let seen = Rc::clone(&handler.batch_sizes);
    let mut runtime = Runtime::with_count_update_handler(config, identity(1), handler)
        .expect("runtime with handler");
    let requests = vec![
        TimedHashedLimitRequest::new(HashedLimitRequest::new(1, 1_u128, 1), 0),
        TimedHashedLimitRequest::new(HashedLimitRequest::new(1, 2_u128, 1), 0),
        TimedHashedLimitRequest::new(HashedLimitRequest::new(1, 3_u128, 1), 0),
    ];
    let mut scratch = vec![CountAggregate::default(); 3];

    let recorded = runtime.record_timed_hashed_batch(&requests, &mut scratch);

    assert_eq!(recorded, 3);
    assert_eq!(*seen.borrow(), vec![2, 1]);
}

/// The scratch space is filled batch by batch, from its start.
#[test]
fn scratch_holds_the_latest_batches() {
    let mut config = test_config();
    config.runtime.count_update_batch_size = 2;
    let mut runtime = Runtime::new(config, identity(1)).expect("runtime");
    let requests: Vec<TimedHashedLimitRequest> = (1..4)
        .map(|key| TimedHashedLimitRequest::new(HashedLimitRequest::new(1, key, 1), 0))
        .collect();
    let aggregate = |key: u128| CountAggregate {
        rule_id: 1,
        key_hash: KeyHash(key),
        bucket_start_millis: 0,
        count: 1,
    };
    let mut scratch = vec![CountAggregate::default(); 3];
    assert_eq!(runtime.record_timed_hashed_batch(&requests, &mut scratch), 3);
    assert_eq!(scratch, vec![aggregate(3), aggregate(2), CountAggregate::default()]);
    runtime.shutdown();
    let mut untouched = vec![CountAggregate::default(); 3];
    assert_eq!(runtime.record_timed_hashed_batch(&requests, &mut untouched), 0);
    assert_eq!(untouched, vec![CountAggregate::default(); 3]);
}

#[test]
fn runtime_does_not_publish_count_aggregates_after_shutdown() {
    let mut config = test_config();
    config.runtime.count_update_batch_size = 1;
    let handler = RecordingCountHandler::default();
    let seen = Rc::clone(&handler.batch_sizes);
    let mut runtime = Runtime::with_count_update_handler(config, identity(1), handler)
        .expect("runtime with handler");
    runtime.shutdown();
    let requests = vec![TimedHashedLimitRequest::new(
        HashedLimitRequest::new(1, 1_u128, 1),
        0,
    )];
    let mut scratch = vec![CountAggregate::default(); 1];

    let recorded = runtime.record_timed_hashed_batch(&requests, &mut scratch);

    assert_eq!(recorded, 0);
    assert!(seen.borrow().is_empty());
}

#[test]
fn admin_storage_summary_reports_cells_and_dirty_ring() {
    let mut limiter = engine_with_node(1);
    record_tenant(&mut limiter, "a", 0);

    let storage = limiter.storage_summary();

    assert_eq!(storage.active_keys, 1);
    assert_eq!(storage.active_cells, 1);
    assert_eq!(storage.max_keys, 16);
    assert_eq!(storage.max_cells, 64);
    assert_eq!(storage.dirty_ring_len, 1);
    assert!(!storage.dirty_overflow);
    assert!(storage.estimated_memory_bytes > 0);
}

#[test]
fn over_the_limit_is_rejected_and_not_counted() {
    let mut config = test_config();
    config.limits = vec![tenant_rule(3, 2, 10)];
    let mut engine = config.into_engine_with_identity(identity(1)).expect("engine");
    let descriptors = [Descriptor {
        key: "tenant",
        value: "a",
    }];
    assert_eq!(engine.check_and_record(request(&descriptors), 0), Decision::Allow);
    assert_eq!(engine.check_and_record(request(&descriptors), 0), Decision::Allow);
    assert_eq!(
        engine.check_and_record(request(&descriptors), 0),
        Decision::Reject(RejectReason::LocalFallbackLimit)
    );
    assert_eq!(engine.cells()[0].count, 2);
}

#[test]
fn the_hard_cap_of_a_node_comes_first() {
    let mut config = test_config();
    config.limits = vec![tenant_rule(100, 100, 1)];
    let mut engine = config.into_engine_with_identity(identity(1)).expect("engine");
    let descriptors = [Descriptor {
        key: "tenant",
        value: "a",
    }];
    assert_eq!(engine.check_and_record(request(&descriptors), 0), Decision::Allow);
    assert_eq!(
        engine.check_and_record(request(&descriptors), 0),
        Decision::Reject(RejectReason::LocalAbsoluteLimit)
    );
}

#[test]
fn a_dry_run_counts_and_rejects_nothing() {
    let mut config = test_config();
    config.limits[0].mode = EnforcementMode::DryRun;
    let mut engine = config.into_engine_with_identity(identity(1)).expect("engine");
    let descriptors = [Descriptor {
        key: "tenant",
        value: "a",
    }];
    for _ in 0..3 {
        assert_eq!(engine.check_and_record(request(&descriptors), 0), Decision::Allow);
    }
    assert_eq!(engine.cells()[0].count, 3);
}

#[test]
fn a_new_window_starts_from_nothing() {
    let mut config = test_config();
    config.limits = vec![tenant_rule(10, 1, 10)];
    let mut runtime = Runtime::new(config, identity(1)).expect("runtime");
    let descriptors = [Descriptor {
        key: "tenant",
        value: "a",
    }];
    let first = runtime.record_at(request(&descriptors), 0);
    let again = runtime.record_at(request(&descriptors), 59_000);
    let later = runtime.record_at(request(&descriptors), 120_000);
    assert_eq!(first, Decision::Allow);
    assert_eq!(again, Decision::Reject(RejectReason::LocalFallbackLimit));
    assert_eq!(later, Decision::Allow);
}

#[test]
fn batches_are_decided_together() {
    let mut runtime = Runtime::new(test_config(), identity(1)).expect("runtime");
    let a = [Descriptor {
        key: "tenant",
        value: "a",
    }];
    let b = [Descriptor {
        key: "tenant",
        value: "b",
    }];
    let requests = [request(&a), request(&a), request(&b)];
    let mut decisions = vec![Decision::Reject(RejectReason::GlobalLimit); 3];
    assert_eq!(runtime.record_all_at(&requests, &mut decisions, 0), 3);
    assert_eq!(decisions, vec![Decision::Allow; 3]);
}

#[test]
fn hashed_requests_share_counts() {
    let mut config = test_config();
    config.limits = vec![tenant_rule(10, 1, 10)];
    let mut runtime = Runtime::new(config, identity(1)).expect("runtime");
    let request = HashedLimitRequest::new(1, 77, 1);
    assert_eq!(runtime.record_hashed_at(request, 0), Decision::Allow);
    assert_eq!(
        runtime.record_hashed_at(request, 1),
        Decision::Reject(RejectReason::LocalFallbackLimit)
    );
    let mut scratch = vec![CountAggregate::default(); 2];
    let batch = vec![request, HashedLimitRequest::new(1, 78, 1)];
    assert_eq!(runtime.record_hashed_batch_at(&batch, &mut scratch, 2), 1);
    assert_eq!(runtime.limiter().active_keys(), 2);
    assert!(!runtime.gossip_enabled());
}

#[test]
fn requests_are_bounded_before_they_are_hashed() {
    let limits = CardinalityLimits {
        max_descriptor_count: 1,
        max_descriptor_bytes: 12,
        max_key_bytes: 6,
    };
    let fine = [Descriptor {
        key: "tenant",
        value: "a",
    }];
    assert_eq!(request(&fine).validate_cardinality(limits), Ok(()));
    let two = [fine[0], fine[0]];
    assert_eq!(
        request(&two).validate_cardinality(limits),
        Err(CardinalityError::TooManyDescriptors)
    );
    let long_key = [Descriptor {
        key: "tenants",
        value: "a",
    }];
    assert_eq!(
        request(&long_key).validate_cardinality(limits),
        Err(CardinalityError::KeyTooLong)
    );
    let long_value = [Descriptor {
        key: "tenant",
        value: "abcdefghijkl",
    }];
    assert_eq!(
        request(&long_value).validate_cardinality(limits),
        Err(CardinalityError::DescriptorTooLong)
    );
}

#[test]
fn a_node_is_known_by_what_it_is_told() {
    let told = Some("node-a".to_string());
    let pod = Some("pod-b".to_string());
    let absent: Option<String> = None;
    let first = runtime_node_identity(&told, &pod, &absent);
    assert_eq!(first, identity_for("node-a"));
    assert_eq!(runtime_node_identity(&absent, &pod, &absent), identity_for("pod-b"));
    assert_ne!(identity_for("node-a"), identity_for("pod-b"));
}

#[test]
fn a_zero_bucket_is_no_runtime() {
    let mut config = test_config();
    config.limits[0].bucket = "0s".to_string();
    assert!(Runtime::try_new(config, identity(1), NoOpCountUpdateHandler).is_none());
    assert!(Runtime::try_new(test_config(), identity(1), NoOpCountUpdateHandler).is_some());
}

#[test]
fn every_rule_that_applies_has_a_say() {
    let mut config = test_config();
    let mut wide = tenant_rule(100, 100, 100);
    wide.name = "wide".to_string();
    let mut narrow = tenant_rule(100, 2, 100);
    narrow.name = "narrow".to_string();
    let mut canary = tenant_rule(0, 0, 0);
    canary.name = "canary".to_string();
    canary.mode = EnforcementMode::DryRun;
    config.limits = vec![wide, narrow, canary];
    let mut engine = config.into_engine_with_identity(identity(1)).expect("engine");
    record_tenant(&mut engine, "a", 1_000);
    record_tenant(&mut engine, "a", 1_001);
    let before = engine.cells();
    let descriptors = [Descriptor { key: "tenant", value: "a" }];
    assert_eq!(
        engine.check_and_record(request(&descriptors), 1_002),
        Decision::Reject(RejectReason::LocalFallbackLimit),
    );
    assert_eq!(engine.cells(), before);
    assert_eq!(before.iter().map(|cell| cell.count).collect::<Vec<u64>>(), vec![2, 2, 2]);
    let other = [Descriptor { key: "zone", value: "a" }];
    assert_eq!(engine.check_and_record(request(&other), 1_003), Decision::Allow);
    assert_eq!(engine.cells(), before);
}

#[test]
fn an_enforced_cap_is_kept() {
    let mut config = test_config();
    config.limits = vec![tenant_rule(100, 100, 10)];
    let mut engine = config.into_engine_with_identity(identity(1)).expect("engine");
    let mut allowed = 0;
    for step in 0..40_u64 {
        let hits = step % 4 + 1;
        let request = HashedLimitRequest::new(1, 77, hits);
        let (decision, cell) = engine.check_and_record_hashed_with_cell(request, 5_000 + step);
        if decision == Decision::Allow {
            allowed += hits;
            assert_eq!(cell.map(|cell| cell.count), Some(allowed));
        } else {
            assert!(cell.is_none());
        }
    }
    assert_eq!(allowed, 10);
}

#[test]
fn a_rule_table_starts_empty() {
    let table = RuleTable::default();
    assert_eq!(table, RuleTable::new(Vec::new()));
    assert!(table.iter().is_empty());
}
