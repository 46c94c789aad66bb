use gabion::cells::{
    digest_cells, CellTable, CellTableFull, CounterCell, DirtyEntry, DirtyRing, NodeId,
};
use gabion::engine::{LocalEngine, LocalRule, OverflowPolicy, SafetyMargin, WindowSpec};
use gabion::requests::{Decision, LimitRequest, RejectReason};
use gabion::rules::{hash_domain, hash_key, Descriptor, DescriptorPattern, EnforcementMode};

fn cell(count: u64, origin: u64) -> CounterCell {
    CounterCell {
        rule_id: 1,
        key_hash_hi: 10,
        key_hash_lo: 20,
        bucket_start_millis: 0,
        origin_node_id: NodeId { hi: 0, lo: origin },
        origin_incarnation: 1,
        count,
        last_update_millis: count,
        sequence: 0,
    }
}

fn rule() -> LocalRule {
    LocalRule {
        id: 1,
        domain_hash: hash_domain("api"),
        descriptors: vec![DescriptorPattern {
            key: "tenant".to_string(),
            value: "*".to_string(),
        }],
        limit: 10,
        window: WindowSpec {
            size_millis: 1_000,
            bucket_count: 10,
        },
        local_fallback_limit: 3,
        local_absolute_limit: 6,
        stale_after_millis: 500,
        safety_margin: SafetyMargin { hits: 0 },
        overflow_policy: OverflowPolicy::UseOverflowKey,
        mode: EnforcementMode::Enforce,
    }
}

#[test]
fn merge_remote_is_monotonic() {
    let mut table = CellTable::with_capacity(4, 8);

    let first = table.merge_remote(cell(5, 1), None, 0).expect("insert");
    let stale = table.merge_remote(cell(3, 1), None, 0).expect("stale");
    let newer = table.merge_remote(cell(8, 1), None, 0).expect("newer");

    assert_eq!(first.delta, 5);
    assert_eq!(stale.delta, 0);
    assert!(!stale.changed);
    assert_eq!(newer.delta, 3);
    assert_eq!(table.active_cell_count(), 1);
}

#[test]
fn merge_remote_is_idempotent_commutative_and_associative() {
    fn merged_counts(cells: &[CounterCell]) -> Vec<(u64, u64)> {
        let mut table = CellTable::with_capacity(8, 16);
        for cell in cells {
            table.merge_remote(*cell, None, 0).expect("merge");
        }
        let mut counts = table
            .cells()
            .into_iter()
            .map(|(_id, cell)| (cell.origin_node_id.lo, cell.count))
            .collect::<Vec<_>>();
        counts.sort();
        counts
    }

    let a1 = cell(3, 1);
    let a2 = cell(7, 1);
    let b1 = cell(5, 2);
    let b2 = cell(9, 2);

    assert_eq!(
        merged_counts(&[a1, a2, b1, b2]),
        merged_counts(&[a2, a2, b2, b2])
    );
    assert_eq!(
        merged_counts(&[a1, b1, a2, b2]),
        merged_counts(&[b1, b2, a1, a2])
    );
    assert_eq!(
        merged_counts(&[a1, b1, a2, b2]),
        merged_counts(&[a1, a2, b1, b2])
    );
}

#[test]
fn dirty_ring_records_overflow() {
    let mut table = CellTable::with_capacity(4, 1);

    table.merge_remote(cell(1, 1), None, 0).expect("insert one");
    table.merge_remote(cell(1, 2), None, 0).expect("insert two");

    assert!(table.dirty_overflowed());
    assert_eq!(table.dirty_cells().len(), 1);
}

#[test]
fn digest_changes_when_counts_change() {
    let mut table = CellTable::with_capacity(4, 8);
    table.merge_remote(cell(1, 1), None, 0).expect("insert");
    let before = table.digest(0, 1);
    table.merge_remote(cell(2, 1), None, 0).expect("update");
    let after = table.digest(0, 1);

    assert_eq!(before.active_cell_count, 1);
    assert_ne!(before.checksum, after.checksum);
    assert!(after.max_sequence > before.max_sequence);
}

#[test]
fn cell_table_reports_memory_pressure_without_growth() {
    let mut table = CellTable::with_capacity(1, 2);

    assert!(table.merge_remote(cell(1, 1), None, 0).is_ok());
    assert_eq!(table.merge_remote(cell(1, 2), None, 0), Err(CellTableFull));
    assert_eq!(table.capacity(), 1);
    assert_eq!(table.active_cell_count(), 1);
}

#[test]
fn simulation_merges_remote_counts_into_local_engine_estimates() {
    let descriptors = [Descriptor {
        key: "tenant",
        value: "a",
    }];
    let request = LimitRequest {
        domain: "api",
        descriptors: &descriptors,
        hits: 1,
    };
    let key_hash = hash_key(1, request.domain, request.descriptors);
    let remote = CounterCell {
        rule_id: 1,
        key_hash_hi: (key_hash.0 >> 64) as u64,
        key_hash_lo: key_hash.0 as u64,
        bucket_start_millis: 0,
        origin_node_id: NodeId { hi: 0, lo: 2 },
        origin_incarnation: 1,
        count: 10,
        last_update_millis: 0,
        sequence: 0,
    };
    let mut table = CellTable::with_capacity(8, 8);
    let mut engine = LocalEngine::new(vec![rule()], 16, 10);

    table
        .merge_remote(remote, Some(&mut engine), 0)
        .expect("merge");

    assert_eq!(
        engine.check_and_record(request, 1),
        Decision::Reject(RejectReason::GlobalLimit)
    );
}

#[test]
fn merge_tells_the_engine_only_what_is_new() {
    let descriptors = [Descriptor {
        key: "tenant",
        value: "a",
    }];
    let request = LimitRequest {
        domain: "api",
        descriptors: &descriptors,
        hits: 1,
    };
    let key_hash = hash_key(1, request.domain, request.descriptors);
    let mut remote = cell(4, 2);
    remote.key_hash_hi = (key_hash.0 >> 64) as u64;
    remote.key_hash_lo = key_hash.0 as u64;
    let mut table = CellTable::with_capacity(8, 8);
    let mut engine = LocalEngine::new(vec![rule()], 16, 10);

    let first = table.merge_remote(remote, Some(&mut engine), 0).expect("merge");
    let again = table.merge_remote(remote, Some(&mut engine), 0).expect("merge");
    remote.count = 9;
    let more = table.merge_remote(remote, Some(&mut engine), 0).expect("merge");

    assert_eq!((first.delta, first.changed), (4, true));
    assert_eq!((again.delta, again.changed), (0, false));
    assert_eq!((more.delta, more.changed), (5, true));
    assert_eq!(engine.check_and_record(request, 1), Decision::Allow);
    assert_eq!(
        engine.check_and_record(request, 1),
        Decision::Reject(RejectReason::GlobalLimit)
    );
}

#[test]
fn local_cells_add_up() {
    let mut table = CellTable::with_capacity(2, 4);
    let id = table.upsert_local(cell(5, 1)).expect("room");
    assert_eq!(table.upsert_local(cell(3, 1)), Ok(id));
    assert_eq!(table.active_cell_count(), 1);
    assert_eq!(table.cells()[id].1.count, 8);
    table.upsert_local(cell(1, 2)).expect("room");
    assert_eq!(table.upsert_local(cell(1, 3)), Err(CellTableFull));
}

#[test]
fn ring_forgets_the_oldest_and_says_so() {
    let mut ring = DirtyRing::with_capacity(2);
    assert!(ring.is_empty());
    for k in 0..3 {
        ring.push(DirtyEntry {
            cell_id: k,
            sequence: k as u64,
        });
    }
    assert_eq!(ring.len(), 2);
    assert!(ring.overflowed());
    let mut kept: Vec<usize> = ring.iter().iter().map(|entry| entry.cell_id).collect();
    kept.sort();
    assert_eq!(kept, vec![1, 2]);
}

#[test]
fn digests_tell_shards_apart() {
    let cells = [cell(5, 1), cell(6, 2)];
    let whole = digest_cells(&cells, 0, 1);
    assert_eq!(whole.active_cell_count, 2);
    let left = digest_cells(&cells, 0, 2);
    let right = digest_cells(&cells, 1, 2);
    assert_eq!(left.active_cell_count + right.active_cell_count, 2);
}
