//! The cell store.

use gabion::crdt::{
    AggregateKey, CellHandle, CellStore, CellStoreConfig, DeltaSink, ExpirationSink, KeyHash, NodeId,
    NodeIdentity, Observation, ObservationBatch, RuleDescriptor,
};

const RULE: u128 = 0xFEED;

fn store() -> CellStore<u32> {
    CellStore::new(CellStoreConfig::default(), NodeIdentity::new(NodeId(1), 1))
}

fn seen(origin: u128, key: u128, bucket: u32, count: u32) -> Observation<u32> {
    Observation {
        rule_fingerprint: RULE,
        key_hash: KeyHash(key),
        bucket,
        origin: NodeId(origin),
        incarnation: 1,
        count,
        last_update_millis: 0,
    }
}

fn batch(rows: &[Observation<u32>]) -> ObservationBatch<u32> {
    let mut batch = ObservationBatch::with_capacity(rows.len());
    for row in rows {
        batch.push(*row);
    }
    batch
}

/// Merges rows and gives back the increases.
fn merge(store: &mut CellStore<u32>, rows: &[Observation<u32>]) -> Vec<(u128, u32)> {
    let mut sink = DeltaSink::with_capacity(rows.len());
    store.merge_remote(&batch(rows), &mut sink);
    (0..sink.len()).map(|i| (sink.keys[i].key_hash.0, sink.deltas[i])).collect()
}

/// The counts by key and origin slot, in order.
fn cells(store: &CellStore<u32>) -> Vec<(u128, u128, u32)> {
    let mut cells: Vec<(u128, u128, u32)> = store
        .active_handles()
        .iter()
        .map(|handle| {
            let row = store.get(*handle).unwrap();
            let origin = store.node_dictionary().descriptor(row.key.origin).unwrap();
            (row.key.key_hash.0, origin.node_id.0, row.count)
        })
        .collect();
    cells.sort();
    cells
}

#[test]
fn merge_takes_the_larger_count() {
    let mut store = store();
    assert_eq!(merge(&mut store, &[seen(9, 1, 0, 5)]), vec![(1, 5)]);
    assert_eq!(merge(&mut store, &[seen(9, 1, 0, 3)]), vec![]);
    assert_eq!(merge(&mut store, &[seen(9, 1, 0, 8)]), vec![(1, 3)]);
    assert_eq!(cells(&store), vec![(1, 9, 8)]);
}

#[test]
fn merge_twice_is_merge_once() {
    let rows = [seen(9, 1, 0, 5), seen(8, 1, 0, 2), seen(9, 2, 1, 7)];
    let mut store = store();
    assert_eq!(merge(&mut store, &rows).len(), 3);
    let once = cells(&store);
    assert_eq!(merge(&mut store, &rows), vec![]);
    assert_eq!(cells(&store), once);
}

#[test]
fn merge_order_does_not_matter() {
    let rows = [seen(9, 1, 0, 5), seen(8, 1, 0, 2), seen(9, 1, 0, 7), seen(9, 2, 1, 7)];
    let mut forward = store();
    merge(&mut forward, &rows);
    let mut backward = store();
    let mut reversed = rows;
    reversed.reverse();
    merge(&mut backward, &reversed);
    assert_eq!(cells(&forward), cells(&backward));
}

#[test]
fn own_hits_add_up() {
    let mut store = store();
    let mut sink = DeltaSink::with_capacity(2);
    store.ingest_local(&batch(&[seen(1, 1, 0, 5), seen(1, 1, 0, 3)]), &mut sink);
    assert_eq!(sink.deltas, vec![5, 3]);
    assert_eq!(cells(&store), vec![(1, 1, 8)]);
    assert_eq!(store.local_dirty_len(), 1);
    assert_eq!(store.forwarded_dirty_len(), 0);
}

#[test]
fn own_hits_saturate() {
    let mut store = store();
    let mut sink = DeltaSink::with_capacity(2);
    store.ingest_local(&batch(&[seen(1, 1, 0, u32::MAX), seen(1, 1, 0, 3)]), &mut sink);
    assert_eq!(cells(&store), vec![(1, 1, u32::MAX)]);
    assert_eq!(sink.deltas.iter().map(|d| *d as u64).sum::<u64>(), u32::MAX as u64);
}

#[test]
fn old_buckets_expire() {
    let mut store = store();
    store
        .intern_rule(RuleDescriptor {
            fingerprint: RULE,
            window_millis: 200,
            bucket_millis: 100,
            limit: 1,
            flags: 0,
            local_rule_id: 0,
        })
        .unwrap();
    merge(&mut store, &[seen(9, 1, 0, 5), seen(9, 1, 3, 6)]);
    let mut sink = ExpirationSink::with_capacity(2);
    store.expire_at(350, &mut sink);
    assert_eq!(sink.len(), 1);
    assert_eq!(
        sink.keys[0],
        AggregateKey { rule_fingerprint: RULE, key_hash: KeyHash(1), bucket: 0 },
    );
    assert_eq!(sink.last_counts, vec![5]);
    assert_eq!(store.active_len(), 1);
    // A handle of a dropped cell finds nothing, not even in a reused slot.
    let handle = store.active_handles()[0];
    store.expire_at(10_000, &mut sink);
    assert!(store.is_empty());
    merge(&mut store, &[seen(9, 2, 100, 1)]);
    assert!(store.get(handle).is_none() || store.get(handle).unwrap().key.key_hash == KeyHash(1));
}

#[test]
fn full_store_takes_no_more_cells() {
    let config = CellStoreConfig { cell_capacity: 2, ..CellStoreConfig::default() };
    let mut store: CellStore<u32> = CellStore::new(config, NodeIdentity::new(NodeId(1), 1));
    let rows = [seen(9, 1, 0, 1), seen(9, 2, 0, 1), seen(9, 3, 0, 1)];
    assert_eq!(merge(&mut store, &rows), vec![(1, 1), (2, 1)]);
    let stats = store.stats();
    assert_eq!((stats.active_cells, stats.cell_capacity), (2, 2));
    assert_eq!(merge(&mut store, &[seen(9, 2, 0, 4)]), vec![(2, 3)]);
}

#[test]
fn full_dictionary_takes_no_more_rules() {
    let config = CellStoreConfig { rule_dictionary_capacity: 1, ..CellStoreConfig::default() };
    let mut store: CellStore<u32> = CellStore::new(config, NodeIdentity::new(NodeId(1), 1));
    assert!(store.intern_rule(RuleDescriptor::wire_only(1)).is_some());
    assert!(store.intern_rule(RuleDescriptor::wire_only(1)).is_some());
    assert!(store.intern_rule(RuleDescriptor::wire_only(2)).is_none());
    assert_eq!(merge(&mut store, &[seen(9, 1, 0, 1)]), vec![]);
}

/// The keys of the cells that a frame names.
fn keys(store: &CellStore<u32>, frame: &[CellHandle]) -> Vec<u128> {
    frame.iter().map(|handle| store.get(*handle).unwrap().key.key_hash.0).collect()
}

#[test]
fn frames_leave_out_what_a_peer_has() {
    let mut store = store();
    let mut sink = DeltaSink::with_capacity(4);
    store.ingest_local(&batch(&[seen(1, 1, 0, 5)]), &mut sink);
    let first = store.get(store.active_handles()[0]).unwrap();
    let peer = store.intern_peer(NodeId(42)).unwrap();
    assert_eq!(store.intern_peer(NodeId(42)), Some(peer));
    store.record_acked(peer, first.key.origin, first.origin_sequence);
    store.ingest_local(&batch(&[seen(1, 2, 0, 3)]), &mut sink);
    let mut frame = Vec::new();
    store.fill_gossip_frame_for_peer(1, peer, &mut frame);
    assert_eq!(keys(&store, &frame), vec![2]);
    // What was announced is not dirty any more: room goes to other live cells.
    store.fill_gossip_frame_for_peer(16, peer, &mut frame);
    assert_eq!(keys(&store, &frame), vec![1, 2]);
    assert_eq!(store.local_dirty_len(), 0);
}

#[test]
fn forgotten_peers_are_told_again() {
    let mut store = store();
    let mut sink = DeltaSink::with_capacity(4);
    store.ingest_local(&batch(&[seen(1, 1, 0, 5)]), &mut sink);
    let first = store.get(store.active_handles()[0]).unwrap();
    let peer = store.intern_peer(NodeId(42)).unwrap();
    store.record_acked(peer, first.key.origin, first.origin_sequence);
    store.remove_peer(NodeId(42));
    let peer = store.intern_peer(NodeId(42)).unwrap();
    store.ingest_local(&batch(&[seen(1, 2, 0, 3)]), &mut sink);
    let mut frame = Vec::new();
    store.fill_gossip_frame_for_peer(1, peer, &mut frame);
    assert_eq!(keys(&store, &frame), vec![1]);
}

#[test]
fn frames_are_bounded() {
    let mut store = store();
    let rows: Vec<Observation<u32>> = (0..10).map(|key| seen(9, key, 0, 1)).collect();
    merge(&mut store, &rows);
    let mut frame = Vec::new();
    store.fill_gossip_frame(4, &mut frame);
    assert_eq!(frame.len(), 4);
}

#[test]
fn identity_is_kept() {
    let store = store();
    assert_eq!(store.local_identity(), NodeIdentity::new(NodeId(1), 1));
    assert_eq!(store.rule_dictionary().len(), 0);
    assert_eq!(store.stats().rules, 0);
}

/// Two stores that tell each other everything agree.
#[test]
fn exchange_converges() {
    let mut a = store();
    let mut b: CellStore<u32> =
        CellStore::new(CellStoreConfig::default(), NodeIdentity::new(NodeId(2), 1));
    let mut sink = DeltaSink::with_capacity(4);
    a.ingest_local(&batch(&[seen(1, 1, 0, 5), seen(1, 2, 0, 1)]), &mut sink);
    b.ingest_local(&batch(&[seen(2, 1, 0, 7)]), &mut sink);
    merge(&mut b, &[seen(1, 1, 0, 4)]);
    let from_a: Vec<Observation<u32>> =
        cells(&a).into_iter().map(|(key, origin, count)| seen(origin, key, 0, count)).collect();
    let from_b: Vec<Observation<u32>> =
        cells(&b).into_iter().map(|(key, origin, count)| seen(origin, key, 0, count)).collect();
    merge(&mut a, &from_b);
    merge(&mut b, &from_a);
    assert_eq!(cells(&a), cells(&b));
    assert_eq!(cells(&a), vec![(1, 1, 5), (1, 2, 7), (2, 1, 1)]);
}
