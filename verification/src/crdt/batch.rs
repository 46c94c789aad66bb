//! Column-oriented batches: observations going into the store, deltas and
//! expirations coming out of it.

use super::{BucketEpoch, Count, Incarnation, KeyHash, NodeId};
use vstd::prelude::*;

verus! {

/// One origin's counter as somebody reported it.
#[derive(Copy, Debug)]
pub struct Observation<C: Count> {
    pub rule_fingerprint: u128,
    pub key_hash: KeyHash,
    pub bucket: BucketEpoch,
    pub origin: NodeId,
    pub incarnation: Incarnation,
    pub count: C,
    pub last_update_millis: u64,
}

impl<C: Count> Clone for Observation<C> {
    fn clone(&self) -> (observation: Self)
        ensures
            observation == *self,
    {
        *self
    }
}

/// Observations by column. `origin_sequences` holds the origin's own sequence
/// number of each row, or `0` where none was reported.
pub struct ObservationBatch<C: Count> {
    pub rule_fingerprints: Vec<u128>,
    pub key_hashes: Vec<KeyHash>,
    pub buckets: Vec<BucketEpoch>,
    pub origin_node_ids: Vec<NodeId>,
    pub incarnations: Vec<Incarnation>,
    pub counts: Vec<C>,
    pub last_update_millis: Vec<u64>,
    pub origin_sequences: Vec<u64>,
}

impl<C: Count> ObservationBatch<C> {
    /// All columns have the same length.
    pub open spec fn wf(&self) -> bool {
        let n = self.rule_fingerprints@.len();
        &&& self.key_hashes@.len() == n
        &&& self.buckets@.len() == n
        &&& self.origin_node_ids@.len() == n
        &&& self.incarnations@.len() == n
        &&& self.counts@.len() == n
        &&& self.last_update_millis@.len() == n
        &&& self.origin_sequences@.len() == n
    }

    /// The rows, first pushed first.
    pub open spec fn view(&self) -> Seq<Observation<C>> {
        Seq::new(
            self.rule_fingerprints@.len(),
            |i: int|
                Observation {
                    rule_fingerprint: self.rule_fingerprints@[i],
                    key_hash: self.key_hashes@[i],
                    bucket: self.buckets@[i],
                    origin: self.origin_node_ids@[i],
                    incarnation: self.incarnations@[i],
                    count: self.counts@[i],
                    last_update_millis: self.last_update_millis@[i],
                },
        )
    }

    pub fn with_capacity(capacity: usize) -> (batch: Self)
        ensures
            batch.wf(),
            batch@ == Seq::<Observation<C>>::empty(),
            batch.origin_sequences@ == Seq::<u64>::empty(),
    {
        let batch = ObservationBatch {
            rule_fingerprints: Vec::with_capacity(capacity),
            key_hashes: Vec::with_capacity(capacity),
            buckets: Vec::with_capacity(capacity),
            origin_node_ids: Vec::with_capacity(capacity),
            incarnations: Vec::with_capacity(capacity),
            counts: Vec::with_capacity(capacity),
            last_update_millis: Vec::with_capacity(capacity),
            origin_sequences: Vec::with_capacity(capacity),
        };
        assert(batch@ =~= Seq::<Observation<C>>::empty());
        batch
    }

    pub fn len(&self) -> (len: usize)
        ensures
            len == self@.len(),
    {
        self.rule_fingerprints.len()
    }

    pub fn clear(&mut self)
        ensures
            final(self).wf(),
            final(self)@ == Seq::<Observation<C>>::empty(),
            final(self).origin_sequences@ == Seq::<u64>::empty(),
    {
        self.rule_fingerprints.clear();
        self.key_hashes.clear();
        self.buckets.clear();
        self.origin_node_ids.clear();
        self.incarnations.clear();
        self.counts.clear();
        self.last_update_millis.clear();
        self.origin_sequences.clear();
        assert(self@ =~= Seq::<Observation<C>>::empty());
    }

    /// Appends a row without a known origin sequence.
    pub fn push(&mut self, observation: Observation<C>)
        requires
            old(self).wf(),
        ensures
            final(self).wf(),
            final(self)@ == old(self)@.push(observation),
            final(self).origin_sequences@ == old(self).origin_sequences@.push(0),
    {
        self.push_sequenced(observation, 0);
    }

    /// Appends a row with the origin's sequence number.
    pub fn push_sequenced(&mut self, observation: Observation<C>, origin_sequence: u64)
        requires
            old(self).wf(),
        ensures
            final(self).wf(),
            final(self)@ == old(self)@.push(observation),
            final(self).origin_sequences@ == old(self).origin_sequences@.push(origin_sequence),
    {
        self.rule_fingerprints.push(observation.rule_fingerprint);
        self.key_hashes.push(observation.key_hash);
        self.buckets.push(observation.bucket);
        self.origin_node_ids.push(observation.origin);
        self.incarnations.push(observation.incarnation);
        self.counts.push(observation.count);
        self.last_update_millis.push(observation.last_update_millis);
        self.origin_sequences.push(origin_sequence);
        assert(self@ =~= old(self)@.push(observation));
    }

    /// Row `i`.
    pub fn row(&self, i: usize) -> (observation: Observation<C>)
        requires
            self.wf(),
            i < self@.len(),
        ensures
            observation == self@[i as int],
    {
        Observation {
            rule_fingerprint: self.rule_fingerprints[i],
            key_hash: self.key_hashes[i],
            bucket: self.buckets[i],
            origin: self.origin_node_ids[i],
            incarnation: self.incarnations[i],
            count: self.counts[i],
            last_update_millis: self.last_update_millis[i],
        }
    }
}

/// What downstream aggregates are keyed by: a cell without its origin.
#[derive(Clone, Copy, Debug, PartialEq, Eq, Structural)]
pub struct AggregateKey {
    pub rule_fingerprint: u128,
    pub key_hash: KeyHash,
    pub bucket: BucketEpoch,
}

/// Count increases, to be added downstream.
pub struct DeltaSink<C: Count> {
    pub keys: Vec<AggregateKey>,
    pub deltas: Vec<C>,
}

impl<C: Count> DeltaSink<C> {
    pub open spec fn wf(&self) -> bool {
        self.keys@.len() == self.deltas@.len()
    }

    /// The rows, first pushed first.
    pub open spec fn view(&self) -> Seq<(AggregateKey, C)> {
        Seq::new(self.keys@.len(), |i: int| (self.keys@[i], self.deltas@[i]))
    }

    pub fn with_capacity(capacity: usize) -> (sink: Self)
        ensures
            sink.wf(),
            sink@ == Seq::<(AggregateKey, C)>::empty(),
    {
        let sink = DeltaSink {
            keys: Vec::with_capacity(capacity),
            deltas: Vec::with_capacity(capacity),
        };
        assert(sink@ =~= Seq::<(AggregateKey, C)>::empty());
        sink
    }

    pub fn len(&self) -> (len: usize)
        ensures
            len == self@.len(),
    {
        self.keys.len()
    }

    pub fn is_empty(&self) -> (empty: bool)
        ensures
            empty == (self@.len() == 0),
    {
        self.keys.len() == 0
    }

    pub fn clear(&mut self)
        ensures
            final(self).wf(),
            final(self)@ == Seq::<(AggregateKey, C)>::empty(),
    {
        self.keys.clear();
        self.deltas.clear();
        assert(self@ =~= Seq::<(AggregateKey, C)>::empty());
    }

    pub fn push(&mut self, key: AggregateKey, delta: C)
        requires
            old(self).wf(),
        ensures
            final(self).wf(),
            final(self)@ == old(self)@.push((key, delta)),
    {
        self.keys.push(key);
        self.deltas.push(delta);
        assert(self@ =~= old(self)@.push((key, delta)));
    }
}

/// Counts of cells that aged out, to be subtracted downstream.
pub struct ExpirationSink<C: Count> {
    pub keys: Vec<AggregateKey>,
    pub last_counts: Vec<C>,
}

impl<C: Count> ExpirationSink<C> {
    pub open spec fn wf(&self) -> bool {
        self.keys@.len() == self.last_counts@.len()
    }

    /// The rows, first pushed first.
    pub open spec fn view(&self) -> Seq<(AggregateKey, C)> {
        Seq::new(self.keys@.len(), |i: int| (self.keys@[i], self.last_counts@[i]))
    }

    pub fn with_capacity(capacity: usize) -> (sink: Self)
        ensures
            sink.wf(),
            sink@ == Seq::<(AggregateKey, C)>::empty(),
    {
        let sink = ExpirationSink {
            keys: Vec::with_capacity(capacity),
            last_counts: Vec::with_capacity(capacity),
        };
        assert(sink@ =~= Seq::<(AggregateKey, C)>::empty());
        sink
    }

    pub fn len(&self) -> (len: usize)
        ensures
            len == self@.len(),
    {
        self.keys.len()
    }

    pub fn is_empty(&self) -> (empty: bool)
        ensures
            empty == (self@.len() == 0),
    {
        self.keys.len() == 0
    }

    pub fn clear(&mut self)
        ensures
            final(self).wf(),
            final(self)@ == Seq::<(AggregateKey, C)>::empty(),
    {
        self.keys.clear();
        self.last_counts.clear();
        assert(self@ =~= Seq::<(AggregateKey, C)>::empty());
    }

    pub fn push(&mut self, key: AggregateKey, last_count: C)
        requires
            old(self).wf(),
        ensures
            final(self).wf(),
            final(self)@ == old(self)@.push((key, last_count)),
    {
        self.keys.push(key);
        self.last_counts.push(last_count);
        assert(self@ =~= old(self)@.push((key, last_count)));
    }
}

} // verus!
