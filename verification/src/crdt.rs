//! The replicated counter state of one node: identifiers, the per-cell store
//! with its rule and node dictionaries, and the batches that flow through it.

pub mod batch;
pub mod count;
pub mod dictionary;
pub mod frontier;
pub mod laws;
pub mod state;
pub mod store;
pub mod totals;
pub mod upkeep;

pub use batch::{AggregateKey, DeltaSink, ExpirationSink, Observation, ObservationBatch};
pub use count::Count;
pub use dictionary::{NodeDescriptor, NodeDictionary, RuleDescriptor, RuleDictionary};
pub use frontier::PeerFrontierTable;
pub use state::{
    CellHandle, CellKey, CellRow, CellSlot, CellStoreConfig, CellStoreStats, StoreState,
};
pub use store::CellStore;

use vstd::prelude::*;

verus! {

/// Sub-bucket number of a sliding window: wall-clock millis over bucket width.
pub type BucketEpoch = u32;

/// Restart counter of a node; a restarted node counts from zero under a new
/// incarnation.
pub type Incarnation = u32;

/// Position of a rule in the store's rule dictionary.
pub type RuleSlot = u16;

/// Position of a node in the store's node dictionary.
pub type NodeSlot = u16;

/// Stable 128-bit hash of a limiter key or domain.
#[derive(Clone, Copy, Debug, PartialEq, Eq, Hash, Structural)]
pub struct KeyHash(pub u128);

/// Cluster-wide node identifier.
#[derive(Clone, Copy, Debug, PartialEq, Eq, Hash, Structural)]
pub struct NodeId(pub u128);

/// A node at one incarnation.
#[derive(Clone, Copy, Debug, PartialEq, Eq, Structural)]
pub struct NodeIdentity {
    pub node_id: NodeId,
    pub incarnation: Incarnation,
}

impl NodeIdentity {
    pub fn new(node_id: NodeId, incarnation: Incarnation) -> (identity: Self)
        ensures
            identity == (NodeIdentity { node_id, incarnation }),
    {
        NodeIdentity { node_id, incarnation }
    }
}

impl Default for NodeIdentity {
    /// The identity of a node that was given none.
    fn default() -> (identity: NodeIdentity)
        ensures
            identity == (NodeIdentity { node_id: NodeId(0), incarnation: 0 }),
    {
        NodeIdentity { node_id: NodeId(0), incarnation: 0 }
    }
}

} // verus!
