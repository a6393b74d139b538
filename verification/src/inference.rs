//! Inference vocabulary: modes, provenance records and the identities of
//! inferred entities.

use vstd::prelude::*;
use crate::types::{EdgeId, NodeId, PropertyKeyId, TypeId};

verus! {

/// Whether inference results are written to the graph or only returned.
#[derive(Clone, Copy, Debug, PartialEq, Eq, Structural)]
pub enum InferenceMode {
    /// Return inferred facts without writing them to the graph.
    Ephemeral,
    /// Write inferred facts to the graph as materialized data.
    Materialized,
}

/// Records which rule produced a materialized inference result and when.
#[derive(Clone, Debug, PartialEq, Eq)]
pub struct ProvenanceRecord {
    /// The name of the inference rule that produced this result.
    pub rule_name: String,
    /// The transaction ID at which this result was materialized.
    pub materialized_at: u64,
}

/// Identifies an entity or sub-entity produced by inference.
#[derive(Clone, Copy, Debug, PartialEq, Eq, PartialOrd, Ord, Hash, Structural)]
pub enum InferredEntity {
    /// An inferred node.
    Node(NodeId),
    /// An inferred edge.
    Edge(EdgeId),
    /// An inferred property on a node.
    NodeProperty {
        /// The node carrying the inferred property.
        node: NodeId,
        /// The property key.
        key: PropertyKeyId,
    },
    /// An inferred property on an edge.
    EdgeProperty {
        /// The edge carrying the inferred property.
        edge: EdgeId,
        /// The property key.
        key: PropertyKeyId,
    },
    /// An inferred type assignment on a node.
    NodeType {
        /// The node receiving the type assignment.
        node: NodeId,
        /// The assigned type.
        type_id: TypeId,
    },
    /// An inferred type assignment on an edge.
    EdgeType {
        /// The edge receiving the type assignment.
        edge: EdgeId,
        /// The assigned type.
        type_id: TypeId,
    },
}

/// Maps indices of inferred facts to the identifiers assigned to them when
/// they were materialized.
#[derive(Clone, Debug)]
pub struct MaterializedMapping {
    /// Pairs of `(fact_index, assigned_node_id)` for new-node facts.
    pub new_node_ids: Vec<(usize, NodeId)>,
    /// Pairs of `(fact_index, assigned_edge_id)` for new-edge facts.
    pub new_edge_ids: Vec<(usize, EdgeId)>,
}

} // verus!
