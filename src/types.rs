//! The records exchanged with the vector store's collection endpoints.

use vstd::prelude::*;

verus! {

/// The information of a collection: a named set of points (vectors with a
/// payload) among which one can search.
#[derive(Debug, Clone, Copy, PartialEq, Eq)]
pub struct CollectionInfo {
    /// Count of points in the collection.
    pub points_count: u64,
}

/// The vectors a collection holds: their dimensionality and the distance
/// metric used to compare them.
#[derive(Debug, Clone, PartialEq, Eq)]
pub struct VectorParams {
    pub size: u64,
    pub distance: String,
}

/// Tuning of the store's optimizer for a new collection.
#[derive(Debug, Clone, Copy, PartialEq, Eq)]
pub struct OptimizersConfig {
    pub default_segment_number: u64,
}

/// The parameters for creating a collection.
#[derive(Debug, Clone, PartialEq, Eq)]
pub struct CollectionCreateParams {
    pub vectors: VectorParams,
    pub optimizers_config: OptimizersConfig,
    pub replication_factor: u64,
}

/// The identifier of a point: a UUID or a non-negative integer.
#[derive(Debug, Clone, PartialEq, Eq)]
pub enum PointId {
    Uuid(String),
    Num(u64),
}

/// The dimensionality of the vectors that the embedding model produces.
pub const EMBEDDING_DIMENSION: u64 = 1536;

impl CollectionCreateParams {
    /// Parameters for a collection of vectors of `size` components compared
    /// by `distance`, with the given optimizer segment count and replication
    /// factor.
    pub fn new(size: u64, distance: &str, default_segment_number: u64, replication_factor: u64) -> (r:
        CollectionCreateParams)
        ensures
            r.vectors.size == size,
            r.vectors.distance@ == distance@,
            r.optimizers_config.default_segment_number == default_segment_number,
            r.replication_factor == replication_factor,
    {
        CollectionCreateParams {
            vectors: VectorParams { size, distance: String::from_str(distance) },
            optimizers_config: OptimizersConfig { default_segment_number },
            replication_factor,
        }
    }
}

} // verus!
