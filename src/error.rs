//! The failures that the pipeline surfaces to its callers.

use vstd::prelude::*;

verus! {

/// A failure of one stage of the pipeline, with the upstream text attached
/// where there is one.
#[derive(Debug, Clone, PartialEq, Eq)]
pub enum PipelineError {
    /// A window of tokens did not decode to valid UTF-8.
    ChunkDecode,
    /// The segmentation call failed or returned no content.
    Segmentation(String),
    /// An identifier was asked of a pool that has none left.
    PoolExhausted,
    /// The embedding call failed, or its items do not line up with the inputs.
    Embedding(String),
    /// Identifiers, texts and vectors of an upload differ in length.
    ArityMismatch,
    /// The vector store rejected an upsert, or could not be reached.
    Upload(String),
    /// The similarity search failed.
    Query(String),
}

} // verus!
