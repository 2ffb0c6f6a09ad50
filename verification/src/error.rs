//! The kinds of failure and how far each of them reaches.
use vstd::prelude::*;

verus! {

/// What went wrong, named after the stage that failed.
#[derive(Clone, Copy, Debug, PartialEq, Eq, Structural)]
pub enum PipelineError {
    /// A file or the corpus root could not be read.
    LoadError,
    /// Content could not be cut into chunks of the requested size.
    ChunkError,
    /// No retrieval metadata could be generated for a chunk.
    EnrichmentError,
    /// The embedding call failed, or a vector has the wrong dimension.
    EmbeddingError,
    /// A text generation call of the query flow failed.
    GenerationError,
    /// The vector store refused a write or a search.
    StoreError,
    /// The fingerprint cache could not be reached.
    CacheError,
}

/// How much of a run an error takes down.
#[derive(Clone, Copy, Debug, PartialEq, Eq, Structural)]
pub enum ErrorScope {
    /// Nothing is lost: the run goes on as if the cache had said "unknown".
    FailOpen,
    /// The offending unit leaves the stream, its siblings go on.
    Unit,
    /// The call fails as a whole, for every chunk of its batch or for the
    /// query that made it, and the run or the query ends with this error.
    Batch,
    /// The run ends before any unit was produced.
    Pipeline,
}

impl PipelineError {
    /// The reach of this error. A load error is fatal only at the corpus root.
    pub open spec fn spec_scope(self, at_root: bool) -> ErrorScope {
        match self {
            PipelineError::CacheError => ErrorScope::FailOpen,
            PipelineError::ChunkError | PipelineError::EnrichmentError => ErrorScope::Unit,
            PipelineError::LoadError => if at_root {
                ErrorScope::Pipeline
            } else {
                ErrorScope::Unit
            },
            PipelineError::EmbeddingError
            | PipelineError::StoreError
            | PipelineError::GenerationError => ErrorScope::Batch,
        }
    }

    /// Whether a run or a query that meets this error must end with it.
    pub open spec fn spec_is_fatal(self, at_root: bool) -> bool {
        self.spec_scope(at_root) == ErrorScope::Batch || self.spec_scope(at_root)
            == ErrorScope::Pipeline
    }

    #[verifier::when_used_as_spec(spec_scope)]
    pub fn scope(self, at_root: bool) -> (scope: ErrorScope)
        ensures
            scope == self.spec_scope(at_root),
    {
        match self {
            PipelineError::CacheError => ErrorScope::FailOpen,
            PipelineError::ChunkError | PipelineError::EnrichmentError => ErrorScope::Unit,
            PipelineError::LoadError => if at_root {
                ErrorScope::Pipeline
            } else {
                ErrorScope::Unit
            },
            PipelineError::EmbeddingError
            | PipelineError::StoreError
            | PipelineError::GenerationError => ErrorScope::Batch,
        }
    }

    #[verifier::when_used_as_spec(spec_is_fatal)]
    pub fn is_fatal(self, at_root: bool) -> (fatal: bool)
        ensures
            fatal == self.spec_is_fatal(at_root),
    {
        match self.scope(at_root) {
            ErrorScope::Batch | ErrorScope::Pipeline => true,
            ErrorScope::FailOpen | ErrorScope::Unit => false,
        }
    }
}

} // verus!
