//! An index over the reference vectors that holds them and nothing more.
use vstd::prelude::*;
use crate::repository::FraudRepository;

verus! {

/// A hierarchical navigable small-world index over the reference vectors;
/// it keeps the vectors and builds no graph.
pub struct HNSW {
    repository: FraudRepository,
}

impl HNSW {
    /// The index over `repository`.
    pub fn new(repository: FraudRepository) -> (index: Self)
        ensures
            index.spec_repository()@ == repository@,
    {
        HNSW { repository }
    }

    /// The reference vectors of the index.
    pub closed spec fn spec_repository(&self) -> &FraudRepository {
        &self.repository
    }
}

} // verus!
