//! Options of the query engine.
use vstd::prelude::*;

verus! {

/// Query engine config.
#[derive(Clone, Copy, Debug, PartialEq, Eq, Structural)]
pub struct QueryOptions {
    /// Parallelism of query engine. Default to 0, which implies the number of logical CPUs.
    pub parallelism: usize,
    /// Whether to allow query fallback when push down fails.
    pub allow_query_fallback: bool,
}

impl Default for QueryOptions {
    fn default() -> (options: QueryOptions)
        ensures
            options == (QueryOptions { parallelism: 0, allow_query_fallback: false }),
    {
        QueryOptions { parallelism: 0, allow_query_fallback: false }
    }
}

} // verus!
