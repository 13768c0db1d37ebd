//! A query that waits for a worker.
use vstd::prelude::*;

use crate::query::Query;

verus! {

/// A query over a collection, given by its number.
pub struct QueryTask {
    pub query: Query,
    pub collection_id: u32,
}

impl QueryTask {
    /// A query over a collection.
    pub fn new(query: Query, collection_id: u32) -> (t: QueryTask)
        ensures
            t.query == query,
            t.collection_id == collection_id,
    {
        QueryTask { query, collection_id }
    }
}

} // verus!
