//! Queries that are handed to workers.
use vstd::prelude::*;

use crate::executor::result_stream::ResultStream;
use crate::executor::scheduler::Scheduler;
use crate::executor::task::QueryTask;
use crate::query::Query;

verus! {

/// Workers, and the queries that wait for them.
pub struct QueryExecutor {
    pub workers: usize,
    pub scheduler: Scheduler,
}

impl QueryExecutor {
    /// A number of workers without work.
    pub fn new(workers: usize) -> (x: QueryExecutor)
        ensures
            x.workers == workers,
            x.scheduler.waiting@.len() == 0,
    {
        QueryExecutor { workers, scheduler: Scheduler::new() }
    }

    /// Lets a query wait for a worker. The stream ends at once: workers send nothing to it.
    pub fn execute(&mut self, query: Query, collection_id: u32) -> (s: ResultStream)
        ensures
            final(self).workers == old(self).workers,
            final(self).scheduler.waiting@ == old(self).scheduler.waiting@.push(QueryTask { query, collection_id }),
            s.rows@.len() == 0,
    {
        self.scheduler.submit(QueryTask::new(query, collection_id));
        ResultStream::new(Vec::new())
    }
}

} // verus!
