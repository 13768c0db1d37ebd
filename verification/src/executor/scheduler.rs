//! The queries that wait, first come, first served.
use vstd::prelude::*;

use crate::executor::task::QueryTask;

verus! {

/// The tasks that no worker has taken yet, in the order in which they came.
pub struct Scheduler {
    pub waiting: Vec<QueryTask>,
}

impl Scheduler {
    /// Nothing waits.
    pub fn new() -> (s: Scheduler)
        ensures
            s.waiting@.len() == 0,
    {
        Scheduler { waiting: Vec::new() }
    }

    /// Lets a task wait behind the others.
    pub fn submit(&mut self, task: QueryTask)
        ensures
            final(self).waiting@ == old(self).waiting@.push(task),
    {
        self.waiting.push(task);
    }

    /// Hands the task that has waited longest to a worker.
    pub fn take(&mut self) -> (t: Option<QueryTask>)
        ensures
            match t {
                Some(task) => old(self).waiting@.len() > 0 && task == old(self).waiting@[0] && final(self).waiting@
                    == old(self).waiting@.skip(1),
                None => old(self).waiting@.len() == 0 && final(self).waiting@ == old(self).waiting@,
            },
    {
        if self.waiting.len() == 0 {
            return None;
        }
        let ghost before = self.waiting@;
        let task = self.waiting.remove(0);
        proof {
            assert(self.waiting@ =~= before.skip(1));
        }
        Some(task)
    }
}

} // verus!
