//! Changes that are gathered, and handed on together.
use vstd::prelude::*;

use crate::cloud_sync::protocol::SyncOp;

verus! {

/// Changes that wait to be handed on.
pub struct SyncBroadcaster {
    pending_queue: Vec<SyncOp>,
}

impl SyncBroadcaster {
    /// The changes that wait.
    pub closed spec fn pending(&self) -> Seq<SyncOp> {
        self.pending_queue@
    }

    pub fn new() -> (r: SyncBroadcaster)
        ensures
            r.pending() == Seq::<SyncOp>::empty(),
    {
        SyncBroadcaster { pending_queue: Vec::new() }
    }

    /// Lets changes wait behind those that do.
    pub fn enqueue_ops(&mut self, ops: Vec<SyncOp>)
        ensures
            final(self).pending() == old(self).pending() + ops@,
    {
        let mut more = ops;
        self.pending_queue.append(&mut more);
    }

    /// Takes all changes that wait, in their order; nothing where none does.
    pub fn flush(&mut self) -> (r: Option<Vec<SyncOp>>)
        ensures
            final(self).pending() == Seq::<SyncOp>::empty(),
            match r {
                Some(b) => b@ == old(self).pending() && b@.len() > 0,
                None => old(self).pending().len() == 0,
            },
    {
        if self.pending_queue.len() == 0 {
            proof {
                assert(self.pending() =~= Seq::<SyncOp>::empty());
            }
            return None;
        }
        let mut batch: Vec<SyncOp> = Vec::new();
        std::mem::swap(&mut self.pending_queue, &mut batch);
        Some(batch)
    }
}

} // verus!
