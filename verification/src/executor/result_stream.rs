//! What a query has found so far.
use vstd::prelude::*;

verus! {

/// The ids that were found and not handed out yet, in the order in which they came.
pub struct ResultStream {
    pub rows: Vec<String>,
}

impl ResultStream {
    /// A stream of the given ids.
    pub fn new(rows: Vec<String>) -> (s: ResultStream)
        ensures
            s.rows == rows,
    {
        ResultStream { rows }
    }

    /// The next id.
    pub fn next(&mut self) -> (r: Option<String>)
        ensures
            match r {
                Some(id) => old(self).rows@.len() > 0 && id == old(self).rows@[0] && final(self).rows@ == old(self).rows@.skip(1),
                None => old(self).rows@.len() == 0 && final(self).rows@ == old(self).rows@,
            },
    {
        if self.rows.len() == 0 {
            return None;
        }
        let ghost before = self.rows@;
        let id = self.rows.remove(0);
        proof {
            assert(self.rows@ =~= before.skip(1));
        }
        Some(id)
    }
}

} // verus!
