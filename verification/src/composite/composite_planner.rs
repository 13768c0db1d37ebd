//! The choice of an index for a query.
use vstd::prelude::*;

use crate::composite::composite_index::CompositeIndex;
use crate::composite::composite_matcher::{matches_index, serves};
use crate::composite::manager::CompositeIndexManager;
use crate::query::{Filter, Query};

verus! {

/// The choice of an index.
pub struct CompositePlanner;

/// The first of some indexes that serves a query.
pub open spec fn first_serving(list: Seq<CompositeIndex>, filters: Seq<Filter>) -> Option<CompositeIndex>
    decreases list.len(),
{
    if list.len() == 0 {
        None
    } else if serves(filters, list[0].definition@) {
        Some(list[0])
    } else {
        first_serving(list.drop_first(), filters)
    }
}

impl CompositePlanner {
    /// The first index of a collection that serves a query.
    pub fn find_index<'a>(query: &Query, manager: &'a CompositeIndexManager, collection: u32) -> (r: Option<
        &'a CompositeIndex,
    >)
        requires
            manager.wf(),
        ensures
            match (r, first_serving(manager.of(collection), query.filters@)) {
                (Some(x), Some(y)) => *x == y,
                (None, None) => true,
                _ => false,
            },
    {
        match manager.get_indexes(collection) {
            Some(list) => {
                let ghost s = list@;
                let mut i: usize = 0;
                proof {
                    assert(s.skip(0) =~= s);
                }
                while i < list.len()
                    invariant
                        s == list@,
                        s == manager.of(collection),
                        i <= s.len(),
                        first_serving(s, query.filters@) == first_serving(s.skip(i as int), query.filters@),
                    decreases s.len() - i,
                {
                    proof {
                        assert(s.skip(i as int)[0] == s[i as int]);
                        assert(s.skip(i as int).drop_first() =~= s.skip(i + 1));
                    }
                    if matches_index(query, &list[i].definition) {
                        return Some(&list[i]);
                    }
                    i = i + 1;
                }
                None
            },
            None => None,
        }
    }
}

} // verus!
