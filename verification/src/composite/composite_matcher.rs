//! Which indexes serve a query.
use vstd::prelude::*;

use crate::composite::definition::{CompositeIndexDefinition, Definition};
use crate::query::{Filter, Query};
use crate::text::same_text;

verus! {

/// Whether the filters of a query are, in their order, on the first fields of an index.
pub open spec fn serves(filters: Seq<Filter>, d: Definition) -> bool {
    &&& filters.len() <= d.columns.len()
    &&& forall|i: int| 0 <= i < filters.len() ==> (#[trigger] filters[i]).field@ == d.columns[i].0
}

/// Whether the filters of a query are, in their order, on the first fields of an index.
pub fn matches_index(query: &Query, index: &CompositeIndexDefinition) -> (r: bool)
    ensures
        r == serves(query.filters@, index@),
{
    if query.filters.len() > index.fields.len() {
        return false;
    }
    let mut i: usize = 0;
    while i < query.filters.len()
        invariant
            i <= query.filters@.len() <= index.fields@.len(),
            forall|k: int| 0 <= k < i ==> (#[trigger] query.filters@[k]).field@ == index@.columns[k].0,
        decreases query.filters@.len() - i,
    {
        if !same_text(query.filters[i].field.as_str(), index.fields[i].field.as_str()) {
            proof {
                assert(query.filters@[i as int].field@ != index@.columns[i as int].0);
            }
            return false;
        }
        i = i + 1;
    }
    true
}

} // verus!
