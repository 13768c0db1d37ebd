//! Scans of a sorted map by a prefix of its keys.
use vstd::prelude::*;

use crate::document::firelite_doc::names_view;
use crate::index::composite::prefix_scan::prefixed;
use crate::sorted_map::SortedMap;

verus! {

/// The values under the keys that begin with `prefix`, in the order of the keys.
pub fn prefix_scan(tree: &SortedMap<Vec<u8>, String>, prefix: &[u8]) -> (r: Vec<String>)
    requires
        tree.wf(),
    ensures
        names_view(r@) == prefixed(tree.seq(), prefix@),
{
    crate::index::composite::prefix_scan::prefix_scan(tree, prefix)
}

} // verus!
