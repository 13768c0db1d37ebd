//! Scans of a sorted map by a prefix of its keys.
use vstd::prelude::*;

use crate::document::firelite_doc::names_view;
use crate::sorted_map::SortedMap;

verus! {

/// The values of the entries whose keys begin with `prefix`, in the order of the keys.
pub open spec fn prefixed(entries: Seq<(Seq<u8>, String)>, prefix: Seq<u8>) -> Seq<Seq<char>>
    decreases entries.len(),
{
    if entries.len() == 0 {
        Seq::empty()
    } else if prefix.is_prefix_of(entries.last().0) {
        prefixed(entries.drop_last(), prefix).push(entries.last().1@)
    } else {
        prefixed(entries.drop_last(), prefix)
    }
}

/// Whether `k` begins with `prefix`.
pub fn bytes_start_with(k: &[u8], prefix: &[u8]) -> (r: bool)
    ensures
        r == prefix@.is_prefix_of(k@),
{
    if prefix.len() > k.len() {
        return false;
    }
    let mut i: usize = 0;
    while i < prefix.len()
        invariant
            i <= prefix@.len() <= k@.len(),
            forall|j: int| 0 <= j < i ==> k@[j] == prefix@[j],
        decreases prefix@.len() - i,
    {
        if k[i] != prefix[i] {
            proof {
                assert(k@.subrange(0, prefix@.len() as int)[i as int] != prefix@[i as int]);
            }
            return false;
        }
        i = i + 1;
    }
    proof {
        assert(k@.subrange(0, prefix@.len() as int) =~= prefix@);
    }
    true
}

/// The values under the keys that begin with `prefix`, in the order of the keys.
pub fn prefix_scan(tree: &SortedMap<Vec<u8>, String>, prefix: &[u8]) -> (r: Vec<String>)
    requires
        tree.wf(),
    ensures
        names_view(r@) == prefixed(tree.seq(), prefix@),
{
    let ghost s = tree.seq();
    let mut r: Vec<String> = Vec::new();
    let mut i: usize = 0;
    proof {
        assert(names_view(r@) =~= Seq::empty());
        assert(s.take(0) =~= Seq::empty());
    }
    while i < tree.len()
        invariant
            s == tree.seq(),
            i <= s.len(),
            names_view(r@) == prefixed(s.take(i as int), prefix@),
        decreases s.len() - i,
    {
        let e = tree.entry(i);
        proof {
            assert(s.take(i + 1).drop_last() =~= s.take(i as int));
            assert(s.take(i + 1).last() == s[i as int]);
        }
        if bytes_start_with(e.0.as_slice(), prefix) {
            let ghost before = r@;
            r.push(e.1.clone());
            proof {
                assert(names_view(r@) =~= names_view(before).push(e.1@));
            }
        }
        i = i + 1;
    }
    proof {
        assert(s.take(s.len() as int) =~= s);
    }
    r
}

} // verus!
