//! Snapshots of composite indexes.
use vstd::prelude::*;
use vstd::utf8::encode_utf8;

use crate::index::composite::composite_index::CompositeIndex;
use crate::index::composite::key_encoder::key_slice;
use crate::index::storage::index_log::{counted, put_counted};
use crate::util::fixed::{be_bytes, put_be};

verus! {

/// The entries of a snapshot, one behind the other.
pub open spec fn snapshot_entries(entries: Seq<(Seq<u8>, String)>) -> Seq<u8>
    decreases entries.len(),
{
    if entries.len() == 0 {
        Seq::empty()
    } else {
        snapshot_entries(entries.drop_last()) + counted(entries.last().0) + counted(encode_utf8(entries.last().1@))
    }
}

/// A snapshot: the number of the index, the number of its entries, and the entries.
pub open spec fn snapshot_bytes(x: CompositeIndex) -> Seq<u8> {
    be_bytes(x.definition.id as nat, 4) + be_bytes(x.tree.seq().len(), 8) + snapshot_entries(x.tree.seq())
}

/// The bytes of a snapshot.
pub fn write_snapshot(index: &CompositeIndex) -> (out: Vec<u8>)
    ensures
        out@ == snapshot_bytes(*index),
{
    let ghost s = index.tree.seq();
    let mut out: Vec<u8> = Vec::new();
    put_be(&mut out, index.definition.id as u64, 4);
    put_be(&mut out, index.tree.len() as u64, 8);
    let ghost head = be_bytes(index.definition.id as nat, 4) + be_bytes(s.len(), 8);
    let mut i: usize = 0;
    proof {
        assert(out@ =~= head);
        assert(s.take(0) =~= Seq::empty());
        assert(head + snapshot_entries(s.take(0)) =~= head);
    }
    while i < index.tree.len()
        invariant
            s == index.tree.seq(),
            i <= s.len(),
            out@ == head + snapshot_entries(s.take(i as int)),
        decreases s.len() - i,
    {
        let e = index.tree.entry(i);
        put_counted(&mut out, key_slice(e.0));
        put_counted(&mut out, e.1.as_str().as_bytes());
        proof {
            assert(s.take(i + 1).drop_last() =~= s.take(i as int));
            assert(s.take(i + 1).last() == s[i as int]);
            assert(out@ =~= head + snapshot_entries(s.take(i + 1)));
        }
        i = i + 1;
    }
    proof {
        assert(s.take(s.len() as int) =~= s);
    }
    out
}

} // verus!
