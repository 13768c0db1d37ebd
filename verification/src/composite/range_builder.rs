//! The ranges of keys of a composite index.
use vstd::prelude::*;

use crate::composite::definition::{CompositeIndexDefinition, Definition};
use crate::document::value::{items_view, Val, Value};
use crate::util::fixed::{be_bytes, put_be};

verus! {

/// A range of keys, both ends taken in.
pub struct ScanRange {
    pub start: Vec<u8>,
    pub end: Vec<u8>,
}

/// The ranges of keys.
pub struct RangeBuilder;

/// What a value adds to a range: its tag, and for an integer its bytes.
pub open spec fn range_part(v: Val) -> Seq<u8> {
    match v {
        Val::Int(i) => seq![1u8] + be_bytes((i as u64) as nat, 8),
        _ => seq![1u8],
    }
}

/// What values add to a range, one behind the other.
pub open spec fn range_parts(values: Seq<Val>) -> Seq<u8>
    decreases values.len(),
{
    if values.len() == 0 {
        Seq::empty()
    } else {
        range_parts(values.drop_last()) + range_part(values.last())
    }
}

/// The start of the range of values.
pub open spec fn range_start(d: Definition, values: Seq<Val>) -> Seq<u8> {
    be_bytes(d.collection_id as nat, 4) + range_parts(values)
}

impl RangeBuilder {
    /// The range of the keys that begin with values: up to the key behind them that ends
    /// in 255.
    pub fn build_prefix(def: &CompositeIndexDefinition, values: &Vec<Value>) -> (r: ScanRange)
        ensures
            r.start@ == range_start(def@, items_view(values@)),
            r.end@ == range_start(def@, items_view(values@)).push(255),
    {
        let mut start: Vec<u8> = Vec::new();
        put_be(&mut start, def.collection_id as u64, 4);
        let ghost head = be_bytes(def.collection_id as nat, 4);
        let ghost vs = items_view(values@);
        let mut i: usize = 0;
        proof {
            assert(start@ =~= head);
            assert(vs.take(0) =~= Seq::empty());
            assert(head + range_parts(vs.take(0)) =~= head);
        }
        while i < values.len()
            invariant
                i <= values@.len(),
                vs == items_view(values@),
                start@ == head + range_parts(vs.take(i as int)),
            decreases values@.len() - i,
        {
            start.push(1);
            match &values[i] {
                Value::Int(n) => put_be(&mut start, *n as u64, 8),
                _ => {},
            }
            proof {
                assert(vs.take(i + 1).drop_last() =~= vs.take(i as int));
                assert(vs.take(i + 1).last() == vs[i as int]);
                assert(start@ =~= head + range_parts(vs.take(i + 1)));
            }
            i = i + 1;
        }
        proof {
            assert(vs.take(vs.len() as int) =~= vs);
        }
        let mut end = crate::document::value::copy_bytes(start.as_slice());
        end.push(255);
        ScanRange { start, end }
    }
}

} // verus!
