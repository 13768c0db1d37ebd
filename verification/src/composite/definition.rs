//! What a composite index is over.
use vstd::prelude::*;

verus! {

/// The direction in which a field is sorted.
#[derive(Debug, Clone, Copy, PartialEq, Eq, Structural)]
pub enum SortDirection {
    Asc,
    Desc,
}

/// A field of a composite index.
#[derive(Debug)]
pub struct CompositeField {
    pub field: String,
    pub direction: SortDirection,
}

/// A composite index: the number of its collection, and its fields.
#[derive(Debug)]
pub struct CompositeIndexDefinition {
    pub collection_id: u32,
    pub fields: Vec<CompositeField>,
}

/// What a list of fields stands for.
pub open spec fn columns(fields: Seq<CompositeField>) -> Seq<(Seq<char>, SortDirection)> {
    Seq::new(fields.len(), |i: int| (fields[i].field@, fields[i].direction))
}

/// What a definition stands for.
#[verifier::ext_equal]
pub struct Definition {
    pub collection_id: u32,
    pub columns: Seq<(Seq<char>, SortDirection)>,
}

impl View for CompositeIndexDefinition {
    type V = Definition;

    open spec fn view(&self) -> Definition {
        Definition { collection_id: self.collection_id, columns: columns(self.fields@) }
    }
}

impl CompositeIndexDefinition {
    /// An index of a collection over no fields yet.
    pub fn new(collection_id: u32) -> (r: CompositeIndexDefinition)
        ensures
            r@ == (Definition { collection_id, columns: Seq::empty() }),
    {
        let r = CompositeIndexDefinition { collection_id, fields: Vec::new() };
        proof {
            assert(r@.columns =~= Seq::empty());
        }
        r
    }

    /// The index over one more field.
    pub fn add_field(self, field: &str, direction: SortDirection) -> (r: CompositeIndexDefinition)
        ensures
            r@ == (Definition {
                collection_id: self@.collection_id,
                columns: self@.columns.push((field@, direction)),
            }),
    {
        let mut fields = self.fields;
        fields.push(CompositeField { field: field.to_owned(), direction });
        let r = CompositeIndexDefinition { collection_id: self.collection_id, fields };
        proof {
            assert(r@.columns =~= self@.columns.push((field@, direction)));
        }
        r
    }
}

} // verus!
