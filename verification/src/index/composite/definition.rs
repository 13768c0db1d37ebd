//! What a composite index is over.
use vstd::prelude::*;

verus! {

/// The direction in which a field is sorted.
#[derive(Debug, Clone, Copy, PartialEq, Eq, Structural)]
pub enum SortDirection {
    Asc,
    Desc,
}

/// A field of a composite index.
#[derive(Debug)]
pub struct CompositeField {
    pub field: String,
    pub direction: SortDirection,
}

/// A composite index: its number, its collection and its fields.
#[derive(Debug)]
pub struct CompositeIndexDefinition {
    pub id: u32,
    pub collection: String,
    pub fields: Vec<CompositeField>,
}

/// What a list of fields stands for.
pub open spec fn columns(fields: Seq<CompositeField>) -> Seq<(Seq<char>, SortDirection)> {
    Seq::new(fields.len(), |i: int| (fields[i].field@, fields[i].direction))
}

/// What a list of names with directions stands for.
pub open spec fn pairs(fields: Seq<(String, SortDirection)>) -> Seq<(Seq<char>, SortDirection)> {
    Seq::new(fields.len(), |i: int| (fields[i].0@, fields[i].1))
}

/// What a definition stands for.
#[verifier::ext_equal]
pub struct Definition {
    pub id: u32,
    pub collection: Seq<char>,
    pub columns: Seq<(Seq<char>, SortDirection)>,
}

impl View for CompositeIndexDefinition {
    type V = Definition;

    open spec fn view(&self) -> Definition {
        Definition { id: self.id, collection: self.collection@, columns: columns(self.fields@) }
    }
}

impl CompositeIndexDefinition {
    /// An index of a collection over no fields yet.
    pub fn new(collection: &str) -> (r: CompositeIndexDefinition)
        ensures
            r@ == (Definition { id: 0, collection: collection@, columns: Seq::empty() }),
    {
        let r = CompositeIndexDefinition { id: 0, collection: collection.to_owned(), fields: Vec::new() };
        proof {
            assert(r@.columns =~= Seq::empty());
        }
        r
    }

    /// The index over the given fields.
    pub fn with_fields(self, fields: Vec<(String, SortDirection)>) -> (r: CompositeIndexDefinition)
        ensures
            r@ == (Definition { id: self@.id, collection: self@.collection, columns: pairs(fields@) }),
    {
        let mut list: Vec<CompositeField> = Vec::new();
        let mut i: usize = 0;
        while i < fields.len()
            invariant
                i <= fields@.len(),
                list@.len() == i,
                forall|k: int| 0 <= k < i ==> #[trigger] columns(list@)[k] == pairs(fields@)[k],
            decreases fields@.len() - i,
        {
            let ghost before = list@;
            list.push(CompositeField { field: fields[i].0.clone(), direction: fields[i].1 });
            proof {
                assert forall|k: int| 0 <= k < i + 1 implies #[trigger] columns(list@)[k] == pairs(fields@)[k] by {
                    if k < i {
                        assert(columns(before)[k] == pairs(fields@)[k]);
                    }
                }
            }
            i = i + 1;
        }
        let r = CompositeIndexDefinition { id: self.id, collection: self.collection, fields: list };
        proof {
            assert(r@.columns =~= pairs(fields@));
        }
        r
    }
}

impl Clone for CompositeIndexDefinition {
    fn clone(&self) -> (r: CompositeIndexDefinition)
        ensures
            r@ == self@,
    {
        let mut list: Vec<CompositeField> = Vec::new();
        let mut i: usize = 0;
        while i < self.fields.len()
            invariant
                i <= self.fields@.len(),
                list@.len() == i,
                forall|k: int| 0 <= k < i ==> #[trigger] columns(list@)[k] == columns(self.fields@)[k],
            decreases self.fields@.len() - i,
        {
            let ghost before = list@;
            list.push(CompositeField { field: self.fields[i].field.clone(), direction: self.fields[i].direction });
            proof {
                assert forall|k: int| 0 <= k < i + 1 implies #[trigger] columns(list@)[k] == columns(self.fields@)[k] by {
                    if k < i {
                        assert(columns(before)[k] == columns(self.fields@)[k]);
                    }
                }
            }
            i = i + 1;
        }
        let r = CompositeIndexDefinition { id: self.id, collection: self.collection.clone(), fields: list };
        proof {
            assert(r@.columns =~= self@.columns);
        }
        r
    }
}

} // verus!
