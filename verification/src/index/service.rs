//! One place for the updates and the first filling of all kinds of indexes.
use vstd::prelude::*;

use crate::document::firelite_doc::FireLiteDoc;
use crate::index::composite::composite_index::docs_view;
use crate::index::composite::manager::puts;
use crate::index::manager::{indexed, IndexManager};

verus! {

/// The updates and the first filling of indexes.
pub struct IndexingService;

impl IndexingService {
    /// Puts a written document into the indexes of its collection.
    pub fn apply_put(manager: &mut IndexManager, collection: &str, doc_id: &str, doc: &FireLiteDoc)
        requires
            old(manager).wf(),
        ensures
            final(manager).wf(),
            indexed(*old(manager), *final(manager), true, collection@, doc_id@, doc@),
    {
        manager.index_document(collection, doc_id, doc);
    }

    /// Takes a deleted document out of the indexes of its collection.
    pub fn apply_delete(manager: &mut IndexManager, collection: &str, doc_id: &str, doc: &FireLiteDoc)
        requires
            old(manager).wf(),
        ensures
            final(manager).wf(),
            indexed(*old(manager), *final(manager), false, collection@, doc_id@, doc@),
    {
        manager.remove_document(collection, doc_id, doc);
    }

    /// Puts documents into the composite indexes of their collection alone.
    pub fn backfill_composite(manager: &mut IndexManager, collection: &str, docs: &Vec<(String, FireLiteDoc)>)
        requires
            old(manager).wf(),
        ensures
            final(manager).wf(),
            puts(old(manager).composite.indexes(), final(manager).composite.indexes(), collection@, docs_view(docs@)),
            final(manager).composite.last_id() == old(manager).composite.last_id(),
            final(manager).secondary == old(manager).secondary,
            final(manager).fts == old(manager).fts,
    {
        manager.composite.index_batch(collection, docs);
    }

    /// Puts documents into the single-field indexes of their collection alone.
    pub fn backfill_secondary(manager: &mut IndexManager, collection: &str, docs: &Vec<(String, FireLiteDoc)>)
        requires
            old(manager).wf(),
        ensures
            final(manager).wf(),
            final(manager).composite == old(manager).composite,
            final(manager).fts == old(manager).fts,
            crate::index::manager::secondary_filled(*old(manager), *final(manager), collection@, docs_view(docs@)),
    {
        manager.fill_secondary(collection, docs);
    }

    /// Puts documents into the full-text indexes of their collection alone.
    pub fn backfill_fts(manager: &mut IndexManager, collection: &str, docs: &Vec<(String, FireLiteDoc)>)
        requires
            old(manager).wf(),
        ensures
            final(manager).wf(),
            final(manager).composite == old(manager).composite,
            final(manager).secondary == old(manager).secondary,
            crate::index::manager::fts_filled(*old(manager), *final(manager), collection@, docs_view(docs@)),
    {
        manager.fill_fts(collection, docs);
    }
}

} // verus!
