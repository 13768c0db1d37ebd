//! What goes into a store and what comes out of it.
use vstd::prelude::*;

use crate::document::firelite_doc::{Doc, FireLiteDoc};
use crate::document::value::{copy_fields, fields_view, Val, Value};

verus! {

/// One change of a batch.
#[derive(Debug)]
pub enum BatchMutation {
    Put { collection: String, doc_id: String, doc: FireLiteDoc },
    Delete { collection: String, doc_id: String },
    Patch { collection: String, doc_id: String, updates: Vec<(String, Value)> },
}

/// What a change of a batch asks for.
pub enum Wish {
    Put { collection: Seq<char>, id: Seq<char>, doc: Doc },
    Delete { collection: Seq<char>, id: Seq<char> },
    Patch { collection: Seq<char>, id: Seq<char>, updates: Seq<(Seq<char>, Val)> },
}

impl View for BatchMutation {
    type V = Wish;

    open spec fn view(&self) -> Wish {
        match *self {
            BatchMutation::Put { collection, doc_id, doc } => Wish::Put { collection: collection@, id: doc_id@, doc: doc@ },
            BatchMutation::Delete { collection, doc_id } => Wish::Delete { collection: collection@, id: doc_id@ },
            BatchMutation::Patch { collection, doc_id, updates } => Wish::Patch {
                collection: collection@,
                id: doc_id@,
                updates: fields_view(updates@),
            },
        }
    }
}

/// What the changes of a batch ask for.
pub open spec fn wishes(s: Seq<BatchMutation>) -> Seq<Wish> {
    Seq::new(s.len(), |i: int| s[i]@)
}

/// The collection of a change.
pub open spec fn wish_collection(w: Wish) -> Seq<char> {
    match w {
        Wish::Put { collection, .. } => collection,
        Wish::Delete { collection, .. } => collection,
        Wish::Patch { collection, .. } => collection,
    }
}

/// The id of a change; empty where one is to be made.
pub open spec fn wish_id(w: Wish) -> Seq<char> {
    match w {
        Wish::Put { id, .. } => id,
        Wish::Delete { id, .. } => id,
        Wish::Patch { id, .. } => id,
    }
}

impl BatchMutation {
    /// The collection of the change.
    pub fn get_col(&self) -> (c: &String)
        ensures
            c@ == wish_collection(self@),
    {
        match self {
            BatchMutation::Put { collection, .. } => collection,
            BatchMutation::Delete { collection, .. } => collection,
            BatchMutation::Patch { collection, .. } => collection,
        }
    }

    /// The id of the change.
    pub fn id(&self) -> (c: &String)
        ensures
            c@ == wish_id(self@),
    {
        match self {
            BatchMutation::Put { doc_id, .. } => doc_id,
            BatchMutation::Delete { doc_id, .. } => doc_id,
            BatchMutation::Patch { doc_id, .. } => doc_id,
        }
    }
}

impl Clone for BatchMutation {
    fn clone(&self) -> (r: BatchMutation)
        ensures
            r@ == self@,
    {
        match self {
            BatchMutation::Put { collection, doc_id, doc } => BatchMutation::Put {
                collection: collection.clone(),
                doc_id: doc_id.clone(),
                doc: doc.clone(),
            },
            BatchMutation::Delete { collection, doc_id } => BatchMutation::Delete {
                collection: collection.clone(),
                doc_id: doc_id.clone(),
            },
            BatchMutation::Patch { collection, doc_id, updates } => BatchMutation::Patch {
                collection: collection.clone(),
                doc_id: doc_id.clone(),
                updates: copy_fields(updates),
            },
        }
    }
}

/// What became of a document.
#[derive(Debug, Clone, Copy, PartialEq, Eq, Structural)]
pub enum ChangeKind {
    Put,
    Delete,
}

impl ChangeKind {
    /// The number of the kind for other languages: 1 for a put, 2 for a delete.
    pub fn number(self) -> (n: i32)
        ensures
            n == (if self == ChangeKind::Put {
                1i32
            } else {
                2i32
            }),
    {
        match self {
            ChangeKind::Put => 1,
            ChangeKind::Delete => 2,
        }
    }
}

/// The news of a change, for those who watch a collection.
#[derive(Debug)]
pub struct ChangeEvent {
    pub path: String,
    pub kind: ChangeKind,
}

/// What a rule is about.
#[derive(Debug, Clone, Copy, PartialEq, Eq, Structural)]
pub enum AccessOp {
    Get,
    Put,
    Delete,
    Query,
    Batch,
}

/// Allows or denies an operation on the collections whose names begin with a prefix.
#[derive(Debug)]
pub struct SecurityRule {
    pub collection_prefix: String,
    pub op: AccessOp,
    pub allow: bool,
}

/// A line of the audit.
#[derive(Debug)]
pub struct AuditEntry {
    pub op: AccessOp,
    pub collection: String,
    pub doc_id: Option<String>,
    pub ok: bool,
}

/// A column of a composite index, for listings.
#[derive(Debug)]
pub struct CompositeIndexFieldInfo {
    pub field: String,
    pub direction: String,
}

/// A composite index, for listings.
#[derive(Debug)]
pub struct CompositeIndexInfo {
    pub id: u32,
    pub collection: String,
    pub fields: Vec<CompositeIndexFieldInfo>,
}

/// The indexes of a store, for listings and for peers: the indexed fields of each
/// collection, in order.
#[derive(Debug)]
pub struct IndexList {
    pub simple: Vec<(String, Vec<String>)>,
    pub secondary: Vec<(String, Vec<String>)>,
    pub fts: Vec<(String, Vec<String>)>,
    pub composite: Vec<CompositeIndexInfo>,
}

/// Changes of a collection that its indexes are still to follow.
pub struct IndexOp {
    pub collection: String,
    pub puts: Vec<(String, FireLiteDoc)>,
    pub deletes: Vec<(String, FireLiteDoc)>,
}

/// What still goes on in the background.
#[derive(Debug, Clone, Copy, PartialEq, Eq, Structural)]
pub struct QuiescenceStatus {
    /// The indexes were brought up to date after opening.
    pub indexes_ready: bool,
    /// Updates that the indexes are still to follow.
    pub pending_index_ops: usize,
    /// Indexes that are still being filled.
    pub index_backfills: usize,
    /// Bytes that were taken in but not yet written into a blob file.
    pub pending_blob_bytes: usize,
    /// Values that wait to be written into a blob file.
    pub queued_blob_items: usize,
    /// Checkpoints, compaction or snapshots are under way.
    pub maintenance_running: bool,
}

/// Nothing goes on in the background.
pub open spec fn quiescent(s: QuiescenceStatus) -> bool {
    &&& s.indexes_ready
    &&& s.pending_index_ops == 0
    &&& s.index_backfills == 0
    &&& s.pending_blob_bytes == 0
    &&& s.queued_blob_items == 0
    &&& !s.maintenance_running
}

impl QuiescenceStatus {
    /// Whether nothing goes on in the background.
    pub fn is_quiescent(&self) -> (r: bool)
        ensures
            r == quiescent(*self),
    {
        self.indexes_ready && self.pending_index_ops == 0 && self.index_backfills == 0 && self.pending_blob_bytes == 0
            && self.queued_blob_items == 0 && !self.maintenance_running
    }
}

/// What a wait for quiet does after a look at the store.
#[derive(Debug, Clone, Copy, PartialEq, Eq, Structural)]
pub enum WaitStep {
    /// The wait is over: the store was quiet, or not.
    Done(bool),
    /// Look again later.
    Again,
    /// The time is up: what a last look shows is the answer.
    LastLook,
}

/// How often in a row the store must be quiet.
pub const CLEAR_STREAK: u32 = 2;

/// One step of a wait for quiet. `streak` is how often in a row the store was quiet,
/// `clear` whether it is now, `late` whether the time is up.
pub fn await_step(streak: &mut u32, clear: bool, late: bool) -> (step: WaitStep)
    requires
        *old(streak) < CLEAR_STREAK,
    ensures
        *final(streak) == (if clear {
            *old(streak) + 1
        } else {
            0
        }),
        step == (if clear && *old(streak) + 1 >= CLEAR_STREAK {
            WaitStep::Done(true)
        } else if late {
            WaitStep::LastLook
        } else {
            WaitStep::Again
        }),
        step is Again ==> *final(streak) < CLEAR_STREAK,
{
    if clear {
        *streak = *streak + 1;
        if *streak >= CLEAR_STREAK {
            return WaitStep::Done(true);
        }
    } else {
        *streak = 0;
    }
    if late {
        WaitStep::LastLook
    } else {
        WaitStep::Again
    }
}

} // verus!
