//! Composite indexes whose changes are logged.
use vstd::prelude::*;
use vstd::string::*;
use vstd::utf8::encode_utf8;

use crate::index::composite::composite_index::CompositeIndex;
use crate::index::composite::manager::{entry_dropped, entry_put, CompositeIndexManager};
use crate::index::storage::index_log::{encode_entry, record_bytes, DELETE, INSERT};
use crate::index::storage::index_recovery::{replay_log, valid_len};
use crate::index::storage::index_snapshot::{snapshot_bytes, write_snapshot};
use crate::util::decimal::{digits, push_digits};

verus! {

/// Composite indexes, and the directory of their snapshots. Each change hands back the
/// record that the caller appends to the log.
pub struct IndexStorage {
    pub manager: CompositeIndexManager,
    pub snapshot_dir: String,
}

/// The path of the snapshot of an index.
pub open spec fn snapshot_path(dir: Seq<char>, index_id: u32) -> Seq<char> {
    dir + "/"@ + digits(index_id as nat, 10) + ".snap"@
}

impl IndexStorage {
    /// The indexes after the records of a log, and the length to which the log is to be cut.
    pub fn open(log: &[u8], snapshot_dir: &str) -> (r: (IndexStorage, usize))
        ensures
            r.0.manager.wf(),
            r.0.snapshot_dir@ == snapshot_dir@,
            r.0.manager.indexes() == Seq::<CompositeIndex>::empty(),
            r.0.manager.last_id() == 0,
            r.1 == valid_len(log@),
    {
        let mut manager = CompositeIndexManager::default();
        let end = replay_log(log, &mut manager);
        let r = IndexStorage { manager, snapshot_dir: snapshot_dir.to_owned() };
        proof {
            assert(r.manager.indexes() =~= Seq::<CompositeIndex>::empty());
        }
        (r, end)
    }

    /// Puts an entry into an index. Hands back the record of it.
    pub fn insert(&mut self, index_id: u32, key: Vec<u8>, doc: String) -> (record: Vec<u8>)
        requires
            old(self).manager.wf(),
        ensures
            final(self).manager.wf(),
            final(self).snapshot_dir == old(self).snapshot_dir,
            final(self).manager.last_id() == old(self).manager.last_id(),
            entry_put(old(self).manager.indexes(), final(self).manager.indexes(), index_id, key@, doc@),
            record@ == record_bytes(INSERT, index_id, key@, encode_utf8(doc@)),
    {
        self.manager.put_entry(index_id, key.as_slice(), doc.as_str());
        encode_entry(INSERT, index_id, key.as_slice(), doc.as_str())
    }

    /// Takes an entry out of an index. Hands back the record of it.
    pub fn delete(&mut self, index_id: u32, key: Vec<u8>, doc: String) -> (record: Vec<u8>)
        requires
            old(self).manager.wf(),
        ensures
            final(self).manager.wf(),
            final(self).snapshot_dir == old(self).snapshot_dir,
            final(self).manager.last_id() == old(self).manager.last_id(),
            entry_dropped(old(self).manager.indexes(), final(self).manager.indexes(), index_id, key@),
            record@ == record_bytes(DELETE, index_id, key@, encode_utf8(doc@)),
    {
        self.manager.drop_entry(index_id, key.as_slice());
        encode_entry(DELETE, index_id, key.as_slice(), doc.as_str())
    }

    /// The path and the bytes of a snapshot of an index; nothing where there is none with
    /// that number.
    pub fn snapshot(&self, index_id: u32) -> (r: Option<(String, Vec<u8>)>)
        ensures
            match r {
                Some((path, bytes)) => path@ == snapshot_path(self.snapshot_dir@, index_id) && exists|x: CompositeIndex|
                    #![trigger snapshot_bytes(x)]
                    self.manager.indexes().contains(x) && x.definition.id == index_id && bytes@ == snapshot_bytes(x),
                None => forall|i: int|
                    0 <= i < self.manager.indexes().len() ==> (
                    #[trigger] self.manager.indexes()[i]).definition.id != index_id,
            },
    {
        match self.manager.get(index_id) {
            Some(x) => {
                let mut path = self.snapshot_dir.clone();
                path.append("/");
                push_digits(&mut path, index_id as u64, 10);
                path.append(".snap");
                Some((path, write_snapshot(x)))
            },
            None => None,
        }
    }
}

} // verus!
