//! What a traversal learns of one object.

use vstd::prelude::*;
use vstd::std_specs::convert::FromSpecImpl;
use crate::hash::{null_id, null_id_bytes};
use crate::types::{IndexEntry, ObjectKind};

verus! {

/// An index entry together with what resolving its object found out. Until
/// the object is resolved every measure is zero and the kind is a tree.
#[derive(Clone, Copy, Debug, PartialEq, Eq)]
pub struct EntryWithDefault {
    pub index_entry: IndexEntry,
    pub object_kind: ObjectKind,
    /// Size of the reconstructed object.
    pub object_size: u64,
    /// Size that the entry's header declares for its inflated payload.
    pub decompressed_size: u64,
    /// Number of pack bytes from the start of the payload to the entry's end.
    pub compressed_size: u64,
    pub header_size: u16,
    /// Number of deltas between the object and the full object its chain
    /// starts from.
    pub level: u16,
}

impl EntryWithDefault {
    /// The entry that nothing is known of yet but its line in the index.
    pub open spec fn unresolved(index_entry: IndexEntry) -> EntryWithDefault {
        EntryWithDefault {
            index_entry,
            object_kind: ObjectKind::Tree,
            object_size: 0,
            decompressed_size: 0,
            compressed_size: 0,
            header_size: 0,
            level: 0,
        }
    }
}

impl Default for EntryWithDefault {
    fn default() -> (entry: EntryWithDefault)
        ensures
            entry.index_entry.oid@ == null_id_bytes(),
            entry.index_entry.pack_offset == 0,
            entry.index_entry.crc32 is None,
            entry == EntryWithDefault::unresolved(entry.index_entry),
    {
        EntryWithDefault {
            index_entry: IndexEntry { pack_offset: 0, crc32: None, oid: null_id() },
            level: 0,
            object_kind: ObjectKind::Tree,
            object_size: 0,
            decompressed_size: 0,
            compressed_size: 0,
            header_size: 0,
        }
    }
}

impl From<IndexEntry> for EntryWithDefault {
    fn from(index_entry: IndexEntry) -> (entry: EntryWithDefault) {
        EntryWithDefault {
            index_entry,
            level: 0,
            object_kind: ObjectKind::Tree,
            object_size: 0,
            decompressed_size: 0,
            compressed_size: 0,
            header_size: 0,
        }
    }
}

impl FromSpecImpl<IndexEntry> for EntryWithDefault {
    open spec fn obeys_from_spec() -> bool {
        true
    }

    open spec fn from_spec(index_entry: IndexEntry) -> EntryWithDefault {
        EntryWithDefault::unresolved(index_entry)
    }
}

} // verus!
