//! The values that describe a pack and its index.

use vstd::prelude::*;

verus! {

/// The content hash that names an object.
#[derive(Clone, Copy, Debug, PartialEq, Eq, Hash)]
pub struct ObjectId {
    pub bytes: [u8; 20],
}

impl View for ObjectId {
    type V = Seq<u8>;

    open spec fn view(&self) -> Seq<u8> {
        self.bytes@
    }
}

impl ObjectId {
    /// Whether two ids hold the same bytes.
    pub fn same_as(&self, other: &ObjectId) -> (same: bool)
        ensures
            same == (self@ == other@),
    {
        let mut i: usize = 0;
        while i < 20
            invariant
                i <= 20,
                forall|k: int| 0 <= k < i ==> self.bytes@[k] == other.bytes@[k],
            decreases 20 - i,
        {
            if self.bytes[i] != other.bytes[i] {
                assert(self.bytes@[i as int] != other.bytes@[i as int]);
                return false;
            }
            i += 1;
        }
        assert(self.bytes@ =~= other.bytes@);
        true
    }
}

/// The id with the given bytes.
pub open spec fn id_from(bytes: Seq<u8>) -> ObjectId {
    choose|id: ObjectId| id@ == bytes
}

/// An id is nothing but its bytes.
pub proof fn lemma_id_from_view(id: ObjectId)
    ensures
        id_from(id@) == id,
{
    let chosen = id_from(id@);
    assert(chosen@ == id@);
    assert(chosen.bytes =~= id.bytes);
}

/// The four kinds of object a pack stores.
#[derive(Clone, Copy, Debug, PartialEq, Eq, Structural, Hash)]
pub enum ObjectKind {
    Tree,
    Blob,
    Commit,
    Tag,
}

/// One line of the index: where the object with a given id starts in the
/// pack, and the checksum of its entry if the index records one.
#[derive(Clone, Copy, Debug, PartialEq, Eq)]
pub struct IndexEntry {
    pub oid: ObjectId,
    pub pack_offset: u64,
    pub crc32: Option<u32>,
}

/// How a pack entry stores its object: in full, or as a delta against a
/// base that is named by its id or by its distance in the pack.
#[derive(Clone, Copy, Debug, PartialEq, Eq)]
pub enum Header {
    Commit,
    Tree,
    Blob,
    Tag,
    RefDelta { base_id: ObjectId },
    OfsDelta { base_distance: u64 },
}

impl Header {
    /// The kind of a full object, `None` for a delta.
    pub open spec fn kind(self) -> Option<ObjectKind> {
        match self {
            Header::Commit => Some(ObjectKind::Commit),
            Header::Tree => Some(ObjectKind::Tree),
            Header::Blob => Some(ObjectKind::Blob),
            Header::Tag => Some(ObjectKind::Tag),
            Header::RefDelta { .. } => None,
            Header::OfsDelta { .. } => None,
        }
    }

    pub open spec fn is_delta(self) -> bool {
        self.kind() is None
    }

    /// The kind of a full object, `None` for a delta.
    pub fn to_kind(&self) -> (kind: Option<ObjectKind>)
        ensures
            kind == self.kind(),
    {
        match self {
            Header::Commit => Some(ObjectKind::Commit),
            Header::Tree => Some(ObjectKind::Tree),
            Header::Blob => Some(ObjectKind::Blob),
            Header::Tag => Some(ObjectKind::Tag),
            Header::RefDelta { .. } => None,
            Header::OfsDelta { .. } => None,
        }
    }
}

/// What the pack says of the entry at one offset.
#[derive(Clone, Copy, Debug, PartialEq, Eq)]
pub struct PackEntry {
    pub header: Header,
    /// Size of the entry's payload once inflated.
    pub decompressed_size: u64,
    /// Number of bytes the entry's header takes.
    pub header_size: u16,
    /// Where the compressed payload starts in the pack.
    pub data_offset: u64,
}

/// What a traversal checks and how much corruption it tolerates.
#[derive(Clone, Copy, Debug, PartialEq, Eq)]
pub struct SafetyCheck {
    /// Strict: any object that fails to decode or to match a checksum ends
    /// the traversal. Lenient: such an object is noted and left out, and the
    /// traversal goes on.
    pub strict: bool,
    /// Whether the id of every object is computed again from its content
    /// and held against the id in the index.
    pub object_ids: bool,
}

impl SafetyCheck {
    pub open spec fn is_strict(self) -> bool {
        self.strict
    }

    /// Whether an object that cannot be decoded ends the traversal.
    pub fn fatal_decode_error(&self) -> (fatal: bool)
        ensures
            fatal == self.is_strict(),
    {
        self.strict
    }
}

/// One of the two checksums of an object: that of its entry's bytes in the
/// pack, or the id made from its content.
#[derive(Clone, Copy, Debug, PartialEq, Eq)]
pub enum Checksum {
    Crc32(u32),
    Id(ObjectId),
}

/// Why a traversal, or one object of it, failed.
#[derive(Clone, Copy, Debug, PartialEq, Eq)]
pub enum Error {
    /// The pack's trailing checksum is not the checksum of its content.
    PackMismatch { stored: ObjectId, computed: ObjectId },
    /// The delta at `pack_offset` names a base that no earlier entry is.
    DanglingDeltaBase { pack_offset: u64 },
    /// The object at `pack_offset` does not have the checksum the index
    /// records for it.
    ChecksumMismatch { expected: Checksum, actual: Checksum, pack_offset: u64, oid: ObjectId },
    /// The object at `pack_offset` could not be reconstructed.
    DecodeFailure { pack_offset: u64, oid: ObjectId },
    /// The bytes from `start` to `end` are not all inside the pack.
    OutOfRangeSlice { start: u64, end: u64 },
}

impl Error {
    /// Whether this error ends a traversal run under `check`.
    pub open spec fn is_fatal_under(self, check: SafetyCheck) -> bool {
        match self {
            Error::ChecksumMismatch { .. } => check.is_strict(),
            Error::DecodeFailure { .. } => check.is_strict(),
            _ => true,
        }
    }

    /// Whether this error ends a traversal run under `check`.
    pub fn fatal_under(&self, check: SafetyCheck) -> (fatal: bool)
        ensures
            fatal == self.is_fatal_under(check),
    {
        match self {
            Error::ChecksumMismatch { .. } => check.fatal_decode_error(),
            Error::DecodeFailure { .. } => check.fatal_decode_error(),
            _ => true,
        }
    }
}

} // verus!
