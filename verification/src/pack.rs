//! The pack as the traversal reads it, and the checks made on one entry.

use vstd::prelude::*;
use vstd::slice::slice_subrange;
use crate::entry::EntryWithDefault;
use crate::hash::{crc32, crc32_of, sha1, sha1_of};
use crate::loose::{compute_id, object_id};
use crate::types::{
    id_from, lemma_id_from_view, Checksum, Error, IndexEntry, ObjectId, ObjectKind, PackEntry,
    SafetyCheck,
};

verus! {

/// Number of bytes of the checksum that ends a pack.
pub const TRAILER_LEN: usize = 20;

/// Where the entries of a pack of `len` bytes end and its trailer begins.
pub open spec fn pack_end(len: nat) -> nat {
    if len >= TRAILER_LEN {
        (len - TRAILER_LEN) as nat
    } else {
        0
    }
}

/// Where the entries of the pack end and its trailer begins.
pub fn end_of_entries(data: &[u8]) -> (end: u64)
    ensures
        end == pack_end(data@.len()),
{
    if data.len() >= TRAILER_LEN {
        (data.len() - TRAILER_LEN) as u64
    } else {
        0
    }
}

/// What comes of comparing the checksum a pack ends with to the one
/// computed over its content: the pack's id, or both checksums.
pub open spec fn compare_pack_checksum(stored: ObjectId, computed: ObjectId) -> Result<
    ObjectId,
    Error,
> {
    if stored@ == computed@ {
        Ok(stored)
    } else {
        Err(Error::PackMismatch { stored, computed })
    }
}

/// Accepts the stored checksum of a pack as its id if it is the computed
/// one.
pub fn check_pack_checksum(stored: ObjectId, computed: ObjectId) -> (res: Result<ObjectId, Error>)
    ensures
        res == compare_pack_checksum(stored, computed),
{
    if stored.same_as(&computed) {
        Ok(stored)
    } else {
        Err(Error::PackMismatch { stored, computed })
    }
}

/// The checksum that a pack ends with.
pub open spec fn stored_checksum(data: Seq<u8>) -> Seq<u8> {
    data.subrange(data.len() - TRAILER_LEN, data.len() as int)
}

/// Everything in a pack before its checksum.
pub open spec fn pack_content(data: Seq<u8>) -> Seq<u8> {
    data.subrange(0, data.len() - TRAILER_LEN)
}

/// Whether the pack ends with the SHA-1 of what comes before.
pub open spec fn checksum_matches(data: Seq<u8>) -> bool {
    data.len() >= TRAILER_LEN && stored_checksum(data) == sha1_of(pack_content(data))
}

/// Whether `res` is what verifying the checksum of the pack gives: the
/// stored checksum as the pack's id if it matches, both checksums if it does
/// not, and the missing range if the pack is too short to hold one.
pub open spec fn is_pack_verdict(data: Seq<u8>, res: Result<ObjectId, Error>) -> bool {
    match res {
        Ok(id) => checksum_matches(data) && id@ == stored_checksum(data),
        Err(error) => if data.len() < TRAILER_LEN {
            error == (Error::OutOfRangeSlice { start: 0, end: TRAILER_LEN as u64 })
        } else {
            &&& !checksum_matches(data)
            &&& error matches Error::PackMismatch { stored, computed }
            &&& stored@ == stored_checksum(data)
            &&& computed@ == sha1_of(pack_content(data))
        },
    }
}

/// Verifies the checksum a pack ends with and returns it as the pack's id.
pub fn verify_pack_checksum(data: &[u8]) -> (res: Result<ObjectId, Error>)
    ensures
        is_pack_verdict(data@, res),
{
    let len = data.len();
    if len < TRAILER_LEN {
        return Err(Error::OutOfRangeSlice { start: 0, end: TRAILER_LEN as u64 });
    }
    let trailer = slice_subrange(data, len - TRAILER_LEN, len);
    let mut bytes = [0u8; 20];
    let mut i: usize = 0;
    while i < TRAILER_LEN
        invariant
            i <= TRAILER_LEN,
            trailer@.len() == TRAILER_LEN,
            forall|k: int| 0 <= k < i ==> bytes@[k] == trailer@[k],
        decreases TRAILER_LEN - i,
    {
        bytes[i] = trailer[i];
        i += 1;
    }
    let stored = ObjectId { bytes };
    assert(stored@ =~= trailer@);
    let content = slice_subrange(data, 0, len - TRAILER_LEN);
    let computed = sha1(content, slice_subrange(data, 0, 0));
    assert(content@ + data@.subrange(0, 0) =~= content@);
    check_pack_checksum(stored, computed)
}

/// Where entry `i` ends: where the next one starts, or at `pack_end` for
/// the last.
pub open spec fn entry_end(entries: Seq<IndexEntry>, i: int, pack_end: u64) -> u64 {
    if i + 1 < entries.len() {
        entries[i + 1].pack_offset
    } else {
        pack_end
    }
}

/// Where entry `i` ends: where the next one starts, or at `pack_end` for
/// the last.
pub fn end_of_entry(entries: &[IndexEntry], i: usize, pack_end: u64) -> (end: u64)
    requires
        i < entries.len(),
    ensures
        end == entry_end(entries@, i as int, pack_end),
{
    if i + 1 < entries.len() {
        entries[i + 1].pack_offset
    } else {
        pack_end
    }
}

/// Whether the entry lies inside the pack, header first and payload after.
pub open spec fn in_range(index_entry: IndexEntry, pack_entry: PackEntry, end: u64, pack_end: u64) -> bool {
    index_entry.pack_offset <= pack_entry.data_offset <= end <= pack_end
}

/// What is made of one object: its measures if it lies inside the pack, was
/// decoded and has the checksums the index records; else the reason. `end`
/// is where the entry ends, `object_size` the length of the decoded object,
/// `None` if it could not be decoded, `computed_id` the id made from the
/// decoded object, `None` where ids are not verified, and `crc` the checksum
/// of the entry's bytes, header included.
pub open spec fn judge(
    index_entry: IndexEntry,
    pack_entry: PackEntry,
    kind: ObjectKind,
    level: u16,
    end: u64,
    pack_end: u64,
    object_size: Option<u64>,
    computed_id: Option<ObjectId>,
    crc: u32,
) -> Result<EntryWithDefault, Error> {
    if !(index_entry.pack_offset <= end <= pack_end) {
        Err(Error::OutOfRangeSlice { start: index_entry.pack_offset, end })
    } else if !(index_entry.pack_offset <= pack_entry.data_offset <= end) {
        Err(Error::OutOfRangeSlice { start: pack_entry.data_offset, end })
    } else if object_size is None {
        Err(Error::DecodeFailure { pack_offset: index_entry.pack_offset, oid: index_entry.oid })
    } else if computed_id is Some && computed_id->0@ != index_entry.oid@ {
        Err(
            Error::ChecksumMismatch {
                expected: Checksum::Id(index_entry.oid),
                actual: Checksum::Id(computed_id->0),
                pack_offset: index_entry.pack_offset,
                oid: index_entry.oid,
            },
        )
    } else if index_entry.crc32 is Some && index_entry.crc32->0 != crc {
        Err(
            Error::ChecksumMismatch {
                expected: Checksum::Crc32(index_entry.crc32->0),
                actual: Checksum::Crc32(crc),
                pack_offset: index_entry.pack_offset,
                oid: index_entry.oid,
            },
        )
    } else {
        Ok(
            EntryWithDefault {
                index_entry,
                object_kind: kind,
                object_size: object_size->0,
                decompressed_size: pack_entry.decompressed_size,
                compressed_size: (end - pack_entry.data_offset) as u64,
                header_size: pack_entry.header_size,
                level,
            },
        )
    }
}

/// Judges one object from what was read and computed of it.
pub fn check_entry(
    index_entry: &IndexEntry,
    pack_entry: &PackEntry,
    kind: ObjectKind,
    level: u16,
    end: u64,
    pack_end: u64,
    object_size: Option<u64>,
    computed_id: Option<ObjectId>,
    crc: u32,
) -> (res: Result<EntryWithDefault, Error>)
    ensures
        res == judge(
            *index_entry,
            *pack_entry,
            kind,
            level,
            end,
            pack_end,
            object_size,
            computed_id,
            crc,
        ),
{
    let start = index_entry.pack_offset;
    if !(start <= end && end <= pack_end) {
        return Err(Error::OutOfRangeSlice { start, end });
    }
    if !(start <= pack_entry.data_offset && pack_entry.data_offset <= end) {
        return Err(Error::OutOfRangeSlice { start: pack_entry.data_offset, end });
    }
    let size = match object_size {
        Some(size) => size,
        None => {
            return Err(Error::DecodeFailure { pack_offset: start, oid: index_entry.oid });
        },
    };
    if let Some(actual) = computed_id {
        if !actual.same_as(&index_entry.oid) {
            return Err(
                Error::ChecksumMismatch {
                    expected: Checksum::Id(index_entry.oid),
                    actual: Checksum::Id(actual),
                    pack_offset: start,
                    oid: index_entry.oid,
                },
            );
        }
    }
    if let Some(expected) = index_entry.crc32 {
        if expected != crc {
            return Err(
                Error::ChecksumMismatch {
                    expected: Checksum::Crc32(expected),
                    actual: Checksum::Crc32(crc),
                    pack_offset: start,
                    oid: index_entry.oid,
                },
            );
        }
    }
    Ok(
        EntryWithDefault {
            index_entry: *index_entry,
            object_kind: kind,
            object_size: size,
            decompressed_size: pack_entry.decompressed_size,
            compressed_size: end - pack_entry.data_offset,
            header_size: pack_entry.header_size,
            level,
        },
    )
}

/// The bytes of the pack from `start` to `end`, the whole entry with its
/// header.
pub open spec fn entry_bytes(data: Seq<u8>, start: u64, end: u64) -> Seq<u8> {
    data.subrange(start as int, end as int)
}

/// The length of a decoded object, `None` where decoding failed.
pub open spec fn size_of(object: Option<Seq<u8>>) -> Option<u64> {
    match object {
        Some(content) => Some(content.len() as u64),
        None => None,
    }
}

/// The id made from a decoded object, `None` where ids are not verified
/// or decoding failed.
pub open spec fn id_of(check: SafetyCheck, kind: ObjectKind, object: Option<Seq<u8>>) -> Option<
    ObjectId,
> {
    match object {
        Some(content) => if check.object_ids {
            Some(id_from(object_id(kind, content)))
        } else {
            None
        },
        None => None,
    }
}

/// What the checks make of one object of the pack `data`, whose entry ends
/// at `end` and whose decoded content is `object`.
pub open spec fn verdict_on(
    check: SafetyCheck,
    index_entry: IndexEntry,
    pack_entry: PackEntry,
    kind: ObjectKind,
    level: u16,
    end: u64,
    data: Seq<u8>,
    object: Option<Seq<u8>>,
) -> Result<EntryWithDefault, Error> {
    judge(
        index_entry,
        pack_entry,
        kind,
        level,
        end,
        pack_end(data.len()) as u64,
        size_of(object),
        id_of(check, kind, object),
        crc32_of(entry_bytes(data, index_entry.pack_offset, end)),
    )
}

/// Checks one object of the pack `data`: computes the checksum of the
/// entry's bytes, which run from its offset to `end`, and, where the policy
/// asks for it, the id of the decoded object, and judges the object by
/// them. `object` is the decoded object, `None` if decoding failed.
pub fn process_entry(
    check: SafetyCheck,
    index_entry: &IndexEntry,
    pack_entry: &PackEntry,
    kind: ObjectKind,
    level: u16,
    end: u64,
    data: &[u8],
    object: Option<&[u8]>,
) -> (res: Result<EntryWithDefault, Error>)
    ensures
        res == verdict_on(
            check,
            *index_entry,
            *pack_entry,
            kind,
            level,
            end,
            data@,
            match object {
                Some(content) => Some(content@),
                None => None,
            },
        ),
{
    let pack_end = end_of_entries(data);
    let start = index_entry.pack_offset;
    let crc = if start <= end && end <= pack_end && pack_end as usize <= data.len() {
        crc32(slice_subrange(data, start as usize, end as usize))
    } else {
        0
    };
    let (object_size, computed_id) = match object {
        Some(content) => {
            let id = if check.object_ids {
                let id = compute_id(kind, content);
                proof {
                    lemma_id_from_view(id);
                }
                Some(id)
            } else {
                None
            };
            (Some(content.len() as u64), id)
        },
        None => (None, None),
    };
    check_entry(index_entry, pack_entry, kind, level, end, pack_end, object_size, computed_id, crc)
}

} // verus!
