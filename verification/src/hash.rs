//! Checksums and digests, computed by `git-features` and `git-object`.

use vstd::prelude::*;
use crate::types::{ObjectId, ObjectKind};

verus! {

/// The CRC-32 (IEEE) checksum of a byte sequence.
pub uninterp spec fn crc32_of(bytes: Seq<u8>) -> u32;

/// Calls `git_features::hash::crc32`, which folds the IEEE table over the
/// bytes starting from zero. The result depends on the bytes alone.
#[verifier::external_body]
pub(crate) fn crc32(bytes: &[u8]) -> (sum: u32)
    ensures
        sum == crc32_of(bytes@),
{
    git_features::hash::crc32(bytes)
}

/// The SHA-1 digest of a byte sequence.
pub uninterp spec fn sha1_of(bytes: Seq<u8>) -> Seq<u8>;

/// Feeds `head` and then `body` to a fresh `git_features::hash::Sha1` with
/// `update` and takes its `digest`: the twenty bytes of the SHA-1 of the two
/// in a row, which depend on those bytes alone.
#[verifier::external_body]
pub(crate) fn sha1(head: &[u8], body: &[u8]) -> (digest: ObjectId)
    ensures
        digest@ == sha1_of(head@ + body@),
{
    let mut hasher = git_features::hash::Sha1::default();
    hasher.update(head);
    hasher.update(body);
    ObjectId { bytes: hasher.digest() }
}

/// The name of a kind as it stands at the start of an object: `tree`,
/// `blob`, `commit` or `tag`.
pub open spec fn kind_name(kind: ObjectKind) -> Seq<u8> {
    match kind {
        ObjectKind::Tree => seq![116u8, 114, 101, 101],
        ObjectKind::Blob => seq![98u8, 108, 111, 98],
        ObjectKind::Commit => seq![99u8, 111, 109, 109, 105, 116],
        ObjectKind::Tag => seq![116u8, 97, 103],
    }
}

/// Calls `git_object::Kind::to_bytes` on the kind of the same name, which
/// gives that name in lower case as ASCII bytes.
#[verifier::external_body]
pub(crate) fn name_of_kind(kind: ObjectKind) -> (name: Vec<u8>)
    ensures
        name@ == kind_name(kind),
{
    let kind = match kind {
        ObjectKind::Tree => git_object::Kind::Tree,
        ObjectKind::Blob => git_object::Kind::Blob,
        ObjectKind::Commit => git_object::Kind::Commit,
        ObjectKind::Tag => git_object::Kind::Tag,
    };
    kind.to_bytes().to_vec()
}

/// The id made of twenty zero bytes.
pub open spec fn null_id_bytes() -> Seq<u8> {
    Seq::new(20, |i: int| 0u8)
}

/// Calls `git_object::owned::Id::null`, which builds an id from an array of
/// twenty zero bytes, and hands those bytes over.
#[verifier::external_body]
pub(crate) fn null_id() -> (id: ObjectId)
    ensures
        id@ == null_id_bytes(),
{
    ObjectId { bytes: *git_object::owned::Id::null().sha1() }
}

} // verus!
