//! The id of an object: the SHA-1 of its header, which names its kind and
//! its size, and its content.

use vstd::prelude::*;
use crate::hash::{kind_name, name_of_kind, sha1, sha1_of};
use crate::types::{ObjectId, ObjectKind};

verus! {

/// The decimal digits of a number as ASCII, the lowest first; none for
/// zero.
pub open spec fn low_digits(n: nat) -> Seq<u8>
    decreases n,
{
    if n == 0 {
        Seq::empty()
    } else {
        seq![(48 + n % 10) as u8] + low_digits(n / 10)
    }
}

/// A number in decimal as ASCII, the highest digit first.
pub open spec fn decimal(n: nat) -> Seq<u8> {
    if n == 0 {
        seq![48u8]
    } else {
        let low = low_digits(n);
        Seq::new(low.len(), |i: int| low[low.len() - 1 - i])
    }
}

/// The header of an object: its kind, a space, its size in decimal, and a
/// zero byte.
pub open spec fn object_header(kind: ObjectKind, size: nat) -> Seq<u8> {
    kind_name(kind) + seq![32u8] + decimal(size) + seq![0u8]
}

/// The id of the object of a kind with a content.
pub open spec fn object_id(kind: ObjectKind, content: Seq<u8>) -> Seq<u8> {
    sha1_of(object_header(kind, content.len()) + content)
}

/// Writes a number in decimal.
pub fn encode_decimal(n: u64) -> (text: Vec<u8>)
    ensures
        text@ == decimal(n as nat),
{
    let mut text: Vec<u8> = Vec::new();
    if n == 0 {
        text.push(48);
        return text;
    }
    let mut low: Vec<u8> = Vec::new();
    let mut rest = n;
    while rest > 0
        invariant
            low@ + low_digits(rest as nat) == low_digits(n as nat),
        decreases rest,
    {
        let digit = (rest % 10) as u8;
        proof {
            assert(low@.push((48 + digit) as u8) + low_digits((rest / 10) as nat) =~= low@
                + low_digits(rest as nat));
        }
        low.push(48 + digit);
        rest = rest / 10;
    }
    assert(low@ =~= low_digits(n as nat));
    let mut i = low.len();
    while i > 0
        invariant
            i <= low.len(),
            text@.len() == low.len() - i,
            forall|k: int| 0 <= k < text@.len() ==> text@[k] == low@[low.len() - 1 - k],
        decreases i,
    {
        i -= 1;
        text.push(low[i]);
    }
    assert(text@ =~= decimal(n as nat));
    text
}

/// Writes the header of an object of a kind and a size.
pub fn encode_header(kind: ObjectKind, size: u64) -> (header: Vec<u8>)
    ensures
        header@ == object_header(kind, size as nat),
{
    let mut header = name_of_kind(kind);
    header.push(32);
    let mut digits = encode_decimal(size);
    header.append(&mut digits);
    header.push(0);
    header
}

/// Computes the id of an object from its kind and its content.
pub fn compute_id(kind: ObjectKind, content: &[u8]) -> (id: ObjectId)
    ensures
        id@ == object_id(kind, content@),
{
    let header = encode_header(kind, content.len() as u64);
    sha1(header.as_slice(), content)
}

} // verus!
