use vstd::prelude::*;
use vstd::slice::{slice_subrange, slice_to_vec};

use crate::text::{find_byte, lemma_find_byte_props, find_byte_at, matches_at, occurs_at};

verus! {

/// The two digests that std's `DefaultHasher` produces over a byte
/// sequence: first the digest once exactly these bytes have been written to
/// a fresh hasher, then the digest once one more zero byte (a domain
/// separator) has followed them.  `DefaultHasher::new` uses fixed default
/// keys, so both digests are functions of the written bytes alone, the same
/// in every run of one build.
pub uninterp spec fn hash_pair_of(bytes: Seq<u8>) -> (u64, u64);

/// The 128-bit identity of a block's content: the plain digest in the upper
/// 64 bits, the domain-separated digest in the lower 64 bits.  Derived from
/// the content bytes alone, never from position or file name.  Collisions
/// remain possible in principle; the identity only gates a cache.
pub open spec fn identity_of(content: Seq<u8>) -> u128 {
    ((hash_pair_of(content).0 as int) * 0x1_0000_0000_0000_0000 + (hash_pair_of(
        content,
    ).1 as int)) as u128
}

/// Relies on std::collections::hash_map::DefaultHasher: `new` builds the
/// hasher with fixed default keys shared by all instances so created,
/// `write` and `write_u8` feed bytes, and `finish` reports the digest of all
/// bytes written so far without changing the state.
#[verifier::external_body]
fn hash_pair(bytes: &[u8]) -> (r: (u64, u64))
    ensures
        r == hash_pair_of(bytes@),
{
    let mut hasher = std::collections::hash_map::DefaultHasher::new();
    std::hash::Hasher::write(&mut hasher, bytes);
    let lhs = std::hash::Hasher::finish(&hasher);
    std::hash::Hasher::write_u8(&mut hasher, 0);
    (lhs, std::hash::Hasher::finish(&hasher))
}

/// The 128-bit content identity of a block.
pub fn content_identity(content: &[u8]) -> (r: u128)
    ensures
        r == identity_of(content@),
{
    let (lhs, rhs) = hash_pair(content);
    (lhs as u128) * 0x1_0000_0000_0000_0000u128 + (rhs as u128)
}

/// The lowercase hex digit for a value `0 <= d < 16`.
pub open spec fn hex_digit(d: int) -> u8 {
    if d < 10 {
        (48 + d) as u8
    } else {
        (87 + d) as u8
    }
}

/// 16 to the power `e`.
pub open spec fn pow16(e: int) -> int
    decreases e,
{
    if e <= 0 {
        1
    } else {
        16 * pow16(e - 1)
    }
}

/// The 32 lowercase hex digits of `n`, most significant first.
pub open spec fn hex32(n: u128) -> Seq<u8> {
    Seq::new(32, |i: int| hex_digit((n as int / pow16(31 - i)) % 16))
}

/// The canonical text form of a 128-bit identity: 32 lowercase hex digits in
/// five groups of 8, 4, 4, 4 and 12, separated by `-`.
pub open spec fn uuid_text_of(n: u128) -> Seq<u8> {
    let d = hex32(n);
    d.subrange(0, 8) + seq![45u8] + d.subrange(8, 12) + seq![45u8] + d.subrange(12, 16)
        + seq![45u8] + d.subrange(16, 20) + seq![45u8] + d.subrange(20, 32)
}

/// Relies on uuid::Uuid: `from_u128` takes the 128-bit value with its most
/// significant byte first, and `Display` renders the hyphenated form, 32
/// lowercase hex digits in groups of 8-4-4-4-12.
#[verifier::external_body]
fn uuid_hyphenated(n: u128) -> (r: Vec<u8>)
    ensures
        r@ == uuid_text_of(n),
{
    uuid::Uuid::from_u128(n).to_string().into_bytes()
}

/// The text form of a content's identity: the stem of its artifact's name.
pub fn artifact_stem(content: &[u8]) -> (r: Vec<u8>)
    ensures
        r@ == uuid_text_of(identity_of(content@)),
{
    uuid_hyphenated(content_identity(content))
}

/// Identity is a pure function of content alone: byte-identical contents
/// have the same identity, wherever in a document they occur.
pub proof fn lemma_identity_content_only(a: Seq<u8>, b: Seq<u8>)
    requires
        a == b,
    ensures
        identity_of(a) == identity_of(b),
{
}

/// The marker that opens a diagram and carries a human-assigned name.
pub open spec fn startuml_marker() -> Seq<u8> {
    seq![64u8, 115u8, 116u8, 97u8, 114u8, 116u8, 117u8, 109u8, 108u8, 32u8]
}

/// The human-assigned name of a diagram: the rest of the first line after
/// the `@startuml ` marker, when the content starts with that marker.
pub open spec fn name_of(content: Seq<u8>) -> Option<Seq<u8>> {
    if occurs_at(content, startuml_marker(), 0) {
        match find_byte(content, 10u8, 10) {
            Some(i) => Some(content.subrange(10, i)),
            None => Some(content.subrange(10, content.len() as int)),
        }
    } else {
        None
    }
}

/// The marker bytes, `@startuml `.
fn startuml_marker_bytes() -> (r: Vec<u8>)
    ensures
        r@ == startuml_marker(),
{
    let mut v: Vec<u8> = Vec::new();
    v.push(64);
    v.push(115);
    v.push(116);
    v.push(97);
    v.push(114);
    v.push(116);
    v.push(117);
    v.push(109);
    v.push(108);
    v.push(32);
    proof {
        assert(v@ =~= startuml_marker());
    }
    v
}

/// Extracts the human-assigned name from a diagram's first line, if any.
pub fn find_name(content: &[u8]) -> (r: Option<Vec<u8>>)
    ensures
        match r {
            Some(v) => name_of(content@) == Some(v@),
            None => name_of(content@) == None::<Seq<u8>>,
        },
{
    let marker = startuml_marker_bytes();
    if !matches_at(content, marker.as_slice(), 0) {
        return None;
    }
    proof {
        lemma_find_byte_props(content@, 10u8, 10);
    }
    match find_byte_at(content, 10, 10) {
        Some(i) => Some(slice_to_vec(slice_subrange(content, 10, i))),
        None => Some(slice_to_vec(slice_subrange(content, 10, content.len()))),
    }
}

} // verus!
