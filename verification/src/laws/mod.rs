//! What the library promises, operation by operation.
//!
//! Each law says what an operation gives in terms of what goes in: bytes that
//! were laid out field by field, stakes, messages. None of them goes by the way
//! in which the operation gets there.

pub mod behaviours;
pub mod blocks;
pub mod fetching;
pub mod following;
pub mod headers;
pub mod layers;
pub mod manifests;
pub mod offering;
pub mod partitions;
pub mod pulling;
pub mod reports;
pub mod selections;
pub mod staying;

use crate::cbor::{container_at, head_bytes, lemma_head_round_trip};
use vstd::prelude::*;

verus! {

/// Whether the bytes of `part` stand in `s` from `p` on.
pub open spec fn stands(s: Seq<u8>, p: int, part: Seq<u8>) -> bool {
    0 <= p && p + part.len() <= s.len() && s.subrange(p, p + part.len()) == part
}

/// The head of an array or map: of `n` elements, or of indefinite length.
pub open spec fn container_head(major: u8, n: Option<u64>) -> Seq<u8> {
    match n {
        Some(n) => head_bytes(major, n),
        None => seq![(major * 32 + 31) as u8],
    }
}

/// Where two parts stand in a row, each of them stands.
pub proof fn lemma_stands_split(s: Seq<u8>, p: int, a: Seq<u8>, b: Seq<u8>)
    requires
        stands(s, p, a + b),
    ensures
        stands(s, p, a),
        stands(s, p + a.len(), b),
{
    let whole = s.subrange(p, p + (a + b).len());
    assert(s.subrange(p, p + a.len()) =~= whole.subrange(0, a.len() as int));
    assert((a + b).subrange(0, a.len() as int) =~= a);
    assert(s.subrange(p + a.len(), p + a.len() + b.len()) =~= whole.subrange(
        a.len() as int,
        (a + b).len() as int,
    ));
    assert((a + b).subrange(a.len() as int, (a + b).len() as int) =~= b);
}

/// A sequence stands in itself.
pub proof fn lemma_stands_whole(s: Seq<u8>)
    ensures
        stands(s, 0, s),
{
    assert(s.subrange(0, s.len() as int) =~= s);
}

/// A part that stands somewhere begins with its first byte.
pub proof fn lemma_stands_first(s: Seq<u8>, p: int, part: Seq<u8>)
    requires
        stands(s, p, part),
        part.len() > 0,
    ensures
        s[p] == part[0],
{
    assert(s.subrange(p, p + part.len())[0] == s[p]);
}

/// The head of an array or map is read as it was written.
pub proof fn lemma_container_head(s: Seq<u8>, p: int, major: u8, n: Option<u64>)
    requires
        major < 8,
        stands(s, p, container_head(major, n)),
    ensures
        container_at(s, p, major) == Some((n, p + container_head(major, n).len())),
        1 <= container_head(major, n).len() <= 9,
{
    match n {
        Some(count) => {
            lemma_head_round_trip(s, p, major, count);
        },
        None => {
            lemma_stands_first(s, p, container_head(major, n));
        },
    }
}

} // verus!
