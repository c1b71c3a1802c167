//! What is read from headers.

use super::{
    container_head, lemma_container_head, lemma_stands_first, lemma_stands_split,
    lemma_stands_whole, stands,
};
use crate::cbor::{
    container_at, head_bytes, lemma_bytes_round_trip, lemma_head_round_trip, MAJOR_ARRAY, MAJOR_BYTES, MAJOR_TAG,
    MAJOR_UNSIGNED,
};
use crate::header::{
    blake2b_256_digest, header_info, header_numbers, is_header_point, wrapped_header,
    wrapped_header_bytes, HeaderInfo,
};
use crate::types::Point;
use vstd::prelude::*;

verus! {

/// A header as it stands in a block, from its leading fields on: two array heads
/// of any length, the block number, the slot, and whatever follows.
pub open spec fn header_of(
    outer: Option<u64>,
    fields: Option<u64>,
    block_number: u64,
    slot: u64,
    rest: Seq<u8>,
) -> Seq<u8> {
    container_head(MAJOR_ARRAY, outer) + container_head(MAJOR_ARRAY, fields) + head_bytes(
        MAJOR_UNSIGNED,
        block_number,
    ) + head_bytes(MAJOR_UNSIGNED, slot) + rest
}

/// The wire form of a header, with a tag and an array head of any kind, and
/// whatever follows it.
pub open spec fn wire_header_of(
    outer: Option<u64>,
    era: u32,
    tag: u64,
    header: Seq<u8>,
    rest: Seq<u8>,
) -> Seq<u8> {
    container_head(MAJOR_ARRAY, outer) + head_bytes(MAJOR_UNSIGNED, era as u64) + head_bytes(
        MAJOR_TAG,
        tag,
    ) + (head_bytes(MAJOR_BYTES, header.len() as u64) + header) + rest
}

/// The block number and the slot are read from a header whatever the length of
/// its arrays, definite or not, and whatever follows them.
pub proof fn law_header_begins_with_its_numbers(
    outer: Option<u64>,
    fields: Option<u64>,
    block_number: u64,
    slot: u64,
    rest: Seq<u8>,
)
    ensures
        header_numbers(header_of(outer, fields, block_number, slot, rest)) == Some(
            (block_number, slot),
        ),
{
    let s = header_of(outer, fields, block_number, slot, rest);
    let a = container_head(MAJOR_ARRAY, outer);
    let b = container_head(MAJOR_ARRAY, fields);
    let c = head_bytes(MAJOR_UNSIGNED, block_number);
    let d = head_bytes(MAJOR_UNSIGNED, slot);
    lemma_stands_whole(s);
    lemma_stands_split(s, 0, a + b + c + d, rest);
    lemma_stands_split(s, 0, a + b + c, d);
    lemma_stands_split(s, 0, a + b, c);
    lemma_stands_split(s, 0, a, b);
    lemma_container_head(s, 0, MAJOR_ARRAY, outer);
    lemma_container_head(s, a.len() as int, MAJOR_ARRAY, fields);
    lemma_head_round_trip(s, (a + b).len() as int, MAJOR_UNSIGNED, block_number);
    lemma_head_round_trip(s, (a + b + c).len() as int, MAJOR_UNSIGNED, slot);
}

/// The block number and the slot are read from a header body of any number of
/// fields.
pub proof fn law_number_of_fields_does_not_matter(
    n: u64,
    block_number: u64,
    slot: u64,
    rest: Seq<u8>,
)
    ensures
        header_numbers(
            head_bytes(MAJOR_ARRAY, 2) + head_bytes(MAJOR_ARRAY, n) + head_bytes(
                MAJOR_UNSIGNED,
                block_number,
            ) + head_bytes(MAJOR_UNSIGNED, slot) + rest,
        ) == Some((block_number, slot)),
{
    law_header_begins_with_its_numbers(Some(2), Some(n), block_number, slot, rest);
}

/// What is unwrapped from the wire form of a header: the era and the header from
/// era 2 on under tag 24, and nothing for an earlier era or another tag.
pub proof fn law_wire_header_is_unwrapped(
    outer: Option<u64>,
    era: u32,
    tag: u64,
    header: Seq<u8>,
    rest: Seq<u8>,
)
    requires
        header.len() <= u64::MAX,
    ensures
        wrapped_header(wire_header_of(outer, era, tag, header, rest)) == (if era >= 2 && tag == 24 {
            Some((era, header))
        } else {
            None
        }),
{
    let s = wire_header_of(outer, era, tag, header, rest);
    let a = container_head(MAJOR_ARRAY, outer);
    let b = head_bytes(MAJOR_UNSIGNED, era as u64);
    let c = head_bytes(MAJOR_TAG, tag);
    let d = head_bytes(MAJOR_BYTES, header.len() as u64) + header;
    lemma_stands_whole(s);
    lemma_stands_split(s, 0, a + b + c + d, rest);
    lemma_stands_split(s, 0, a + b + c, d);
    lemma_stands_split(s, 0, a + b, c);
    lemma_stands_split(s, 0, a, b);
    lemma_container_head(s, 0, MAJOR_ARRAY, outer);
    lemma_head_round_trip(s, a.len() as int, MAJOR_UNSIGNED, era as u64);
    lemma_head_round_trip(s, (a + b).len() as int, MAJOR_TAG, tag);
    lemma_bytes_round_trip(s, (a + b + c).len() as int, header);
}

/// The leading fields of a header are read from its wire form: the era that it
/// is tagged with, and its own block number and slot. A header of an era before
/// 2 or under another tag than 24 is not read.
pub proof fn law_header_is_read_from_the_wire(
    outer: Option<u64>,
    era: u32,
    tag: u64,
    inner: Option<u64>,
    fields: Option<u64>,
    block_number: u64,
    slot: u64,
    signature: Seq<u8>,
    rest: Seq<u8>,
)
    requires
        header_of(inner, fields, block_number, slot, signature).len() <= u64::MAX,
    ensures
        ({
            let header = header_of(inner, fields, block_number, slot, signature);
            header_info(wire_header_of(outer, era, tag, header, rest)) == (if era >= 2 && tag
                == 24 {
                Some(HeaderInfo { era, block_number, slot })
            } else {
                None
            })
        }),
{
    let header = header_of(inner, fields, block_number, slot, signature);
    law_wire_header_is_unwrapped(outer, era, tag, header, rest);
    law_header_begins_with_its_numbers(inner, fields, block_number, slot, signature);
}

/// A header that does not begin with two arrays and two unsigned integers is not
/// read.
pub proof fn law_other_headers_are_not_read(
    outer: Option<u64>,
    fields: Option<u64>,
    block_number: u64,
    rest: Seq<u8>,
)
    requires
        rest.len() > 0,
    ensures
        rest[0] as int / 32 != 4 ==> header_numbers(rest) is None && header_numbers(
            container_head(MAJOR_ARRAY, outer) + rest,
        ) is None,
        rest[0] as int / 32 != 0 ==> header_numbers(
            container_head(MAJOR_ARRAY, outer) + container_head(MAJOR_ARRAY, fields) + rest,
        ) is None && header_numbers(
            container_head(MAJOR_ARRAY, outer) + container_head(MAJOR_ARRAY, fields) + head_bytes(
                MAJOR_UNSIGNED,
                block_number,
            ) + rest,
        ) is None,
{
    let a = container_head(MAJOR_ARRAY, outer);
    let b = container_head(MAJOR_ARRAY, fields);
    let c = head_bytes(MAJOR_UNSIGNED, block_number);
    lemma_arrays_then(a + rest, outer, None, Seq::empty(), rest, 1);
    lemma_arrays_then(a + b + rest, outer, fields, Seq::empty(), rest, 2);
    lemma_arrays_then(a + b + c + rest, outer, fields, c, rest, 3);
    lemma_head_round_trip(a + b + c + rest, (a + b).len() as int, MAJOR_UNSIGNED, block_number);
}

/// What stands after none, one or two array heads and a number.
proof fn lemma_arrays_then(
    s: Seq<u8>,
    outer: Option<u64>,
    fields: Option<u64>,
    number: Seq<u8>,
    rest: Seq<u8>,
    heads: int,
)
    requires
        rest.len() > 0,
        ({
            let (a, b) = (
                container_head(MAJOR_ARRAY, outer),
                container_head(MAJOR_ARRAY, fields),
            );
            s == (if heads == 1 {
                a + rest
            } else if heads == 2 {
                a + b + rest
            } else {
                a + b + number + rest
            })
        }),
    ensures
        ({
            let p = container_head(MAJOR_ARRAY, outer).len() as int;
            let q = p + container_head(MAJOR_ARRAY, fields).len();
            &&& container_at(s, 0, MAJOR_ARRAY) == Some((outer, p))
            &&& heads == 1 ==> s[p] == rest[0]
            &&& heads != 1 ==> container_at(s, p, MAJOR_ARRAY) == Some((fields, q))
            &&& heads == 2 ==> s[q] == rest[0]
            &&& heads > 2 ==> stands(s, q, number) && s[q + number.len()] == rest[0]
        }),
{
    let a = container_head(MAJOR_ARRAY, outer);
    let b = container_head(MAJOR_ARRAY, fields);
    lemma_stands_whole(s);
    if heads == 1 {
        lemma_stands_split(s, 0, a, rest);
        lemma_stands_first(s, a.len() as int, rest);
    } else if heads == 2 {
        lemma_stands_split(s, 0, a + b, rest);
        lemma_stands_split(s, 0, a, b);
        lemma_container_head(s, a.len() as int, MAJOR_ARRAY, fields);
        lemma_stands_first(s, (a + b).len() as int, rest);
    } else {
        lemma_stands_split(s, 0, a + b + number, rest);
        lemma_stands_split(s, 0, a + b, number);
        lemma_stands_split(s, 0, a, b);
        lemma_container_head(s, a.len() as int, MAJOR_ARRAY, fields);
        lemma_stands_first(s, (a + b + number).len() as int, rest);
    }
    lemma_container_head(s, 0, MAJOR_ARRAY, outer);
}

/// The position of a header is its own slot with the hash of its wire bytes, and
/// there is none for a header of an era before 2.
pub proof fn law_header_stands_at_its_slot_and_hash(
    outer: Option<u64>,
    era: u32,
    inner: Option<u64>,
    fields: Option<u64>,
    block_number: u64,
    slot: u64,
    signature: Seq<u8>,
    rest: Seq<u8>,
    point: Option<Point>,
)
    requires
        header_of(inner, fields, block_number, slot, signature).len() <= u64::MAX,
        is_header_point(
            wire_header_of(
                outer,
                era,
                24,
                header_of(inner, fields, block_number, slot, signature),
                rest,
            ),
            point,
        ),
    ensures
        ({
            let header = header_of(inner, fields, block_number, slot, signature);
            let raw = wire_header_of(outer, era, 24, header, rest);
            if era >= 2 {
                &&& point is Some
                &&& point->Some_0 is Specific
                &&& point->Some_0->slot == slot
                &&& point->Some_0->hash@ == blake2b_256_digest(raw)
            } else {
                point is None
            }
        }),
{
    law_header_is_read_from_the_wire(
        outer,
        era,
        24,
        inner,
        fields,
        block_number,
        slot,
        signature,
        rest,
    );
}

/// An array of two: the era, and under tag 24 the header as a byte string.
pub open spec fn era_and_header(era: u32, header: Seq<u8>) -> Seq<u8> {
    seq![0x82u8] + head_bytes(MAJOR_UNSIGNED, era as u64) + seq![0xd8u8, 0x18u8] + head_bytes(
        MAJOR_BYTES,
        header.len() as u64,
    ) + header
}

/// The wire form of a header is an array of two: the era, and under tag 24 the
/// header as a byte string.
pub proof fn law_wire_form_of_a_header(era: u32, header: Seq<u8>)
    ensures
        wrapped_header_bytes(era, header) == era_and_header(era, header),
{
    reveal(head_bytes);
    assert(head_bytes(MAJOR_ARRAY, 2) =~= seq![0x82u8]);
    reveal_with_fuel(crate::cbor::be_bytes, 2);
    assert(head_bytes(MAJOR_TAG, 24) =~= seq![0xd8u8, 0x18u8]);
}

} // verus!
