//! CBOR items, as far as the ledger-object codecs read and write them.
//!
//! The bytes are read and written by `minicbor`. This module says, in terms of
//! byte sequences, what each of its calls gives back, and hands positions and
//! plain values on to the codecs.

use minicbor::data::{Tag, Type};
use minicbor::{Decoder, Encoder};
use vstd::prelude::*;

verus! {

/// Major type of unsigned integers.
pub const MAJOR_UNSIGNED: u8 = 0;

/// Major type of byte strings.
pub const MAJOR_BYTES: u8 = 2;

/// Major type of arrays.
pub const MAJOR_ARRAY: u8 = 4;

/// Major type of maps.
pub const MAJOR_MAP: u8 = 5;

/// Major type of tags.
pub const MAJOR_TAG: u8 = 6;

/// The byte that ends an item of indefinite length.
pub const BREAK: u8 = 0xff;

/// The number whose big-endian digits in base 256 are `s`.
pub open spec fn be_value(s: Seq<u8>) -> nat
    decreases s.len(),
{
    if s.len() == 0 {
        0
    } else {
        be_value(s.drop_last()) * 256 + s.last() as nat
    }
}

/// The lowest `width` big-endian digits of `n` in base 256.
pub open spec fn be_bytes(n: nat, width: nat) -> Seq<u8>
    decreases width,
{
    if width == 0 {
        Seq::empty()
    } else {
        be_bytes(n / 256, (width - 1) as nat).push((n % 256) as u8)
    }
}

/// How many bytes hold the argument of an item whose first byte ends in the
/// five bits `info`; `None` where such an item has no argument of its own.
pub open spec fn argument_width(info: int) -> Option<int> {
    if 0 <= info <= 0x17 {
        Some(0)
    } else if info == 0x18 {
        Some(1)
    } else if info == 0x19 {
        Some(2)
    } else if info == 0x1a {
        Some(4)
    } else if info == 0x1b {
        Some(8)
    } else {
        None
    }
}

/// The argument of an item whose first byte ends in `info` and stands just
/// before `p`, with the position that follows the argument.
pub open spec fn argument_at(s: Seq<u8>, p: int, info: int) -> Option<(u64, int)> {
    match argument_width(info) {
        None => None,
        Some(width) => if width == 0 {
            Some((info as u64, p))
        } else if p + width <= s.len() {
            Some((be_value(s.subrange(p, p + width)) as u64, p + width))
        } else {
            None
        },
    }
}

/// Whether an item of the given major type starts at `p`.
pub open spec fn has_major(s: Seq<u8>, p: int, major: u8) -> bool {
    0 <= p < s.len() && s[p] as int / 32 == major as int
}

/// The argument of the item of the given major type that starts at `p`, with
/// the position that follows the item's head.
pub open spec fn head_at(s: Seq<u8>, p: int, major: u8) -> Option<(u64, int)> {
    if has_major(s, p, major) {
        argument_at(s, p + 1, s[p] as int % 32)
    } else {
        None
    }
}

/// The unsigned integer at `p`, with the position after it.
pub open spec fn u64_at(s: Seq<u8>, p: int) -> Option<(u64, int)> {
    head_at(s, p, MAJOR_UNSIGNED)
}

/// The unsigned integer at `p` where it fits in 32 bits, with the position
/// after it.
pub open spec fn u32_at(s: Seq<u8>, p: int) -> Option<(u32, int)> {
    match head_at(s, p, MAJOR_UNSIGNED) {
        Some((n, end)) => if n <= u32::MAX {
            Some((n as u32, end))
        } else {
            None
        },
        None => None,
    }
}

/// The tag number at `p`, with the position of the tagged item.
pub open spec fn tag_at(s: Seq<u8>, p: int) -> Option<(u64, int)> {
    head_at(s, p, MAJOR_TAG)
}

/// The content of the byte string of definite length at `p`, with the position
/// after it.
pub open spec fn bytes_at(s: Seq<u8>, p: int) -> Option<(Seq<u8>, int)> {
    match head_at(s, p, MAJOR_BYTES) {
        Some((n, start)) => if start + n <= s.len() {
            Some((s.subrange(start, start + n), start + n))
        } else {
            None
        },
        None => None,
    }
}

/// The element count of the array or map at `p`, `None` for one of indefinite
/// length, with the position of its first element.
pub open spec fn container_at(s: Seq<u8>, p: int, major: u8) -> Option<(Option<u64>, int)> {
    if has_major(s, p, major) && s[p] as int % 32 == 31 {
        Some((None, p + 1))
    } else {
        match head_at(s, p, major) {
            Some((n, start)) => Some((Some(n), start)),
            None => None,
        }
    }
}

/// Whether the byte at `p` ends an item of indefinite length.
pub open spec fn break_at(s: Seq<u8>, p: int) -> bool {
    0 <= p < s.len() && s[p] == BREAK
}

/// Whether the type of the item at `p` can be told: there is a byte at `p`,
/// and a second one where a negative integer's width depends on it.
pub open spec fn type_known_at(s: Seq<u8>, p: int) -> bool {
    0 <= p < s.len() && (0x38 <= s[p] <= 0x3b ==> p + 1 < s.len())
}

/// The shortest head of an item with the given major type and argument.
#[verifier::opaque]
pub open spec fn head_bytes(major: u8, n: u64) -> Seq<u8> {
    if n <= 0x17 {
        seq![(major * 32 + n) as u8]
    } else if n <= 0xff {
        seq![(major * 32 + 0x18) as u8] + be_bytes(n as nat, 1)
    } else if n <= 0xffff {
        seq![(major * 32 + 0x19) as u8] + be_bytes(n as nat, 2)
    } else if n <= 0xffff_ffff {
        seq![(major * 32 + 0x1a) as u8] + be_bytes(n as nat, 4)
    } else {
        seq![(major * 32 + 0x1b) as u8] + be_bytes(n as nat, 8)
    }
}

/// Where a tagged byte string at `p` ends.
pub open spec fn tagged_bytes_end(s: Seq<u8>, p: int) -> Option<int> {
    match tag_at(s, p) {
        Some((_, q)) => match bytes_at(s, q) {
            Some((_, end)) => Some(end),
            None => None,
        },
        None => None,
    }
}

/// Where the item that starts at `p` ends, or `None` where `minicbor` cannot
/// skip it: what `Decoder::skip` makes of the bytes `s` from position `p`.
pub uninterp spec fn skip_end(s: Seq<u8>, p: int) -> Option<int>;

/// `minicbor::Decoder::tag` at position `pos` of `buf`: reads a tag number.
#[verifier::external_body]
pub(crate) fn read_tag(buf: &[u8], pos: usize) -> (res: Option<(u64, usize)>)
    ensures
        match res {
            Some((tag, end)) => tag_at(buf@, pos as int) == Some((tag, end as int)),
            None => tag_at(buf@, pos as int) is None,
        },
{
    let mut d = Decoder::new(buf);
    d.set_position(pos);
    match d.tag() {
        Ok(tag) => Some((tag.as_u64(), d.position())),
        Err(_) => None,
    }
}

/// `minicbor::Decoder::bytes` at position `pos` of `buf`: reads a byte string
/// of definite length.
#[verifier::external_body]
pub(crate) fn read_bytes(buf: &[u8], pos: usize) -> (res: Option<(&[u8], usize)>)
    ensures
        match res {
            Some((content, end)) => bytes_at(buf@, pos as int) == Some((content@, end as int)),
            None => bytes_at(buf@, pos as int) is None,
        },
{
    let mut d = Decoder::new(buf);
    d.set_position(pos);
    match d.bytes() {
        Ok(content) => Some((content, d.position())),
        Err(_) => None,
    }
}

/// `minicbor::Decoder::u32` at position `pos` of `buf`: reads an unsigned
/// integer of any width whose value fits in 32 bits.
#[verifier::external_body]
pub(crate) fn read_u32(buf: &[u8], pos: usize) -> (res: Option<(u32, usize)>)
    ensures
        match res {
            Some((n, end)) => u32_at(buf@, pos as int) == Some((n, end as int)),
            None => u32_at(buf@, pos as int) is None,
        },
{
    let mut d = Decoder::new(buf);
    d.set_position(pos);
    match d.u32() {
        Ok(n) => Some((n, d.position())),
        Err(_) => None,
    }
}

/// `minicbor::Decoder::u64` at position `pos` of `buf`: reads an unsigned
/// integer of any width.
#[verifier::external_body]
pub(crate) fn read_u64(buf: &[u8], pos: usize) -> (res: Option<(u64, usize)>)
    ensures
        match res {
            Some((n, end)) => u64_at(buf@, pos as int) == Some((n, end as int)),
            None => u64_at(buf@, pos as int) is None,
        },
{
    let mut d = Decoder::new(buf);
    d.set_position(pos);
    match d.u64() {
        Ok(n) => Some((n, d.position())),
        Err(_) => None,
    }
}

/// `minicbor::Decoder::array` at position `pos` of `buf`: reads the head of an
/// array.
#[verifier::external_body]
pub(crate) fn read_array(buf: &[u8], pos: usize) -> (res: Option<(Option<u64>, usize)>)
    ensures
        match res {
            Some((n, end)) => container_at(buf@, pos as int, MAJOR_ARRAY) == Some((n, end as int)),
            None => container_at(buf@, pos as int, MAJOR_ARRAY) is None,
        },
{
    let mut d = Decoder::new(buf);
    d.set_position(pos);
    match d.array() {
        Ok(n) => Some((n, d.position())),
        Err(_) => None,
    }
}

/// `minicbor::Decoder::map` at position `pos` of `buf`: reads the head of a
/// map.
#[verifier::external_body]
pub(crate) fn read_map(buf: &[u8], pos: usize) -> (res: Option<(Option<u64>, usize)>)
    ensures
        match res {
            Some((n, end)) => container_at(buf@, pos as int, MAJOR_MAP) == Some((n, end as int)),
            None => container_at(buf@, pos as int, MAJOR_MAP) is None,
        },
{
    let mut d = Decoder::new(buf);
    d.set_position(pos);
    match d.map() {
        Ok(n) => Some((n, d.position())),
        Err(_) => None,
    }
}

/// `minicbor::Decoder::datatype` at position `pos` of `buf`: tells a break
/// byte from every other item.
#[verifier::external_body]
pub(crate) fn read_is_break(buf: &[u8], pos: usize) -> (res: Option<bool>)
    ensures
        res is Some <==> type_known_at(buf@, pos as int),
        res matches Some(b) ==> b == break_at(buf@, pos as int),
{
    let mut d = Decoder::new(buf);
    d.set_position(pos);
    match d.datatype() {
        Ok(Type::Break) => Some(true),
        Ok(_) => Some(false),
        Err(_) => None,
    }
}

/// `minicbor::Decoder::skip` at position `pos` of `buf`: the position after the
/// item that starts there.
///
/// Which items can be skipped is left to the name `skip_end`. Of it the
/// contract says that an item takes at least one byte and ends within the
/// input, and that a tagged byte string of definite length ends where the byte
/// string does.
#[verifier::external_body]
pub(crate) fn read_skip(buf: &[u8], pos: usize) -> (res: Option<usize>)
    ensures
        match res {
            Some(end) => skip_end(buf@, pos as int) == Some(end as int) && pos < end <= buf@.len(),
            None => skip_end(buf@, pos as int) is None,
        },
        tagged_bytes_end(buf@, pos as int) matches Some(end) ==> res is Some && res->Some_0
            == end,
{
    let mut d = Decoder::new(buf);
    d.set_position(pos);
    match d.skip() {
        Ok(()) => Some(d.position()),
        Err(_) => None,
    }
}

/// `minicbor::Encoder::array`: appends the head of an array of `n` elements.
#[verifier::external_body]
pub(crate) fn put_array(out: &mut Vec<u8>, n: u64)
    ensures
        final(out)@ == old(out)@ + head_bytes(MAJOR_ARRAY, n),
{
    let _ = Encoder::new(out).array(n);
}

/// `minicbor::Encoder::map`: appends the head of a map of `n` entries.
#[verifier::external_body]
pub(crate) fn put_map(out: &mut Vec<u8>, n: u64)
    ensures
        final(out)@ == old(out)@ + head_bytes(MAJOR_MAP, n),
{
    let _ = Encoder::new(out).map(n);
}

/// `minicbor::Encoder::tag`: appends a tag number.
#[verifier::external_body]
pub(crate) fn put_tag(out: &mut Vec<u8>, tag: u64)
    ensures
        final(out)@ == old(out)@ + head_bytes(MAJOR_TAG, tag),
{
    let _ = Encoder::new(out).tag(Tag::new(tag));
}

/// `minicbor::Encoder::u32`: appends an unsigned integer.
#[verifier::external_body]
pub(crate) fn put_u32(out: &mut Vec<u8>, n: u32)
    ensures
        final(out)@ == old(out)@ + head_bytes(MAJOR_UNSIGNED, n as u64),
{
    let _ = Encoder::new(out).u32(n);
}

/// `minicbor::Encoder::bytes`: appends a byte string of definite length.
#[verifier::external_body]
pub(crate) fn put_bytes(out: &mut Vec<u8>, content: &[u8])
    ensures
        final(out)@ == old(out)@ + head_bytes(MAJOR_BYTES, content@.len() as u64) + content@,
{
    let _ = Encoder::new(out).bytes(content);
}

/// `256` to the power of `width`.
pub open spec fn pow256(width: nat) -> nat
    decreases width,
{
    if width == 0 {
        1
    } else {
        256 * pow256((width - 1) as nat)
    }
}

/// Digits give back the number that they were taken from, as long as there are
/// enough of them.
pub proof fn lemma_be_digits(n: nat, width: nat)
    requires
        n < pow256(width),
    ensures
        be_bytes(n, width).len() == width,
        be_value(be_bytes(n, width)) == n,
    decreases width,
{
    if width > 0 {
        lemma_be_digits(n / 256, (width - 1) as nat);
        assert(be_bytes(n, width).drop_last() =~= be_bytes(n / 256, (width - 1) as nat));
    }
}

/// A head that was written is read back: wherever the bytes of `head_bytes`
/// stand in `s`, the argument and the position after them are found there.
pub proof fn lemma_head_round_trip(s: Seq<u8>, p: int, major: u8, n: u64)
    requires
        major < 8,
        0 <= p,
        p + head_bytes(major, n).len() <= s.len(),
        s.subrange(p, p + head_bytes(major, n).len()) == head_bytes(major, n),
    ensures
        head_at(s, p, major) == Some((n, p + head_bytes(major, n).len())),
        1 <= head_bytes(major, n).len() <= 9,
{
    reveal(head_bytes);
    reveal_with_fuel(pow256, 9);
    let head = head_bytes(major, n);
    let width: nat = if n <= 0x17 {
        0
    } else if n <= 0xff {
        1
    } else if n <= 0xffff {
        2
    } else if n <= 0xffff_ffff {
        4
    } else {
        8
    };
    lemma_be_digits(n as nat, if width == 0 { 8 } else { width });
    assert(s[p] == s.subrange(p, p + head.len())[0]);
    if width > 0 {
        assert(s.subrange(p + 1, p + 1 + width) =~= s.subrange(p, p + head.len()).subrange(
            1,
            1 + width as int,
        ));
        assert(head.subrange(1, 1 + width as int) =~= be_bytes(n as nat, width));
    }
}

/// A byte string that was written is read back.
pub proof fn lemma_bytes_round_trip(s: Seq<u8>, p: int, content: Seq<u8>)
    requires
        0 <= p,
        content.len() <= u64::MAX,
        ({
            let item = head_bytes(MAJOR_BYTES, content.len() as u64) + content;
            p + item.len() <= s.len() && s.subrange(p, p + item.len()) == item
        }),
    ensures
        bytes_at(s, p) == Some(
            (content, p + head_bytes(MAJOR_BYTES, content.len() as u64).len() + content.len()),
        ),
{
    let head = head_bytes(MAJOR_BYTES, content.len() as u64);
    let item = head + content;
    assert(s.subrange(p, p + head.len()) =~= s.subrange(p, p + item.len()).subrange(
        0,
        head.len() as int,
    ));
    assert(item.subrange(0, head.len() as int) =~= head);
    lemma_head_round_trip(s, p, MAJOR_BYTES, content.len() as u64);
    assert(s.subrange(p + head.len(), p + item.len()) =~= s.subrange(p, p + item.len()).subrange(
        head.len() as int,
        item.len() as int,
    ));
    assert(item.subrange(head.len() as int, item.len() as int) =~= content);
}

} // verus!
