//! What is read from blocks: the header, the certificate, and what an inspection
//! finds.

use super::headers::{era_and_header, law_wire_form_of_a_header};
use super::{
    container_head, lemma_container_head, lemma_stands_first, lemma_stands_split,
    lemma_stands_whole, stands,
};
use crate::block::{
    body_findings, cert_at, cert_field, cert_head_at, certificate_bytes, envelope, extracted_header,
    is_decoded_block, joined, lemma_joined_take, open_count, refs_field, skip_many,
    trailing_findings, tx_bodies_at, BlockBody, BodyFacts, DecodeError, Findings, Probed,
};
use crate::cbor::{
    container_at, head_bytes, lemma_bytes_round_trip, lemma_head_round_trip, skip_end,
    tagged_bytes_end, MAJOR_ARRAY, MAJOR_BYTES, MAJOR_TAG, MAJOR_UNSIGNED,
};
use crate::header::wrapped_header_bytes;
use vstd::prelude::*;

verus! {

/// The content of a block: an array head, the era, the head of the block array,
/// and what follows.
pub open spec fn content_of(
    outer: Option<u64>,
    era: u32,
    count: Option<u64>,
    rest: Seq<u8>,
) -> Seq<u8> {
    container_head(MAJOR_ARRAY, outer) + head_bytes(MAJOR_UNSIGNED, era as u64) + container_head(
        MAJOR_ARRAY,
        count,
    ) + rest
}

/// Where the fields begin in the content of a block.
pub open spec fn fields_begin(outer: Option<u64>, era: u32, count: Option<u64>) -> int {
    (container_head(MAJOR_ARRAY, outer) + head_bytes(MAJOR_UNSIGNED, era as u64) + container_head(
        MAJOR_ARRAY,
        count,
    )).len() as int
}

/// A block: a tag, its content as a byte string, and whatever follows.
pub open spec fn block_of(tag: u64, content: Seq<u8>, after: Seq<u8>) -> Seq<u8> {
    head_bytes(MAJOR_TAG, tag) + (head_bytes(MAJOR_BYTES, content.len() as u64) + content) + after
}

/// Where part `k` of some parts in a row starts, the first of which stands at
/// `base`.
pub open spec fn start_of(base: int, parts: Seq<Seq<u8>>, k: int) -> int {
    base + joined(parts.take(k)).len()
}

/// Whether each of the parts from the one on and before the other is one item to
/// the decoder.
pub open spec fn are_items(s: Seq<u8>, base: int, parts: Seq<Seq<u8>>, from: int, to: int) -> bool {
    forall|k: int|
        from <= k < to ==> skip_end(s, #[trigger] start_of(base, parts, k)) == Some(
            start_of(base, parts, k + 1),
        )
}

/// The first bytes of a field: up to 96 of them.
pub open spec fn first_96(field: Seq<u8>) -> Seq<u8> {
    if field.len() <= 96 {
        field
    } else {
        field.subrange(0, 96)
    }
}

/// Items in a row are skipped one by one.
proof fn lemma_skip_parts(s: Seq<u8>, base: int, parts: Seq<Seq<u8>>, k: int, n: nat)
    requires
        0 <= k,
        are_items(s, base, parts, k, k + n),
    ensures
        skip_many(s, start_of(base, parts, k), n) == Some(start_of(base, parts, k + n)),
    decreases n,
{
    if n > 0 {
        assert(skip_end(s, start_of(base, parts, k)) == Some(start_of(base, parts, k + 1)));
        lemma_skip_parts(s, base, parts, k + 1, (n - 1) as nat);
    }
}

/// Items in a row are skipped up to one that cannot be.
proof fn lemma_skip_fails(s: Seq<u8>, base: int, parts: Seq<Seq<u8>>, k: int, n: nat)
    requires
        0 <= k < parts.len() + 1,
        k <= parts.len(),
        are_items(s, base, parts, k, parts.len() as int),
        parts.len() - k < n,
        skip_end(s, start_of(base, parts, parts.len() as int)) is None,
    ensures
        skip_many(s, start_of(base, parts, k), n) is None,
    decreases n,
{
    if k < parts.len() {
        assert(skip_end(s, start_of(base, parts, k)) == Some(start_of(base, parts, k + 1)));
        lemma_skip_fails(s, base, parts, k + 1, (n - 1) as nat);
    }
}

/// Each of some parts in a row stands where it starts.
proof fn lemma_part_stands(s: Seq<u8>, base: int, parts: Seq<Seq<u8>>, k: int)
    requires
        0 <= k < parts.len(),
        stands(s, base, joined(parts)),
    ensures
        stands(s, start_of(base, parts, k), parts[k]),
        start_of(base, parts, k + 1) == start_of(base, parts, k) + parts[k].len(),
        start_of(base, parts, 0) == base,
        start_of(base, parts, parts.len() as int) == base + joined(parts).len(),
{
    lemma_joined_take(parts, k);
    let (a, b) = (joined(parts.take(k)).len() as int, joined(parts.take(k + 1)).len() as int);
    let whole = s.subrange(base, base + joined(parts).len());
    assert(s.subrange(base + a, base + b) =~= whole.subrange(a, b));
    assert(parts.take(0) =~= Seq::<Seq<u8>>::empty());
    assert(parts.take(parts.len() as int) =~= parts);
}

/// How a block is opened.
proof fn lemma_block(
    outer: Option<u64>,
    era: u32,
    count: Option<u64>,
    rest: Seq<u8>,
    after: Seq<u8>,
)
    requires
        era >= 2,
        content_of(outer, era, count, rest).len() <= u64::MAX,
    ensures
        ({
            let content = content_of(outer, era, count, rest);
            let opened = envelope(block_of(24, content, after));
            &&& opened is Ok
            &&& opened->Ok_0.0 == content
            &&& opened->Ok_0.1 == era
            &&& container_at(content, opened->Ok_0.2, MAJOR_ARRAY) == Some(
                (count, fields_begin(outer, era, count)),
            )
            &&& stands(content, fields_begin(outer, era, count), rest)
        }),
{
    let content = content_of(outer, era, count, rest);
    lemma_tagged(24, content, after);
    let a = container_head(MAJOR_ARRAY, outer);
    let b = head_bytes(MAJOR_UNSIGNED, era as u64);
    let c = container_head(MAJOR_ARRAY, count);
    lemma_stands_whole(content);
    lemma_stands_split(content, 0, a + b + c, rest);
    lemma_stands_split(content, 0, a + b, c);
    lemma_stands_split(content, 0, a, b);
    lemma_container_head(content, 0, MAJOR_ARRAY, outer);
    lemma_head_round_trip(content, a.len() as int, MAJOR_UNSIGNED, era as u64);
    lemma_container_head(content, (a + b).len() as int, MAJOR_ARRAY, count);
}

/// A tag and the byte string under it are read.
proof fn lemma_tagged(tag: u64, content: Seq<u8>, after: Seq<u8>)
    requires
        content.len() <= u64::MAX,
    ensures
        ({
            let raw = block_of(tag, content, after);
            let p = head_bytes(MAJOR_TAG, tag).len() as int;
            &&& crate::cbor::tag_at(raw, 0) == Some((tag, p))
            &&& crate::cbor::bytes_at(raw, p) == Some(
                (content, (block_of(tag, content, Seq::empty())).len() as int),
            )
        }),
{
    let raw = block_of(tag, content, after);
    let a = head_bytes(MAJOR_TAG, tag);
    let b = head_bytes(MAJOR_BYTES, content.len() as u64) + content;
    lemma_stands_whole(raw);
    lemma_stands_split(raw, 0, a + b, after);
    lemma_stands_split(raw, 0, a, b);
    lemma_head_round_trip(raw, 0, MAJOR_TAG, tag);
    lemma_bytes_round_trip(raw, a.len() as int, content);
}

/// A block under another tag than 24 is refused, whatever it holds.
pub proof fn law_other_tags_are_refused(tag: u64, rest: Seq<u8>)
    requires
        tag != 24,
    ensures
        ({
            let raw = head_bytes(MAJOR_TAG, tag) + rest;
            &&& extracted_header(raw) == Err::<Seq<u8>, _>(DecodeError::UnexpectedTag(tag))
            &&& certificate_bytes(raw) == Err::<Seq<u8>, _>(DecodeError::UnexpectedTag(tag))
            &&& body_findings(raw) == Err::<Findings, _>(DecodeError::UnexpectedTag(tag))
        }),
{
    let raw = head_bytes(MAJOR_TAG, tag) + rest;
    lemma_stands_whole(raw);
    lemma_stands_split(raw, 0, head_bytes(MAJOR_TAG, tag), rest);
    lemma_head_round_trip(raw, 0, MAJOR_TAG, tag);
}

/// A block of an era before 2 is refused, whatever else it holds.
pub proof fn law_byron_blocks_are_refused(
    outer: Option<u64>,
    era: u32,
    rest: Seq<u8>,
    after: Seq<u8>,
)
    requires
        era < 2,
        (container_head(MAJOR_ARRAY, outer) + head_bytes(MAJOR_UNSIGNED, era as u64) + rest).len()
            <= u64::MAX,
    ensures
        ({
            let content = container_head(MAJOR_ARRAY, outer) + head_bytes(
                MAJOR_UNSIGNED,
                era as u64,
            ) + rest;
            let raw = block_of(24, content, after);
            &&& extracted_header(raw) == Err::<Seq<u8>, _>(DecodeError::ByronBlock)
            &&& certificate_bytes(raw) == Err::<Seq<u8>, _>(DecodeError::ByronBlock)
            &&& body_findings(raw) == Err::<Findings, _>(DecodeError::ByronBlock)
        }),
{
    let a = container_head(MAJOR_ARRAY, outer);
    let b = head_bytes(MAJOR_UNSIGNED, era as u64);
    let content = a + b + rest;
    lemma_tagged(24, content, after);
    lemma_stands_whole(content);
    lemma_stands_split(content, 0, a + b, rest);
    lemma_stands_split(content, 0, a, b);
    lemma_container_head(content, 0, MAJOR_ARRAY, outer);
    lemma_head_round_trip(content, a.len() as int, MAJOR_UNSIGNED, era as u64);
}

/// Bytes that do not begin with a tag are no block, nor is a block whose content
/// does not begin with an array, or whose era is no unsigned integer of 32 bits.
pub proof fn law_other_contents_are_refused(
    raw: Seq<u8>,
    outer: Option<u64>,
    content: Seq<u8>,
    rest: Seq<u8>,
    after: Seq<u8>,
    large: u64,
)
    requires
        content.len() <= u64::MAX,
        rest.len() > 0,
        raw.len() == 0 || raw[0] as int / 32 != 6 || {
            &&& raw == block_of(24, content, after)
            &&& {
                ||| content.len() == 0
                ||| content[0] as int / 32 != 4
                ||| content == container_head(MAJOR_ARRAY, outer) + rest && rest[0] as int / 32 != 0
                ||| content == container_head(MAJOR_ARRAY, outer) + rest && rest == head_bytes(
                    MAJOR_UNSIGNED,
                    large,
                ) && large > 0xffff_ffff
            }
        },
    ensures
        extracted_header(raw) == Err::<Seq<u8>, _>(DecodeError::Malformed),
        certificate_bytes(raw) == Err::<Seq<u8>, _>(DecodeError::Malformed),
        body_findings(raw) == Err::<Findings, _>(DecodeError::Malformed),
{
    if raw.len() > 0 && raw[0] as int / 32 == 6 {
        let a = container_head(MAJOR_ARRAY, outer);
        lemma_tagged(24, content, after);
        lemma_stands_whole(content);
        if content.len() > 0 && content[0] as int / 32 == 4 {
            lemma_stands_split(content, 0, a, rest);
            lemma_container_head(content, 0, MAJOR_ARRAY, outer);
            lemma_stands_first(content, a.len() as int, rest);
            if rest == head_bytes(MAJOR_UNSIGNED, large) && large > 0xffff_ffff {
                lemma_head_round_trip(content, a.len() as int, MAJOR_UNSIGNED, large);
            }
        }
    }
}

/// A block whose fields stand in no array is refused.
pub proof fn law_fields_stand_in_an_array(
    outer: Option<u64>,
    era: u32,
    rest: Seq<u8>,
    after: Seq<u8>,
)
    requires
        era >= 2,
        rest.len() == 0 || rest[0] as int / 32 != 4,
        (container_head(MAJOR_ARRAY, outer) + head_bytes(MAJOR_UNSIGNED, era as u64) + rest).len()
            <= u64::MAX,
    ensures
        ({
            let content = container_head(MAJOR_ARRAY, outer) + head_bytes(
                MAJOR_UNSIGNED,
                era as u64,
            ) + rest;
            let raw = block_of(24, content, after);
            &&& extracted_header(raw) == Err::<Seq<u8>, _>(DecodeError::Malformed)
            &&& certificate_bytes(raw) == Err::<Seq<u8>, _>(DecodeError::Malformed)
            &&& body_findings(raw) == Err::<Findings, _>(DecodeError::Malformed)
        }),
{
    let a = container_head(MAJOR_ARRAY, outer);
    let b = head_bytes(MAJOR_UNSIGNED, era as u64);
    let content = a + b + rest;
    let q = (a + b).len() as int;
    lemma_tagged(24, content, after);
    lemma_stands_whole(content);
    lemma_stands_split(content, 0, a + b, rest);
    lemma_stands_split(content, 0, a, b);
    lemma_container_head(content, 0, MAJOR_ARRAY, outer);
    lemma_head_round_trip(content, a.len() as int, MAJOR_UNSIGNED, era as u64);
    if rest.len() > 0 {
        lemma_stands_first(content, q, rest);
    }
    lemma_no_fields(block_of(24, content, after), content, era, q);
}

/// A block that was opened where no array stands is refused.
proof fn lemma_no_fields(raw: Seq<u8>, content: Seq<u8>, era: u32, q: int)
    requires
        envelope(raw) == Ok::<_, DecodeError>((content, era, q)),
        container_at(content, q, MAJOR_ARRAY) is None,
    ensures
        extracted_header(raw) == Err::<Seq<u8>, _>(DecodeError::Malformed),
        certificate_bytes(raw) == Err::<Seq<u8>, _>(DecodeError::Malformed),
        body_findings(raw) == Err::<Findings, _>(DecodeError::Malformed),
{
}

/// There is no header to be cut from a block whose first field is not there.
pub proof fn law_missing_header_is_noticed(
    outer: Option<u64>,
    era: u32,
    count: Option<u64>,
    rest: Seq<u8>,
    after: Seq<u8>,
)
    requires
        era >= 2,
        content_of(outer, era, count, rest).len() <= u64::MAX,
        skip_end(content_of(outer, era, count, rest), fields_begin(outer, era, count)) is None,
    ensures
        extracted_header(block_of(24, content_of(outer, era, count, rest), after)) == Err::<
            Seq<u8>,
            _,
        >(DecodeError::Malformed),
{
    lemma_block(outer, era, count, rest, after);
}

/// A block's header is its first field, wrapped with the block's era: whatever
/// the lengths of the arrays, definite or not, and whatever follows.
pub proof fn law_header_is_the_first_field(
    outer: Option<u64>,
    era: u32,
    count: Option<u64>,
    header: Seq<u8>,
    rest: Seq<u8>,
    after: Seq<u8>,
)
    requires
        era >= 2,
        content_of(outer, era, count, header + rest).len() <= u64::MAX,
        skip_end(
            content_of(outer, era, count, header + rest),
            fields_begin(outer, era, count),
        ) == Some(fields_begin(outer, era, count) + header.len()),
    ensures
        extracted_header(block_of(24, content_of(outer, era, count, header + rest), after)) == Ok::<
            _,
            DecodeError,
        >(era_and_header(era, header)),
{
    let content = content_of(outer, era, count, header + rest);
    let p = fields_begin(outer, era, count);
    lemma_block(outer, era, count, header + rest, after);
    lemma_stands_split(content, p, header, rest);
    lemma_header_found(block_of(24, content, after), content, era, count, p, header);
    law_wire_form_of_a_header(era, header);
}

/// Whether a block was opened: its content and its era are known, and the head of
/// its block array, whose first field stands at `p`.
spec fn is_opened(raw: Seq<u8>, content: Seq<u8>, era: u32, count: Option<u64>, p: int) -> bool {
    &&& envelope(raw) is Ok
    &&& envelope(raw)->Ok_0.0 == content
    &&& envelope(raw)->Ok_0.1 == era
    &&& container_at(content, envelope(raw)->Ok_0.2, MAJOR_ARRAY) == Some((count, p))
}

/// The first field of a block that was opened is its header.
proof fn lemma_header_found(
    raw: Seq<u8>,
    content: Seq<u8>,
    era: u32,
    count: Option<u64>,
    p: int,
    header: Seq<u8>,
)
    requires
        is_opened(raw, content, era, count, p),
        stands(content, p, header),
        skip_end(content, p) == Some(p + header.len()),
    ensures
        extracted_header(raw) == Ok::<_, DecodeError>(wrapped_header_bytes(era, header)),
{
}

/// The fields of a block that was opened are not all there.
proof fn lemma_certificate_missing(
    raw: Seq<u8>,
    content: Seq<u8>,
    era: u32,
    n: u64,
    p: int,
    fields: Seq<Seq<u8>>,
)
    requires
        is_opened(raw, content, era, Some(n), p),
        n > 4,
        fields.len() <= 4,
        are_items(content, p, fields, 0, fields.len() as int),
        skip_end(content, p + joined(fields).len()) is None,
    ensures
        certificate_bytes(raw) == Err::<Seq<u8>, _>(DecodeError::Malformed),
{
    assert(fields.take(0) =~= Seq::<Seq<u8>>::empty());
    assert(fields.take(fields.len() as int) =~= fields);
    if fields.len() < 4 {
        lemma_skip_fails(content, p, fields, 0, 4);
    } else {
        lemma_skip_parts(content, p, fields, 0, 4);
    }
}

/// The transaction bodies of a block that was opened decide.
proof fn lemma_bodies_refused(
    raw: Seq<u8>,
    content: Seq<u8>,
    era: u32,
    n: u64,
    p: int,
    q: int,
    error: DecodeError,
)
    requires
        is_opened(raw, content, era, Some(n), p),
        2 <= n <= u32::MAX,
        skip_end(content, p) == Some(q),
        tx_bodies_at(content, q) == Err::<(u32, int), _>(error),
    ensures
        body_findings(raw) == Err::<Findings, _>(error),
{
}

/// A block's certificate is its fifth field where the block array has five fields
/// or more; it is found as it stands.
pub proof fn law_certificate_is_the_fifth_field(
    outer: Option<u64>,
    era: u32,
    n: u64,
    fields: Seq<Seq<u8>>,
    rest: Seq<u8>,
    after: Seq<u8>,
)
    requires
        era >= 2,
        n >= 5,
        fields.len() == 5,
        content_of(outer, era, Some(n), joined(fields) + rest).len() <= u64::MAX,
        are_items(
            content_of(outer, era, Some(n), joined(fields) + rest),
            fields_begin(outer, era, Some(n)),
            fields,
            0,
            5,
        ),
    ensures
        certificate_bytes(
            block_of(24, content_of(outer, era, Some(n), joined(fields) + rest), after),
        ) == Ok::<_, DecodeError>(fields[4]),
{
    let content = content_of(outer, era, Some(n), joined(fields) + rest);
    let p = fields_begin(outer, era, Some(n));
    lemma_block(outer, era, Some(n), joined(fields) + rest, after);
    lemma_stands_split(content, p, joined(fields), rest);
    lemma_part_stands(content, p, fields, 4);
    lemma_skip_parts(content, p, fields, 0, 4);
    assert(skip_end(content, start_of(p, fields, 4)) == Some(start_of(p, fields, 5)));
}

/// A block array of four fields or fewer has no certificate, whatever they are,
/// and one of indefinite length is refused.
pub proof fn law_where_there_is_no_certificate(
    outer: Option<u64>,
    era: u32,
    n: u64,
    rest: Seq<u8>,
    after: Seq<u8>,
)
    requires
        era >= 2,
        n <= 4,
        content_of(outer, era, Some(n), rest).len() <= u64::MAX,
        content_of(outer, era, None, rest).len() <= u64::MAX,
    ensures
        certificate_bytes(block_of(24, content_of(outer, era, Some(n), rest), after)) == Err::<
            Seq<u8>,
            _,
        >(DecodeError::NoLeiosExtension),
        certificate_bytes(block_of(24, content_of(outer, era, None, rest), after)) == Err::<
            Seq<u8>,
            _,
        >(DecodeError::IndefiniteBlockArray),
{
    lemma_block(outer, era, Some(n), rest, after);
    lemma_block(outer, era, None, rest, after);
}

/// A block array that states five fields or more is refused where its first five
/// are not all there.
pub proof fn law_certificate_needs_the_fields_before_it(
    outer: Option<u64>,
    era: u32,
    n: u64,
    fields: Seq<Seq<u8>>,
    rest: Seq<u8>,
    after: Seq<u8>,
)
    requires
        era >= 2,
        n > 4,
        fields.len() <= 4,
        content_of(outer, era, Some(n), joined(fields) + rest).len() <= u64::MAX,
        are_items(
            content_of(outer, era, Some(n), joined(fields) + rest),
            fields_begin(outer, era, Some(n)),
            fields,
            0,
            fields.len() as int,
        ),
        skip_end(
            content_of(outer, era, Some(n), joined(fields) + rest),
            fields_begin(outer, era, Some(n)) + joined(fields).len(),
        ) is None,
    ensures
        certificate_bytes(
            block_of(24, content_of(outer, era, Some(n), joined(fields) + rest), after),
        ) == Err::<Seq<u8>, _>(DecodeError::Malformed),
{
    let content = content_of(outer, era, Some(n), joined(fields) + rest);
    lemma_block(outer, era, Some(n), joined(fields) + rest, after);
    lemma_certificate_missing(
        block_of(24, content, after),
        content,
        era,
        n,
        fields_begin(outer, era, Some(n)),
        fields,
    );
}

/// Whether the base fields of a block are laid out in its content from `base` on:
/// a header that is one item, an array of as many transaction bodies as are given,
/// each one item, and further items.
pub open spec fn base_is_laid_out(
    content: Seq<u8>,
    base: int,
    fields: Seq<Seq<u8>>,
    bodies: Seq<Seq<u8>>,
) -> bool {
    let head = head_bytes(MAJOR_ARRAY, bodies.len() as u64);
    &&& 2 <= fields.len()
    &&& bodies.len() <= u32::MAX
    &&& fields[1] == head + joined(bodies)
    &&& skip_end(content, base) == Some(base + fields[0].len())
    &&& are_items(content, base + fields[0].len() + head.len(), bodies, 0, bodies.len() as int)
    &&& are_items(content, base, fields, 2, fields.len() as int)
}

/// What an inspection knows after the base fields: so many bodies, so many fields.
pub open spec fn counts(bodies: nat, n: u64) -> BodyFacts {
    BodyFacts {
        tx_count: bodies as u32,
        field_count: n as u32,
        leios_cert: None,
        tx_references_count: None,
    }
}

/// The array of transaction bodies is read to its end.
proof fn lemma_bodies(s: Seq<u8>, p: int, bodies: Seq<Seq<u8>>)
    requires
        bodies.len() <= u32::MAX,
        stands(s, p, head_bytes(MAJOR_ARRAY, bodies.len() as u64) + joined(bodies)),
        are_items(
            s,
            p + head_bytes(MAJOR_ARRAY, bodies.len() as u64).len(),
            bodies,
            0,
            bodies.len() as int,
        ),
    ensures
        tx_bodies_at(s, p) == Ok::<_, DecodeError>(
            (
                bodies.len() as u32,
                p + (head_bytes(MAJOR_ARRAY, bodies.len() as u64) + joined(bodies)).len(),
            ),
        ),
{
    let head = head_bytes(MAJOR_ARRAY, bodies.len() as u64);
    lemma_stands_split(s, p, head, joined(bodies));
    lemma_container_head(s, p, MAJOR_ARRAY, Some(bodies.len() as u64));
    lemma_bodies_after_head(s, p, p + head.len(), bodies);
}

/// The bodies after the head of their array are read to their end.
proof fn lemma_bodies_after_head(s: Seq<u8>, p: int, q: int, bodies: Seq<Seq<u8>>)
    requires
        bodies.len() <= u32::MAX,
        container_at(s, p, MAJOR_ARRAY) == Some((Some(bodies.len() as u64), q)),
        are_items(s, q, bodies, 0, bodies.len() as int),
    ensures
        tx_bodies_at(s, p) == Ok::<_, DecodeError>(
            (bodies.len() as u32, q + joined(bodies).len()),
        ),
{
    lemma_skip_parts(s, q, bodies, 0, bodies.len());
    assert(bodies.take(0) =~= Seq::<Seq<u8>>::empty());
    assert(bodies.take(bodies.len() as int) =~= bodies);
}

/// What is found after the base fields.
proof fn lemma_base(
    outer: Option<u64>,
    era: u32,
    n: u64,
    fields: Seq<Seq<u8>>,
    bodies: Seq<Seq<u8>>,
    rest: Seq<u8>,
    after: Seq<u8>,
)
    requires
        era >= 2,
        2 <= n <= u32::MAX,
        fields.len() == (if n <= 5 {
            n as int
        } else {
            5
        }),
        content_of(outer, era, Some(n), joined(fields) + rest).len() <= u64::MAX,
        base_is_laid_out(
            content_of(outer, era, Some(n), joined(fields) + rest),
            fields_begin(outer, era, Some(n)),
            fields,
            bodies,
        ),
    ensures
        ({
            let content = content_of(outer, era, Some(n), joined(fields) + rest);
            let t = fields_begin(outer, era, Some(n)) + joined(fields).len();
            &&& body_findings(block_of(24, content, after)) == trailing_findings(
                content,
                t,
                if n <= 5 {
                    0
                } else {
                    (n - 5) as u64
                },
                counts(bodies.len(), n),
            )
            &&& stands(content, t, rest)
        }),
{
    let content = content_of(outer, era, Some(n), joined(fields) + rest);
    let p = fields_begin(outer, era, Some(n));
    lemma_block(outer, era, Some(n), joined(fields) + rest, after);
    lemma_stands_split(content, p, joined(fields), rest);
    lemma_base_found(block_of(24, content, after), content, era, n, p, fields, bodies);
}

/// What is found after the base fields of a block that was opened.
proof fn lemma_base_found(
    raw: Seq<u8>,
    content: Seq<u8>,
    era: u32,
    n: u64,
    p: int,
    fields: Seq<Seq<u8>>,
    bodies: Seq<Seq<u8>>,
)
    requires
        is_opened(raw, content, era, Some(n), p),
        2 <= n <= u32::MAX,
        fields.len() == (if n <= 5 {
            n as int
        } else {
            5
        }),
        stands(content, p, joined(fields)),
        base_is_laid_out(content, p, fields, bodies),
    ensures
        body_findings(raw) == trailing_findings(
            content,
            p + joined(fields).len(),
            if n <= 5 {
                0
            } else {
                (n - 5) as u64
            },
            counts(bodies.len(), n),
        ),
{
    lemma_part_stands(content, p, fields, 0);
    lemma_part_stands(content, p, fields, 1);
    lemma_bodies(content, p + fields[0].len(), bodies);
    lemma_skip_parts(content, p, fields, 2, (fields.len() - 2) as nat);
    assert(start_of(p, fields, 2) == p + fields[0].len() + fields[1].len());
    assert(crate::block::empty_body_facts(n as u32) == counts(0, n));
}

/// An inspection of a block of two to five fields finds how many transaction
/// bodies and how many fields it has, and neither a certificate nor references.
pub proof fn law_inspection_of_base_fields(
    outer: Option<u64>,
    era: u32,
    fields: Seq<Seq<u8>>,
    bodies: Seq<Seq<u8>>,
    rest: Seq<u8>,
    after: Seq<u8>,
)
    requires
        era >= 2,
        2 <= fields.len() <= 5,
        content_of(outer, era, Some(fields.len() as u64), joined(fields) + rest).len() <= u64::MAX,
        base_is_laid_out(
            content_of(outer, era, Some(fields.len() as u64), joined(fields) + rest),
            fields_begin(outer, era, Some(fields.len() as u64)),
            fields,
            bodies,
        ),
    ensures
        body_findings(
            block_of(
                24,
                content_of(outer, era, Some(fields.len() as u64), joined(fields) + rest),
                after,
            ),
        ) == Ok::<_, DecodeError>(
            Findings {
                facts: counts(bodies.len(), fields.len() as u64),
                cert_field: None,
                tx_refs_field: None,
            },
        ),
{
    lemma_base(outer, era, fields.len() as u64, fields, bodies, rest, after);
}

/// The shapes of the first trailing field: a certificate, or one of the ways in
/// which a field is none.
pub enum CertShape {
    /// `[slot, hash, signers, signature]`.
    Certificate { slot: u64, hash: Seq<u8>, signers: Seq<u8>, signature: Seq<u8> },
    /// No array.
    NoArray,
    /// An array of indefinite length.
    Indefinite,
    /// An array of another length than four.
    OtherLength { n: u64, rest: Seq<u8> },
    /// An array of four that does not begin with an unsigned integer.
    NoSlot { rest: Seq<u8> },
    /// An array of four whose second element is no byte string.
    NoHash { slot: u64, rest: Seq<u8> },
    /// An array of four whose second element is no byte string of 32 bytes.
    OtherHash { slot: u64, hash: Seq<u8>, rest: Seq<u8> },
}

/// Whether the first trailing field, which stands at `p`, has the shape.
pub open spec fn has_cert_shape(s: Seq<u8>, p: int, field: Seq<u8>, shape: CertShape) -> bool {
    match shape {
        CertShape::Certificate { slot, hash, signers, signature } => {
            let head = seq![0x84u8] + head_bytes(MAJOR_UNSIGNED, slot) + seq![0x58u8, 0x20u8]
                + hash;
            let q = p + head.len();
            &&& hash.len() == 32
            &&& field == head + signers + signature
            &&& skip_end(s, q) == Some(q + signers.len())
            &&& skip_end(s, q + signers.len()) == Some(p + field.len())
        },
        _ => {
            &&& skip_end(s, p) == Some(p + field.len())
            &&& field.len() > 0
            &&& match shape {
                CertShape::NoArray => field[0] as int / 32 != 4,
                CertShape::Indefinite => field[0] == 0x9f,
                CertShape::OtherLength { n, rest } => n != 4 && field == head_bytes(MAJOR_ARRAY, n)
                    + rest,
                CertShape::NoSlot { rest } => field == seq![0x84u8] + rest && rest.len() > 0
                    && rest[0] as int / 32 != 0,
                CertShape::NoHash { slot, rest } => field == seq![0x84u8] + head_bytes(
                    MAJOR_UNSIGNED,
                    slot,
                ) + rest && rest.len() > 0 && rest[0] as int / 32 != 2,
                CertShape::OtherHash { slot, hash, rest } => hash.len() != 32 && hash.len()
                    <= u64::MAX && field == seq![0x84u8] + head_bytes(MAJOR_UNSIGNED, slot) + (
                head_bytes(MAJOR_BYTES, hash.len() as u64) + hash) + rest,
                _ => true,
            }
        },
    }
}

/// The certificate that a shape holds: its slot and its hash.
pub open spec fn cert_of(shape: CertShape) -> Option<(u64, Seq<u8>)> {
    match shape {
        CertShape::Certificate { slot, hash, .. } => Some((slot, hash)),
        _ => None,
    }
}

/// What is shown of a first trailing field that is no certificate.
pub open spec fn cert_shown(shape: CertShape, field: Seq<u8>) -> Option<Seq<u8>> {
    if shape is Certificate {
        None
    } else {
        Some(first_96(field))
    }
}

/// A certificate is read as one.
proof fn lemma_certificate(
    s: Seq<u8>,
    p: int,
    slot: u64,
    hash: Seq<u8>,
    signers: Seq<u8>,
    signature: Seq<u8>,
    field: Seq<u8>,
)
    requires
        stands(s, p, field),
        has_cert_shape(s, p, field, CertShape::Certificate { slot, hash, signers, signature }),
    ensures
        cert_at(s, p) == Some(((slot, hash), p + field.len())),
{
    reveal_with_fuel(skip_many, 3);
    let a = head_bytes(MAJOR_ARRAY, 4);
    let b = head_bytes(MAJOR_UNSIGNED, slot);
    let c = head_bytes(MAJOR_BYTES, 32) + hash;
    assert(a =~= seq![0x84u8]) by {
        reveal(head_bytes);
    }
    assert(head_bytes(MAJOR_BYTES, 32) =~= seq![0x58u8, 0x20u8]) by {
        reveal(head_bytes);
        reveal_with_fuel(crate::cbor::be_bytes, 2);
    }
    let head = seq![0x84u8] + b + seq![0x58u8, 0x20u8] + hash;
    assert(head =~= a + b + c);
    lemma_stands_split(s, p, head + signers, signature);
    lemma_stands_split(s, p, head, signers);
    lemma_stands_split(s, p, a + b, c);
    lemma_stands_split(s, p, a, b);
    lemma_container_head(s, p, MAJOR_ARRAY, Some(4));
    lemma_head_round_trip(s, p + a.len(), MAJOR_UNSIGNED, slot);
    lemma_bytes_round_trip(s, p + (a + b).len(), hash);
}

/// What is no certificate is not read as one.
proof fn lemma_no_certificate(s: Seq<u8>, p: int, field: Seq<u8>, shape: CertShape)
    requires
        stands(s, p, field),
        has_cert_shape(s, p, field, shape),
        !(shape is Certificate),
    ensures
        cert_at(s, p) is None,
{
    let a = seq![0x84u8];
    assert(head_bytes(MAJOR_ARRAY, 4) =~= a) by {
        reveal(head_bytes);
    }
    lemma_stands_first(s, p, field);
    match shape {
        CertShape::OtherLength { n, rest } => {
            lemma_stands_split(s, p, head_bytes(MAJOR_ARRAY, n), rest);
            lemma_container_head(s, p, MAJOR_ARRAY, Some(n));
        },
        CertShape::NoSlot { rest } => {
            lemma_stands_split(s, p, a, rest);
            lemma_container_head(s, p, MAJOR_ARRAY, Some(4));
            lemma_stands_first(s, p + 1, rest);
        },
        CertShape::NoHash { slot, rest } => {
            let b = head_bytes(MAJOR_UNSIGNED, slot);
            lemma_stands_split(s, p, a + b, rest);
            lemma_stands_split(s, p, a, b);
            lemma_container_head(s, p, MAJOR_ARRAY, Some(4));
            lemma_head_round_trip(s, p + 1, MAJOR_UNSIGNED, slot);
            lemma_stands_first(s, p + (a + b).len(), rest);
        },
        CertShape::OtherHash { slot, hash, rest } => {
            let b = head_bytes(MAJOR_UNSIGNED, slot);
            let c = head_bytes(MAJOR_BYTES, hash.len() as u64) + hash;
            lemma_stands_split(s, p, a + b + c, rest);
            lemma_stands_split(s, p, a + b, c);
            lemma_stands_split(s, p, a, b);
            lemma_container_head(s, p, MAJOR_ARRAY, Some(4));
            lemma_head_round_trip(s, p + 1, MAJOR_UNSIGNED, slot);
            lemma_bytes_round_trip(s, p + (a + b).len(), hash);
        },
        _ => {},
    }
}

/// What is found in the first trailing field.
proof fn lemma_first_trailing(s: Seq<u8>, p: int, field: Seq<u8>, shape: CertShape)
    requires
        stands(s, p, field),
        has_cert_shape(s, p, field, shape),
    ensures
        cert_field(s, p) == Ok::<_, DecodeError>(
            (
                match cert_of(shape) {
                    Some(cert) => Probed::Matched(cert),
                    None => Probed::Mismatched(first_96(field)),
                },
                p + field.len(),
            ),
        ),
{
    if let CertShape::Certificate { slot, hash, signers, signature } = shape {
        lemma_certificate(s, p, slot, hash, signers, signature, field);
    } else {
        lemma_no_certificate(s, p, field, shape);
        assert(crate::block::probe(field) =~= first_96(field));
    }
}

/// The shapes of the second trailing field.
pub enum RefsShape {
    /// An array of as many references as it states.
    Definite,
    /// An array of references up to a break byte.
    Indefinite,
    /// An array that states more references than there are items to the decoder.
    CutOff { stated: u64 },
    /// No array.
    NoArray,
}

/// Whether the second trailing field, which stands at `p`, has the shape and
/// holds the references.
pub open spec fn has_refs_shape(
    s: Seq<u8>,
    p: int,
    field: Seq<u8>,
    refs: Seq<Seq<u8>>,
    shape: RefsShape,
) -> bool {
    match shape {
        RefsShape::Definite => {
            let head = head_bytes(MAJOR_ARRAY, refs.len() as u64);
            &&& refs.len() <= u64::MAX
            &&& field == head + joined(refs)
            &&& are_items(s, p + head.len(), refs, 0, refs.len() as int)
        },
        RefsShape::Indefinite => {
            &&& field == seq![0x9fu8] + joined(refs) + seq![0xffu8]
            &&& are_items(s, p + 1, refs, 0, refs.len() as int)
            &&& forall|k: int|
                0 <= k < refs.len() ==> (#[trigger] refs[k]).len() > 0 && refs[k][0] != 0xff
        },
        RefsShape::CutOff { stated } => {
            let head = head_bytes(MAJOR_ARRAY, stated);
            &&& refs.len() < stated
            &&& field == head + joined(refs)
            &&& are_items(s, p + head.len(), refs, 0, refs.len() as int)
            &&& skip_end(s, p + field.len()) is None
        },
        RefsShape::NoArray => {
            &&& skip_end(s, p) == Some(p + field.len())
            &&& field.len() > 0
            &&& field[0] as int / 32 != 4
        },
    }
}

/// How many references a shape counts: all that are there, up to the largest
/// 32-bit number, in an array that is complete.
pub open spec fn refs_counted(shape: RefsShape, refs: nat) -> Option<u32> {
    match shape {
        RefsShape::CutOff { .. } => None,
        RefsShape::NoArray => None,
        _ => Some(
            if refs <= 0xffff_ffff {
                refs as u32
            } else {
                0xffff_ffff
            },
        ),
    }
}

/// What is shown of a second trailing field that is no array.
pub open spec fn refs_shown(shape: RefsShape, field: Seq<u8>) -> Option<Seq<u8>> {
    if shape is NoArray {
        Some(first_96(field))
    } else {
        None
    }
}

/// The items up to a break byte are counted.
proof fn lemma_open_refs(s: Seq<u8>, base: int, refs: Seq<Seq<u8>>, k: int)
    requires
        0 <= k <= refs.len(),
        stands(s, base, joined(refs) + seq![0xffu8]),
        are_items(s, base, refs, 0, refs.len() as int),
        forall|j: int|
            0 <= j < refs.len() ==> (#[trigger] refs[j]).len() > 0 && refs[j][0] != 0xff,
    ensures
        open_count(s, start_of(base, refs, k)) == Some((refs.len() - k) as nat),
    decreases refs.len() - k,
{
    lemma_stands_split(s, base, joined(refs), seq![0xffu8]);
    let end = base + joined(refs).len();
    lemma_stands_first(s, end, seq![0xffu8]);
    if k == refs.len() {
        assert(refs.take(refs.len() as int) =~= refs);
    } else {
        let (p, q) = (start_of(base, refs, k), start_of(base, refs, k + 1));
        lemma_part_stands(s, base, refs, k);
        lemma_stands_first(s, p, refs[k]);
        lemma_joined_take(refs, k);
        assert(skip_end(s, p) == Some(q));
        lemma_open_refs(s, base, refs, k + 1);
    }
}

/// What is found in the second trailing field.
proof fn lemma_second_trailing(
    s: Seq<u8>,
    p: int,
    field: Seq<u8>,
    refs: Seq<Seq<u8>>,
    shape: RefsShape,
)
    requires
        stands(s, p, field),
        has_refs_shape(s, p, field, refs, shape),
    ensures
        refs_field(s, p) == Ok::<_, DecodeError>(
            match (refs_counted(shape, refs.len()), refs_shown(shape, field)) {
                (Some(count), _) => Probed::Matched(count),
                (None, Some(shown)) => Probed::Mismatched(shown),
                (None, None) => Probed::CutOff,
            },
        ),
{
    match shape {
        RefsShape::Definite => {
            let head = head_bytes(MAJOR_ARRAY, refs.len() as u64);
            lemma_stands_split(s, p, head, joined(refs));
            lemma_container_head(s, p, MAJOR_ARRAY, Some(refs.len() as u64));
            lemma_definite_refs(s, p, p + head.len(), refs);
        },
        RefsShape::Indefinite => {
            let (head, tail) = (seq![0x9fu8], joined(refs) + seq![0xffu8]);
            assert(field =~= head + tail);
            assert(container_head(MAJOR_ARRAY, None) =~= head);
            lemma_stands_split(s, p, head, tail);
            lemma_container_head(s, p, MAJOR_ARRAY, None);
            lemma_indefinite_refs(s, p, refs);
        },
        RefsShape::CutOff { stated } => {
            let head = head_bytes(MAJOR_ARRAY, stated);
            lemma_stands_split(s, p, head, joined(refs));
            lemma_container_head(s, p, MAJOR_ARRAY, Some(stated));
            lemma_cut_off_refs(s, p, p + head.len(), refs, stated);
        },
        RefsShape::NoArray => {
            lemma_stands_first(s, p, field);
            assert(crate::block::probe(field) =~= first_96(field));
        },
    }
}

/// References of which all are there are counted.
proof fn lemma_definite_refs(s: Seq<u8>, p: int, q: int, refs: Seq<Seq<u8>>)
    requires
        refs.len() <= u64::MAX,
        container_at(s, p, MAJOR_ARRAY) == Some((Some(refs.len() as u64), q)),
        are_items(s, q, refs, 0, refs.len() as int),
    ensures
        refs_field(s, p) == Ok::<_, DecodeError>(
            Probed::Matched(refs_counted(RefsShape::Definite, refs.len())->Some_0),
        ),
{
    assert(refs.take(0) =~= Seq::<Seq<u8>>::empty());
    lemma_skip_parts(s, q, refs, 0, refs.len());
}

/// References up to a break byte are counted.
proof fn lemma_indefinite_refs(s: Seq<u8>, p: int, refs: Seq<Seq<u8>>)
    requires
        container_at(s, p, MAJOR_ARRAY) == Some((None::<u64>, p + 1)),
        stands(s, p + 1, joined(refs) + seq![0xffu8]),
        are_items(s, p + 1, refs, 0, refs.len() as int),
        forall|k: int|
            0 <= k < refs.len() ==> (#[trigger] refs[k]).len() > 0 && refs[k][0] != 0xff,
    ensures
        refs_field(s, p) == Ok::<_, DecodeError>(
            Probed::Matched(refs_counted(RefsShape::Indefinite, refs.len())->Some_0),
        ),
{
    lemma_open_refs(s, p + 1, refs, 0);
    assert(start_of(p + 1, refs, 0) == p + 1) by {
        assert(refs.take(0) =~= Seq::<Seq<u8>>::empty());
    }
    assert(open_count(s, p + 1) == Some(refs.len()));
}

/// References of which some are missing are not counted.
proof fn lemma_cut_off_refs(s: Seq<u8>, p: int, q: int, refs: Seq<Seq<u8>>, stated: u64)
    requires
        refs.len() < stated,
        container_at(s, p, MAJOR_ARRAY) == Some((Some(stated), q)),
        are_items(s, q, refs, 0, refs.len() as int),
        skip_end(s, q + joined(refs).len()) is None,
    ensures
        refs_field(s, p) == Ok::<_, DecodeError>(Probed::<u32>::CutOff),
{
    assert(refs.take(0) =~= Seq::<Seq<u8>>::empty());
    assert(refs.take(refs.len() as int) =~= refs);
    lemma_skip_fails(s, q, refs, 0, stated as nat);
}

/// An inspection of a block of six fields finds, besides the counts, the
/// certificate in its sixth field, or shows the first 96 bytes of that field.
pub proof fn law_inspection_of_one_trailing_field(
    outer: Option<u64>,
    era: u32,
    fields: Seq<Seq<u8>>,
    bodies: Seq<Seq<u8>>,
    field: Seq<u8>,
    shape: CertShape,
    rest: Seq<u8>,
    after: Seq<u8>,
)
    requires
        era >= 2,
        fields.len() == 5,
        content_of(outer, era, Some(6), joined(fields) + (field + rest)).len() <= u64::MAX,
        ({
            let content = content_of(outer, era, Some(6), joined(fields) + (field + rest));
            let p = fields_begin(outer, era, Some(6));
            &&& base_is_laid_out(content, p, fields, bodies)
            &&& has_cert_shape(content, p + joined(fields).len(), field, shape)
        }),
    ensures
        body_findings(
            block_of(
                24,
                content_of(outer, era, Some(6), joined(fields) + (field + rest)),
                after,
            ),
        ) == Ok::<_, DecodeError>(
            Findings {
                facts: BodyFacts { leios_cert: cert_of(shape), ..counts(bodies.len(), 6) },
                cert_field: cert_shown(shape, field),
                tx_refs_field: None,
            },
        ),
{
    let content = content_of(outer, era, Some(6), joined(fields) + (field + rest));
    let t = fields_begin(outer, era, Some(6)) + joined(fields).len();
    lemma_base(outer, era, 6, fields, bodies, field + rest, after);
    lemma_stands_split(content, t, field, rest);
    lemma_first_trailing(content, t, field, shape);
}

/// An inspection of a block of seven fields or more finds, besides the counts,
/// the certificate in its sixth field and the number of references in its
/// seventh; of a field of another shape it shows the first 96 bytes, and of an
/// array that is cut off nothing. The fields that follow do not matter.
pub proof fn law_inspection_of_trailing_fields(
    outer: Option<u64>,
    era: u32,
    n: u64,
    fields: Seq<Seq<u8>>,
    bodies: Seq<Seq<u8>>,
    first: Seq<u8>,
    cert: CertShape,
    second: Seq<u8>,
    refs: Seq<Seq<u8>>,
    shape: RefsShape,
    rest: Seq<u8>,
    after: Seq<u8>,
)
    requires
        era >= 2,
        7 <= n <= u32::MAX,
        fields.len() == 5,
        content_of(outer, era, Some(n), joined(fields) + (first + (second + rest))).len()
            <= u64::MAX,
        ({
            let content = content_of(
                outer,
                era,
                Some(n),
                joined(fields) + (first + (second + rest)),
            );
            let p = fields_begin(outer, era, Some(n));
            let t = p + joined(fields).len();
            &&& base_is_laid_out(content, p, fields, bodies)
            &&& has_cert_shape(content, t, first, cert)
            &&& has_refs_shape(content, t + first.len(), second, refs, shape)
        }),
    ensures
        body_findings(
            block_of(
                24,
                content_of(outer, era, Some(n), joined(fields) + (first + (second + rest))),
                after,
            ),
        ) == Ok::<_, DecodeError>(
            Findings {
                facts: BodyFacts {
                    leios_cert: cert_of(cert),
                    tx_references_count: refs_counted(shape, refs.len()),
                    ..counts(bodies.len(), n)
                },
                cert_field: cert_shown(cert, first),
                tx_refs_field: refs_shown(shape, second),
            },
        ),
{
    let content = content_of(outer, era, Some(n), joined(fields) + (first + (second + rest)));
    let t = fields_begin(outer, era, Some(n)) + joined(fields).len();
    lemma_base(outer, era, n, fields, bodies, first + (second + rest), after);
    lemma_stands_split(content, t, first, second + rest);
    lemma_stands_split(content, t + first.len(), second, rest);
    lemma_first_trailing(content, t, first, cert);
    lemma_second_trailing(content, t + first.len(), second, refs, shape);
}

/// An inspection refuses a block whose sixth field is not there, and one of seven
/// fields or more whose seventh is not.
pub proof fn law_inspection_notices_missing_trailing_fields(
    outer: Option<u64>,
    era: u32,
    n: u64,
    fields: Seq<Seq<u8>>,
    bodies: Seq<Seq<u8>>,
    first: Seq<u8>,
    cert: CertShape,
    rest: Seq<u8>,
    after: Seq<u8>,
)
    requires
        era >= 2,
        6 <= n <= u32::MAX,
        fields.len() == 5,
        rest.len() == 0 || rest[0] as int / 32 != 4,
        content_of(outer, era, Some(n), joined(fields) + (first + rest)).len() <= u64::MAX,
        ({
            let content = content_of(outer, era, Some(n), joined(fields) + (first + rest));
            let p = fields_begin(outer, era, Some(n));
            let t = p + joined(fields).len();
            &&& base_is_laid_out(content, p, fields, bodies)
            &&& skip_end(content, t + first.len()) is None
            &&& first.len() == 0 || (n >= 7 && has_cert_shape(content, t, first, cert))
        }),
    ensures
        body_findings(
            block_of(24, content_of(outer, era, Some(n), joined(fields) + (first + rest)), after),
        ) == Err::<Findings, _>(DecodeError::Malformed),
{
    let content = content_of(outer, era, Some(n), joined(fields) + (first + rest));
    let t = fields_begin(outer, era, Some(n)) + joined(fields).len();
    let u = t + first.len();
    lemma_base(outer, era, n, fields, bodies, first + rest, after);
    lemma_stands_split(content, t, first, rest);
    if rest.len() > 0 {
        lemma_stands_first(content, u, rest);
    }
    assert(content.len() == u + rest.len());
    assert(container_at(content, u, MAJOR_ARRAY) is None);
    if first.len() == 0 {
        assert(cert_field(content, t) is Err);
    } else {
        lemma_first_trailing(content, t, first, cert);
        assert(refs_field(content, u) is Err);
    }
}

/// Whether the decoder agrees with itself on where the trailing fields end: what
/// follows the slot and the hash of a certificate ends with the field, and the
/// elements of an array of indefinite length are followed by a break byte.
pub open spec fn ends_agree(s: Seq<u8>, t: int, more: Seq<Seq<u8>>) -> bool {
    &&& cert_head_at(s, t) matches Some((_, r)) ==> skip_many(s, r, 2) == Some(
        start_of(t, more, 1),
    )
    &&& container_at(s, start_of(t, more, 1), MAJOR_ARRAY) matches Some((None, r)) ==> open_count(
        s,
        r,
    ) is Some
}

/// An inspection succeeds on every block that is complete: for any number of
/// transaction bodies and any number of fields, whatever the trailing fields are,
/// it finds how many bodies and how many fields there are.
pub proof fn law_every_complete_block_is_inspected(
    outer: Option<u64>,
    era: u32,
    fields: Seq<Seq<u8>>,
    bodies: Seq<Seq<u8>>,
    more: Seq<Seq<u8>>,
    after: Seq<u8>,
)
    requires
        era >= 2,
        2 <= fields.len() <= 5,
        more.len() > 0 ==> fields.len() == 5,
        fields.len() + more.len() <= u32::MAX,
        ({
            let n = (fields.len() + more.len()) as u64;
            let content = content_of(outer, era, Some(n), joined(fields) + joined(more));
            let p = fields_begin(outer, era, Some(n));
            let t = p + joined(fields).len();
            &&& content.len() <= u64::MAX
            &&& base_is_laid_out(content, p, fields, bodies)
            &&& are_items(content, t, more, 0, more.len() as int)
            &&& more.len() >= 2 ==> ends_agree(content, t, more)
        }),
    ensures
        ({
            let n = (fields.len() + more.len()) as u64;
            let content = content_of(outer, era, Some(n), joined(fields) + joined(more));
            let found = body_findings(block_of(24, content, after));
            &&& found is Ok
            &&& found->Ok_0.facts.tx_count == bodies.len()
            &&& found->Ok_0.facts.field_count == fields.len() + more.len()
        }),
{
    let n = (fields.len() + more.len()) as u64;
    let content = content_of(outer, era, Some(n), joined(fields) + joined(more));
    let t = fields_begin(outer, era, Some(n)) + joined(fields).len();
    lemma_base(outer, era, n, fields, bodies, joined(more), after);
    if more.len() > 0 {
        assert(more.take(0) =~= Seq::<Seq<u8>>::empty());
        assert(skip_end(content, start_of(t, more, 0)) == Some(start_of(t, more, 1)));
        if more.len() > 1 {
            assert(skip_end(content, start_of(t, more, 1)) == Some(start_of(t, more, 2)));
        }
        lemma_trailing_found(content, t, more, (n - 5) as u64, counts(bodies.len(), n));
    }
}

/// What trailing fields add to the findings leaves the counts as they are.
proof fn lemma_trailing_found(
    s: Seq<u8>,
    t: int,
    more: Seq<Seq<u8>>,
    trailing: u64,
    facts: BodyFacts,
)
    requires
        trailing == more.len() > 0,
        skip_end(s, t) == Some(start_of(t, more, 1)),
        more.len() >= 2 ==> ends_agree(s, t, more) && skip_end(s, start_of(t, more, 1)) is Some,
    ensures
        trailing_findings(s, t, trailing, facts) is Ok,
        trailing_findings(s, t, trailing, facts)->Ok_0.facts.tx_count == facts.tx_count,
        trailing_findings(s, t, trailing, facts)->Ok_0.facts.field_count == facts.field_count,
{
    assert(cert_field(s, t) is Ok);
    if trailing > 1 {
        assert(cert_field(s, t)->Ok_0.1 == start_of(t, more, 1));
        assert(refs_field(s, start_of(t, more, 1)) is Ok);
    }
}

/// An inspection of a block array of fewer than two fields finds their number
/// and nothing else; one of indefinite length, or of more fields than 32 bits
/// count, is refused.
pub proof fn law_inspection_of_short_and_long_arrays(
    outer: Option<u64>,
    era: u32,
    n: u64,
    rest: Seq<u8>,
    after: Seq<u8>,
)
    requires
        era >= 2,
        content_of(outer, era, Some(n), rest).len() <= u64::MAX,
        content_of(outer, era, None, rest).len() <= u64::MAX,
    ensures
        n < 2 ==> body_findings(block_of(24, content_of(outer, era, Some(n), rest), after)) == Ok::<
            _,
            DecodeError,
        >(Findings { facts: counts(0, n), cert_field: None, tx_refs_field: None }),
        n > 0xffff_ffff ==> body_findings(
            block_of(24, content_of(outer, era, Some(n), rest), after),
        ) == Err::<Findings, _>(DecodeError::BlockLengthTooLarge),
        body_findings(block_of(24, content_of(outer, era, None, rest), after)) == Err::<
            Findings,
            _,
        >(DecodeError::IndefiniteBlockArray),
{
    lemma_block(outer, era, Some(n), rest, after);
    lemma_block(outer, era, None, rest, after);
}

/// An inspection refuses a block whose second field is no array, an array of
/// indefinite length, or an array of more bodies than 32 bits count.
pub proof fn law_inspection_of_other_bodies(
    outer: Option<u64>,
    era: u32,
    n: u64,
    header: Seq<u8>,
    stated: u64,
    rest: Seq<u8>,
    after: Seq<u8>,
    second: Seq<u8>,
)
    requires
        era >= 2,
        2 <= n <= u32::MAX,
        second.len() > 0,
        content_of(outer, era, Some(n), header + (second + rest)).len() <= u64::MAX,
        skip_end(
            content_of(outer, era, Some(n), header + (second + rest)),
            fields_begin(outer, era, Some(n)),
        ) == Some(fields_begin(outer, era, Some(n)) + header.len()),
    ensures
        ({
            let found = body_findings(
                block_of(24, content_of(outer, era, Some(n), header + (second + rest)), after),
            );
            &&& second[0] as int / 32 != 4 ==> found == Err::<Findings, _>(DecodeError::Malformed)
            &&& second[0] == 0x9f ==> found == Err::<Findings, _>(DecodeError::IndefiniteTxBodies)
            &&& second == head_bytes(MAJOR_ARRAY, stated) && stated > 0xffff_ffff ==> found
                == Err::<Findings, _>(DecodeError::TxCountTooLarge)
        }),
{
    let content = content_of(outer, era, Some(n), header + (second + rest));
    let p = fields_begin(outer, era, Some(n));
    lemma_block(outer, era, Some(n), header + (second + rest), after);
    lemma_stands_split(content, p, header, second + rest);
    lemma_stands_split(content, p + header.len(), second, rest);
    lemma_other_bodies(content, p + header.len(), second, stated);
    let raw = block_of(24, content, after);
    let q = p + header.len();
    if tx_bodies_at(content, q) is Err {
        lemma_bodies_refused(raw, content, era, n, p, q, tx_bodies_at(content, q)->Err_0);
    }
}

/// What is no array of so many bodies as can be counted is refused.
proof fn lemma_other_bodies(s: Seq<u8>, p: int, second: Seq<u8>, stated: u64)
    requires
        stands(s, p, second),
        second.len() > 0,
    ensures
        second[0] as int / 32 != 4 ==> tx_bodies_at(s, p) == Err::<(u32, int), _>(
            DecodeError::Malformed,
        ),
        second[0] == 0x9f ==> tx_bodies_at(s, p) == Err::<(u32, int), _>(
            DecodeError::IndefiniteTxBodies,
        ),
        second == head_bytes(MAJOR_ARRAY, stated) && stated > 0xffff_ffff ==> tx_bodies_at(s, p)
            == Err::<(u32, int), _>(DecodeError::TxCountTooLarge),
{
    lemma_stands_first(s, p, second);
    if second == head_bytes(MAJOR_ARRAY, stated) && stated > 0xffff_ffff {
        lemma_container_head(s, p, MAJOR_ARRAY, Some(stated));
    }
}

/// An inspection refuses a block of two fields or more that ends too soon: whose
/// header is not there, or not all of the transaction bodies that their array
/// states, or not all of the base fields.
pub proof fn law_inspection_notices_what_is_missing(
    outer: Option<u64>,
    era: u32,
    n: u64,
    fields: Seq<Seq<u8>>,
    bodies: Seq<Seq<u8>>,
    stated: u64,
    rest: Seq<u8>,
    after: Seq<u8>,
)
    requires
        era >= 2,
        2 <= n <= u32::MAX,
        content_of(outer, era, Some(n), joined(fields) + rest).len() <= u64::MAX,
        ({
            let content = content_of(outer, era, Some(n), joined(fields) + rest);
            let p = fields_begin(outer, era, Some(n));
            let head = head_bytes(MAJOR_ARRAY, stated);
            ||| skip_end(content, p) is None
            ||| {
                &&& fields.len() == 2
                &&& skip_end(content, p) == Some(p + fields[0].len())
                &&& fields[1] == head + joined(bodies)
                &&& bodies.len() < stated <= u32::MAX
                &&& are_items(
                    content,
                    p + fields[0].len() + head.len(),
                    bodies,
                    0,
                    bodies.len() as int,
                )
                &&& skip_end(content, p + joined(fields).len()) is None
            }
            ||| {
                &&& base_is_laid_out(content, p, fields, bodies)
                &&& fields.len() < n
                &&& fields.len() < 5
                &&& skip_end(content, p + joined(fields).len()) is None
            }
        }),
    ensures
        body_findings(
            block_of(24, content_of(outer, era, Some(n), joined(fields) + rest), after),
        ) == Err::<Findings, _>(DecodeError::Malformed),
{
    let content = content_of(outer, era, Some(n), joined(fields) + rest);
    let p = fields_begin(outer, era, Some(n));
    let raw = block_of(24, content, after);
    lemma_block(outer, era, Some(n), joined(fields) + rest, after);
    lemma_stands_split(content, p, joined(fields), rest);
    assert(is_opened(raw, content, era, Some(n), p));
    if skip_end(content, p) is Some {
        if base_is_laid_out(content, p, fields, bodies) && fields.len() < n && fields.len() < 5 {
            lemma_base_field_missing(raw, content, era, n, p, fields, bodies);
        } else {
            lemma_part_stands(content, p, fields, 1);
            lemma_part_stands(content, p, fields, 0);
            lemma_body_missing(content, p + fields[0].len(), bodies, stated);
            let q = p + fields[0].len();
            lemma_bodies_refused(raw, content, era, n, p, q, DecodeError::Malformed);
        }
    }
}

/// An array of fewer bodies than it states is refused.
proof fn lemma_body_missing(s: Seq<u8>, p: int, bodies: Seq<Seq<u8>>, stated: u64)
    requires
        bodies.len() < stated <= u32::MAX,
        stands(s, p, head_bytes(MAJOR_ARRAY, stated) + joined(bodies)),
        are_items(
            s,
            p + head_bytes(MAJOR_ARRAY, stated).len(),
            bodies,
            0,
            bodies.len() as int,
        ),
        skip_end(s, p + (head_bytes(MAJOR_ARRAY, stated) + joined(bodies)).len()) is None,
    ensures
        tx_bodies_at(s, p) == Err::<(u32, int), _>(DecodeError::Malformed),
{
    let head = head_bytes(MAJOR_ARRAY, stated);
    lemma_stands_split(s, p, head, joined(bodies));
    lemma_container_head(s, p, MAJOR_ARRAY, Some(stated));
    assert(bodies.take(0) =~= Seq::<Seq<u8>>::empty());
    assert(bodies.take(bodies.len() as int) =~= bodies);
    lemma_skip_fails(s, p + head.len(), bodies, 0, stated as nat);
}

/// A block with fewer base fields than there should be is refused.
proof fn lemma_base_field_missing(
    raw: Seq<u8>,
    content: Seq<u8>,
    era: u32,
    n: u64,
    p: int,
    fields: Seq<Seq<u8>>,
    bodies: Seq<Seq<u8>>,
)
    requires
        is_opened(raw, content, era, Some(n), p),
        2 <= n <= u32::MAX,
        fields.len() < n,
        fields.len() < 5,
        stands(content, p, joined(fields)),
        base_is_laid_out(content, p, fields, bodies),
        skip_end(content, p + joined(fields).len()) is None,
    ensures
        body_findings(raw) == Err::<Findings, _>(DecodeError::Malformed),
{
    lemma_part_stands(content, p, fields, 0);
    lemma_part_stands(content, p, fields, 1);
    lemma_bodies(content, p + fields[0].len(), bodies);
    assert(start_of(p, fields, 2) == p + fields[0].len() + fields[1].len());
    let base: nat = if n <= 5 {
        (n - 2) as nat
    } else {
        3
    };
    lemma_skip_fails(content, p, fields, 2, base);
}

/// A block that stands somewhere in some bytes is taken out of them as it is where
/// it takes up to 2,500,000 bytes, and refused with its size where it takes more.
pub proof fn law_block_is_taken_out_of_bytes(
    before: Seq<u8>,
    tag: u64,
    content: Seq<u8>,
    after: Seq<u8>,
    res: Result<(BlockBody, usize), DecodeError>,
)
    requires
        content.len() <= u64::MAX,
        tagged_bytes_end(
            before + block_of(tag, content, Seq::empty()) + after,
            before.len() as int,
        ) matches Some(end) ==> is_decoded_block(
            before + block_of(tag, content, Seq::empty()) + after,
            before.len() as int,
            end,
            res,
        ),
    ensures
        ({
            let raw = block_of(tag, content, Seq::empty());
            if raw.len() <= 2_500_000 {
                &&& res is Ok
                &&& res->Ok_0.0.raw@ == raw
                &&& res->Ok_0.1 == before.len() + raw.len()
                &&& match res->Ok_0.0.leios {
                    Some(info) => certificate_bytes(raw) is Ok && info.eb_certificate is Some
                        && info.eb_certificate->Some_0@ == certificate_bytes(raw)->Ok_0,
                    None => certificate_bytes(raw) is Err,
                }
            } else {
                res == Err::<(BlockBody, usize), _>(DecodeError::BlockTooLarge(raw.len() as usize))
            }
        }),
{
    let raw = block_of(tag, content, Seq::empty());
    let s = before + raw + after;
    let p = before.len() as int;
    let a = head_bytes(MAJOR_TAG, tag);
    let b = head_bytes(MAJOR_BYTES, content.len() as u64) + content;
    assert(raw =~= a + b);
    lemma_stands_whole(s);
    lemma_stands_split(s, 0, before + raw, after);
    lemma_stands_split(s, 0, before, raw);
    lemma_stands_split(s, p, a, b);
    lemma_head_round_trip(s, p, MAJOR_TAG, tag);
    lemma_bytes_round_trip(s, p + a.len(), content);
}

} // verus!
