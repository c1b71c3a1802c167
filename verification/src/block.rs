//! Raw block bodies with optional Leios metadata.
//!
//! A Shelley-layout block is `#6.24(bytes)`, where the bytes hold
//! `[era, [header, tx_bodies, tx_witnesses, aux_data, ..]]`. Its trailing
//! fields, where there are any, hold a certificate for an endorser block and
//! references to transactions.

use crate::cbor;
use crate::cbor::{
    break_at, bytes_at, container_at, head_bytes, lemma_bytes_round_trip, lemma_head_round_trip,
    skip_end, tag_at, tagged_bytes_end, type_known_at, u32_at, u64_at, MAJOR_ARRAY, MAJOR_BYTES,
    MAJOR_TAG, MAJOR_UNSIGNED,
};
use crate::header::{
    header_info, header_point, is_header_point, wrap_header, wrapped_header_bytes, HeaderInfo,
    WrappedHeader, ENCODED_CBOR_TAG, FIRST_SHELLEY_ERA,
};
use crate::types::{hash_from_slice, Point};
use vstd::prelude::*;
use vstd::slice::{slice_subrange, slice_to_vec};
use vstd::string::StringExecFns;

verus! {

/// Number of base fields in a Shelley-layout block array, before the Leios
/// extension.
pub const BLOCK_BASE_FIELDS: u64 = 4;

/// Cap on the bytes that are captured of a trailing field of unknown shape.
pub const UNKNOWN_CERT_FIELD_PROBE_BYTES: usize = 96;

/// Cap on the bytes that are shown of a body that cannot be read.
pub const BODY_PARSE_FAIL_PROBE_BYTES: usize = 256;

/// How many bodies of unknown shape are reported.
pub const SHAPE_MISMATCH_WARN_BUDGET: usize = 5;

/// How many bodies that cannot be read are reported.
pub const BODY_PARSE_FAIL_WARN_BUDGET: usize = 5;

/// The largest block that is accepted from the wire, in bytes.
pub const MAX_BLOCK_SIZE: usize = 2_500_000;

/// Why a block could not be read.
#[derive(Debug, Clone, Copy, PartialEq, Eq, Structural)]
pub enum DecodeError {
    /// An item is missing, cut short or of another type than expected.
    Malformed,
    /// The block is not wrapped in the tag for encoded CBOR.
    UnexpectedTag(u64),
    /// The block belongs to a Byron era.
    ByronBlock,
    /// The block array has no definite length.
    IndefiniteBlockArray,
    /// The block array ends with the base fields.
    NoLeiosExtension,
    /// The block array has more fields than 32 bits can count.
    BlockLengthTooLarge,
    /// The array of transaction bodies has no definite length.
    IndefiniteTxBodies,
    /// There are more transaction bodies than 32 bits can count.
    TxCountTooLarge,
    /// The header was cut from the block and could not be read.
    UnreadableHeader,
    /// The block takes more bytes than `MAX_BLOCK_SIZE`.
    BlockTooLarge(usize),
}

/// A block's era-tagged content: the bytes inside the tag, the era, and where
/// in those bytes the block array starts.
pub open spec fn envelope(raw: Seq<u8>) -> Result<(Seq<u8>, u32, int), DecodeError> {
    match tag_at(raw, 0) {
        None => Err(DecodeError::Malformed),
        Some((tag, p)) => if tag != ENCODED_CBOR_TAG {
            Err(DecodeError::UnexpectedTag(tag))
        } else {
            match bytes_at(raw, p) {
                None => Err(DecodeError::Malformed),
                Some((inner, _)) => era_envelope(inner),
            }
        },
    }
}

/// The era and the position of the block array in the bytes inside the tag.
pub open spec fn era_envelope(inner: Seq<u8>) -> Result<(Seq<u8>, u32, int), DecodeError> {
    match container_at(inner, 0, MAJOR_ARRAY) {
        None => Err(DecodeError::Malformed),
        Some((_, p)) => match u32_at(inner, p) {
            None => Err(DecodeError::Malformed),
            Some((era, q)) => if era < FIRST_SHELLEY_ERA {
                Err(DecodeError::ByronBlock)
            } else {
                Ok((inner, era, q))
            },
        },
    }
}

/// Where the `n` items from `p` on end.
pub open spec fn skip_many(s: Seq<u8>, p: int, n: nat) -> Option<int>
    decreases n,
{
    if n == 0 {
        Some(p)
    } else {
        match skip_end(s, p) {
            Some(q) => skip_many(s, q, (n - 1) as nat),
            None => None,
        }
    }
}

/// The number of fields of the block array at `p`, with the position of the
/// first field.
pub open spec fn block_fields(inner: Seq<u8>, p: int) -> Result<(u64, int), DecodeError> {
    match container_at(inner, p, MAJOR_ARRAY) {
        None => Err(DecodeError::Malformed),
        Some((None, _)) => Err(DecodeError::IndefiniteBlockArray),
        Some((Some(n), q)) => Ok((n, q)),
    }
}

/// The encoded certificate of a block: the field that follows the base fields.
pub open spec fn certificate_bytes(raw: Seq<u8>) -> Result<Seq<u8>, DecodeError> {
    match envelope(raw) {
        Err(e) => Err(e),
        Ok((inner, _, p)) => match block_fields(inner, p) {
            Err(e) => Err(e),
            Ok((n, q)) => if n <= BLOCK_BASE_FIELDS {
                Err(DecodeError::NoLeiosExtension)
            } else {
                match skip_many(inner, q, BLOCK_BASE_FIELDS as nat) {
                    None => Err(DecodeError::Malformed),
                    Some(start) => match skip_end(inner, start) {
                        None => Err(DecodeError::Malformed),
                        Some(end) => Ok(inner.subrange(start, end)),
                    },
                }
            },
        },
    }
}

/// The wire form of a block's header: the block's first field, wrapped.
pub open spec fn extracted_header(raw: Seq<u8>) -> Result<Seq<u8>, DecodeError> {
    match envelope(raw) {
        Err(e) => Err(e),
        Ok((inner, era, p)) => match container_at(inner, p, MAJOR_ARRAY) {
            None => Err(DecodeError::Malformed),
            Some((_, start)) => match skip_end(inner, start) {
                None => Err(DecodeError::Malformed),
                Some(end) => Ok(wrapped_header_bytes(era, inner.subrange(start, end))),
            },
        },
    }
}

/// Skips `n` items from `pos` on.
fn skip_items(buf: &[u8], pos: usize, n: u64) -> (res: Option<usize>)
    requires
        pos <= buf@.len(),
    ensures
        match res {
            Some(end) => skip_many(buf@, pos as int, n as nat) == Some(end as int) && pos <= end
                <= buf@.len(),
            None => skip_many(buf@, pos as int, n as nat) is None,
        },
{
    let mut at: usize = pos;
    let mut left: u64 = n;
    while left > 0
        invariant
            pos <= at <= buf@.len(),
            skip_many(buf@, at as int, left as nat) == skip_many(buf@, pos as int, n as nat),
        decreases left,
    {
        at = cbor::read_skip(buf, at)?;
        left -= 1;
    }
    Some(at)
}

/// Opens a block: the bytes inside the tag, the era, and the position of the
/// block array.
fn open_envelope(raw: &[u8]) -> (res: Result<(&[u8], u32, usize), DecodeError>)
    ensures
        match res {
            Ok((inner, era, p)) => envelope(raw@) == Ok::<_, DecodeError>(
                (inner@, era, p as int),
            ) && p <= inner@.len(),
            Err(e) => envelope(raw@) == Err::<(Seq<u8>, u32, int), _>(e),
        },
{
    let (tag, p) = match cbor::read_tag(raw, 0) {
        Some(x) => x,
        None => return Err(DecodeError::Malformed),
    };
    if tag != ENCODED_CBOR_TAG {
        return Err(DecodeError::UnexpectedTag(tag));
    }
    let (inner, _) = match cbor::read_bytes(raw, p) {
        Some(x) => x,
        None => return Err(DecodeError::Malformed),
    };
    let (_, q) = match cbor::read_array(inner, 0) {
        Some(x) => x,
        None => return Err(DecodeError::Malformed),
    };
    let (era, r) = match cbor::read_u32(inner, q) {
        Some(x) => x,
        None => return Err(DecodeError::Malformed),
    };
    if era < FIRST_SHELLEY_ERA {
        return Err(DecodeError::ByronBlock);
    }
    Ok((inner, era, r))
}

/// Reads the head of the block array at `pos`.
fn read_block_fields(inner: &[u8], pos: usize) -> (res: Result<(u64, usize), DecodeError>)
    ensures
        match res {
            Ok((n, q)) => block_fields(inner@, pos as int) == Ok::<_, DecodeError>((n, q as int))
                && q <= inner@.len(),
            Err(e) => block_fields(inner@, pos as int) == Err::<(u64, int), _>(e),
        },
{
    match cbor::read_array(inner, pos) {
        None => Err(DecodeError::Malformed),
        Some((None, _)) => Err(DecodeError::IndefiniteBlockArray),
        Some((Some(n), q)) => Ok((n, q)),
    }
}

/// Whether bytes stand in `raw` as they are, one after another, and are not
/// empty.
pub open spec fn is_nonempty_slice(part: Seq<u8>, raw: Seq<u8>) -> bool {
    exists|i: int, j: int| 0 <= i < j <= raw.len() && part == #[trigger] raw.subrange(i, j)
}

/// The content of a block stands in its raw bytes, and so does every part of it.
proof fn lemma_content_part(raw: Seq<u8>, start: int, end: int)
    requires
        envelope(raw) is Ok,
        0 <= start < end <= envelope(raw)->Ok_0.0.len(),
    ensures
        is_nonempty_slice(envelope(raw)->Ok_0.0.subrange(start, end), raw),
{
    let p = tag_at(raw, 0)->Some_0.1;
    let (inner, after) = bytes_at(raw, p)->Some_0;
    let at = after - inner.len();
    assert(inner =~= raw.subrange(at, after));
    assert(inner.subrange(start, end) =~= raw.subrange(at + start, at + end));
}

/// Leios metadata of a block body.
///
/// The base fields of a block array are four; a fifth element is the
/// certificate for an endorser block.
#[derive(Debug, Clone, PartialEq, Eq)]
pub struct LeiosBlockInfo {
    /// The encoded certificate, if the block holds one.
    pub eb_certificate: Option<Vec<u8>>,
}

impl Default for LeiosBlockInfo {
    fn default() -> (info: Self)
        ensures
            info.eb_certificate is None,
    {
        LeiosBlockInfo { eb_certificate: None }
    }
}

impl LeiosBlockInfo {
    /// The encoded certificate, as bytes.
    pub open spec fn certificate(&self) -> Option<Seq<u8>> {
        match self.eb_certificate {
            Some(cert) => Some(cert@),
            None => None,
        }
    }

    /// Whether the metadata is what the raw bytes of a block hold: its
    /// certificate is the one of the block, and a nonempty slice of those bytes.
    pub open spec fn is_read_from(&self, raw: Seq<u8>) -> bool {
        &&& certificate_bytes(raw) is Ok
        &&& self.certificate() == Some(certificate_bytes(raw)->Ok_0)
        &&& is_nonempty_slice(certificate_bytes(raw)->Ok_0, raw)
    }

    /// The metadata whose certificate stands in `inner` from `start` to `end`.
    /// Bounds that do not lie within `inner` give `None`.
    pub fn from_span(inner: &[u8], start: usize, end: usize) -> (res: Option<LeiosBlockInfo>)
        ensures
            match res {
                Some(info) => start <= end <= inner@.len() && info.certificate() == Some(
                    inner@.subrange(start as int, end as int),
                ),
                None => !(start <= end <= inner@.len()),
            },
    {
        if start <= end && end <= inner.len() {
            let cert = slice_to_vec(slice_subrange(inner, start, end));
            Some(LeiosBlockInfo { eb_certificate: Some(cert) })
        } else {
            None
        }
    }

    /// Reads Leios metadata from the raw bytes of a block body, as far as they
    /// allow. Byron blocks, blocks without a certificate and malformed bytes
    /// give `None`.
    pub fn parse(raw: &[u8]) -> (res: Option<LeiosBlockInfo>)
        ensures
            match res {
                Some(info) => info.is_read_from(raw@),
                None => certificate_bytes(raw@) is Err,
            },
    {
        match Self::try_parse(raw) {
            Ok(info) => Some(info),
            Err(_) => None,
        }
    }

    /// Like `parse`, and says why there is no metadata.
    pub fn try_parse(raw: &[u8]) -> (res: Result<LeiosBlockInfo, DecodeError>)
        ensures
            match res {
                Ok(info) => info.is_read_from(raw@),
                Err(e) => certificate_bytes(raw@) == Err::<Seq<u8>, _>(e),
            },
    {
        let (inner, _, p) = match open_envelope(raw) {
            Ok(x) => x,
            Err(e) => return Err(e),
        };
        let (n, q) = match read_block_fields(inner, p) {
            Ok(x) => x,
            Err(e) => return Err(e),
        };
        if n <= BLOCK_BASE_FIELDS {
            return Err(DecodeError::NoLeiosExtension);
        }
        let start = match skip_items(inner, q, BLOCK_BASE_FIELDS) {
            Some(x) => x,
            None => return Err(DecodeError::Malformed),
        };
        let end = match cbor::read_skip(inner, start) {
            Some(x) => x,
            None => return Err(DecodeError::Malformed),
        };
        proof {
            lemma_content_part(raw@, start as int, end as int);
        }
        match Self::from_span(inner, start, end) {
            Some(info) => Ok(info),
            None => Err(DecodeError::Malformed),
        }
    }
}

/// The slot and hash of the endorser block that a certificate is for.
#[derive(Debug, Clone, Copy, PartialEq, Eq)]
pub struct LeiosCertSummary {
    pub eb_slot: u64,
    pub eb_hash: [u8; 32],
}

impl View for LeiosCertSummary {
    type V = (u64, Seq<u8>);

    open spec fn view(&self) -> (u64, Seq<u8>) {
        (self.eb_slot, self.eb_hash@)
    }
}

/// What an inspection of a block body finds: zeros and `None` where the body
/// cannot be read.
#[derive(Debug, Clone, Copy, PartialEq, Eq)]
pub struct ParsedBodyInfo {
    /// Number of transaction bodies.
    pub tx_count: u32,
    /// Number of fields of the block array.
    pub field_count: u32,
    /// The certificate, where the first trailing field has its shape.
    pub leios_cert: Option<LeiosCertSummary>,
    /// Number of transaction references, where the second trailing field is an
    /// array with all its elements.
    pub tx_references_count: Option<u32>,
}

impl Default for ParsedBodyInfo {
    fn default() -> (info: Self)
        ensures
            info@ == empty_body_facts(0),
    {
        ParsedBodyInfo {
            tx_count: 0,
            field_count: 0,
            leios_cert: None,
            tx_references_count: None,
        }
    }
}

/// The content of a `ParsedBodyInfo`.
pub struct BodyFacts {
    pub tx_count: u32,
    pub field_count: u32,
    pub leios_cert: Option<(u64, Seq<u8>)>,
    pub tx_references_count: Option<u32>,
}

/// What is known of a body of which only the number of fields was read.
pub open spec fn empty_body_facts(field_count: u32) -> BodyFacts {
    BodyFacts { tx_count: 0, field_count, leios_cert: None, tx_references_count: None }
}

impl View for ParsedBodyInfo {
    type V = BodyFacts;

    open spec fn view(&self) -> BodyFacts {
        BodyFacts {
            tx_count: self.tx_count,
            field_count: self.field_count,
            leios_cert: match self.leios_cert {
                Some(cert) => Some(cert@),
                None => None,
            },
            tx_references_count: self.tx_references_count,
        }
    }
}

/// How the fields of a block array after the transaction bodies divide: how
/// many belong to the base layout, and how many trail it.
pub open spec fn field_split(block_len: u64) -> (u64, u64) {
    if block_len < 2 {
        (0, 0)
    } else if block_len <= 5 {
        ((block_len - 2) as u64, 0)
    } else {
        (3, (block_len - 5) as u64)
    }
}

/// Counts the base fields that follow the transaction bodies, and the fields
/// that trail them.
pub fn split_fields(block_len: u64) -> (split: (u64, u64))
    ensures
        split == field_split(block_len),
{
    let rest = block_len.saturating_sub(2);
    let base = if rest < 3 {
        rest
    } else {
        3
    };
    (base, rest - base)
}

/// The first bytes of a captured field.
pub open spec fn probe(field: Seq<u8>) -> Seq<u8> {
    if field.len() <= UNKNOWN_CERT_FIELD_PROBE_BYTES {
        field
    } else {
        field.take(UNKNOWN_CERT_FIELD_PROBE_BYTES as int)
    }
}

/// Captures the first bytes of the field that stands in `inner` from `start` to
/// `end`.
pub fn capture_field(inner: &[u8], start: usize, end: usize) -> (captured: Vec<u8>)
    requires
        start <= end <= inner@.len(),
    ensures
        captured@ == probe(inner@.subrange(start as int, end as int)),
{
    let take = if end - start <= UNKNOWN_CERT_FIELD_PROBE_BYTES {
        end - start
    } else {
        UNKNOWN_CERT_FIELD_PROBE_BYTES
    };
    let captured = slice_to_vec(slice_subrange(inner, start, start + take));
    assert(captured@ =~= probe(inner@.subrange(start as int, end as int)));
    captured
}

/// The slot and hash that open a certificate `[slot, hash, signers, signature]`
/// at `p`, with the position of the signers.
pub open spec fn cert_head_at(s: Seq<u8>, p: int) -> Option<((u64, Seq<u8>), int)> {
    match container_at(s, p, MAJOR_ARRAY) {
        Some((Some(n), q)) => if n == 4 {
            match u64_at(s, q) {
                Some((slot, r)) => match bytes_at(s, r) {
                    Some((hash, end)) => if hash.len() == 32 {
                        Some(((slot, hash), end))
                    } else {
                        None
                    },
                    None => None,
                },
                None => None,
            }
        } else {
            None
        },
        _ => None,
    }
}

/// The certificate at `p`, with the position after it.
pub open spec fn cert_at(s: Seq<u8>, p: int) -> Option<((u64, Seq<u8>), int)> {
    match cert_head_at(s, p) {
        Some((cert, q)) => match skip_many(s, q, 2) {
            Some(end) => Some((cert, end)),
            None => None,
        },
        None => None,
    }
}

/// Reads the slot and hash that open a certificate.
pub fn read_cert_head(buf: &[u8], pos: usize) -> (res: Option<(LeiosCertSummary, usize)>)
    ensures
        match res {
            Some((cert, end)) => cert_head_at(buf@, pos as int) == Some((cert@, end as int)) && end
                <= buf@.len(),
            None => cert_head_at(buf@, pos as int) is None,
        },
{
    let (n, q) = match cbor::read_array(buf, pos)? {
        (Some(n), q) => (n, q),
        (None, _) => return None,
    };
    if n != 4 {
        return None;
    }
    let (eb_slot, r) = cbor::read_u64(buf, q)?;
    let (hash, end) = cbor::read_bytes(buf, r)?;
    if hash.len() != 32 {
        return None;
    }
    Some((LeiosCertSummary { eb_slot, eb_hash: hash_from_slice(hash) }, end))
}

/// Reads the item at `pos` as a certificate. An item of any other shape gives
/// `None`.
fn read_cert(buf: &[u8], pos: usize) -> (res: Option<(LeiosCertSummary, usize)>)
    ensures
        match res {
            Some((cert, end)) => cert_at(buf@, pos as int) == Some((cert@, end as int)) && end
                <= buf@.len(),
            None => cert_at(buf@, pos as int) is None,
        },
{
    let (cert, q) = read_cert_head(buf, pos)?;
    let end = skip_items(buf, q, 2)?;
    Some((cert, end))
}

/// A trailing field that was probed: its value where the shape matched, else
/// the first bytes of the field, or neither where the field ends too soon.
pub enum Probed<T> {
    Matched(T),
    Mismatched(Seq<u8>),
    CutOff,
}

/// The first trailing field at `p`, read as a certificate, with the position
/// after it.
pub open spec fn cert_field(s: Seq<u8>, p: int) -> Result<
    (Probed<(u64, Seq<u8>)>, int),
    DecodeError,
> {
    match cert_at(s, p) {
        Some((cert, end)) => Ok((Probed::Matched(cert), end)),
        None => match skip_end(s, p) {
            Some(end) => Ok((Probed::Mismatched(probe(s.subrange(p, end))), end)),
            None => Err(DecodeError::Malformed),
        },
    }
}

/// How many items stand between `p` and a break byte.
pub open spec fn open_count(s: Seq<u8>, p: int) -> Option<nat>
    decreases s.len() - p,
{
    if !type_known_at(s, p) {
        None
    } else if break_at(s, p) {
        Some(0)
    } else {
        match skip_end(s, p) {
            Some(q) => if p < q <= s.len() {
                match open_count(s, q) {
                    Some(n) => Some(n + 1),
                    None => None,
                }
            } else {
                None
            },
            None => None,
        }
    }
}

/// `n`, or the largest 32-bit number where `n` exceeds it.
pub open spec fn saturated_u32(n: nat) -> u32 {
    if n <= u32::MAX {
        n as u32
    } else {
        u32::MAX
    }
}

/// The second trailing field at `p`, read as an array of transaction
/// references, of which the length counts. An array of definite length counts
/// only where all its elements are there.
pub open spec fn refs_field(s: Seq<u8>, p: int) -> Result<Probed<u32>, DecodeError> {
    match container_at(s, p, MAJOR_ARRAY) {
        Some((Some(n), q)) => match skip_many(s, q, n as nat) {
            Some(_) => Ok(Probed::Matched(saturated_u32(n as nat))),
            None => Ok(Probed::CutOff),
        },
        Some((None, q)) => match open_count(s, q) {
            Some(n) => Ok(Probed::Matched(saturated_u32(n))),
            None => Err(DecodeError::Malformed),
        },
        None => match skip_end(s, p) {
            Some(end) => Ok(Probed::Mismatched(probe(s.subrange(p, end)))),
            None => Err(DecodeError::Malformed),
        },
    }
}

/// What an inspection finds in a block, with the first bytes of the trailing
/// fields whose shape it does not know.
pub struct Findings {
    pub facts: BodyFacts,
    pub cert_field: Option<Seq<u8>>,
    pub tx_refs_field: Option<Seq<u8>>,
}

/// The number of transaction bodies in the array at `p`, with the position
/// after the array.
pub open spec fn tx_bodies_at(s: Seq<u8>, p: int) -> Result<(u32, int), DecodeError> {
    match container_at(s, p, MAJOR_ARRAY) {
        None => Err(DecodeError::Malformed),
        Some((None, _)) => Err(DecodeError::IndefiniteTxBodies),
        Some((Some(n), q)) => if n > u32::MAX {
            Err(DecodeError::TxCountTooLarge)
        } else {
            match skip_many(s, q, n as nat) {
                None => Err(DecodeError::Malformed),
                Some(end) => Ok((n as u32, end)),
            }
        },
    }
}

/// The findings in the block array with `block_len` fields, the first of which
/// stands at `p`.
pub open spec fn array_findings(s: Seq<u8>, p: int, block_len: u64) -> Result<
    Findings,
    DecodeError,
> {
    if block_len > u32::MAX {
        Err(DecodeError::BlockLengthTooLarge)
    } else if block_len < 2 {
        Ok(
            Findings {
                facts: empty_body_facts(block_len as u32),
                cert_field: None,
                tx_refs_field: None,
            },
        )
    } else {
        match skip_end(s, p) {
            None => Err(DecodeError::Malformed),
            Some(q) => match tx_bodies_at(s, q) {
                Err(e) => Err(e),
                Ok((tx_count, r)) => {
                    let facts = BodyFacts {
                        tx_count,
                        ..empty_body_facts(block_len as u32)
                    };
                    match skip_many(s, r, field_split(block_len).0 as nat) {
                        None => Err(DecodeError::Malformed),
                        Some(t) => trailing_findings(s, t, field_split(block_len).1, facts),
                    }
                },
            },
        }
    }
}

/// The findings in the trailing fields, the first of which stands at `p`, added
/// to what is known of the base fields.
pub open spec fn trailing_findings(s: Seq<u8>, p: int, trailing: u64, facts: BodyFacts) -> Result<
    Findings,
    DecodeError,
> {
    if trailing == 0 {
        Ok(Findings { facts, cert_field: None, tx_refs_field: None })
    } else {
        match cert_field(s, p) {
            Err(e) => Err(e),
            Ok((cert, q)) => {
                let with_cert = match cert {
                    Probed::Matched(c) => Findings {
                        facts: BodyFacts { leios_cert: Some(c), ..facts },
                        cert_field: None,
                        tx_refs_field: None,
                    },
                    Probed::Mismatched(field) => Findings {
                        facts,
                        cert_field: Some(field),
                        tx_refs_field: None,
                    },
                    Probed::CutOff => Findings { facts, cert_field: None, tx_refs_field: None },
                };
                if trailing == 1 {
                    Ok(with_cert)
                } else {
                    match refs_field(s, q) {
                        Err(e) => Err(e),
                        Ok(Probed::Matched(n)) => Ok(
                            Findings {
                                facts: BodyFacts {
                                    tx_references_count: Some(n),
                                    ..with_cert.facts
                                },
                                ..with_cert
                            },
                        ),
                        Ok(Probed::Mismatched(field)) => Ok(
                            Findings { tx_refs_field: Some(field), ..with_cert },
                        ),
                        Ok(Probed::CutOff) => Ok(with_cert),
                    }
                }
            },
        }
    }
}

/// The findings in a block.
pub open spec fn body_findings(raw: Seq<u8>) -> Result<Findings, DecodeError> {
    match envelope(raw) {
        Err(e) => Err(e),
        Ok((inner, _, p)) => match block_fields(inner, p) {
            Err(e) => Err(e),
            Ok((n, q)) => array_findings(inner, q, n),
        },
    }
}

/// What an inspection found, with the first bytes of the trailing fields whose
/// shape it does not know.
#[derive(Debug, Clone, PartialEq, Eq)]
pub struct Inspection {
    pub info: ParsedBodyInfo,
    pub cert_field: Option<Vec<u8>>,
    pub tx_refs_field: Option<Vec<u8>>,
}

/// The content of captured bytes.
pub open spec fn captured(field: Option<Vec<u8>>) -> Option<Seq<u8>> {
    match field {
        Some(bytes) => Some(bytes@),
        None => None,
    }
}

impl View for Inspection {
    type V = Findings;

    open spec fn view(&self) -> Findings {
        Findings {
            facts: self.info@,
            cert_field: captured(self.cert_field),
            tx_refs_field: captured(self.tx_refs_field),
        }
    }
}

/// Reads the first trailing field. Besides the position after it, gives the
/// certificate or the first bytes of the field.
fn read_cert_field(inner: &[u8], pos: usize) -> (res: Result<
    (Option<LeiosCertSummary>, Option<Vec<u8>>, usize),
    DecodeError,
>)
    requires
        pos <= inner@.len(),
    ensures
        match res {
            Ok((Some(cert), field, end)) => field is None && end <= inner@.len() && cert_field(
                inner@,
                pos as int,
            ) == Ok::<_, DecodeError>((Probed::Matched(cert@), end as int)),
            Ok((None, field, end)) => field is Some && end <= inner@.len() && cert_field(
                inner@,
                pos as int,
            ) == Ok::<_, DecodeError>(
                (Probed::<(u64, Seq<u8>)>::Mismatched(field->Some_0@), end as int),
            ),
            Err(e) => cert_field(inner@, pos as int) == Err::<(Probed<(u64, Seq<u8>)>, int), _>(e),
        },
{
    match read_cert(inner, pos) {
        Some((cert, end)) => Ok((Some(cert), None, end)),
        None => match cbor::read_skip(inner, pos) {
            Some(end) => Ok((None, Some(capture_field(inner, pos, end)), end)),
            None => Err(DecodeError::Malformed),
        },
    }
}

/// Counts the items from `pos` up to a break byte.
fn count_until_break(inner: &[u8], pos: usize) -> (res: Option<u32>)
    ensures
        match res {
            Some(n) => open_count(inner@, pos as int) is Some && n == saturated_u32(
                open_count(inner@, pos as int)->Some_0,
            ),
            None => open_count(inner@, pos as int) is None,
        },
{
    let mut at: usize = pos;
    let mut count: u32 = 0;
    let ghost mut seen: nat = 0;
    loop
        invariant
            count == saturated_u32(seen),
            match open_count(inner@, at as int) {
                Some(n) => open_count(inner@, pos as int) == Some(seen + n),
                None => open_count(inner@, pos as int) is None,
            },
        ensures
            open_count(inner@, pos as int) == Some(seen),
            count == saturated_u32(seen),
        decreases inner@.len() - at,
    {
        if cbor::read_is_break(inner, at)? {
            break;
        }
        at = cbor::read_skip(inner, at)?;
        count = count.saturating_add(1);
        proof {
            seen = seen + 1;
        }
    }
    Some(count)
}

/// Reads the second trailing field: the number of references, or the first
/// bytes of the field, or neither where an array of definite length ends too
/// soon.
fn read_refs_field(inner: &[u8], pos: usize) -> (res: Result<
    (Option<u32>, Option<Vec<u8>>),
    DecodeError,
>)
    requires
        pos <= inner@.len(),
    ensures
        match res {
            Ok((Some(n), field)) => field is None && refs_field(inner@, pos as int) == Ok::<
                _,
                DecodeError,
            >(Probed::Matched(n)),
            Ok((None, Some(field))) => refs_field(inner@, pos as int) == Ok::<_, DecodeError>(
                Probed::<u32>::Mismatched(field@),
            ),
            Ok((None, None)) => refs_field(inner@, pos as int) == Ok::<_, DecodeError>(
                Probed::<u32>::CutOff,
            ),
            Err(e) => refs_field(inner@, pos as int) == Err::<Probed<u32>, _>(e),
        },
{
    match cbor::read_array(inner, pos) {
        Some((Some(n), q)) => {
            if skip_items(inner, q, n).is_none() {
                return Ok((None, None));
            }
            let count = if n <= u32::MAX as u64 {
                n as u32
            } else {
                u32::MAX
            };
            Ok((Some(count), None))
        },
        Some((None, q)) => match count_until_break(inner, q) {
            Some(count) => Ok((Some(count), None)),
            None => Err(DecodeError::Malformed),
        },
        None => match cbor::read_skip(inner, pos) {
            Some(end) => Ok((None, Some(capture_field(inner, pos, end)))),
            None => Err(DecodeError::Malformed),
        },
    }
}

/// Reads the array of transaction bodies at `pos`.
fn read_tx_bodies(inner: &[u8], pos: usize) -> (res: Result<(u32, usize), DecodeError>)
    ensures
        match res {
            Ok((n, end)) => tx_bodies_at(inner@, pos as int) == Ok::<_, DecodeError>(
                (n, end as int),
            ) && end <= inner@.len(),
            Err(e) => tx_bodies_at(inner@, pos as int) == Err::<(u32, int), _>(e),
        },
{
    match cbor::read_array(inner, pos) {
        None => Err(DecodeError::Malformed),
        Some((None, _)) => Err(DecodeError::IndefiniteTxBodies),
        Some((Some(n), q)) => {
            if n > u32::MAX as u64 {
                return Err(DecodeError::TxCountTooLarge);
            }
            match skip_items(inner, q, n) {
                None => Err(DecodeError::Malformed),
                Some(end) => Ok((n as u32, end)),
            }
        },
    }
}

/// Reads the trailing fields from `pos` on and adds what they hold to `base`.
fn inspect_trailing(inner: &[u8], pos: usize, trailing: u64, base: ParsedBodyInfo) -> (res: Result<
    Inspection,
    DecodeError,
>)
    requires
        pos <= inner@.len(),
        base.leios_cert is None,
        base.tx_references_count is None,
    ensures
        match res {
            Ok(i) => trailing_findings(inner@, pos as int, trailing, base@) == Ok::<
                _,
                DecodeError,
            >(i@),
            Err(e) => trailing_findings(inner@, pos as int, trailing, base@) == Err::<Findings, _>(
                e,
            ),
        },
{
    if trailing == 0 {
        return Ok(Inspection { info: base, cert_field: None, tx_refs_field: None });
    }
    let (leios_cert, cert_field, q) = match read_cert_field(inner, pos) {
        Ok(x) => x,
        Err(e) => return Err(e),
    };
    if trailing == 1 {
        let info = ParsedBodyInfo {
            tx_count: base.tx_count,
            field_count: base.field_count,
            leios_cert,
            tx_references_count: None,
        };
        return Ok(Inspection { info, cert_field, tx_refs_field: None });
    }
    let (tx_references_count, tx_refs_field) = match read_refs_field(inner, q) {
        Ok(x) => x,
        Err(e) => return Err(e),
    };
    let info = ParsedBodyInfo {
        tx_count: base.tx_count,
        field_count: base.field_count,
        leios_cert,
        tx_references_count,
    };
    Ok(Inspection { info, cert_field, tx_refs_field })
}

/// Inspects the block array with `block_len` fields, the first of which stands
/// at `pos`.
fn inspect_array(inner: &[u8], pos: usize, block_len: u64) -> (res: Result<
    Inspection,
    DecodeError,
>)
    ensures
        match res {
            Ok(i) => array_findings(inner@, pos as int, block_len) == Ok::<_, DecodeError>(i@),
            Err(e) => array_findings(inner@, pos as int, block_len) == Err::<Findings, _>(e),
        },
{
    if block_len > u32::MAX as u64 {
        return Err(DecodeError::BlockLengthTooLarge);
    }
    let mut base = ParsedBodyInfo {
        tx_count: 0,
        field_count: block_len as u32,
        leios_cert: None,
        tx_references_count: None,
    };
    if block_len < 2 {
        return Ok(Inspection { info: base, cert_field: None, tx_refs_field: None });
    }
    let q = match cbor::read_skip(inner, pos) {
        Some(x) => x,
        None => return Err(DecodeError::Malformed),
    };
    let (tx_count, r) = match read_tx_bodies(inner, q) {
        Ok(x) => x,
        Err(e) => return Err(e),
    };
    base.tx_count = tx_count;
    let (base_fields, trailing) = split_fields(block_len);
    let t = match skip_items(inner, r, base_fields) {
        Some(x) => x,
        None => return Err(DecodeError::Malformed),
    };
    inspect_trailing(inner, t, trailing, base)
}

/// The lowercase digit of a number below 16.
pub open spec fn hex_digit(d: int) -> char {
    "0123456789abcdef"@[d]
}

/// The two digits of each byte, in order.
pub open spec fn hex_digits(bytes: Seq<u8>) -> Seq<char>
    decreases bytes.len(),
{
    if bytes.len() == 0 {
        Seq::empty()
    } else {
        hex_digits(bytes.drop_last()) + seq![
            hex_digit(bytes.last() as int / 16),
            hex_digit(bytes.last() as int % 16),
        ]
    }
}

/// The digit of a number below 16, as a string.
fn digit_str(d: u8) -> (digit: &'static str)
    requires
        d < 16,
    ensures
        digit@ == seq![hex_digit(d as int)],
{
    proof {
        reveal_strlit("0123456789abcdef");
        reveal_strlit("0");
        reveal_strlit("1");
        reveal_strlit("2");
        reveal_strlit("3");
        reveal_strlit("4");
        reveal_strlit("5");
        reveal_strlit("6");
        reveal_strlit("7");
        reveal_strlit("8");
        reveal_strlit("9");
        reveal_strlit("a");
        reveal_strlit("b");
        reveal_strlit("c");
        reveal_strlit("d");
        reveal_strlit("e");
        reveal_strlit("f");
    }
    match d {
        0 => "0",
        1 => "1",
        2 => "2",
        3 => "3",
        4 => "4",
        5 => "5",
        6 => "6",
        7 => "7",
        8 => "8",
        9 => "9",
        10 => "a",
        11 => "b",
        12 => "c",
        13 => "d",
        14 => "e",
        _ => "f",
    }
}

/// Formats bytes as lowercase hex.
fn hex_text(bytes: &[u8]) -> (text: String)
    ensures
        text@ == hex_digits(bytes@),
{
    let mut text = String::new();
    let mut i: usize = 0;
    while i < bytes.len()
        invariant
            i <= bytes@.len(),
            text@ == hex_digits(bytes@.take(i as int)),
        decreases bytes@.len() - i,
    {
        proof {
            assert(bytes@.take(i + 1).drop_last() == bytes@.take(i as int));
        }
        text.append(digit_str(bytes[i] / 16));
        text.append(digit_str(bytes[i] % 16));
        i += 1;
    }
    assert(bytes@.take(i as int) == bytes@);
    text
}

/// Formats the first bytes, up to `UNKNOWN_CERT_FIELD_PROBE_BYTES`, as lowercase
/// hex; gives `"none"` where there are no bytes.
pub fn hex_prefix(bytes: Option<&[u8]>) -> (text: String)
    ensures
        text@ == (match bytes {
            Some(b) => hex_digits(probe(b@)),
            None => "none"@,
        }),
{
    match bytes {
        Some(b) => {
            assert(b@.subrange(0, b@.len() as int) =~= b@);
            hex_text(capture_field(b, 0, b.len()).as_slice())
        },
        None => "none".to_string(),
    }
}

/// A count of reports that stops at a budget.
#[derive(Debug, Clone, Copy, PartialEq, Eq)]
pub struct WarnBudget {
    left: usize,
}

impl WarnBudget {
    /// How many reports may still be made.
    pub closed spec fn remaining(self) -> nat {
        self.left as nat
    }

    /// Allows `budget` reports.
    pub fn new(budget: usize) -> (count: Self)
        ensures
            count.remaining() == budget,
    {
        WarnBudget { left: budget }
    }

    /// Whether one more report may be made. It then counts as made.
    pub fn spend(&mut self) -> (ok: bool)
        ensures
            ok <==> old(self).remaining() > 0,
            final(self).remaining() == (if ok {
                old(self).remaining() - 1
            } else {
                0
            }),
    {
        if self.left > 0 {
            self.left -= 1;
            true
        } else {
            false
        }
    }
}

/// The budgets for reports on bodies whose trailing fields have an unknown
/// shape, and on bodies that cannot be read.
#[derive(Debug, Clone, Copy, PartialEq, Eq)]
pub struct WarnBudgets {
    pub shape_mismatch: WarnBudget,
    pub parse_fail: WarnBudget,
}

impl Default for WarnBudgets {
    fn default() -> (budgets: Self)
        ensures
            budgets.shape_mismatch.remaining() == SHAPE_MISMATCH_WARN_BUDGET,
            budgets.parse_fail.remaining() == BODY_PARSE_FAIL_WARN_BUDGET,
    {
        WarnBudgets {
            shape_mismatch: WarnBudget::new(SHAPE_MISMATCH_WARN_BUDGET),
            parse_fail: WarnBudget::new(BODY_PARSE_FAIL_WARN_BUDGET),
        }
    }
}

/// A report on a body.
#[derive(Debug, Clone, PartialEq, Eq)]
pub enum InspectWarning {
    /// A trailing field has an unknown shape: the first bytes of the fields that
    /// do, in hex.
    ShapeMismatch { field_count: u32, cert_field_hex: String, tx_refs_field_hex: String },
    /// The body cannot be read: its size, and its first bytes in hex.
    ParseFailed { body_bytes: usize, error: DecodeError, raw_prefix_hex: String },
}

/// The content of an `InspectWarning`.
pub enum Warning {
    ShapeMismatch { field_count: u32, cert_field_hex: Seq<char>, tx_refs_field_hex: Seq<char> },
    ParseFailed { body_bytes: nat, error: DecodeError, raw_prefix_hex: Seq<char> },
}

impl View for InspectWarning {
    type V = Warning;

    open spec fn view(&self) -> Warning {
        match *self {
            InspectWarning::ShapeMismatch {
                field_count,
                cert_field_hex,
                tx_refs_field_hex,
            } => Warning::ShapeMismatch {
                field_count,
                cert_field_hex: cert_field_hex@,
                tx_refs_field_hex: tx_refs_field_hex@,
            },
            InspectWarning::ParseFailed {
                body_bytes,
                error,
                raw_prefix_hex,
            } => Warning::ParseFailed {
                body_bytes: body_bytes as nat,
                error,
                raw_prefix_hex: raw_prefix_hex@,
            },
        }
    }
}

/// The hex form of a captured field.
pub open spec fn field_hex(field: Option<Seq<u8>>) -> Seq<char> {
    match field {
        Some(bytes) => hex_digits(probe(bytes)),
        None => "none"@,
    }
}

/// The report that findings call for, if any.
pub open spec fn shape_warning(found: Findings) -> Option<Warning> {
    if found.cert_field is None && found.tx_refs_field is None {
        None
    } else {
        Some(
            Warning::ShapeMismatch {
                field_count: found.facts.field_count,
                cert_field_hex: field_hex(found.cert_field),
                tx_refs_field_hex: field_hex(found.tx_refs_field),
            },
        )
    }
}

/// The report on a body that cannot be read.
pub open spec fn parse_warning(raw: Seq<u8>, error: DecodeError) -> Warning {
    Warning::ParseFailed {
        body_bytes: raw.len(),
        error,
        raw_prefix_hex: hex_digits(
            if raw.len() <= BODY_PARSE_FAIL_PROBE_BYTES {
                raw
            } else {
                raw.take(BODY_PARSE_FAIL_PROBE_BYTES as int)
            },
        ),
    }
}

/// Whether `report` is what an inspection reports, and `after` what it leaves of
/// the budgets `before`: a report that is called for is made while its budget
/// lasts, and no other.
pub open spec fn is_reported(
    findings: Result<Findings, DecodeError>,
    raw: Seq<u8>,
    before: WarnBudgets,
    after: WarnBudgets,
    report: Option<InspectWarning>,
) -> bool {
    match findings {
        Ok(found) => {
            let due = shape_warning(found);
            let spent = due is Some && before.shape_mismatch.remaining() > 0;
            &&& after.parse_fail == before.parse_fail
            &&& after.shape_mismatch.remaining() == before.shape_mismatch.remaining() - (if spent {
                1int
            } else {
                0
            })
            &&& match report {
                Some(w) => spent && due == Some(w@),
                None => !spent,
            }
        },
        Err(e) => {
            let spent = before.parse_fail.remaining() > 0;
            &&& after.shape_mismatch == before.shape_mismatch
            &&& after.parse_fail.remaining() == before.parse_fail.remaining() - (if spent {
                1int
            } else {
                0
            })
            &&& match report {
                Some(w) => spent && w@ == parse_warning(raw, e),
                None => !spent,
            }
        },
    }
}

impl Inspection {
    /// The report that the inspection calls for: where a trailing field has an
    /// unknown shape.
    pub fn warning(&self) -> (warning: Option<InspectWarning>)
        ensures
            match warning {
                Some(w) => shape_warning(self@) == Some(w@),
                None => shape_warning(self@) is None,
            },
    {
        if self.cert_field.is_none() && self.tx_refs_field.is_none() {
            return None;
        }
        let cert_field_hex = match &self.cert_field {
            Some(bytes) => hex_prefix(Some(bytes.as_slice())),
            None => hex_prefix(None),
        };
        let tx_refs_field_hex = match &self.tx_refs_field {
            Some(bytes) => hex_prefix(Some(bytes.as_slice())),
            None => hex_prefix(None),
        };
        Some(
            InspectWarning::ShapeMismatch {
                field_count: self.info.field_count,
                cert_field_hex,
                tx_refs_field_hex,
            },
        )
    }
}

/// A full block as raw bytes, the tag wrapper included, with Leios metadata
/// where the block holds a certificate.
#[derive(Debug, Clone, PartialEq, Eq)]
pub struct BlockBody {
    /// Raw bytes of the block.
    pub raw: Vec<u8>,
    /// The metadata; `None` without a certificate, or where the bytes cannot be
    /// read.
    pub leios: Option<LeiosBlockInfo>,
}

/// Whether `res` is what reading a block gives that stands in `input` from
/// `start` to `end`.
pub open spec fn is_decoded_block(
    input: Seq<u8>,
    start: int,
    end: int,
    res: Result<(BlockBody, usize), DecodeError>,
) -> bool {
    if end - start > MAX_BLOCK_SIZE {
        res == Err::<(BlockBody, usize), _>(DecodeError::BlockTooLarge((end - start) as usize))
    } else {
        res matches Ok((body, after)) && after == end && body.raw@ == input.subrange(start, end)
            && body.is_parsed()
    }
}

impl BlockBody {
    /// Whether the metadata is what the raw bytes hold.
    pub open spec fn is_parsed(&self) -> bool {
        match self.leios {
            Some(info) => info.is_read_from(self.raw@),
            None => certificate_bytes(self.raw@) is Err,
        }
    }

    /// A block body from raw bytes, whose Leios metadata is read from them.
    pub fn new(raw: Vec<u8>) -> (body: Self)
        ensures
            body.raw == raw,
            body.is_parsed(),
    {
        let leios = LeiosBlockInfo::parse(raw.as_slice());
        BlockBody { raw, leios }
    }

    /// A block body from raw bytes that are not read.
    pub fn opaque(raw: Vec<u8>) -> (body: Self)
        ensures
            body.raw == raw,
            body.leios is None,
    {
        BlockBody { raw, leios: None }
    }

    /// Cuts the header from the block, in the form that ChainSync sends:
    /// `[era, #6.24(header)]`.
    pub fn try_extract_header(&self) -> (res: Result<Vec<u8>, DecodeError>)
        ensures
            match res {
                Ok(header) => extracted_header(self.raw@) == Ok::<_, DecodeError>(header@),
                Err(e) => extracted_header(self.raw@) == Err::<Seq<u8>, _>(e),
            },
    {
        let (inner, era, p) = match open_envelope(self.raw.as_slice()) {
            Ok(x) => x,
            Err(e) => return Err(e),
        };
        let (_, start) = match cbor::read_array(inner, p) {
            Some(x) => x,
            None => return Err(DecodeError::Malformed),
        };
        let end = match cbor::read_skip(inner, start) {
            Some(x) => x,
            None => return Err(DecodeError::Malformed),
        };
        Ok(wrap_header(era, slice_subrange(inner, start, end)))
    }

    /// The block's header. Byron blocks and bytes that cannot be read give
    /// `None`.
    pub fn header(&self) -> (res: Option<WrappedHeader>)
        ensures
            match res {
                Some(header) => extracted_header(self.raw@) == Ok::<_, DecodeError>(header.raw@)
                    && header.info == header_info(header.raw@),
                None => extracted_header(self.raw@) is Err,
            },
    {
        match self.try_extract_header() {
            Ok(header) => Some(WrappedHeader::new(header)),
            Err(_) => None,
        }
    }

    /// The block's place on the chain: the slot in its header and the header's
    /// hash.
    pub fn try_point(&self) -> (res: Result<Point, DecodeError>)
        ensures
            match extracted_header(self.raw@) {
                Err(e) => res == Err::<Point, _>(e),
                Ok(header) => match res {
                    Ok(point) => header_info(header) is Some && is_header_point(
                        header,
                        Some(point),
                    ),
                    Err(e) => header_info(header) is None && e == DecodeError::UnreadableHeader,
                },
            },
    {
        let header = match self.try_extract_header() {
            Ok(x) => x,
            Err(e) => return Err(e),
        };
        let info = HeaderInfo::parse(header.as_slice());
        match header_point(header.as_slice(), info) {
            Some(point) => Ok(point),
            None => Err(DecodeError::UnreadableHeader),
        }
    }

    /// The block's place on the chain. Byron blocks and bytes that cannot be
    /// read give `None`.
    pub fn point(&self) -> (res: Option<Point>)
        ensures
            match extracted_header(self.raw@) {
                Err(_) => res is None,
                Ok(header) => is_header_point(header, res),
            },
    {
        match self.try_point() {
            Ok(point) => Some(point),
            Err(_) => None,
        }
    }

    /// Inspects a block in one pass.
    ///
    /// The block array is `[header, tx_bodies, tx_witnesses, aux_data,
    /// invalid_txs, ? eb_certificate, ? eb_tx_references]`. The certificate is
    /// reported where the sixth field has its shape, and the number of
    /// references where the seventh is an array with all its elements.
    pub fn try_praos_inspect(&self) -> (res: Result<Inspection, DecodeError>)
        ensures
            match res {
                Ok(found) => body_findings(self.raw@) == Ok::<_, DecodeError>(found@),
                Err(e) => body_findings(self.raw@) == Err::<Findings, _>(e),
            },
    {
        let (inner, _, p) = match open_envelope(self.raw.as_slice()) {
            Ok(x) => x,
            Err(e) => return Err(e),
        };
        let (n, q) = match read_block_fields(inner, p) {
            Ok(x) => x,
            Err(e) => return Err(e),
        };
        inspect_array(inner, q, n)
    }

    /// Inspects a block as far as its bytes allow: all zeros and `None` where
    /// they cannot be read.
    pub fn praos_inspect(&self) -> (info: ParsedBodyInfo)
        ensures
            info@ == (match body_findings(self.raw@) {
                Ok(found) => found.facts,
                Err(_) => empty_body_facts(0),
            }),
    {
        match self.try_praos_inspect() {
            Ok(found) => found.info,
            Err(_) => ParsedBodyInfo::default(),
        }
    }

    /// Like `praos_inspect`, with the report that the body calls for while the
    /// budget for it lasts.
    pub fn praos_inspect_reported(&self, budgets: &mut WarnBudgets) -> (res: (
        ParsedBodyInfo,
        Option<InspectWarning>,
    ))
        ensures
            is_reported(body_findings(self.raw@), self.raw@, *old(budgets), *final(budgets), res.1),
            res.0@ == (match body_findings(self.raw@) {
                Ok(found) => found.facts,
                Err(_) => empty_body_facts(0),
            }),
    {
        match self.try_praos_inspect() {
            Ok(found) => {
                match found.warning() {
                    Some(w) => {
                        if budgets.shape_mismatch.spend() {
                            (found.info, Some(w))
                        } else {
                            (found.info, None)
                        }
                    },
                    None => (found.info, None),
                }
            },
            Err(error) => {
                if budgets.parse_fail.spend() {
                    let take = if self.raw.len() <= BODY_PARSE_FAIL_PROBE_BYTES {
                        self.raw.len()
                    } else {
                        BODY_PARSE_FAIL_PROBE_BYTES
                    };
                    let prefix = slice_subrange(self.raw.as_slice(), 0, take);
                    assert(self.raw@.subrange(0, take as int) == self.raw@.take(take as int));
                    assert(self.raw@.take(self.raw@.len() as int) == self.raw@);
                    let w = InspectWarning::ParseFailed {
                        body_bytes: self.raw.len(),
                        error,
                        raw_prefix_hex: hex_text(prefix),
                    };
                    (ParsedBodyInfo::default(), Some(w))
                } else {
                    (ParsedBodyInfo::default(), None)
                }
            },
        }
    }

    /// Appends the block's raw bytes.
    pub fn encode(&self, out: &mut Vec<u8>)
        ensures
            final(out)@ == old(out)@ + self.raw@,
    {
        out.extend_from_slice(self.raw.as_slice());
    }

    /// Reads a block at `pos` and gives the position after it: one item of any
    /// kind, which may not take more than `MAX_BLOCK_SIZE` bytes.
    pub fn decode(input: &[u8], pos: usize) -> (res: Result<(BlockBody, usize), DecodeError>)
        ensures
            match skip_end(input@, pos as int) {
                None => res == Err::<(BlockBody, usize), _>(DecodeError::Malformed),
                Some(end) => is_decoded_block(input@, pos as int, end, res),
            },
            tagged_bytes_end(input@, pos as int) matches Some(end) ==> is_decoded_block(
                input@,
                pos as int,
                end,
                res,
            ),
    {
        match cbor::read_skip(input, pos) {
            None => Err(DecodeError::Malformed),
            Some(end) => match Self::from_wire_span(input, pos, end) {
                Ok(body) => Ok((body, end)),
                Err(e) => Err(e),
            },
        }
    }

    /// The block that stands in `input` from `start` to `end`.
    pub fn from_wire_span(input: &[u8], start: usize, end: usize) -> (res: Result<
        BlockBody,
        DecodeError,
    >)
        ensures
            if !(start <= end <= input@.len()) {
                res == Err::<BlockBody, _>(DecodeError::Malformed)
            } else if end - start > MAX_BLOCK_SIZE {
                res == Err::<BlockBody, _>(DecodeError::BlockTooLarge((end - start) as usize))
            } else {
                res is Ok && res->Ok_0.raw@ == input@.subrange(start as int, end as int)
                    && res->Ok_0.is_parsed()
            },
    {
        if start > end || end > input.len() {
            return Err(DecodeError::Malformed);
        }
        let len = end - start;
        if len > MAX_BLOCK_SIZE {
            return Err(DecodeError::BlockTooLarge(len));
        }
        Ok(BlockBody::new(slice_to_vec(slice_subrange(input, start, end))))
    }
}

/// The bytes of a block whose content is wrapped in a tag.
pub open spec fn tagged_block_bytes(tag: u64, content: Seq<u8>) -> Seq<u8> {
    head_bytes(MAJOR_TAG, tag) + head_bytes(MAJOR_BYTES, content.len() as u64) + content
}

/// A block that was encoded is read back: wherever the bytes of a tagged block
/// stand, `decode` finds where they end and keeps them as they are.
pub proof fn law_block_round_trip(
    before: Seq<u8>,
    tag: u64,
    content: Seq<u8>,
    after: Seq<u8>,
    res: Result<(BlockBody, usize), DecodeError>,
)
    requires
        content.len() <= u64::MAX,
        tagged_block_bytes(tag, content).len() <= MAX_BLOCK_SIZE,
        tagged_bytes_end(
            before + tagged_block_bytes(tag, content) + after,
            before.len() as int,
        ) matches Some(end) ==> is_decoded_block(
            before + tagged_block_bytes(tag, content) + after,
            before.len() as int,
            end,
            res,
        ),
    ensures
        res matches Ok((body, end)) && body.raw@ == tagged_block_bytes(tag, content) && end
            == before.len() + tagged_block_bytes(tag, content).len(),
{
    let raw = tagged_block_bytes(tag, content);
    let s = before + raw + after;
    let p = before.len() as int;
    let a = head_bytes(MAJOR_TAG, tag);
    let b = head_bytes(MAJOR_BYTES, content.len() as u64) + content;
    let q = p + a.len();
    assert(s.subrange(p, q) =~= a);
    assert(s.subrange(q, q + b.len()) =~= b);
    lemma_head_round_trip(s, p, MAJOR_TAG, tag);
    lemma_bytes_round_trip(s, q, content);
    assert(tagged_bytes_end(s, p) == Some(p + raw.len()));
    assert(s.subrange(p, p + raw.len()) =~= raw);
}

/// The metadata of a block that was made from raw bytes is what `parse` reads
/// from them: both have it or neither, with the same certificate. Metadata never
/// lacks a certificate, and the certificate is a nonempty slice of the raw bytes.
pub proof fn law_block_metadata_is_what_parse_reads(
    body: BlockBody,
    parsed: Option<LeiosBlockInfo>,
)
    requires
        body.is_parsed(),
        match parsed {
            Some(info) => info.is_read_from(body.raw@),
            None => certificate_bytes(body.raw@) is Err,
        },
    ensures
        body.leios is Some <==> parsed is Some,
        body.leios matches Some(info) ==> {
            &&& info.certificate() == parsed->Some_0.certificate()
            &&& info.eb_certificate matches Some(c) && c@.len() > 0 && is_nonempty_slice(
                c@,
                body.raw@,
            )
        },
{
}

/// A block's point is the point of its header: `point` on a block and `point`
/// on the header that `header` gives agree.
pub proof fn law_point_is_header_point(
    raw: Seq<u8>,
    header: WrappedHeader,
    of_block: Option<Point>,
    of_header: Option<Point>,
)
    requires
        extracted_header(raw) == Ok::<_, DecodeError>(header.raw@),
        header.info == header_info(header.raw@),
        is_header_point(header.raw@, of_block),
        is_header_point(header.raw@, of_header),
    ensures
        of_block == of_header,
{
    if header.info is Some {
        assert(of_block->Some_0->Specific_hash =~= of_header->Some_0->Specific_hash);
    }
}

/// The bytes of fields one after another.
pub open spec fn joined(fields: Seq<Seq<u8>>) -> Seq<u8>
    decreases fields.len(),
{
    if fields.len() == 0 {
        Seq::empty()
    } else {
        joined(fields.drop_last()) + fields.last()
    }
}

/// What stands before the fields of a block: the era and the head of the block
/// array.
pub open spec fn block_prelude(era: u32, n: u64) -> Seq<u8> {
    head_bytes(MAJOR_ARRAY, 2) + head_bytes(MAJOR_UNSIGNED, era as u64) + head_bytes(MAJOR_ARRAY, n)
}

/// The content of a block with the given fields.
pub open spec fn block_content(era: u32, fields: Seq<Seq<u8>>) -> Seq<u8> {
    block_prelude(era, fields.len() as u64) + joined(fields)
}

/// Where field `k` of a block starts in its content.
pub open spec fn field_start(era: u32, fields: Seq<Seq<u8>>, k: int) -> int {
    block_prelude(era, fields.len() as u64).len() as int + joined(fields.take(k)).len()
}

/// Whether each of the first `n` fields is one item to the decoder.
pub open spec fn fields_are_items(era: u32, fields: Seq<Seq<u8>>, n: int) -> bool {
    forall|k: int|
        0 <= k < n ==> skip_end(
            block_content(era, fields),
            #[trigger] field_start(era, fields, k),
        ) == Some(field_start(era, fields, k + 1))
}

/// The fields before a field stand before it.
pub proof fn lemma_joined_take(fields: Seq<Seq<u8>>, k: int)
    requires
        0 <= k < fields.len(),
    ensures
        joined(fields.take(k + 1)) == joined(fields.take(k)) + fields[k],
        joined(fields.take(k + 1)).len() <= joined(fields).len(),
        joined(fields).subrange(
            joined(fields.take(k)).len() as int,
            joined(fields.take(k + 1)).len() as int,
        ) == fields[k],
    decreases fields.len(),
{
    assert(fields.take(k + 1).drop_last() =~= fields.take(k));
    let (a, b) = (joined(fields.take(k)), joined(fields.take(k + 1)));
    if k + 1 == fields.len() {
        assert(fields.take(k + 1) =~= fields);
        assert(joined(fields).subrange(a.len() as int, b.len() as int) =~= fields[k]);
    } else {
        let rest = fields.drop_last();
        lemma_joined_take(rest, k);
        assert(rest.take(k) =~= fields.take(k));
        assert(rest.take(k + 1) =~= fields.take(k + 1));
        assert(joined(fields).subrange(a.len() as int, b.len() as int) =~= joined(rest).subrange(
            a.len() as int,
            b.len() as int,
        ));
    }
}

/// What stands under the tag of a block is opened.
proof fn lemma_tagged_content(content: Seq<u8>)
    requires
        content.len() <= u64::MAX,
    ensures
        envelope(tagged_block_bytes(ENCODED_CBOR_TAG, content)) == era_envelope(content),
{
    let raw = tagged_block_bytes(ENCODED_CBOR_TAG, content);
    let t = head_bytes(MAJOR_TAG, ENCODED_CBOR_TAG);
    let b = head_bytes(MAJOR_BYTES, content.len() as u64) + content;
    assert(raw.subrange(0, t.len() as int) =~= t);
    assert(raw.subrange(t.len() as int, t.len() as int + b.len()) =~= b);
    lemma_head_round_trip(raw, 0, MAJOR_TAG, ENCODED_CBOR_TAG);
    lemma_bytes_round_trip(raw, t.len() as int, content);
}

/// What is found in front of the fields of a block.
proof fn lemma_block_prelude(era: u32, fields: Seq<Seq<u8>>)
    requires
        era >= FIRST_SHELLEY_ERA,
        fields.len() <= u64::MAX,
        block_content(era, fields).len() <= u64::MAX,
    ensures
        ({
            let content = block_content(era, fields);
            match envelope(tagged_block_bytes(ENCODED_CBOR_TAG, content)) {
                Ok((inner, found_era, p)) => {
                    &&& inner == content
                    &&& found_era == era
                    &&& container_at(content, p, MAJOR_ARRAY) == Some(
                        (Some(fields.len() as u64), field_start(era, fields, 0)),
                    )
                },
                Err(_) => false,
            }
        }),
{
    let content = block_content(era, fields);
    lemma_tagged_content(content);
    let (x, y, z) = (
        head_bytes(MAJOR_ARRAY, 2),
        head_bytes(MAJOR_UNSIGNED, era as u64),
        head_bytes(MAJOR_ARRAY, fields.len() as u64),
    );
    let (p, q) = (x.len() as int, (x.len() + y.len()) as int);
    assert(content.subrange(0, p) =~= x);
    assert(content.subrange(p, q) =~= y);
    assert(content.subrange(q, q + z.len()) =~= z);
    lemma_head_round_trip(content, 0, MAJOR_ARRAY, 2);
    lemma_head_round_trip(content, p, MAJOR_UNSIGNED, era as u64);
    lemma_head_round_trip(content, q, MAJOR_ARRAY, fields.len() as u64);
    assert(fields.take(0) =~= Seq::<Seq<u8>>::empty());
    assert(field_start(era, fields, 0) == q + z.len());
}

/// Skipping `n` fields leads to the next.
proof fn lemma_skip_fields(era: u32, fields: Seq<Seq<u8>>, k: int, n: nat)
    requires
        0 <= k,
        fields_are_items(era, fields, k + n),
    ensures
        skip_many(block_content(era, fields), field_start(era, fields, k), n) == Some(
            field_start(era, fields, k + n),
        ),
    decreases n,
{
    if n > 0 {
        lemma_skip_fields(era, fields, k + 1, (n - 1) as nat);
        assert(skip_end(block_content(era, fields), field_start(era, fields, k)) == Some(
            field_start(era, fields, k + 1),
        ));
    }
}

/// A field stands where it starts.
proof fn lemma_field_bytes(era: u32, fields: Seq<Seq<u8>>, k: int)
    requires
        0 <= k < fields.len(),
    ensures
        block_content(era, fields).subrange(
            field_start(era, fields, k),
            field_start(era, fields, k + 1),
        ) == fields[k],
{
    lemma_joined_take(fields, k);
    let prelude = block_prelude(era, fields.len() as u64);
    let (a, b) = (joined(fields.take(k)).len() as int, joined(fields.take(k + 1)).len() as int);
    assert(block_content(era, fields).subrange(prelude.len() + a, prelude.len() + b) =~= joined(
        fields,
    ).subrange(a, b));
}

/// The header and the certificate of a block are found in it as they are: the
/// header is the first field, and the certificate the one after the base fields.
/// A block with the base fields alone has no certificate. This holds of every
/// block of the Shelley layout whose fields are items to the decoder.
pub proof fn law_block_fields_are_read_back(era: u32, fields: Seq<Seq<u8>>)
    requires
        era >= FIRST_SHELLEY_ERA,
        0 < fields.len() <= u64::MAX,
        block_content(era, fields).len() <= u64::MAX,
        fields_are_items(
            era,
            fields,
            if fields.len() <= BLOCK_BASE_FIELDS {
                fields.len() as int
            } else {
                BLOCK_BASE_FIELDS + 1
            },
        ),
    ensures
        ({
            let raw = tagged_block_bytes(ENCODED_CBOR_TAG, block_content(era, fields));
            &&& extracted_header(raw) == Ok::<_, DecodeError>(wrapped_header_bytes(era, fields[0]))
            &&& certificate_bytes(raw) == (if fields.len() <= BLOCK_BASE_FIELDS {
                Err(DecodeError::NoLeiosExtension)
            } else {
                Ok(fields[BLOCK_BASE_FIELDS as int])
            })
        }),
{
    lemma_block_prelude(era, fields);
    assert(skip_end(block_content(era, fields), field_start(era, fields, 0)) == Some(
        field_start(era, fields, 1),
    ));
    lemma_field_bytes(era, fields, 0);
    if fields.len() > BLOCK_BASE_FIELDS {
        let k = BLOCK_BASE_FIELDS as int;
        lemma_skip_fields(era, fields, 0, BLOCK_BASE_FIELDS as nat);
        assert(skip_end(block_content(era, fields), field_start(era, fields, k)) == Some(
            field_start(era, fields, k + 1),
        ));
        lemma_field_bytes(era, fields, k);
    }
}

/// What an inspection finds of a block is what the block was made of: the number
/// of its fields, and the number of its transaction bodies as the second field
/// says. A block of base fields alone has neither a certificate nor references.
pub proof fn law_inspection_counts_what_is_there(
    era: u32,
    fields: Seq<Seq<u8>>,
    tx_count: u32,
    found: Findings,
)
    requires
        era >= FIRST_SHELLEY_ERA,
        2 <= fields.len() <= u64::MAX,
        block_content(era, fields).len() <= u64::MAX,
        fields_are_items(era, fields, 1),
        head_bytes(MAJOR_ARRAY, tx_count as u64).is_prefix_of(fields[1]),
        body_findings(tagged_block_bytes(ENCODED_CBOR_TAG, block_content(era, fields))) == Ok::<
            _,
            DecodeError,
        >(found),
    ensures
        found.facts.field_count == fields.len(),
        found.facts.tx_count == tx_count,
        fields.len() <= 5 ==> found.facts.leios_cert is None
            && found.facts.tx_references_count is None,
{
    let content = block_content(era, fields);
    let q = field_start(era, fields, 1);
    lemma_findings_of_content(era, fields);
    assert(skip_end(content, field_start(era, fields, 0)) == Some(q));
    lemma_field_prefix(era, fields, 1, head_bytes(MAJOR_ARRAY, tx_count as u64));
    lemma_head_round_trip(content, q, MAJOR_ARRAY, tx_count as u64);
    assert(container_at(content, q, MAJOR_ARRAY)->Some_0.0 == Some(tx_count as u64));
    assert(tx_bodies_at(content, q) matches Ok((n, _)) ==> n == tx_count);
}

/// The findings in a block are those in its array of fields.
proof fn lemma_findings_of_content(era: u32, fields: Seq<Seq<u8>>)
    requires
        era >= FIRST_SHELLEY_ERA,
        fields.len() <= u64::MAX,
        block_content(era, fields).len() <= u64::MAX,
    ensures
        body_findings(tagged_block_bytes(ENCODED_CBOR_TAG, block_content(era, fields)))
            == array_findings(
            block_content(era, fields),
            field_start(era, fields, 0),
            fields.len() as u64,
        ),
{
    lemma_block_prelude(era, fields);
}

/// What a field begins with stands where the field starts.
proof fn lemma_field_prefix(era: u32, fields: Seq<Seq<u8>>, k: int, prefix: Seq<u8>)
    requires
        0 <= k < fields.len(),
        prefix.is_prefix_of(fields[k]),
    ensures
        ({
            let start = field_start(era, fields, k);
            &&& 0 <= start
            &&& start + prefix.len() <= block_content(era, fields).len()
            &&& block_content(era, fields).subrange(start, start + prefix.len()) == prefix
        }),
{
    let content = block_content(era, fields);
    let (start, end) = (field_start(era, fields, k), field_start(era, fields, k + 1));
    lemma_field_bytes(era, fields, k);
    lemma_field_in_content(era, fields, k);
    assert(content.subrange(start, start + prefix.len()) =~= content.subrange(start, end).subrange(
        0,
        prefix.len() as int,
    ));
}

/// How a certificate begins: its slot and its hash.
pub open spec fn cert_head_bytes(slot: u64, hash: Seq<u8>) -> Seq<u8> {
    head_bytes(MAJOR_ARRAY, 4) + head_bytes(MAJOR_UNSIGNED, slot) + (head_bytes(
        MAJOR_BYTES,
        hash.len() as u64,
    ) + hash)
}

/// A certificate in the first trailing field is found, with the slot and the
/// hash that it holds, where the fields before it are items to the decoder and
/// two more items follow the hash.
pub proof fn law_inspection_finds_certificate(
    era: u32,
    fields: Seq<Seq<u8>>,
    tx_count: u32,
    slot: u64,
    hash: Seq<u8>,
    found: Findings,
)
    requires
        era >= FIRST_SHELLEY_ERA,
        6 <= fields.len() <= u64::MAX,
        block_content(era, fields).len() <= u64::MAX,
        fields_are_items(era, fields, 5),
        tx_bodies_at(block_content(era, fields), field_start(era, fields, 1)) == Ok::<
            _,
            DecodeError,
        >((tx_count, field_start(era, fields, 2))),
        hash.len() == 32,
        cert_head_bytes(slot, hash).is_prefix_of(fields[5]),
        skip_many(
            block_content(era, fields),
            field_start(era, fields, 5) + cert_head_bytes(slot, hash).len(),
            2,
        ) is Some,
        body_findings(tagged_block_bytes(ENCODED_CBOR_TAG, block_content(era, fields))) == Ok::<
            _,
            DecodeError,
        >(found),
    ensures
        found.facts.leios_cert == Some((slot, hash)),
        found.cert_field is None,
{
    let content = block_content(era, fields);
    let t = field_start(era, fields, 5);
    lemma_findings_of_content(era, fields);
    assert(skip_end(content, field_start(era, fields, 0)) == Some(field_start(era, fields, 1)));
    lemma_skip_fields(era, fields, 2, 3);
    lemma_field_prefix(era, fields, 5, cert_head_bytes(slot, hash));
    lemma_cert_head(content, t, slot, hash);
    let facts = BodyFacts { tx_count, ..empty_body_facts(fields.len() as u32) };
    let trailing = field_split(fields.len() as u64).1;
    assert(array_findings(content, field_start(era, fields, 0), fields.len() as u64)
        == trailing_findings(content, t, trailing, facts));
    assert(cert_field(content, t) matches Ok((Probed::Matched(c), _)) && c == (slot, hash));
}

/// A certificate that begins with a slot and a hash is read as such.
proof fn lemma_cert_head(s: Seq<u8>, t: int, slot: u64, hash: Seq<u8>)
    requires
        0 <= t,
        hash.len() == 32,
        t + cert_head_bytes(slot, hash).len() <= s.len(),
        s.subrange(t, t + cert_head_bytes(slot, hash).len()) == cert_head_bytes(slot, hash),
    ensures
        cert_head_at(s, t) == Some(((slot, hash), t + cert_head_bytes(slot, hash).len())),
{
    let (a, b) = (head_bytes(MAJOR_ARRAY, 4), head_bytes(MAJOR_UNSIGNED, slot));
    let c = head_bytes(MAJOR_BYTES, hash.len() as u64) + hash;
    let head = cert_head_bytes(slot, hash);
    let (p, q) = (a.len() as int, (a.len() + b.len()) as int);
    let whole = s.subrange(t, t + head.len());
    assert(s.subrange(t, t + p) =~= whole.subrange(0, p));
    assert(head.subrange(0, p) =~= a);
    assert(s.subrange(t + p, t + q) =~= whole.subrange(p, q));
    assert(head.subrange(p, q) =~= b);
    assert(s.subrange(t + q, t + q + c.len()) =~= whole.subrange(q, head.len() as int));
    assert(head.subrange(q, head.len() as int) =~= c);
    lemma_head_round_trip(s, t, MAJOR_ARRAY, 4);
    lemma_head_round_trip(s, t + p, MAJOR_UNSIGNED, slot);
    lemma_bytes_round_trip(s, t + q, hash);
}

/// A field ends within the content.
proof fn lemma_field_in_content(era: u32, fields: Seq<Seq<u8>>, k: int)
    requires
        0 <= k < fields.len(),
    ensures
        field_start(era, fields, k) + fields[k].len() == field_start(era, fields, k + 1),
        field_start(era, fields, k + 1) <= block_content(era, fields).len(),
{
    lemma_joined_take(fields, k);
}

/// An inspection accounts for every field: the header, the transaction bodies,
/// up to three more base fields, and the rest as trailing. Five fields leave
/// none trailing, six one and seven two.
pub proof fn law_every_field_is_accounted_for(block_len: u64)
    requires
        block_len >= 2,
    ensures
        2 + field_split(block_len).0 + field_split(block_len).1 == block_len,
        field_split(block_len).0 <= 3,
        field_split(block_len).1 > 0 <==> block_len > 5,
        block_len == 6 ==> field_split(block_len).1 == 1,
        block_len == 7 ==> field_split(block_len).1 == 2,
{
}

} // verus!
