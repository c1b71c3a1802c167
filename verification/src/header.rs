//! Era-tagged block headers.
//!
//! On the wire a header is `[era, #6.24(bytes)]`, where the bytes hold
//! `[header_body, signature]` and the header body starts with the block number
//! and the slot.

use crate::cbor;
use crate::cbor::{
    bytes_at, container_at, head_bytes, lemma_bytes_round_trip, lemma_head_round_trip, tag_at,
    u32_at, u64_at, MAJOR_ARRAY, MAJOR_BYTES, MAJOR_TAG, MAJOR_UNSIGNED,
};
use crate::types::Point;
use blake2::digest::consts::U32;
use blake2::{Blake2b, Digest};
use vstd::prelude::*;

verus! {

/// The tag of a byte string that holds CBOR.
pub const ENCODED_CBOR_TAG: u64 = 24;

/// The first era whose blocks and headers have the Shelley layout.
pub const FIRST_SHELLEY_ERA: u32 = 2;

/// The 32-byte Blake2b digest of `data`.
pub uninterp spec fn blake2b_256_digest(data: Seq<u8>) -> Seq<u8>;

/// `blake2::Blake2b::digest` with 32 bytes of output: a function of `data`
/// alone, under the name `blake2b_256_digest`.
#[verifier::external_body]
fn digest_32(data: &[u8]) -> (hash: [u8; 32])
    ensures
        hash@ == blake2b_256_digest(data@),
{
    Blake2b::<U32>::digest(data).into()
}

/// The Blake2b-256 digest of `data`.
pub fn blake2b_256(data: &[u8]) -> (hash: [u8; 32])
    ensures
        hash@ == blake2b_256_digest(data@),
{
    digest_32(data)
}

/// The leading fields of a Shelley-layout header.
#[derive(Debug, Clone, Copy, PartialEq, Eq)]
pub struct HeaderInfo {
    pub era: u32,
    pub block_number: u64,
    pub slot: u64,
}

/// The leading fields of the header `[era, #6.24(bytes)]`, or `None` for a
/// Byron header and for bytes of any other shape.
pub open spec fn header_info(raw: Seq<u8>) -> Option<HeaderInfo> {
    match wrapped_header(raw) {
        Some((era, inner)) => match header_numbers(inner) {
            Some((block_number, slot)) => Some(HeaderInfo { era, block_number, slot }),
            None => None,
        },
        None => None,
    }
}

/// The era and the inner bytes of a header in the Shelley layout.
pub open spec fn wrapped_header(raw: Seq<u8>) -> Option<(u32, Seq<u8>)> {
    match container_at(raw, 0, MAJOR_ARRAY) {
        Some((_, p)) => match u32_at(raw, p) {
            Some((era, q)) => match tag_at(raw, q) {
                Some((tag, r)) => match bytes_at(raw, r) {
                    Some((inner, _)) => if era >= FIRST_SHELLEY_ERA && tag == ENCODED_CBOR_TAG {
                        Some((era, inner))
                    } else {
                        None
                    },
                    None => None,
                },
                None => None,
            },
            None => None,
        },
        None => None,
    }
}

/// The block number and the slot at the start of `[header_body, signature]`.
pub open spec fn header_numbers(inner: Seq<u8>) -> Option<(u64, u64)> {
    match container_at(inner, 0, MAJOR_ARRAY) {
        Some((_, p)) => match container_at(inner, p, MAJOR_ARRAY) {
            Some((_, q)) => match u64_at(inner, q) {
                Some((block_number, r)) => match u64_at(inner, r) {
                    Some((slot, _)) => Some((block_number, slot)),
                    None => None,
                },
                None => None,
            },
            None => None,
        },
        None => None,
    }
}

impl HeaderInfo {
    /// Reads the leading fields of a header. Anything but a Shelley-layout
    /// header gives `None`.
    pub fn parse(raw: &[u8]) -> (res: Option<HeaderInfo>)
        ensures
            res == header_info(raw@),
    {
        let (_, p) = cbor::read_array(raw, 0)?;
        let (era, q) = cbor::read_u32(raw, p)?;
        let (tag, r) = cbor::read_tag(raw, q)?;
        let (inner, _) = cbor::read_bytes(raw, r)?;
        if era < FIRST_SHELLEY_ERA || tag != ENCODED_CBOR_TAG {
            return None;
        }
        let (_, p) = cbor::read_array(inner, 0)?;
        let (_, q) = cbor::read_array(inner, p)?;
        let (block_number, r) = cbor::read_u64(inner, q)?;
        let (slot, _) = cbor::read_u64(inner, r)?;
        Some(HeaderInfo { era, block_number, slot })
    }
}

/// The hash by which a header is known: the Blake2b-256 digest of its wire
/// bytes.
pub fn header_hash(raw: &[u8]) -> (hash: [u8; 32])
    ensures
        hash@ == blake2b_256_digest(raw@),
{
    blake2b_256(raw)
}

/// Whether `point` is the position of the header `raw`: its slot and hash where
/// the header can be read, and nothing where it cannot.
pub open spec fn is_header_point(raw: Seq<u8>, point: Option<Point>) -> bool {
    match header_info(raw) {
        Some(info) => point matches Some(Point::Specific { slot, hash }) && slot == info.slot
            && hash@ == blake2b_256_digest(raw),
        None => point is None,
    }
}

/// The position of the header with the given wire bytes and leading fields.
pub fn header_point(raw: &[u8], info: Option<HeaderInfo>) -> (res: Option<Point>)
    ensures
        match info {
            Some(i) => res matches Some(Point::Specific { slot, hash }) && slot == i.slot && hash@
                == blake2b_256_digest(raw@),
            None => res is None,
        },
{
    match info {
        Some(info) => Some(Point::Specific { slot: info.slot, hash: header_hash(raw) }),
        None => None,
    }
}

/// A header's wire bytes, with its leading fields where they could be read.
#[derive(Debug, Clone, PartialEq, Eq)]
pub struct WrappedHeader {
    pub raw: Vec<u8>,
    pub info: Option<HeaderInfo>,
}

impl WrappedHeader {
    /// A header from its wire bytes, read as far as they allow.
    pub fn new(raw: Vec<u8>) -> (header: WrappedHeader)
        ensures
            header.raw == raw,
            header.info == header_info(raw@),
    {
        let info = HeaderInfo::parse(raw.as_slice());
        WrappedHeader { raw, info }
    }

    /// A header from its wire bytes, unread.
    pub fn opaque(raw: Vec<u8>) -> (header: WrappedHeader)
        ensures
            header.raw == raw,
            header.info is None,
    {
        WrappedHeader { raw, info: None }
    }

    /// The position that the header names: the slot that was read from it and
    /// the hash of its wire bytes.
    pub fn point(&self) -> (res: Option<Point>)
        ensures
            match self.info {
                Some(info) => res matches Some(Point::Specific { slot, hash }) && slot == info.slot
                    && hash@ == blake2b_256_digest(self.raw@),
                None => res is None,
            },
    {
        header_point(self.raw.as_slice(), self.info)
    }
}

/// The wire form of a header: `[era, #6.24(header)]`.
pub open spec fn wrapped_header_bytes(era: u32, header: Seq<u8>) -> Seq<u8> {
    head_bytes(MAJOR_ARRAY, 2) + head_bytes(MAJOR_UNSIGNED, era as u64) + head_bytes(
        MAJOR_TAG,
        ENCODED_CBOR_TAG,
    ) + head_bytes(MAJOR_BYTES, header.len() as u64) + header
}

/// Wraps a header that was cut from a block in its wire form.
pub fn wrap_header(era: u32, header: &[u8]) -> (raw: Vec<u8>)
    ensures
        raw@ == wrapped_header_bytes(era, header@),
{
    let mut raw: Vec<u8> = Vec::new();
    cbor::put_array(&mut raw, 2);
    cbor::put_u32(&mut raw, era);
    cbor::put_tag(&mut raw, ENCODED_CBOR_TAG);
    cbor::put_bytes(&mut raw, header);
    assert(raw@ =~= wrapped_header_bytes(era, header@));
    raw
}

/// Unwrapping gives back the era and the header bytes that were wrapped, so a
/// wrapped header is read as the header that it holds.
pub proof fn law_wrap_round_trip(era: u32, header: Seq<u8>)
    requires
        era >= FIRST_SHELLEY_ERA,
        header.len() <= u64::MAX,
    ensures
        wrapped_header(wrapped_header_bytes(era, header)) == Some((era, header)),
        header_info(wrapped_header_bytes(era, header)) == (match header_numbers(header) {
            Some((block_number, slot)) => Some(HeaderInfo { era, block_number, slot }),
            None => None,
        }),
{
    let s = wrapped_header_bytes(era, header);
    let a = head_bytes(MAJOR_ARRAY, 2);
    let b = head_bytes(MAJOR_UNSIGNED, era as u64);
    let c = head_bytes(MAJOR_TAG, ENCODED_CBOR_TAG);
    let d = head_bytes(MAJOR_BYTES, header.len() as u64) + header;
    let p = a.len() as int;
    let q = p + b.len();
    let r = q + c.len();
    assert(s.subrange(0, p) =~= a);
    assert(s.subrange(p, q) =~= b);
    assert(s.subrange(q, r) =~= c);
    assert(s.subrange(r, r + d.len()) =~= d);
    lemma_head_round_trip(s, 0, MAJOR_ARRAY, 2);
    lemma_head_round_trip(s, p, MAJOR_UNSIGNED, era as u64);
    lemma_head_round_trip(s, q, MAJOR_TAG, ENCODED_CBOR_TAG);
    lemma_bytes_round_trip(s, r, header);
}

} // verus!
