//! Endorser-block manifests.
//!
//! An endorser block is a CBOR map from 32-byte transaction hashes to
//! transaction sizes. The producer writes it from its mempool and hashes the
//! bytes to get the block's key. Consumers read back the hashes in wire order,
//! which indexes request bitmaps, and leave the sizes alone.

use crate::cbor;
use crate::cbor::{
    break_at, bytes_at, container_at, head_bytes, lemma_bytes_round_trip, lemma_head_round_trip,
    type_known_at, u32_at, MAJOR_BYTES, MAJOR_MAP, MAJOR_UNSIGNED,
};
use crate::types::{hash_from_slice, TxId};
use vstd::prelude::*;

verus! {

/// The hash of the manifest entry at `p`, with the position after the entry: a
/// byte string of 32 bytes, then a size that fits in 32 bits.
pub open spec fn entry_at(s: Seq<u8>, p: int) -> Option<(Seq<u8>, int)> {
    match bytes_at(s, p) {
        Some((hash, q)) => if hash.len() == 32 {
            match u32_at(s, q) {
                Some((_, end)) => Some((hash, end)),
                None => None,
            }
        } else {
            None
        },
        None => None,
    }
}

/// The hashes of the `n` entries from `p` on.
pub open spec fn entries_at(s: Seq<u8>, p: int, n: nat) -> Option<Seq<Seq<u8>>>
    decreases n,
{
    if n == 0 {
        Some(Seq::empty())
    } else {
        match entry_at(s, p) {
            Some((hash, q)) => prepend(seq![hash], entries_at(s, q, (n - 1) as nat)),
            None => None,
        }
    }
}

/// The hashes of the entries from `p` up to a break byte.
pub open spec fn open_entries_at(s: Seq<u8>, p: int) -> Option<Seq<Seq<u8>>>
    decreases s.len() - p,
{
    if !type_known_at(s, p) {
        None
    } else if break_at(s, p) {
        Some(Seq::empty())
    } else {
        match entry_at(s, p) {
            Some((hash, q)) => prepend(seq![hash], open_entries_at(s, q)),
            None => None,
        }
    }
}

/// `hashes` followed by `rest`, where there is a rest.
pub open spec fn prepend(hashes: Seq<Seq<u8>>, rest: Option<Seq<Seq<u8>>>) -> Option<
    Seq<Seq<u8>>,
> {
    match rest {
        Some(tail) => Some(hashes + tail),
        None => None,
    }
}

/// The transaction hashes that a manifest refers to, in wire order; `None`
/// where `blob` does not start with a manifest map.
pub open spec fn manifest_hashes(blob: Seq<u8>) -> Option<Seq<Seq<u8>>> {
    match container_at(blob, 0, MAJOR_MAP) {
        Some((Some(n), p)) => entries_at(blob, p, n as nat),
        Some((None, p)) => open_entries_at(blob, p),
        None => None,
    }
}

/// The views of some transaction identifiers.
pub open spec fn hashes_of(ids: Seq<TxId>) -> Seq<Seq<u8>> {
    ids.map_values(|id: TxId| id@)
}

/// One manifest entry with size zero.
pub open spec fn entry_bytes(hash: Seq<u8>) -> Seq<u8> {
    head_bytes(MAJOR_BYTES, hash.len() as u64) + hash + head_bytes(MAJOR_UNSIGNED, 0)
}

/// The entries of the given hashes, one after the other.
pub open spec fn entries_bytes(hashes: Seq<Seq<u8>>) -> Seq<u8>
    decreases hashes.len(),
{
    if hashes.len() == 0 {
        Seq::empty()
    } else {
        entries_bytes(hashes.drop_last()) + entry_bytes(hashes.last())
    }
}

/// The manifest map of the given hashes, each with size zero.
pub open spec fn manifest_bytes(hashes: Seq<Seq<u8>>) -> Seq<u8> {
    head_bytes(MAJOR_MAP, hashes.len() as u64) + entries_bytes(hashes)
}

/// Reads the manifest entry at `pos`.
fn read_entry(blob: &[u8], pos: usize) -> (res: Option<(TxId, usize)>)
    ensures
        match res {
            Some((id, end)) => entry_at(blob@, pos as int) == Some((id@, end as int)) && pos < end
                <= blob@.len(),
            None => entry_at(blob@, pos as int) is None,
        },
{
    let (bytes, after_hash) = cbor::read_bytes(blob, pos)?;
    if bytes.len() != 32 {
        return None;
    }
    let (_, end) = cbor::read_u32(blob, after_hash)?;
    Some((TxId::new_with_array(hash_from_slice(bytes)), end))
}

/// Decodes a manifest map and returns the transaction hashes that it refers
/// to, in wire order.
///
/// Returns `None` where the blob is not a well-formed manifest map, with
/// 32-byte keys and integer values. Sizes are ignored.
pub fn decode_overflow_eb(blob: &[u8]) -> (res: Option<Vec<TxId>>)
    ensures
        match res {
            Some(ids) => manifest_hashes(blob@) == Some(hashes_of(ids@)),
            None => manifest_hashes(blob@) is None,
        },
{
    let (entries, start) = cbor::read_map(blob, 0)?;
    let mut hashes: Vec<TxId> = Vec::new();
    let mut pos: usize = start;
    assert(hashes_of(hashes@) =~= Seq::empty());
    match entries {
        Some(n) => {
            let mut left: u64 = n;
            assert(prepend(hashes_of(hashes@), entries_at(blob@, pos as int, left as nat))
                =~= entries_at(blob@, pos as int, left as nat));
            while left > 0
                invariant
                    manifest_hashes(blob@) == prepend(
                        hashes_of(hashes@),
                        entries_at(blob@, pos as int, left as nat),
                    ),
                decreases left,
            {
                let (id, end) = read_entry(blob, pos)?;
                let ghost before = hashes_of(hashes@);
                hashes.push(id);
                assert(hashes_of(hashes@) =~= before + seq![id@]);
                left -= 1;
                proof {
                    if let Some(tail) = entries_at(blob@, end as int, left as nat) {
                        assert(before + (seq![id@] + tail) =~= before + seq![id@] + tail);
                    }
                }
                pos = end;
            }
            assert(hashes_of(hashes@) + Seq::empty() =~= hashes_of(hashes@));
        },
        None => {
            assert(prepend(hashes_of(hashes@), open_entries_at(blob@, pos as int))
                =~= open_entries_at(blob@, pos as int));
            loop
                invariant
                    manifest_hashes(blob@) == prepend(
                        hashes_of(hashes@),
                        open_entries_at(blob@, pos as int),
                    ),
                ensures
                    manifest_hashes(blob@) == Some(hashes_of(hashes@)),
                decreases blob@.len() - pos,
            {
                if cbor::read_is_break(blob, pos)? {
                    assert(hashes_of(hashes@) + Seq::empty() =~= hashes_of(hashes@));
                    break;
                }
                let (id, end) = read_entry(blob, pos)?;
                let ghost before = hashes_of(hashes@);
                hashes.push(id);
                assert(hashes_of(hashes@) =~= before + seq![id@]);
                proof {
                    if let Some(tail) = open_entries_at(blob@, end as int) {
                        assert(before + (seq![id@] + tail) =~= before + seq![id@] + tail);
                    }
                }
                pos = end;
            }
        },
    }
    Some(hashes)
}

/// Encodes an endorser-block manifest. Sizes are zero, and the order of the
/// hashes is kept.
pub fn encode_overflow_eb(manifest: &[TxId]) -> (data: Vec<u8>)
    ensures
        data@ == manifest_bytes(hashes_of(manifest@)),
{
    let mut data: Vec<u8> = Vec::new();
    cbor::put_map(&mut data, manifest.len() as u64);
    let mut i: usize = 0;
    assert(hashes_of(manifest@).take(0) =~= Seq::empty());
    while i < manifest.len()
        invariant
            i <= manifest@.len(),
            data@ == head_bytes(MAJOR_MAP, manifest@.len() as u64) + entries_bytes(
                hashes_of(manifest@).take(i as int),
            ),
        decreases manifest@.len() - i,
    {
        let ghost before = data@;
        cbor::put_bytes(&mut data, manifest[i].get_bytes());
        cbor::put_u32(&mut data, 0);
        proof {
            let upto = hashes_of(manifest@).take(i + 1);
            assert(upto.drop_last() =~= hashes_of(manifest@).take(i as int));
            assert(upto.last() == manifest@[i as int]@);
            assert(data@ =~= before + entry_bytes(upto.last()));
            assert(data@ =~= head_bytes(MAJOR_MAP, manifest@.len() as u64) + entries_bytes(upto));
        }
        i += 1;
    }
    assert(hashes_of(manifest@).take(i as int) =~= hashes_of(manifest@));
    data
}

/// The entries of `hashes`, cut in two after the first `i` of them.
proof fn lemma_entries_bytes_split(hashes: Seq<Seq<u8>>, i: int)
    requires
        0 <= i < hashes.len(),
    ensures
        ({
            let start = entries_bytes(hashes.take(i));
            let upto = start + entry_bytes(hashes[i]);
            &&& entries_bytes(hashes.take(i + 1)) == upto
            &&& upto.len() <= entries_bytes(hashes).len()
            &&& entries_bytes(hashes).take(upto.len() as int) == upto
        }),
    decreases hashes.len(),
{
    assert(hashes.take(i + 1).drop_last() =~= hashes.take(i));
    assert(hashes.take(i + 1).last() == hashes[i]);
    let upto = entries_bytes(hashes.take(i)) + entry_bytes(hashes[i]);
    if i + 1 == hashes.len() {
        assert(hashes.take(i + 1) =~= hashes);
        assert(upto.take(upto.len() as int) =~= upto);
    } else {
        let shorter = hashes.drop_last();
        lemma_entries_bytes_split(shorter, i);
        assert(shorter.take(i) =~= hashes.take(i));
        assert(shorter.take(i + 1) =~= hashes.take(i + 1));
        assert(entries_bytes(hashes).take(upto.len() as int) =~= entries_bytes(shorter).take(
            upto.len() as int,
        ));
    }
}

/// The entries from the `i`-th on are read back from the bytes that were
/// written for them.
proof fn lemma_entries_round_trip(hashes: Seq<Seq<u8>>, s: Seq<u8>, start: int, i: int)
    requires
        forall|j: int| 0 <= j < hashes.len() ==> (#[trigger] hashes[j]).len() == 32,
        0 <= i <= hashes.len(),
        0 <= start,
        start + entries_bytes(hashes).len() <= s.len(),
        s.subrange(start, start + entries_bytes(hashes).len()) == entries_bytes(hashes),
    ensures
        entries_at(
            s,
            start + entries_bytes(hashes.take(i)).len(),
            (hashes.len() - i) as nat,
        ) == Some(hashes.skip(i)),
    decreases hashes.len() - i,
{
    if i == hashes.len() {
        assert(hashes.skip(i) =~= Seq::empty());
    } else {
        let all = entries_bytes(hashes);
        let before = entries_bytes(hashes.take(i));
        let hash = hashes[i];
        let key = head_bytes(MAJOR_BYTES, 32) + hash;
        let zero = head_bytes(MAJOR_UNSIGNED, 0);
        let p = start + before.len();
        lemma_entries_bytes_split(hashes, i);
        let upto = before + entry_bytes(hash);
        assert(s.subrange(p, p + key.len()) =~= key) by {
            assert forall|k: int| 0 <= k < key.len() implies s[p + k] == key[k] by {
                assert(s[p + k] == s.subrange(start, start + all.len())[before.len() + k]);
                assert(all[before.len() + k] == all.take(upto.len() as int)[before.len() + k]);
                assert(upto[before.len() + k] == entry_bytes(hash)[k]);
            }
        }
        lemma_bytes_round_trip(s, p, hash);
        let q = p + key.len();
        assert(s.subrange(q, q + zero.len()) =~= zero) by {
            assert forall|k: int| 0 <= k < zero.len() implies s[q + k] == zero[k] by {
                let at = before.len() + key.len() + k;
                assert(s[q + k] == s.subrange(start, start + all.len())[at]);
                assert(all[at] == all.take(upto.len() as int)[at]);
                assert(upto[at] == entry_bytes(hash)[key.len() + k]);
            }
        }
        lemma_head_round_trip(s, q, MAJOR_UNSIGNED, 0);
        lemma_entries_round_trip(hashes, s, start, i + 1);
        assert(hashes.skip(i) =~= seq![hash] + hashes.skip(i + 1));
    }
}

/// Decoding gives back what was encoded: the hashes of a manifest are read,
/// in order, from its bytes and from any bytes that start with them.
pub proof fn law_manifest_round_trip(hashes: Seq<Seq<u8>>, rest: Seq<u8>)
    requires
        hashes.len() <= u64::MAX,
        forall|i: int| 0 <= i < hashes.len() ==> (#[trigger] hashes[i]).len() == 32,
    ensures
        manifest_hashes(manifest_bytes(hashes) + rest) == Some(hashes),
{
    let head = head_bytes(MAJOR_MAP, hashes.len() as u64);
    let entries = entries_bytes(hashes);
    let s = manifest_bytes(hashes) + rest;
    assert(s.subrange(0, head.len() as int) =~= head);
    lemma_head_round_trip(s, 0, MAJOR_MAP, hashes.len() as u64);
    assert(s.subrange(head.len() as int, (head.len() + entries.len()) as int) =~= entries);
    lemma_entries_round_trip(hashes, s, head.len() as int, 0);
    assert(hashes.take(0) =~= Seq::empty());
    assert(hashes.skip(0) =~= hashes);
}

} // verus!
