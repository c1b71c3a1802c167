//! What is read from endorser-block manifests, and how they are written.

use super::{
    container_head, lemma_container_head, lemma_stands_first, lemma_stands_split,
    lemma_stands_whole, stands,
};
use crate::cbor::{
    head_bytes, lemma_bytes_round_trip, lemma_head_round_trip, MAJOR_BYTES, MAJOR_MAP,
    MAJOR_UNSIGNED,
};
use crate::eb::{
    entries_at, entries_bytes, entry_at, hashes_of, manifest_bytes, manifest_hashes,
    open_entries_at,
};
use crate::types::TxId;
use vstd::prelude::*;

verus! {

/// A manifest entry: a key and a size, of any length and any value.
pub open spec fn sized_entry(key: Seq<u8>, size: u64) -> Seq<u8> {
    head_bytes(MAJOR_BYTES, key.len() as u64) + key + head_bytes(MAJOR_UNSIGNED, size)
}

/// The entries with the given keys and sizes, one after the other.
pub open spec fn sized_entries(keys: Seq<Seq<u8>>, sizes: Seq<u64>) -> Seq<u8>
    decreases keys.len(),
{
    if keys.len() == 0 {
        Seq::empty()
    } else {
        sized_entry(keys[0], sizes[0]) + sized_entries(keys.drop_first(), sizes.drop_first())
    }
}

/// Whether every key is a hash of 32 bytes and every size fits in 32 bits.
pub open spec fn are_manifest_entries(keys: Seq<Seq<u8>>, sizes: Seq<u64>) -> bool {
    forall|k: int|
        0 <= k < keys.len() ==> (#[trigger] keys[k]).len() == 32 && sizes[k] <= 0xffff_ffff
}

/// The bytes of a manifest: its head, its entries, and a break byte where its
/// length is not definite.
pub open spec fn sized_manifest(keys: Seq<Seq<u8>>, sizes: Seq<u64>, definite: bool) -> Seq<u8> {
    if definite {
        head_bytes(MAJOR_MAP, keys.len() as u64) + sized_entries(keys, sizes)
    } else {
        seq![0xbfu8] + sized_entries(keys, sizes) + seq![0xffu8]
    }
}

/// One entry is read as its key, where the key is a hash and the size fits.
proof fn lemma_sized_entry(s: Seq<u8>, p: int, key: Seq<u8>, size: u64)
    requires
        key.len() <= u64::MAX,
        stands(s, p, sized_entry(key, size)),
    ensures
        entry_at(s, p) == (if key.len() == 32 && size <= 0xffff_ffff {
            Some((key, p + sized_entry(key, size).len()))
        } else {
            None
        }),
        sized_entry(key, size).len() > 0,
        s[p] as int / 32 == 2,
{
    let a = head_bytes(MAJOR_BYTES, key.len() as u64) + key;
    let b = head_bytes(MAJOR_UNSIGNED, size);
    lemma_stands_split(s, p, a, b);
    lemma_stands_split(s, p, head_bytes(MAJOR_BYTES, key.len() as u64), key);
    lemma_head_round_trip(s, p, MAJOR_BYTES, key.len() as u64);
    lemma_bytes_round_trip(s, p, key);
    lemma_head_round_trip(s, p + a.len(), MAJOR_UNSIGNED, size);
}

/// What follows the first of some entries, and whether they are a manifest's.
proof fn lemma_first_entry(s: Seq<u8>, p: int, keys: Seq<Seq<u8>>, sizes: Seq<u64>)
    requires
        0 < keys.len() == sizes.len(),
        forall|k: int| 0 <= k < keys.len() ==> (#[trigger] keys[k]).len() <= u64::MAX,
        stands(s, p, sized_entries(keys, sizes)),
    ensures
        ({
            let (more_keys, more_sizes) = (keys.drop_first(), sizes.drop_first());
            let q = p + sized_entry(keys[0], sizes[0]).len();
            &&& p < q
            &&& entry_at(s, p) == (if keys[0].len() == 32 && sizes[0] <= 0xffff_ffff {
                Some((keys[0], q))
            } else {
                None
            })
            &&& s[p] as int / 32 == 2
            &&& stands(s, q, sized_entries(more_keys, more_sizes))
            &&& sized_entries(keys, sizes).len() == q - p + sized_entries(
                more_keys,
                more_sizes,
            ).len()
            &&& forall|k: int|
                0 <= k < more_keys.len() ==> (#[trigger] more_keys[k]).len() <= u64::MAX
            &&& are_manifest_entries(keys, sizes) <==> keys[0].len() == 32 && sizes[0]
                <= 0xffff_ffff && are_manifest_entries(more_keys, more_sizes)
            &&& keys == seq![keys[0]] + more_keys
        }),
{
    let (more_keys, more_sizes) = (keys.drop_first(), sizes.drop_first());
    let first = sized_entry(keys[0], sizes[0]);
    lemma_stands_split(s, p, first, sized_entries(more_keys, more_sizes));
    lemma_sized_entry(s, p, keys[0], sizes[0]);
    assert(forall|k: int| 0 <= k < more_keys.len() ==> #[trigger] more_keys[k] == keys[k + 1]);
    assert(forall|k: int| 1 <= k < keys.len() ==> #[trigger] keys[k] == more_keys[k - 1]);
    assert(keys =~= seq![keys[0]] + more_keys);
    if are_manifest_entries(more_keys, more_sizes) && keys[0].len() == 32 && sizes[0]
        <= 0xffff_ffff {
        assert forall|k: int| 0 <= k < keys.len() implies (#[trigger] keys[k]).len() == 32
            && sizes[k] <= 0xffff_ffff by {
            if k > 0 {
                assert(more_keys[k - 1].len() == 32);
            }
        }
    }
}

/// So many entries are read as their keys.
proof fn lemma_sized_entries(s: Seq<u8>, p: int, keys: Seq<Seq<u8>>, sizes: Seq<u64>)
    requires
        keys.len() == sizes.len(),
        forall|k: int| 0 <= k < keys.len() ==> (#[trigger] keys[k]).len() <= u64::MAX,
        stands(s, p, sized_entries(keys, sizes)),
    ensures
        entries_at(s, p, keys.len()) == (if are_manifest_entries(keys, sizes) {
            Some(keys)
        } else {
            None
        }),
    decreases keys.len(),
{
    if keys.len() > 0 {
        lemma_first_entry(s, p, keys, sizes);
        lemma_sized_entries(
            s,
            p + sized_entry(keys[0], sizes[0]).len(),
            keys.drop_first(),
            sizes.drop_first(),
        );
    } else {
        assert(keys =~= Seq::empty());
    }
}

/// The entries up to a break byte are read as their keys.
proof fn lemma_open_entries(s: Seq<u8>, p: int, keys: Seq<Seq<u8>>, sizes: Seq<u64>)
    requires
        keys.len() == sizes.len(),
        forall|k: int| 0 <= k < keys.len() ==> (#[trigger] keys[k]).len() <= u64::MAX,
        stands(s, p, sized_entries(keys, sizes)),
        p + sized_entries(keys, sizes).len() < s.len(),
        s[p + sized_entries(keys, sizes).len()] == 0xff,
    ensures
        open_entries_at(s, p) == (if are_manifest_entries(keys, sizes) {
            Some(keys)
        } else {
            None
        }),
    decreases keys.len(),
{
    if keys.len() > 0 {
        lemma_first_entry(s, p, keys, sizes);
        lemma_open_entries(
            s,
            p + sized_entry(keys[0], sizes[0]).len(),
            keys.drop_first(),
            sizes.drop_first(),
        );
    } else {
        assert(keys =~= Seq::empty());
    }
}

/// A manifest is read as the hashes in it, in order, whatever the sizes beside
/// them are and whatever follows, in the definite form and in the indefinite one.
/// It is not read at all where a key is not 32 bytes long or a size does not fit
/// in 32 bits.
pub proof fn law_sizes_do_not_matter(
    keys: Seq<Seq<u8>>,
    sizes: Seq<u64>,
    definite: bool,
    rest: Seq<u8>,
)
    requires
        keys.len() == sizes.len() <= u64::MAX,
        forall|k: int| 0 <= k < keys.len() ==> (#[trigger] keys[k]).len() <= u64::MAX,
    ensures
        manifest_hashes(sized_manifest(keys, sizes, definite) + rest) == (if are_manifest_entries(
            keys,
            sizes,
        ) {
            Some(keys)
        } else {
            None
        }),
{
    let s = sized_manifest(keys, sizes, definite) + rest;
    let entries = sized_entries(keys, sizes);
    lemma_stands_whole(s);
    lemma_stands_split(s, 0, sized_manifest(keys, sizes, definite), rest);
    if definite {
        let head = head_bytes(MAJOR_MAP, keys.len() as u64);
        lemma_stands_split(s, 0, head, entries);
        lemma_container_head(s, 0, MAJOR_MAP, Some(keys.len() as u64));
        lemma_sized_entries(s, head.len() as int, keys, sizes);
    } else {
        let head = seq![0xbfu8];
        assert(container_head(MAJOR_MAP, None) =~= head);
        lemma_stands_split(s, 0, head + entries, seq![0xffu8]);
        lemma_stands_split(s, 0, head, entries);
        lemma_container_head(s, 0, MAJOR_MAP, None);
        lemma_stands_first(s, (head + entries).len() as int, seq![0xffu8]);
        lemma_open_entries(s, 1, keys, sizes);
    }
}

/// Decoding gives the 32-byte hashes for all 32-bit sizes, in both forms.
pub proof fn law_manifest_hashes_are_read(hashes: Seq<Seq<u8>>, sizes: Seq<u32>, rest: Seq<u8>)
    requires
        hashes.len() == sizes.len() <= u64::MAX,
        forall|k: int| 0 <= k < hashes.len() ==> (#[trigger] hashes[k]).len() == 32,
    ensures
        ({
            let words = sizes.map_values(|size: u32| size as u64);
            &&& manifest_hashes(
                head_bytes(MAJOR_MAP, hashes.len() as u64) + sized_entries(hashes, words) + rest,
            ) == Some(hashes)
            &&& manifest_hashes(
                seq![0xbfu8] + sized_entries(hashes, words) + seq![0xffu8] + rest,
            ) == Some(hashes)
        }),
{
    let words = sizes.map_values(|size: u32| size as u64);
    assert(are_manifest_entries(hashes, words));
    law_sizes_do_not_matter(hashes, words, true, rest);
    law_sizes_do_not_matter(hashes, words, false, rest);
}

/// Entries that are missing are noticed: a manifest whose bytes end before the
/// number of entries that it states, or before a break byte, is not read.
pub proof fn law_missing_entries_are_noticed(keys: Seq<Seq<u8>>, sizes: Seq<u64>, stated: u64)
    requires
        keys.len() == sizes.len(),
        keys.len() < stated,
        forall|k: int| 0 <= k < keys.len() ==> (#[trigger] keys[k]).len() <= u64::MAX,
    ensures
        manifest_hashes(head_bytes(MAJOR_MAP, stated) + sized_entries(keys, sizes)) is None,
        manifest_hashes(seq![0xbfu8] + sized_entries(keys, sizes)) is None,
{
    let entries = sized_entries(keys, sizes);
    let head = head_bytes(MAJOR_MAP, stated);
    let s = head + entries;
    lemma_stands_whole(s);
    lemma_stands_split(s, 0, head, entries);
    lemma_container_head(s, 0, MAJOR_MAP, Some(stated));
    lemma_entries_run_out(s, head.len() as int, keys, sizes, stated as nat);
    let open = seq![0xbfu8] + entries;
    assert(container_head(MAJOR_MAP, None) =~= seq![0xbfu8]);
    lemma_stands_whole(open);
    lemma_stands_split(open, 0, seq![0xbfu8], entries);
    lemma_container_head(open, 0, MAJOR_MAP, None);
    lemma_entries_run_out(open, 1, keys, sizes, stated as nat);
}

/// Entries that run out at the end of the bytes are not read.
proof fn lemma_entries_run_out(
    s: Seq<u8>,
    p: int,
    keys: Seq<Seq<u8>>,
    sizes: Seq<u64>,
    stated: nat,
)
    requires
        keys.len() == sizes.len(),
        keys.len() < stated,
        forall|k: int| 0 <= k < keys.len() ==> (#[trigger] keys[k]).len() <= u64::MAX,
        stands(s, p, sized_entries(keys, sizes)),
        p + sized_entries(keys, sizes).len() == s.len(),
    ensures
        entries_at(s, p, stated) is None,
        open_entries_at(s, p) is None,
    decreases keys.len(),
{
    if keys.len() > 0 {
        lemma_first_entry(s, p, keys, sizes);
        lemma_entries_run_out(
            s,
            p + sized_entry(keys[0], sizes[0]).len(),
            keys.drop_first(),
            sizes.drop_first(),
            (stated - 1) as nat,
        );
    }
}

/// Bytes that do not begin with a map are no manifest.
pub proof fn law_only_maps_are_manifests(blob: Seq<u8>)
    requires
        blob.len() == 0 || blob[0] as int / 32 != 5,
    ensures
        manifest_hashes(blob) is None,
{
}

/// The hashes of identifiers are their bytes, one for each and in order.
pub proof fn law_hashes_of_identifiers(ids: Seq<TxId>, k: int)
    requires
        0 <= k < ids.len(),
    ensures
        hashes_of(ids).len() == ids.len(),
        hashes_of(ids)[k] == ids[k]@,
{
}

/// How a manifest is written: the head of a map of so many entries, then for each
/// hash in order 35 bytes, which are the head of a 32-byte string, the hash, and
/// the size zero.
pub proof fn law_written_manifest(hashes: Seq<Seq<u8>>, k: int)
    requires
        hashes.len() <= u64::MAX,
        forall|i: int| 0 <= i < hashes.len() ==> (#[trigger] hashes[i]).len() == 32,
        0 <= k < hashes.len(),
    ensures
        ({
            let head = head_bytes(MAJOR_MAP, hashes.len() as u64);
            let start = head.len() + 35 * k;
            &&& manifest_bytes(hashes).len() == head.len() + 35 * hashes.len()
            &&& stands(manifest_bytes(hashes), 0, head)
            &&& stands(
                manifest_bytes(hashes),
                start,
                seq![0x58u8, 0x20u8] + hashes[k] + seq![0x00u8],
            )
        }),
{
    let head = head_bytes(MAJOR_MAP, hashes.len() as u64);
    let entries = entries_bytes(hashes);
    let s = manifest_bytes(hashes);
    lemma_written_entries(hashes, k);
    lemma_stands_whole(s);
    lemma_stands_split(s, 0, head, entries);
    assert(s.subrange(head.len() + 35 * k, head.len() + 35 * k + 35) =~= entries.subrange(
        35 * k,
        35 * k + 35,
    ));
}

/// Where each entry of a written manifest stands.
proof fn lemma_written_entries(hashes: Seq<Seq<u8>>, k: int)
    requires
        forall|i: int| 0 <= i < hashes.len() ==> (#[trigger] hashes[i]).len() == 32,
        0 <= k < hashes.len(),
    ensures
        entries_bytes(hashes).len() == 35 * hashes.len(),
        entries_bytes(hashes).subrange(35 * k, 35 * k + 35) == seq![0x58u8, 0x20u8] + hashes[k]
            + seq![0x00u8],
    decreases hashes.len(),
{
    let shorter = hashes.drop_last();
    let last = seq![0x58u8, 0x20u8] + hashes.last() + seq![0x00u8];
    assert(head_bytes(MAJOR_BYTES, 32) =~= seq![0x58u8, 0x20u8]) by {
        reveal(head_bytes);
        reveal_with_fuel(crate::cbor::be_bytes, 2);
    }
    assert(head_bytes(MAJOR_UNSIGNED, 0) =~= seq![0x00u8]) by {
        reveal(head_bytes);
    }
    assert(hashes.last().len() == 32);
    assert(entries_bytes(hashes) =~= entries_bytes(shorter) + last);
    if shorter.len() > 0 {
        let j = if k < shorter.len() {
            k
        } else {
            0
        };
        lemma_written_entries(shorter, j);
    }
    if k < shorter.len() {
        assert(entries_bytes(hashes).subrange(35 * k, 35 * k + 35) =~= entries_bytes(
            shorter,
        ).subrange(35 * k, 35 * k + 35));
    } else {
        assert(entries_bytes(hashes).subrange(35 * k, 35 * k + 35) =~= last);
    }
}

} // verus!
