//! Chain positions, peers and hashes.

use vstd::prelude::*;

verus! {

/// Copies the 32 bytes of `bytes` into an array.
pub fn hash_from_slice(bytes: &[u8]) -> (hash: [u8; 32])
    requires
        bytes@.len() == 32,
    ensures
        hash@ == bytes@,
{
    let mut hash: [u8; 32] = [0u8; 32];
    let mut i: usize = 0;
    while i < 32
        invariant
            i <= 32,
            bytes@.len() == 32,
            forall|j: int| 0 <= j < i ==> hash@[j] == bytes@[j],
        decreases 32 - i,
    {
        hash[i] = bytes[i];
        i += 1;
    }
    assert(hash@ =~= bytes@);
    hash
}

/// Whether two hashes are the same.
pub fn hash_eq(a: &[u8; 32], b: &[u8; 32]) -> (same: bool)
    ensures
        same == (*a == *b),
{
    let mut i: usize = 0;
    while i < 32
        invariant
            i <= 32,
            forall|j: int| 0 <= j < i ==> a@[j] == b@[j],
        decreases 32 - i,
    {
        if a[i] != b[i] {
            return false;
        }
        i += 1;
    }
    assert(*a =~= *b);
    true
}

/// A transaction's identifier: the hash of its bytes.
#[derive(Debug, Clone, Copy, PartialEq, Eq, Hash)]
pub struct TxId {
    bytes: [u8; 32],
}

impl View for TxId {
    type V = Seq<u8>;

    closed spec fn view(&self) -> Seq<u8> {
        self.bytes@
    }
}

impl TxId {
    /// The identifier that consists of the given bytes.
    pub fn new_with_array(bytes: [u8; 32]) -> (id: TxId)
        ensures
            id@ == bytes@,
    {
        TxId { bytes }
    }

    /// The identifier's 32 bytes.
    pub fn get_bytes(&self) -> (bytes: &[u8])
        ensures
            bytes@ == self@,
            bytes@.len() == 32,
    {
        self.bytes.as_slice()
    }
}

/// A connected peer.
#[derive(Debug, Clone, Copy, PartialEq, Eq, Hash, Structural)]
pub struct PeerId(pub u64);

/// A chain position: before the first block, or the block with the given slot
/// and header hash.
#[derive(Debug, Clone, Copy, Eq)]
pub enum Point {
    Origin,
    Specific { slot: u64, hash: [u8; 32] },
}

impl PartialEq for Point {
    fn eq(&self, other: &Self) -> (same: bool) {
        match (self, other) {
            (Point::Origin, Point::Origin) => true,
            (
                Point::Specific { slot: slot_a, hash: hash_a },
                Point::Specific { slot: slot_b, hash: hash_b },
            ) => *slot_a == *slot_b && hash_eq(hash_a, hash_b),
            _ => false,
        }
    }
}

impl vstd::std_specs::cmp::PartialEqSpecImpl for Point {
    open spec fn obeys_eq_spec() -> bool {
        true
    }

    open spec fn eq_spec(&self, other: &Self) -> bool {
        *self == *other
    }
}

/// A chain's tip: its last block's position and number.
#[derive(Debug, Clone, Copy, PartialEq, Eq)]
pub struct Tip {
    pub point: Point,
    pub block_no: u64,
}

} // verus!
