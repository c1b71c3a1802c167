//! A store of the variants of ranking blocks that an equivocating producer
//! makes for one slot.
//!
//! Which variant a peer gets is decided elsewhere; the store gives the variant
//! for a bucket, and the body for a header hash when a peer fetches a variant
//! that the node itself did not adopt. Headers and bodies are opaque bytes.

use crate::types::hash_eq;
use std::collections::BTreeMap;
use vstd::prelude::*;

verus! {

/// One variant of a block: the hash of its header in wire form, its header and
/// its body.
#[derive(Debug, Clone, PartialEq, Eq)]
pub struct RbVariant {
    pub hash: [u8; 32],
    pub header: Vec<u8>,
    pub body: Vec<u8>,
}

/// The variants of each slot that has any.
#[derive(Debug, Clone)]
pub struct EquivocationVariants {
    by_slot: BTreeMap<u64, Vec<RbVariant>>,
}

impl View for EquivocationVariants {
    type V = Map<u64, Vec<RbVariant>>;

    closed spec fn view(&self) -> Map<u64, Vec<RbVariant>> {
        self.by_slot@
    }
}

/// The variants that a store holds for a slot.
pub open spec fn variants_at(store: Map<u64, Vec<RbVariant>>, slot: u64) -> Seq<RbVariant> {
    if store.contains_key(slot) {
        store[slot]@
    } else {
        Seq::empty()
    }
}

/// Whether `i` is the first of the variants with the hash.
pub open spec fn is_first_with_hash(variants: Seq<RbVariant>, hash: [u8; 32], i: int) -> bool {
    &&& 0 <= i < variants.len()
    &&& variants[i].hash == hash
    &&& forall|j: int| 0 <= j < i ==> (#[trigger] variants[j]).hash != hash
}

impl Default for EquivocationVariants {
    fn default() -> (store: Self)
        ensures
            store@ == Map::<u64, Vec<RbVariant>>::empty(),
    {
        EquivocationVariants { by_slot: BTreeMap::new() }
    }
}

impl EquivocationVariants {
    /// An empty store.
    pub fn new() -> (store: Self)
        ensures
            store@ == Map::<u64, Vec<RbVariant>>::empty(),
    {
        Self::default()
    }

    /// Records the variants of a slot, in place of any that it had. The first is
    /// the one that the producer adopted.
    pub fn record(&mut self, slot: u64, variants: Vec<RbVariant>)
        ensures
            final(self)@ == old(self)@.insert(slot, variants),
    {
        self.by_slot.insert(slot, variants);
    }

    /// The variant for a peer in the given bucket; `None` where the slot has no
    /// such variant.
    pub fn variant_for(&self, slot: u64, bucket: usize) -> (res: Option<&RbVariant>)
        ensures
            match res {
                Some(variant) => bucket < variants_at(self@, slot).len() && *variant == variants_at(
                    self@,
                    slot,
                )[bucket as int],
                None => bucket >= variants_at(self@, slot).len(),
            },
    {
        match self.by_slot.get(&slot) {
            Some(variants) => if bucket < variants.len() {
                Some(&variants[bucket])
            } else {
                None
            },
            None => None,
        }
    }

    /// The body of the first variant of a slot whose header has the hash.
    pub fn body_for(&self, slot: u64, hash: &[u8; 32]) -> (res: Option<&[u8]>)
        ensures
            match res {
                Some(body) => exists|i: int| #[trigger]
                    is_first_with_hash(variants_at(self@, slot), *hash, i) && body@ == variants_at(
                        self@,
                        slot,
                    )[i].body@,
                None => forall|i: int|
                    0 <= i < variants_at(self@, slot).len() ==> (#[trigger] variants_at(
                        self@,
                        slot,
                    )[i]).hash != *hash,
            },
    {
        match self.by_slot.get(&slot) {
            Some(variants) => {
                let mut i: usize = 0;
                while i < variants.len()
                    invariant
                        i <= variants@.len(),
                        variants@ == variants_at(self@, slot),
                        forall|j: int| 0 <= j < i ==> (#[trigger] variants@[j]).hash != *hash,
                    decreases variants@.len() - i,
                {
                    if hash_eq(&variants[i].hash, hash) {
                        assert(is_first_with_hash(variants_at(self@, slot), *hash, i as int));
                        return Some(variants[i].body.as_slice());
                    }
                    i += 1;
                }
                None
            },
            None => None,
        }
    }

    /// How many variants a slot has.
    pub fn ways_at(&self, slot: u64) -> (ways: usize)
        ensures
            ways == variants_at(self@, slot).len(),
    {
        match self.by_slot.get(&slot) {
            Some(variants) => variants.len(),
            None => 0,
        }
    }

    /// Drops the variants of the slots before `slot`.
    pub fn prune_below(&mut self, slot: u64)
        ensures
            final(self)@ == old(self)@.restrict(Set::new(|s: u64| s >= slot)),
    {
        let ghost before = self.by_slot@;
        let ghost mut seen: Seq<u64> = Seq::empty();
        let mut stale: Vec<u64> = Vec::new();
        for key in it: self.by_slot.keys()
            invariant
                it.seq().unref().to_set() == before.dom(),
                seen == it.seq().unref().take(it.index() as int),
                it.index() == it.seq().len() ==> seen.to_set() == before.dom(),
                forall|s: u64| #[trigger] stale@.contains(s) <==> s < slot && seen.contains(s),
        {
            let ghost listed = stale@;
            if *key < slot {
                stale.push(*key);
            }
            proof {
                lemma_push_contains(listed, *key);
                lemma_push_contains(seen, *key);
                seen = seen.push(*key);
                assert(seen =~= it.seq().unref().take(it.index() + 1));
                assert(it.index() + 1 == it.seq().len() ==> seen =~= it.seq().unref());
            }
        }
        assert(forall|s: u64| seen.contains(s) <==> seen.to_set().contains(s));
        let mut i: usize = 0;
        while i < stale.len()
            invariant
                i <= stale@.len(),
                forall|s: u64| #[trigger]
                    self.by_slot@.contains_key(s) <==> before.contains_key(s) && !stale@.take(
                        i as int,
                    ).contains(s),
                forall|s: u64| #[trigger]
                    self.by_slot@.contains_key(s) ==> self.by_slot@[s] == before[s],
            decreases stale@.len() - i,
        {
            proof {
                assert(stale@.take(i + 1) =~= stale@.take(i as int).push(stale@[i as int]));
                lemma_push_contains(stale@.take(i as int), stale@[i as int]);
            }
            self.by_slot.remove(&stale[i]);
            i += 1;
        }
        assert(stale@.take(stale@.len() as int) =~= stale@);
        assert(self.by_slot@ =~= before.restrict(Set::new(|s: u64| s >= slot)));
    }
}

/// What a sequence contains after a push.
proof fn lemma_push_contains(s: Seq<u64>, x: u64)
    ensures
        forall|y: u64| #[trigger] s.push(x).contains(y) <==> s.contains(y) || y == x,
{
    assert forall|y: u64| #[trigger] s.push(x).contains(y) <==> s.contains(y) || y == x by {
        if s.contains(y) {
            assert(s.push(x)[s.index_of(y)] == y);
        } else if y == x {
            assert(s.push(x)[s.len() as int] == y);
        } else if s.push(x).contains(y) {
            assert(s[s.push(x).index_of(y)] == y);
        }
    }
}

/// What was recorded for a slot is what the slot has; the other slots keep what
/// they had.
pub proof fn law_record_is_read_back(
    store: Map<u64, Vec<RbVariant>>,
    slot: u64,
    variants: Vec<RbVariant>,
    other: u64,
)
    ensures
        variants_at(store.insert(slot, variants), slot) == variants@,
        other != slot ==> variants_at(store.insert(slot, variants), other) == variants_at(
            store,
            other,
        ),
{
}

/// Pruning empties the slots before the given one and leaves the others as they
/// are.
pub proof fn law_prune_keeps_later_slots(
    store: Map<u64, Vec<RbVariant>>,
    slot: u64,
    other: u64,
)
    ensures
        variants_at(store.restrict(Set::new(|s: u64| s >= slot)), other) == (if other >= slot {
            variants_at(store, other)
        } else {
            Seq::empty()
        }),
{
}

/// A variant that a peer is given is found again by its hash: every variant that
/// a bucket gives has a body that a look-up by its hash finds.
pub proof fn law_routed_variant_is_served(variants: Seq<RbVariant>, bucket: int)
    requires
        0 <= bucket < variants.len(),
    ensures
        exists|i: int| i <= bucket && #[trigger] is_first_with_hash(
            variants,
            variants[bucket].hash,
            i,
        ),
    decreases bucket,
{
    let hash = variants[bucket].hash;
    if exists|j: int| 0 <= j < bucket && (#[trigger] variants[j]).hash == hash {
        let j = choose|j: int| 0 <= j < bucket && (#[trigger] variants[j]).hash == hash;
        law_routed_variant_is_served(variants, j);
    } else {
        assert(is_first_with_hash(variants, hash, bucket));
    }
}

} // verus!
