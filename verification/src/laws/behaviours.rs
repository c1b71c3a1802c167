//! What the behaviours do to what is sent.

use crate::behaviour::lie_about_eb_size::LieAboutEbSize;
use crate::behaviour::variants::{is_first_with_hash, variants_at, RbVariant};
use vstd::prelude::*;

verus! {

/// The size that is put in place of another is that size times the scale, rounded
/// down, plus the offset; below zero it becomes zero, and beyond 32 bits the
/// largest 32-bit number. A denominator of zero counts as one.
pub proof fn law_misstated_size_is_scaled_and_shifted(
    behaviour: LieAboutEbSize,
    eb_size: u32,
    scaled: int,
)
    requires
        behaviour.scale_den == 0 ==> scaled == eb_size * behaviour.scale_num,
        behaviour.scale_den > 0 ==> scaled * behaviour.scale_den <= eb_size * behaviour.scale_num
            < (scaled + 1) * behaviour.scale_den,
    ensures
        ({
            let size = behaviour.misstated(eb_size);
            let wanted = scaled + behaviour.offset;
            &&& wanted < 0 ==> size == 0
            &&& 0 <= wanted <= 0xffff_ffff ==> size == wanted
            &&& wanted > 0xffff_ffff ==> size == 0xffff_ffff
        }),
{
    let x = eb_size * behaviour.scale_num;
    let d = behaviour.scale_den as int;
    if d > 0 {
        assert(x / d == scaled) by (nonlinear_arith)
            requires
                d > 0,
                scaled * d <= x,
                x < (scaled + 1) * d,
        ;
    } else {
        assert(x / 1 == x);
    }
}

/// The variant that a look-up by hash finds has that hash, and no variant before
/// it does; a look-up among variants of which none has it finds nothing.
pub proof fn law_first_variant_with_the_hash_is_found(
    variants: Seq<RbVariant>,
    hash: [u8; 32],
    i: int,
)
    ensures
        is_first_with_hash(variants, hash, i) <==> 0 <= i < variants.len() && variants[i].hash
            == hash && forall|j: int| 0 <= j < i ==> (#[trigger] variants[j]).hash != hash,
{
}

/// A slot for which nothing was recorded has no variants, and one for which some
/// were recorded has all of them, in order.
pub proof fn law_all_recorded_variants_are_kept(
    store: Map<u64, Vec<RbVariant>>,
    slot: u64,
    k: int,
)
    ensures
        !store.contains_key(slot) ==> variants_at(store, slot).len() == 0,
        store.contains_key(slot) ==> variants_at(store, slot).len() == store[slot]@.len() && (0
            <= k < store[slot]@.len() ==> variants_at(store, slot)[k] == store[slot]@[k]),
{
}

} // verus!
