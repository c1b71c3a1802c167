//! A behaviour that misstates the size in the offers of endorser blocks.
//!
//! The size in an offer is meant to be that of the encoded block. This
//! behaviour puts `(size * scale_num / scale_den) + offset` in its place, held
//! within 32 bits. With `1, 1, 0` nothing changes; with `0, 1, 0` every size
//! becomes zero. Offers of transactions hold no size and stay as they are.

use super::outbound::{Outbound, OutboundDecision, OwnedOutbound};
use super::Behaviour;
use crate::types::PeerId;
use vstd::prelude::*;

verus! {

/// Scales the size in an offer and adds an offset.
#[derive(Debug, Clone, Copy, PartialEq, Eq)]
pub struct LieAboutEbSize {
    /// Numerator of the scale.
    pub scale_num: u32,
    /// Denominator of the scale; zero counts as one.
    pub scale_den: u32,
    /// What is added after scaling.
    pub offset: i32,
}

/// The nearest number to `n` that 32 bits hold.
pub open spec fn within_u32(n: int) -> u32 {
    if n < 0 {
        0
    } else if n > u32::MAX {
        u32::MAX
    } else {
        n as u32
    }
}

impl LieAboutEbSize {
    /// The denominator that counts.
    pub open spec fn denominator(self) -> int {
        if self.scale_den == 0 {
            1
        } else {
            self.scale_den as int
        }
    }

    /// The size that is put in the place of `eb_size`.
    pub open spec fn misstated(self, eb_size: u32) -> u32 {
        within_u32(eb_size * self.scale_num / self.denominator() + self.offset)
    }

    /// A denominator of zero becomes one.
    pub fn new(scale_num: u32, scale_den: u32, offset: i32) -> (behaviour: Self)
        ensures
            behaviour.scale_num == scale_num,
            behaviour.scale_den == (if scale_den == 0 {
                1
            } else {
                scale_den
            }),
            behaviour.offset == offset,
    {
        let scale_den = if scale_den == 0 {
            1
        } else {
            scale_den
        };
        LieAboutEbSize { scale_num, scale_den, offset }
    }

    /// Makes every size zero.
    pub fn zero() -> (behaviour: Self)
        ensures
            behaviour == (LieAboutEbSize { scale_num: 0, scale_den: 1, offset: 0 }),
    {
        Self::new(0, 1, 0)
    }

    /// The size that is put in the place of `eb_size`.
    pub fn mutate_size(&self, eb_size: u32) -> (size: u32)
        ensures
            size == self.misstated(eb_size),
    {
        let den: u64 = if self.scale_den == 0 {
            1
        } else {
            self.scale_den as u64
        };
        assert(eb_size * self.scale_num <= 0xffff_ffff * 0xffff_ffff) by (nonlinear_arith)
            requires
                eb_size <= 0xffff_ffff,
                self.scale_num <= 0xffff_ffff,
        ;
        assert(eb_size * self.scale_num >= 0) by (nonlinear_arith)
            requires
                eb_size >= 0,
                self.scale_num >= 0,
        ;
        let scaled: u64 = eb_size as u64 * self.scale_num as u64 / den;
        let with_offset: i128 = scaled as i128 + self.offset as i128;
        if with_offset < 0 {
            0
        } else if with_offset > u32::MAX as i128 {
            u32::MAX
        } else {
            with_offset as u32
        }
    }
}

impl Behaviour for LieAboutEbSize {
    fn name(&self) -> (name: &'static str)
        ensures
            name@ == "lie-about-eb-size"@,
    {
        "lie-about-eb-size"
    }

    fn transform_outbound(&mut self, _peer: PeerId, out: Outbound<'_>) -> (decision:
        OutboundDecision)
        ensures
            *final(self) == *old(self),
            decision == (match out {
                Outbound::LeiosBlockOffer { point, eb_size, source } => OutboundDecision::Replace(
                    OwnedOutbound::LeiosBlockOffer {
                        point: *point,
                        eb_size: old(self).misstated(eb_size),
                        source,
                    },
                ),
                _ => OutboundDecision::Send,
            }),
    {
        match out {
            Outbound::LeiosBlockOffer { point, eb_size, source } => {
                let eb_size = self.mutate_size(eb_size);
                OutboundDecision::Replace(
                    OwnedOutbound::LeiosBlockOffer { point: *point, eb_size, source },
                )
            },
            _ => OutboundDecision::Send,
        }
    }
}

/// Without scaling and offset, no size changes.
pub proof fn law_identity_keeps_sizes(behaviour: LieAboutEbSize, eb_size: u32)
    requires
        behaviour.scale_num == behaviour.denominator(),
        behaviour.offset == 0,
    ensures
        behaviour.misstated(eb_size) == eb_size,
{
    let d = behaviour.denominator();
    assert(eb_size * d / d == eb_size) by (nonlinear_arith)
        requires
            d > 0,
    ;
}

/// A larger block is never stated as smaller than a smaller one.
pub proof fn law_misstated_is_monotone(behaviour: LieAboutEbSize, a: u32, b: u32)
    requires
        a <= b,
    ensures
        behaviour.misstated(a) <= behaviour.misstated(b),
{
    let d = behaviour.denominator();
    let n = behaviour.scale_num as int;
    assert(a * n / d <= b * n / d) by (nonlinear_arith)
        requires
            a <= b,
            n >= 0,
            d > 0,
    ;
}

} // verus!
