//! Artefacts that are about to be sent to a peer, and what can be decided on
//! them.

use crate::types::{PeerId, Point};
use vstd::prelude::*;

verus! {

/// An artefact that is about to be sent: what is needed to recognise it, and
/// its opaque wire bytes.
#[derive(Debug, Clone, Copy)]
pub enum Outbound<'a> {
    /// The header of a ranking block that is about to be advertised. `slot` is
    /// the slot of the block.
    RbHeader { slot: u64, header: &'a [u8] },
    /// The offer of an endorser block. `eb_size` is the size of the encoded
    /// block that the offer names, and `source` the first peer that the block
    /// came from; a block of the node's own has none.
    LeiosBlockOffer { point: &'a Point, eb_size: u32, source: Option<PeerId> },
    /// The offer of an endorser block's transactions.
    LeiosBlockTxsOffer { point: &'a Point, source: Option<PeerId> },
}

/// An artefact to be sent instead of, or besides, another.
#[derive(Debug, Clone, PartialEq, Eq)]
pub enum OwnedOutbound {
    RbHeader { slot: u64, header: Vec<u8> },
    LeiosBlockOffer { point: Point, eb_size: u32, source: Option<PeerId> },
    LeiosBlockTxsOffer { point: Point, source: Option<PeerId> },
}

/// What was decided on an artefact that is about to be sent to a peer.
#[derive(Debug, Clone, PartialEq, Eq)]
pub enum OutboundDecision {
    /// It is sent unchanged.
    Send,
    /// Nothing is sent.
    Drop,
    /// Another is sent in its place.
    Replace(OwnedOutbound),
    /// It is sent, and then these.
    Augment(Vec<OwnedOutbound>),
}

impl Default for OutboundDecision {
    fn default() -> (decision: Self)
        ensures
            decision is Send,
    {
        OutboundDecision::Send
    }
}

impl OutboundDecision {
    /// Whether the artefact is sent unchanged, and nothing else.
    pub fn is_send(&self) -> (send: bool)
        ensures
            send <==> self is Send,
    {
        matches!(self, OutboundDecision::Send)
    }
}

} // verus!
