//! Per-node behaviours: what a node does with what it is about to send, and
//! which nodes of a deployment do it.

pub mod echo_to_source;
pub mod lie_about_eb_size;
pub mod outbound;
pub mod selection;
pub mod variants;

use self::outbound::{Outbound, OutboundDecision};
use crate::types::PeerId;
use vstd::prelude::*;

verus! {

/// What a node decides where it may deviate from the honest protocol. The
/// methods that are not overridden are honest.
pub trait Behaviour {
    /// The name by which the behaviour is configured and reported.
    fn name(&self) -> &'static str;

    /// Decides on an artefact that is about to be sent to `peer`.
    fn transform_outbound(&mut self, peer: PeerId, out: Outbound<'_>) -> (decision:
        OutboundDecision)
        default_ensures
            decision is Send,
    {
        OutboundDecision::Send
    }

    /// Whether an offer may go back to the peer that it came from.
    fn allow_echo_to_source(&mut self, peer: PeerId, out: &Outbound<'_>) -> (allowed: bool)
        default_ensures
            !allowed,
    {
        false
    }

    /// The body of a block that was advertised to some peers but not adopted.
    fn find_variant_body(&self, slot: u64, hash: &[u8; 32]) -> (body: Option<Vec<u8>>)
        default_ensures
            body is None,
    {
        None
    }
}

/// The behaviour of a node that follows the protocol.
#[derive(Debug, Clone, Copy, PartialEq, Eq)]
pub struct HonestBehaviour;

impl Behaviour for HonestBehaviour {
    fn name(&self) -> (name: &'static str)
        ensures
            name@ == "honest"@,
    {
        "honest"
    }
}

} // verus!
