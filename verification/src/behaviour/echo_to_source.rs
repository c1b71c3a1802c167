//! A behaviour that lets offers go back to the peer that they came from.
//!
//! An honest node does not offer an endorser block to a peer that it has the
//! block from. This behaviour does.

use super::outbound::Outbound;
use super::Behaviour;
use crate::types::PeerId;
use vstd::prelude::*;

verus! {

/// Lets every offer go back.
#[derive(Debug, Clone, Copy, PartialEq, Eq)]
pub struct EchoToSource;

impl Default for EchoToSource {
    fn default() -> (behaviour: Self)
        ensures
            behaviour == EchoToSource,
    {
        EchoToSource
    }
}

impl Behaviour for EchoToSource {
    fn name(&self) -> (name: &'static str)
        ensures
            name@ == "echo-to-source"@,
    {
        "echo-to-source"
    }

    fn allow_echo_to_source(&mut self, _peer: PeerId, _out: &Outbound<'_>) -> (allowed: bool)
        ensures
            allowed,
    {
        true
    }
}

} // verus!
