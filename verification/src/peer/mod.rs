//! Peer connections: how far a downstream peer has promoted us, and the
//! responder side of each mini-protocol.
//!
//! The responders decide and do no I/O. Each holds the state of one connection;
//! it is given what was received or read and answers with what to send and what
//! to do next.

pub mod blockfetch;
pub mod chainsync;
pub mod keepalive;
pub mod leios_fetch;
pub mod leios_notify;
pub mod peersharing;
pub mod txsubmission;

use vstd::prelude::*;

verus! {

/// How far a downstream peer has promoted us as its upstream, as seen from our
/// side: connected only, sending us keepalives, or pulling our chain.
#[derive(Debug, Clone, Copy, PartialEq, Eq, Structural)]
pub enum DownstreamState {
    Cold,
    Warm,
    Hot,
}

impl DownstreamState {
    /// The state that a level stands for.
    pub open spec fn of_level(v: u8) -> DownstreamState {
        if v == 2 {
            DownstreamState::Hot
        } else if v == 1 {
            DownstreamState::Warm
        } else {
            DownstreamState::Cold
        }
    }

    /// The level that stands for the state.
    pub open spec fn level(self) -> u8 {
        match self {
            DownstreamState::Cold => 0,
            DownstreamState::Warm => 1,
            DownstreamState::Hot => 2,
        }
    }

    /// Reads a level: 2 is hot, 1 is warm, everything else is cold.
    pub fn from_u8(v: u8) -> (state: Self)
        ensures
            state == DownstreamState::of_level(v),
    {
        match v {
            2 => DownstreamState::Hot,
            1 => DownstreamState::Warm,
            _ => DownstreamState::Cold,
        }
    }

    /// The state's name.
    pub fn as_str(&self) -> (name: &'static str)
        ensures
            name@ == (match *self {
                DownstreamState::Cold => "cold"@,
                DownstreamState::Warm => "warm"@,
                DownstreamState::Hot => "hot"@,
            }),
    {
        match self {
            DownstreamState::Cold => "cold",
            DownstreamState::Warm => "warm",
            DownstreamState::Hot => "hot",
        }
    }
}

/// The downstream promotion of one connection. It only ever rises; a new
/// connection has a new flag.
#[derive(Debug, Clone, Copy, PartialEq, Eq)]
pub struct DownstreamFlag {
    level: u8,
}

impl View for DownstreamFlag {
    type V = u8;

    closed spec fn view(&self) -> u8 {
        self.level
    }
}

impl DownstreamFlag {
    /// The level that the flag has reached.
    pub fn load(&self) -> (level: u8)
        ensures
            level == self@,
    {
        self.level
    }
}

/// The larger of two levels.
pub open spec fn raised(level: u8, to: u8) -> u8 {
    if level < to {
        to
    } else {
        level
    }
}

/// A flag that is cold.
pub fn new_downstream_flag() -> (flag: DownstreamFlag)
    ensures
        flag@ == DownstreamState::Cold.level(),
{
    DownstreamFlag { level: 0 }
}

/// Raises the flag to warm at least: the peer has started to send keepalives.
pub fn mark_downstream_warm(f: &mut DownstreamFlag)
    ensures
        final(f)@ == raised(old(f)@, DownstreamState::Warm.level()),
{
    if f.level < 1 {
        f.level = 1;
    }
}

/// Raises the flag to hot: the peer is pulling our chain.
pub fn mark_downstream_hot(f: &mut DownstreamFlag)
    ensures
        final(f)@ == raised(old(f)@, DownstreamState::Hot.level()),
{
    if f.level < 2 {
        f.level = 2;
    }
}

/// A level stands for the state whose level it is.
pub proof fn law_levels_round_trip(state: DownstreamState)
    ensures
        DownstreamState::of_level(state.level()) == state,
{
}

/// A mark never lowers a flag, reaches its own level, and the order of two marks
/// does not matter.
pub proof fn law_marks_escalate(level: u8, a: u8, b: u8)
    ensures
        raised(level, a) >= level,
        raised(level, a) >= a,
        raised(raised(level, a), b) == raised(raised(level, b), a),
        raised(raised(level, a), a) == raised(level, a),
{
}

/// Which protocol roles run on a connection.
#[derive(Debug, Clone, Copy, PartialEq, Eq, Structural)]
pub enum ConnectionMode {
    /// We opened the connection and run the initiator side.
    InitiatorOnly,
    /// The peer opened the connection and we run the responder side.
    ResponderOnly,
    /// Both sides run on one connection.
    Duplex,
}

} // verus!
