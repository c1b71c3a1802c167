//! The responder side of PeerSharing: we name peers on request.

use vstd::prelude::*;

verus! {

/// The messages of the protocol, over the form `A` of a peer's address.
#[derive(Debug, Clone, PartialEq, Eq)]
pub enum PsMessage<A> {
    ShareRequest { amount: u8 },
    SharePeers { peers: Vec<A> },
    Done,
}

/// What happened on the connection, or what was asked for it.
#[derive(Debug, Clone, PartialEq, Eq)]
pub enum PsEvent<A> {
    /// A message came in.
    Received(PsMessage<A>),
    /// The connection gave no message any more.
    RecvFailed,
    /// The addresses that were asked for.
    Provided(Vec<A>),
}

/// What to do next.
#[derive(Debug, Clone, Copy, PartialEq, Eq, Structural)]
pub enum PsAction {
    /// Wait for a message.
    Receive,
    /// Ask for up to so many addresses.
    Provide(u8),
    /// Leave the protocol.
    Stop,
}

/// A message to send first, if any, and what to do next.
#[derive(Debug, Clone, PartialEq, Eq)]
pub struct PsStep<A> {
    pub send: Option<PsMessage<A>>,
    pub next: PsAction,
}

/// What the responder is waiting for.
#[derive(Debug, Clone, Copy, PartialEq, Eq, Structural)]
pub enum PeerSharingServer {
    /// A message of the peer.
    Idle,
    /// Addresses.
    Asking,
    /// Nothing any more.
    Stopped,
}

/// The state after an event, and what is to be done.
pub open spec fn transition<A>(server: PeerSharingServer, event: PsEvent<A>) -> (
    PeerSharingServer,
    PsStep<A>,
) {
    match (server, event) {
        (PeerSharingServer::Idle, PsEvent::Received(PsMessage::ShareRequest { amount })) => (
            PeerSharingServer::Asking,
            PsStep { send: None, next: PsAction::Provide(amount) },
        ),
        (PeerSharingServer::Asking, PsEvent::Provided(peers)) => (
            PeerSharingServer::Idle,
            PsStep { send: Some(PsMessage::SharePeers { peers }), next: PsAction::Receive },
        ),
        _ => (PeerSharingServer::Stopped, PsStep { send: None, next: PsAction::Stop }),
    }
}

impl PeerSharingServer {
    /// A connection on which nothing was received yet.
    pub fn new() -> (server: Self)
        ensures
            server == PeerSharingServer::Idle,
    {
        PeerSharingServer::Idle
    }

    /// Handles an event: what to send, and what to do next.
    pub fn step<A>(&mut self, event: PsEvent<A>) -> (step: PsStep<A>)
        ensures
            (*final(self), step) == transition(*old(self), event),
    {
        match (*self, event) {
            (PeerSharingServer::Idle, PsEvent::Received(PsMessage::ShareRequest { amount })) => {
                *self = PeerSharingServer::Asking;
                PsStep { send: None, next: PsAction::Provide(amount) }
            },
            (PeerSharingServer::Asking, PsEvent::Provided(peers)) => {
                *self = PeerSharingServer::Idle;
                PsStep { send: Some(PsMessage::SharePeers { peers }), next: PsAction::Receive }
            },
            _ => {
                *self = PeerSharingServer::Stopped;
                PsStep { send: None, next: PsAction::Stop }
            },
        }
    }
}

/// A request is answered with exactly the addresses that were provided for the
/// amount that it names.
pub proof fn law_request_is_answered<A>(amount: u8, peers: Vec<A>)
    ensures
        ({
            let request = PsEvent::Received(PsMessage::<A>::ShareRequest { amount });
            let (asking, first) = transition(PeerSharingServer::Idle, request);
            let (after, second) = transition(asking, PsEvent::Provided(peers));
            &&& first.next == PsAction::Provide(amount)
            &&& second.send == Some(PsMessage::SharePeers { peers })
            &&& after == PeerSharingServer::Idle
        }),
{
}

} // verus!
