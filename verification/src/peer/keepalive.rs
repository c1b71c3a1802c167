//! The responder side of KeepAlive: every cookie is echoed.
//!
//! The first message is awaited without a time limit, since a peer starts the
//! protocol only once it has promoted us. After that the protocol's own limit
//! applies, so that a peer that falls silent is noticed.

use vstd::prelude::*;

verus! {

/// The messages of the protocol.
#[derive(Debug, Clone, Copy, PartialEq, Eq, Structural)]
pub enum KaMessage {
    KeepAlive { cookie: u16 },
    KeepAliveResponse { cookie: u16 },
    Done,
}

/// What happened on the connection.
#[derive(Debug, Clone, Copy, PartialEq, Eq, Structural)]
pub enum KaEvent {
    /// A message came in.
    Received(KaMessage),
    /// The connection gave no message any more, or not in time.
    RecvFailed,
    /// The response went out.
    Sent,
    /// The response could not be sent.
    SendFailed,
}

/// Why the protocol ended.
#[derive(Debug, Clone, Copy, PartialEq, Eq, Structural)]
pub enum KaExit {
    SendError,
    ClientDone,
    UnexpectedMessage,
    RecvError,
}

impl KaExit {
    /// The reason as it is reported.
    pub fn as_str(&self) -> (reason: &'static str)
        ensures
            reason@ == (match *self {
                KaExit::SendError => "send-error"@,
                KaExit::ClientDone => "client-done"@,
                KaExit::UnexpectedMessage => "unexpected-message"@,
                KaExit::RecvError => "recv-error"@,
            }),
    {
        match self {
            KaExit::SendError => "send-error",
            KaExit::ClientDone => "client-done",
            KaExit::UnexpectedMessage => "unexpected-message",
            KaExit::RecvError => "recv-error",
        }
    }
}

/// What to do next.
#[derive(Debug, Clone, Copy, PartialEq, Eq, Structural)]
pub enum KaAction {
    /// Wait for a message, with or without a time limit.
    Receive { timed: bool },
    /// Send a message.
    Send(KaMessage),
    /// Leave the protocol.
    Stop(KaExit),
}

/// What the responder is waiting for.
#[derive(Debug, Clone, Copy, PartialEq, Eq, Structural)]
pub enum KaPhase {
    /// A message of the peer.
    Idle,
    /// Word that the response went out.
    Sending,
    /// Nothing any more.
    Stopped(KaExit),
}

/// The state of one connection: how many messages were echoed, up to the largest
/// number, and what the responder is waiting for.
#[derive(Debug, Clone, Copy, PartialEq, Eq, Structural)]
pub struct KeepAliveServer {
    pub msg_count: u64,
    pub phase: KaPhase,
}

/// One more, up to the largest number.
pub open spec fn counted(n: u64) -> u64 {
    if n < u64::MAX {
        (n + 1) as u64
    } else {
        n
    }
}

/// Why an event ends the protocol that is waiting in a phase.
pub open spec fn exit_on(phase: KaPhase, event: KaEvent) -> KaExit {
    match (phase, event) {
        (KaPhase::Stopped(reason), _) => reason,
        (_, KaEvent::Received(KaMessage::Done)) => KaExit::ClientDone,
        (_, KaEvent::Received(_)) => KaExit::UnexpectedMessage,
        (_, KaEvent::RecvFailed) => KaExit::RecvError,
        (_, KaEvent::SendFailed) => KaExit::SendError,
        (_, KaEvent::Sent) => KaExit::UnexpectedMessage,
    }
}

/// The state after an event, and what is to be done.
pub open spec fn transition(server: KeepAliveServer, event: KaEvent) -> (
    KeepAliveServer,
    KaAction,
) {
    match (server.phase, event) {
        (KaPhase::Idle, KaEvent::Received(KaMessage::KeepAlive { cookie })) => (
            KeepAliveServer { msg_count: counted(server.msg_count), phase: KaPhase::Sending },
            KaAction::Send(KaMessage::KeepAliveResponse { cookie }),
        ),
        (KaPhase::Sending, KaEvent::Sent) => (
            KeepAliveServer { phase: KaPhase::Idle, ..server },
            KaAction::Receive { timed: true },
        ),
        (phase, event) => (
            KeepAliveServer { phase: KaPhase::Stopped(exit_on(phase, event)), ..server },
            KaAction::Stop(exit_on(phase, event)),
        ),
    }
}

impl KeepAliveServer {
    /// A connection on which nothing was received yet, and what to do first.
    pub fn new() -> (res: (Self, KaAction))
        ensures
            res.0 == (KeepAliveServer { msg_count: 0, phase: KaPhase::Idle }),
            res.1 == (KaAction::Receive { timed: false }),
    {
        (
            KeepAliveServer { msg_count: 0, phase: KaPhase::Idle },
            KaAction::Receive { timed: false },
        )
    }

    /// Handles an event: what to do next.
    pub fn step(&mut self, event: KaEvent) -> (action: KaAction)
        ensures
            (*final(self), action) == transition(*old(self), event),
    {
        let reason = match (self.phase, event) {
            (KaPhase::Idle, KaEvent::Received(KaMessage::KeepAlive { cookie })) => {
                self.msg_count = self.msg_count.saturating_add(1);
                self.phase = KaPhase::Sending;
                return KaAction::Send(KaMessage::KeepAliveResponse { cookie });
            },
            (KaPhase::Sending, KaEvent::Sent) => {
                self.phase = KaPhase::Idle;
                return KaAction::Receive { timed: true };
            },
            (KaPhase::Stopped(reason), _) => reason,
            (_, KaEvent::Received(KaMessage::Done)) => KaExit::ClientDone,
            (_, KaEvent::Received(_)) => KaExit::UnexpectedMessage,
            (_, KaEvent::RecvFailed) => KaExit::RecvError,
            (_, KaEvent::SendFailed) => KaExit::SendError,
            (_, KaEvent::Sent) => KaExit::UnexpectedMessage,
        };
        self.phase = KaPhase::Stopped(reason);
        KaAction::Stop(reason)
    }
}

/// A cookie comes back as it was sent: whatever is sent is the response to the
/// message just received.
pub proof fn law_cookie_is_echoed(server: KeepAliveServer, event: KaEvent)
    ensures
        transition(server, event).1 matches KaAction::Send(m) ==> {
            &&& event is Received
            &&& event->Received_0 is KeepAlive
            &&& m == (KaMessage::KeepAliveResponse {
                cookie: event->Received_0->KeepAlive_cookie,
            })
        },
{
}

/// The count rises with each message that is echoed, and never otherwise.
pub proof fn law_each_echo_is_counted(server: KeepAliveServer, event: KaEvent)
    ensures
        ({
            let (after, action) = transition(server, event);
            after.msg_count == (if action is Send {
                counted(server.msg_count)
            } else {
                server.msg_count
            })
        }),
{
}

/// Every wait after the first has a time limit.
pub proof fn law_later_waits_are_timed(server: KeepAliveServer, event: KaEvent)
    ensures
        transition(server, event).1 matches KaAction::Receive { timed } ==> timed,
{
}

/// The protocol does not go on once it has ended, and keeps its reason.
pub proof fn law_stopped_is_final(server: KeepAliveServer, event: KaEvent, reason: KaExit)
    requires
        server.phase == KaPhase::Stopped(reason),
    ensures
        transition(server, event) == (server, KaAction::Stop(reason)),
{
}

} // verus!
