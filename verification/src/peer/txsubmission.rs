//! The responder side of TxSubmission: we pull transactions from a peer.
//!
//! The peer announces transaction ids on request, we ask for the transactions,
//! and acknowledge the ids with the next request. A request blocks where there
//! is nothing to acknowledge.

use vstd::prelude::*;

verus! {

/// An announced transaction.
#[derive(Debug, Clone, PartialEq, Eq)]
pub struct TxIdAndSize {
    pub tx_id: Vec<u8>,
    pub size: u32,
}

/// The messages of the protocol.
#[derive(Debug, Clone, PartialEq, Eq)]
pub enum TsMessage {
    Init,
    RequestTxIdsBlocking { ack: u16, req: u16 },
    RequestTxIdsNonBlocking { ack: u16, req: u16 },
    ReplyTxIds { tx_ids: Vec<TxIdAndSize> },
    RequestTxs { tx_ids: Vec<Vec<u8>> },
    ReplyTxs { txs: Vec<Vec<u8>> },
    Done,
}

/// What happened on the connection.
#[derive(Debug, Clone, PartialEq, Eq)]
pub enum TsEvent {
    /// A message came in.
    Received(TsMessage),
    /// The connection gave no message any more.
    RecvFailed,
}

/// What to do next.
#[derive(Debug, Clone, Copy, PartialEq, Eq, Structural)]
pub enum TsAction {
    /// Wait for a message.
    Receive,
    /// Leave the protocol.
    Stop,
}

/// The transactions to hand on, in order, then a message to send, if any, and
/// what to do next.
#[derive(Debug, Clone, PartialEq, Eq)]
pub struct TsStep {
    pub deliver: Vec<Vec<u8>>,
    pub send: Option<TsMessage>,
    pub next: TsAction,
}

/// What the responder is waiting for.
#[derive(Debug, Clone, Copy, PartialEq, Eq, Structural)]
pub enum TsPhase {
    /// The peer's first message.
    AwaitInit,
    /// Transaction ids; whether they were asked for again, after an empty reply.
    AwaitIds { again: bool },
    /// The transactions for so many ids.
    AwaitTxs { count: usize },
    /// Nothing any more.
    Stopped,
}

/// The state of one connection: how many ids a request asks for, and what the
/// responder is waiting for.
#[derive(Debug, Clone, Copy, PartialEq, Eq, Structural)]
pub struct TxSubmissionServer {
    pub max_unacked: u16,
    pub phase: TsPhase,
}

/// The request for more ids that acknowledges those outstanding, as far as 16
/// bits can say how many.
pub open spec fn next_request(outstanding: nat, req: u16) -> TsMessage {
    let ack = (outstanding % 0x1_0000) as u16;
    if ack == 0 {
        TsMessage::RequestTxIdsBlocking { ack, req }
    } else {
        TsMessage::RequestTxIdsNonBlocking { ack, req }
    }
}

/// Whether a message asks for the transactions with the announced ids.
pub open spec fn requests_txs(message: TsMessage, announced: Seq<TxIdAndSize>) -> bool {
    message matches TsMessage::RequestTxs { tx_ids } && tx_ids@.len() == announced.len() && forall|
        k: int,
    |
        0 <= k < announced.len() ==> (#[trigger] tx_ids@[k])@ == announced[k].tx_id@
}

/// Whether a step hands on nothing, sends the given message and goes on in the
/// given phase.
pub open spec fn sends_and_awaits(
    step: TsStep,
    send: TsMessage,
    after: TxSubmissionServer,
    phase: TsPhase,
) -> bool {
    &&& step.deliver@.len() == 0
    &&& step.send == Some(send)
    &&& step.next == TsAction::Receive
    &&& after.phase == phase
}

/// Whether a step hands on nothing, sends nothing and ends the protocol.
pub open spec fn stops(step: TsStep, after: TxSubmissionServer) -> bool {
    &&& step.deliver@.len() == 0
    &&& step.send is None
    &&& step.next == TsAction::Stop
    &&& after.phase == TsPhase::Stopped
}

/// What an event leads to. Anything but what is waited for ends the protocol, as
/// does a second empty reply.
pub open spec fn is_step(
    server: TxSubmissionServer,
    event: TsEvent,
    after: TxSubmissionServer,
    step: TsStep,
) -> bool {
    let req = server.max_unacked;
    &&& after.max_unacked == req
    &&& match (server.phase, event) {
        (TsPhase::AwaitInit, TsEvent::Received(TsMessage::Init)) => sends_and_awaits(
            step,
            next_request(0, req),
            after,
            TsPhase::AwaitIds { again: false },
        ),
        (TsPhase::AwaitIds { again }, TsEvent::Received(TsMessage::ReplyTxIds { tx_ids })) => {
            if tx_ids@.len() > 0 {
                &&& step.deliver@.len() == 0
                &&& step.send matches Some(m) && requests_txs(m, tx_ids@)
                &&& step.next == TsAction::Receive
                &&& after.phase is AwaitTxs
                &&& after.phase->count == tx_ids@.len()
            } else if !again {
                sends_and_awaits(
                    step,
                    TsMessage::RequestTxIdsBlocking { ack: 0, req },
                    after,
                    TsPhase::AwaitIds { again: true },
                )
            } else {
                stops(step, after)
            }
        },
        (TsPhase::AwaitTxs { count }, TsEvent::Received(TsMessage::ReplyTxs { txs })) => {
            &&& step.deliver == txs
            &&& step.send == Some(next_request(count as nat, req))
            &&& step.next == TsAction::Receive
            &&& after.phase == (TsPhase::AwaitIds { again: false })
        },
        _ => stops(step, after),
    }
}

impl TxSubmissionServer {
    /// A connection on which nothing was received yet. A request asks for
    /// `max_unacked` ids.
    pub fn new(max_unacked: u16) -> (server: Self)
        ensures
            server == (TxSubmissionServer { max_unacked, phase: TsPhase::AwaitInit }),
    {
        TxSubmissionServer { max_unacked, phase: TsPhase::AwaitInit }
    }

    /// Handles an event: what to hand on and to send, and what to do next.
    pub fn step(&mut self, event: TsEvent) -> (step: TsStep)
        ensures
            is_step(*old(self), event, *final(self), step),
    {
        match (self.phase, event) {
            (TsPhase::AwaitInit, TsEvent::Received(TsMessage::Init)) => {
                self.phase = TsPhase::AwaitIds { again: false };
                TsStep {
                    deliver: Vec::new(),
                    send: Some(request_ids(0, self.max_unacked)),
                    next: TsAction::Receive,
                }
            },
            (TsPhase::AwaitIds { again }, TsEvent::Received(TsMessage::ReplyTxIds { tx_ids })) => {
                if tx_ids.len() > 0 {
                    self.phase = TsPhase::AwaitTxs { count: tx_ids.len() };
                    TsStep {
                        deliver: Vec::new(),
                        send: Some(request_txs(&tx_ids)),
                        next: TsAction::Receive,
                    }
                } else if !again {
                    self.phase = TsPhase::AwaitIds { again: true };
                    TsStep {
                        deliver: Vec::new(),
                        send: Some(
                            TsMessage::RequestTxIdsBlocking { ack: 0, req: self.max_unacked },
                        ),
                        next: TsAction::Receive,
                    }
                } else {
                    self.phase = TsPhase::Stopped;
                    TsStep { deliver: Vec::new(), send: None, next: TsAction::Stop }
                }
            },
            (TsPhase::AwaitTxs { count }, TsEvent::Received(TsMessage::ReplyTxs { txs })) => {
                self.phase = TsPhase::AwaitIds { again: false };
                TsStep {
                    deliver: txs,
                    send: Some(request_ids(count, self.max_unacked)),
                    next: TsAction::Receive,
                }
            },
            _ => {
                self.phase = TsPhase::Stopped;
                TsStep { deliver: Vec::new(), send: None, next: TsAction::Stop }
            },
        }
    }
}

/// The request for more ids that acknowledges those outstanding.
fn request_ids(outstanding: usize, req: u16) -> (message: TsMessage)
    ensures
        message == next_request(outstanding as nat, req),
{
    let ack = (outstanding % 0x1_0000) as u16;
    if ack == 0 {
        TsMessage::RequestTxIdsBlocking { ack, req }
    } else {
        TsMessage::RequestTxIdsNonBlocking { ack, req }
    }
}

/// The request for the transactions with the announced ids.
fn request_txs(announced: &Vec<TxIdAndSize>) -> (message: TsMessage)
    ensures
        requests_txs(message, announced@),
{
    let mut tx_ids: Vec<Vec<u8>> = Vec::new();
    let mut i: usize = 0;
    while i < announced.len()
        invariant
            i <= announced@.len(),
            tx_ids@.len() == i,
            forall|k: int| 0 <= k < i ==> (#[trigger] tx_ids@[k])@ == announced@[k].tx_id@,
        decreases announced@.len() - i,
    {
        let id = announced[i].tx_id.clone();
        assert(id@ =~= announced@[i as int].tx_id@);
        tx_ids.push(id);
        i += 1;
    }
    TsMessage::RequestTxs { tx_ids }
}

/// Whether the states and steps are what the events lead to, one after another.
pub open spec fn is_run(
    states: Seq<TxSubmissionServer>,
    events: Seq<TsEvent>,
    steps: Seq<TsStep>,
) -> bool {
    &&& states.len() == events.len() + 1
    &&& steps.len() == events.len()
    &&& forall|k: int|
        0 <= k < events.len() ==> is_step(
            #[trigger] states[k],
            events[k],
            states[k + 1],
            steps[k],
        )
}

/// How many ids a message announces.
pub open spec fn announced_by(event: TsEvent) -> nat {
    match event {
        TsEvent::Received(TsMessage::ReplyTxIds { tx_ids }) => tx_ids@.len(),
        _ => 0,
    }
}

/// How many ids a step acknowledges.
pub open spec fn acked_by(step: TsStep) -> nat {
    match step.send {
        Some(TsMessage::RequestTxIdsBlocking { ack, .. }) => ack as nat,
        Some(TsMessage::RequestTxIdsNonBlocking { ack, .. }) => ack as nat,
        _ => 0,
    }
}

/// How many ids were announced in all.
pub open spec fn announced_in(events: Seq<TsEvent>) -> nat
    decreases events.len(),
{
    if events.len() == 0 {
        0
    } else {
        announced_in(events.drop_last()) + announced_by(events.last())
    }
}

/// How many ids were acknowledged in all.
pub open spec fn acked_in(steps: Seq<TsStep>) -> nat
    decreases steps.len(),
{
    if steps.len() == 0 {
        0
    } else {
        acked_in(steps.drop_last()) + acked_by(steps.last())
    }
}

/// How many announced ids are not acknowledged yet in a phase.
pub open spec fn unacked(phase: TsPhase) -> nat {
    match phase {
        TsPhase::AwaitTxs { count } => count as nat,
        _ => 0,
    }
}

/// Every announced id is acknowledged once: as long as the protocol has not
/// ended and no reply announces more ids than 16 bits can acknowledge, the ids
/// acknowledged and those of the batch at hand are as many as were announced.
pub proof fn law_each_id_is_acked_once(
    states: Seq<TxSubmissionServer>,
    events: Seq<TsEvent>,
    steps: Seq<TsStep>,
)
    requires
        is_run(states, events, steps),
        states[0].phase == TsPhase::AwaitInit,
        states.last().phase != TsPhase::Stopped,
        forall|k: int| 0 <= k < events.len() ==> announced_by(#[trigger] events[k]) <= u16::MAX,
    ensures
        announced_in(events) == acked_in(steps) + unacked(states.last().phase),
        unacked(states.last().phase) <= u16::MAX,
    decreases events.len(),
{
    if events.len() > 0 {
        let n = events.len() - 1;
        let (before, after) = (states[n], states[n + 1]);
        assert(is_step(before, events[n], after, steps[n]));
        let (s, e, t) = (states.drop_last(), events.drop_last(), steps.drop_last());
        assert(is_run(s, e, t)) by {
            assert forall|k: int| 0 <= k < e.len() implies is_step(
                #[trigger] s[k],
                e[k],
                s[k + 1],
                t[k],
            ) by {
                assert(is_step(states[k], events[k], states[k + 1], steps[k]));
            }
        }
        assert(forall|k: int| 0 <= k < e.len() ==> #[trigger] e[k] == events[k]);
        law_each_id_is_acked_once(s, e, t);
        assert(announced_by(events[n]) <= u16::MAX);
    }
}

/// A request for ids blocks if and only if it acknowledges none.
pub proof fn law_blocks_iff_nothing_to_ack(outstanding: nat, req: u16)
    requires
        outstanding <= u16::MAX,
    ensures
        next_request(outstanding, req) is RequestTxIdsBlocking <==> outstanding == 0,
{
}

/// The protocol does not go on once it has ended.
pub proof fn law_stopped_is_final(
    server: TxSubmissionServer,
    event: TsEvent,
    after: TxSubmissionServer,
    step: TsStep,
)
    requires
        server.phase == TsPhase::Stopped,
        is_step(server, event, after, step),
    ensures
        after == server,
        step.send is None,
        step.deliver@.len() == 0,
{
}

} // verus!
