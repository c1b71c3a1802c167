//! The responder side of ChainSync: a peer follows our chain header by header.

use crate::behaviour::outbound::{Outbound, OutboundDecision, OwnedOutbound};
use crate::behaviour::Behaviour;
use crate::header::{header_info, is_header_point, WrappedHeader};
use crate::types::{PeerId, Point, Tip};
use vstd::prelude::*;

verus! {

/// The messages of the protocol.
#[derive(Debug, Clone, PartialEq, Eq)]
pub enum CsMessage {
    FindIntersect { points: Vec<Point> },
    IntersectFound { point: Point, tip: Tip },
    IntersectNotFound { tip: Tip },
    RequestNext,
    AwaitReply,
    RollForward { header: WrappedHeader, tip: Tip },
    RollBackward { point: Point, tip: Tip },
    Done,
}

/// The first block after the reader's position.
#[derive(Debug, Clone, PartialEq, Eq)]
pub struct PendingBlock {
    pub point: Point,
    pub header: WrappedHeader,
}

/// What the chain looks like from the reader's position.
#[derive(Debug, Clone, PartialEq, Eq)]
pub struct ChainReading {
    /// Whether the position is still on the chain.
    pub valid: bool,
    /// Where the chain was cut last, if it was.
    pub rollback_target: Option<Point>,
    /// The block that follows the position.
    pub pending: Option<PendingBlock>,
    /// The chain's tip.
    pub tip: Tip,
}

/// What happened on the connection, or what was read for it.
#[derive(Debug, Clone, PartialEq, Eq)]
pub enum CsEvent {
    /// A message came in.
    Received(CsMessage),
    /// The connection gave no message any more.
    RecvFailed,
    /// The first of the peer's points that is on our chain, with our tip.
    Intersection { found: Option<(Point, Tip)>, tip: Tip },
    /// The chain from the reader's position.
    Reading(ChainReading),
    /// The index of a point on our chain.
    Located(Option<usize>),
    /// The chain has changed.
    Changed,
    /// The chain will not change any more.
    Closed,
}

/// What to do next.
#[derive(Debug, Clone, PartialEq, Eq)]
pub enum CsAction {
    /// Wait for a message.
    Receive,
    /// Find the first of the points that is on our chain.
    FindIntersection(Vec<Point>),
    /// Read the chain from the given position.
    ReadChain { index: Option<usize>, point: Option<Point> },
    /// Find the index of a point on our chain.
    Locate(Point),
    /// Send a header on, as the behaviour decides, and wait for a message.
    Forward { header: WrappedHeader, point: Point, tip: Tip },
    /// Wait for the chain to change.
    AwaitChange,
    /// Leave the protocol.
    Stop,
}

/// A message to send first, if any, and what to do next.
#[derive(Debug, Clone, PartialEq, Eq)]
pub struct CsStep {
    pub send: Option<CsMessage>,
    pub next: CsAction,
}

/// A reply that is due once the new position is located.
#[derive(Debug, Clone, PartialEq, Eq)]
pub enum CsReply {
    Found { tip: Tip },
    Back { tip: Tip },
    Forward { header: WrappedHeader, tip: Tip },
}

/// What the responder is waiting for.
#[derive(Debug, Clone, PartialEq, Eq)]
pub enum CsPhase {
    /// A message of the peer.
    Idle,
    /// Where the chains meet.
    Intersecting,
    /// The chain from the reader's position; whether the peer was already told
    /// to wait.
    Reading { told_to_wait: bool },
    /// A change of the chain.
    Waiting,
    /// The index of the reader's new position, and the reply that is due then.
    Locating { point: Point, reply: CsReply },
    /// Nothing any more.
    Stopped,
}

/// The state of one connection: the reader's position, as the index on our chain
/// and the point that stood there, and what the responder is waiting for.
#[derive(Debug, Clone, PartialEq, Eq)]
pub struct ChainSyncServer {
    pub read_index: Option<usize>,
    pub read_point: Option<Point>,
    pub phase: CsPhase,
}

impl ChainSyncServer {
    /// The same position, in another phase.
    pub open spec fn entering(self, phase: CsPhase) -> ChainSyncServer {
        ChainSyncServer { phase, ..self }
    }

    /// A connection on which nothing was received yet.
    pub fn new() -> (server: Self)
        ensures
            server == (ChainSyncServer {
                read_index: None,
                read_point: None,
                phase: CsPhase::Idle,
            }),
    {
        ChainSyncServer { read_index: None, read_point: None, phase: CsPhase::Idle }
    }

    /// Handles an event: the state after it, what to send, and what to do next.
    pub fn step(self, event: CsEvent) -> (res: (ChainSyncServer, CsStep))
        ensures
            res == transition(self, event),
    {
        let ChainSyncServer { read_index, read_point, phase } = self;
        match (phase, event) {
            (CsPhase::Idle, CsEvent::Received(CsMessage::FindIntersect { points })) => (
                ChainSyncServer { read_index, read_point, phase: CsPhase::Intersecting },
                CsStep { send: None, next: CsAction::FindIntersection(points) },
            ),
            (CsPhase::Idle, CsEvent::Received(CsMessage::RequestNext)) => (
                ChainSyncServer {
                    read_index,
                    read_point,
                    phase: CsPhase::Reading { told_to_wait: false },
                },
                CsStep {
                    send: None,
                    next: CsAction::ReadChain { index: read_index, point: read_point },
                },
            ),
            (CsPhase::Intersecting, CsEvent::Intersection { found, tip }) => match found {
                Some((point, tip)) => (
                    ChainSyncServer {
                        read_index,
                        read_point,
                        phase: CsPhase::Locating { point, reply: CsReply::Found { tip } },
                    },
                    CsStep { send: None, next: CsAction::Locate(point) },
                ),
                None => (
                    ChainSyncServer { read_index, read_point, phase: CsPhase::Idle },
                    CsStep {
                        send: Some(CsMessage::IntersectNotFound { tip }),
                        next: CsAction::Receive,
                    },
                ),
            },
            (CsPhase::Reading { told_to_wait }, CsEvent::Reading(reading)) => {
                let ChainReading { valid, rollback_target, pending, tip } = reading;
                if !valid {
                    let point = match rollback_target {
                        Some(point) => point,
                        None => Point::Origin,
                    };
                    return (
                        ChainSyncServer {
                            read_index,
                            read_point,
                            phase: CsPhase::Locating { point, reply: CsReply::Back { tip } },
                        },
                        CsStep { send: None, next: CsAction::Locate(point) },
                    );
                }
                match pending {
                    Some(PendingBlock { point, header }) => (
                        ChainSyncServer {
                            read_index,
                            read_point,
                            phase: CsPhase::Locating {
                                point,
                                reply: CsReply::Forward { header, tip },
                            },
                        },
                        CsStep { send: None, next: CsAction::Locate(point) },
                    ),
                    None => {
                        let send = if told_to_wait {
                            None
                        } else {
                            Some(CsMessage::AwaitReply)
                        };
                        (
                            ChainSyncServer { read_index, read_point, phase: CsPhase::Waiting },
                            CsStep { send, next: CsAction::AwaitChange },
                        )
                    },
                }
            },
            (CsPhase::Waiting, CsEvent::Changed) => (
                ChainSyncServer {
                    read_index,
                    read_point,
                    phase: CsPhase::Reading { told_to_wait: true },
                },
                CsStep {
                    send: None,
                    next: CsAction::ReadChain { index: read_index, point: read_point },
                },
            ),
            (CsPhase::Locating { point, reply }, CsEvent::Located(index)) => {
                let server = ChainSyncServer {
                    read_index: index,
                    read_point: Some(point),
                    phase: CsPhase::Idle,
                };
                match reply {
                    CsReply::Found { tip } => (
                        server,
                        CsStep {
                            send: Some(CsMessage::IntersectFound { point, tip }),
                            next: CsAction::Receive,
                        },
                    ),
                    CsReply::Back { tip } => (
                        server,
                        CsStep {
                            send: Some(CsMessage::RollBackward { point, tip }),
                            next: CsAction::Receive,
                        },
                    ),
                    CsReply::Forward { header, tip } => (
                        server,
                        CsStep { send: None, next: CsAction::Forward { header, point, tip } },
                    ),
                }
            },
            _ => (
                ChainSyncServer { read_index, read_point, phase: CsPhase::Stopped },
                CsStep { send: None, next: CsAction::Stop },
            ),
        }
    }
}

/// Where a reader goes whose position is no longer on the chain.
pub open spec fn fork_point(reading: ChainReading) -> Point {
    match reading.rollback_target {
        Some(point) => point,
        None => Point::Origin,
    }
}

/// What follows from reading the chain: back to the fork point where the
/// position is gone, forward to the next block where there is one, else wait.
pub open spec fn on_reading(
    server: ChainSyncServer,
    told_to_wait: bool,
    reading: ChainReading,
) -> (ChainSyncServer, CsStep) {
    if !reading.valid {
        (
            server.entering(
                CsPhase::Locating {
                    point: fork_point(reading),
                    reply: CsReply::Back { tip: reading.tip },
                },
            ),
            CsStep { send: None, next: CsAction::Locate(fork_point(reading)) },
        )
    } else if let Some(block) = reading.pending {
        (
            server.entering(
                CsPhase::Locating {
                    point: block.point,
                    reply: CsReply::Forward { header: block.header, tip: reading.tip },
                },
            ),
            CsStep { send: None, next: CsAction::Locate(block.point) },
        )
    } else {
        (
            server.entering(CsPhase::Waiting),
            CsStep {
                send: if told_to_wait {
                    None
                } else {
                    Some(CsMessage::AwaitReply)
                },
                next: CsAction::AwaitChange,
            },
        )
    }
}

/// The reply once the reader's new position is located.
pub open spec fn on_located(point: Point, reply: CsReply) -> CsStep {
    match reply {
        CsReply::Found { tip } => CsStep {
            send: Some(CsMessage::IntersectFound { point, tip }),
            next: CsAction::Receive,
        },
        CsReply::Back { tip } => CsStep {
            send: Some(CsMessage::RollBackward { point, tip }),
            next: CsAction::Receive,
        },
        CsReply::Forward { header, tip } => CsStep {
            send: None,
            next: CsAction::Forward { header, point, tip },
        },
    }
}

/// The state after an event, and what is to be done. An event that does not fit
/// the phase ends the protocol, as does every message that a peer may not send.
pub open spec fn transition(server: ChainSyncServer, event: CsEvent) -> (ChainSyncServer, CsStep) {
    let read_chain = CsStep {
        send: None,
        next: CsAction::ReadChain { index: server.read_index, point: server.read_point },
    };
    match (server.phase, event) {
        (CsPhase::Idle, CsEvent::Received(CsMessage::FindIntersect { points })) => (
            server.entering(CsPhase::Intersecting),
            CsStep { send: None, next: CsAction::FindIntersection(points) },
        ),
        (CsPhase::Intersecting, CsEvent::Intersection { found: Some((point, tip)), .. }) => (
            server.entering(CsPhase::Locating { point, reply: CsReply::Found { tip } }),
            CsStep { send: None, next: CsAction::Locate(point) },
        ),
        (CsPhase::Intersecting, CsEvent::Intersection { found: None, tip }) => (
            server.entering(CsPhase::Idle),
            CsStep {
                send: Some(CsMessage::IntersectNotFound { tip }),
                next: CsAction::Receive,
            },
        ),
        (CsPhase::Idle, CsEvent::Received(CsMessage::RequestNext)) => (
            server.entering(CsPhase::Reading { told_to_wait: false }),
            read_chain,
        ),
        (CsPhase::Waiting, CsEvent::Changed) => (
            server.entering(CsPhase::Reading { told_to_wait: true }),
            read_chain,
        ),
        (CsPhase::Reading { told_to_wait }, CsEvent::Reading(reading)) => on_reading(
            server,
            told_to_wait,
            reading,
        ),
        (CsPhase::Locating { point, reply }, CsEvent::Located(index)) => (
            ChainSyncServer { read_index: index, read_point: Some(point), phase: CsPhase::Idle },
            on_located(point, reply),
        ),
        _ => (
            server.entering(CsPhase::Stopped),
            CsStep { send: None, next: CsAction::Stop },
        ),
    }
}

/// The states that a list of events leads through: the last one, and the steps.
pub open spec fn run(server: ChainSyncServer, events: Seq<CsEvent>) -> (
    ChainSyncServer,
    Seq<CsStep>,
)
    decreases events.len(),
{
    if events.len() == 0 {
        (server, Seq::empty())
    } else {
        let (before, steps) = run(server, events.drop_last());
        let (after, step) = transition(before, events.last());
        (after, steps.push(step))
    }
}

/// How many of the events are requests for the next header.
pub open spec fn requests(events: Seq<CsEvent>) -> nat
    decreases events.len(),
{
    if events.len() == 0 {
        0
    } else {
        requests(events.drop_last()) + if events.last() == CsEvent::Received(
            CsMessage::RequestNext,
        ) {
            1nat
        } else {
            0
        }
    }
}

/// Whether a step answers a request for the next header.
pub open spec fn is_answer(step: CsStep) -> bool {
    step.next is Forward || (step.send matches Some(m) && m is RollBackward)
}

/// How many of the steps answer a request.
pub open spec fn answers(steps: Seq<CsStep>) -> nat
    decreases steps.len(),
{
    if steps.len() == 0 {
        0
    } else {
        answers(steps.drop_last()) + if is_answer(steps.last()) {
            1nat
        } else {
            0
        }
    }
}

/// How many of the steps tell the peer to wait.
pub open spec fn waits_told(steps: Seq<CsStep>) -> nat
    decreases steps.len(),
{
    if steps.len() == 0 {
        0
    } else {
        waits_told(steps.drop_last()) + if steps.last().send == Some(CsMessage::AwaitReply) {
            1nat
        } else {
            0
        }
    }
}

/// How many answers are owed in a phase.
pub open spec fn owed(phase: CsPhase) -> nat {
    match phase {
        CsPhase::Reading { .. } => 1,
        CsPhase::Waiting => 1,
        CsPhase::Locating { reply: CsReply::Found { .. }, .. } => 0,
        CsPhase::Locating { .. } => 1,
        _ => 0,
    }
}

/// Each request for the next header gets one answer: as long as the protocol has
/// not ended, the answers given and the one that is owed are as many as the
/// requests. A peer is told to wait at most once for each request.
pub proof fn law_each_request_is_answered_once(server: ChainSyncServer, events: Seq<CsEvent>)
    requires
        server.phase is Idle,
        !(run(server, events).0.phase is Stopped),
    ensures
        ({
            let (after, steps) = run(server, events);
            &&& requests(events) == answers(steps) + owed(after.phase)
            &&& waits_told(steps) + (if after.phase == (CsPhase::Reading { told_to_wait: false }) {
                1nat
            } else {
                0
            }) <= requests(events)
        }),
    decreases events.len(),
{
    if events.len() > 0 {
        let (before, steps) = run(server, events.drop_last());
        let (after, step) = transition(before, events.last());
        assert(steps.push(step).drop_last() =~= steps);
        law_each_request_is_answered_once(server, events.drop_last());
    }
}

/// The protocol does not go on once it has ended.
pub proof fn law_stopped_is_final(server: ChainSyncServer, event: CsEvent)
    requires
        server.phase is Stopped,
    ensures
        transition(server, event) == (server, CsStep { send: None, next: CsAction::Stop }),
{
}

/// The reader's position is where the peer was last told to be: a step that
/// names a point to the peer moves the position there, and every other step
/// leaves it. Where no point of the peer's is on our chain it stays, too.
pub proof fn law_position_is_what_was_told(server: ChainSyncServer, event: CsEvent)
    ensures
        ({
            let (after, step) = transition(server, event);
            match (step.send, step.next) {
                (Some(CsMessage::IntersectFound { point, .. }), _) => after.read_point == Some(
                    point,
                ),
                (Some(CsMessage::RollBackward { point, .. }), _) => after.read_point == Some(point),
                (_, CsAction::Forward { point, .. }) => after.read_point == Some(point),
                _ => after.read_point == server.read_point && after.read_index
                    == server.read_index,
            }
        }),
{
}

/// A peer whose position has left the chain is sent back to where the chain was
/// cut, or to the origin, and not forward.
pub proof fn law_lost_position_rolls_back(
    server: ChainSyncServer,
    reading: ChainReading,
    index: Option<usize>,
)
    requires
        server.phase is Reading,
        !reading.valid,
    ensures
        ({
            let (middle, _) = transition(server, CsEvent::Reading(reading));
            let (after, step) = transition(middle, CsEvent::Located(index));
            &&& step.send == Some(
                CsMessage::RollBackward { point: fork_point(reading), tip: reading.tip },
            )
            &&& after.read_point == Some(fork_point(reading))
            &&& after.read_index == index
        }),
{
}

/// A header that a behaviour lets through or puts in place: read anew from its
/// bytes, with the tip that it names where it can be read, at the number of the
/// tip that it stands for.
pub open spec fn is_forward_of(message: CsMessage, bytes: Seq<u8>, tip: Tip) -> bool {
    &&& message is RollForward
    &&& message->header.raw@ == bytes
    &&& message->header.info == header_info(bytes)
    &&& match header_info(bytes) {
        Some(_) => is_header_point(bytes, Some(message->RollForward_tip.point))
            && message->RollForward_tip.block_no == tip.block_no,
        None => message->RollForward_tip == tip,
    }
}

/// The headers among artefacts, in order. ChainSync has no form for others.
pub open spec fn header_artefacts(extras: Seq<OwnedOutbound>) -> Seq<Seq<u8>>
    decreases extras.len(),
{
    if extras.len() == 0 {
        Seq::empty()
    } else {
        match extras.last() {
            OwnedOutbound::RbHeader { header, .. } => header_artefacts(extras.drop_last()).push(
                header@,
            ),
            _ => header_artefacts(extras.drop_last()),
        }
    }
}

/// Whether the messages are what a decision on a header makes of it.
pub open spec fn carries_out(
    messages: Seq<CsMessage>,
    header: WrappedHeader,
    tip: Tip,
    decision: OutboundDecision,
) -> bool {
    let original = CsMessage::RollForward { header, tip };
    match decision {
        OutboundDecision::Send => messages == seq![original],
        OutboundDecision::Drop => messages.len() == 0,
        OutboundDecision::Replace(OwnedOutbound::RbHeader { header: bytes, .. }) => messages.len()
            == 1 && is_forward_of(messages[0], bytes@, tip),
        OutboundDecision::Replace(_) => messages.len() == 0,
        OutboundDecision::Augment(extras) => {
            &&& messages.len() == 1 + header_artefacts(extras@).len()
            &&& messages[0] == original
            &&& forall|k: int|
                1 <= k < messages.len() ==> is_forward_of(
                    #[trigger] messages[k],
                    header_artefacts(extras@)[k - 1],
                    tip,
                )
        },
    }
}

/// The message that sends on a header from its bytes.
fn forward_bytes(bytes: Vec<u8>, tip: Tip) -> (message: CsMessage)
    ensures
        is_forward_of(message, bytes@, tip),
{
    let header = WrappedHeader::new(bytes);
    let tip = match header.point() {
        Some(point) => Tip { point, block_no: tip.block_no },
        None => tip,
    };
    CsMessage::RollForward { header, tip }
}

/// The messages that a decision on a header makes of it: the header as it is, no
/// message, another header, or the header followed by others. A header that
/// takes its place or follows it is sent with the tip that it names itself; its
/// number stays, since all stand at the same position of the chain.
pub fn carry_out(header: WrappedHeader, tip: Tip, decision: OutboundDecision) -> (messages: Vec<
    CsMessage,
>)
    ensures
        carries_out(messages@, header, tip, decision),
{
    let mut messages: Vec<CsMessage> = Vec::new();
    match decision {
        OutboundDecision::Send => {
            messages.push(CsMessage::RollForward { header, tip });
            assert(messages@ =~= seq![CsMessage::RollForward { header, tip }]);
        },
        OutboundDecision::Drop => {},
        OutboundDecision::Replace(other) => {
            if let OwnedOutbound::RbHeader { header: bytes, .. } = other {
                messages.push(forward_bytes(bytes, tip));
            }
        },
        OutboundDecision::Augment(extras) => {
            messages.push(CsMessage::RollForward { header, tip });
            let mut i: usize = 0;
            assert(extras@.take(0) =~= Seq::<OwnedOutbound>::empty());
            while i < extras.len()
                invariant
                    i <= extras@.len(),
                    messages@.len() == 1 + header_artefacts(extras@.take(i as int)).len(),
                    messages@[0] == (CsMessage::RollForward { header, tip }),
                    forall|k: int|
                        1 <= k < messages@.len() ==> is_forward_of(
                            #[trigger] messages@[k],
                            header_artefacts(extras@.take(i as int))[k - 1],
                            tip,
                        ),
                decreases extras@.len() - i,
            {
                assert(extras@.take(i + 1).drop_last() =~= extras@.take(i as int));
                if let OwnedOutbound::RbHeader { header: bytes, .. } = &extras[i] {
                    let copy = bytes.clone();
                    assert(copy@ =~= bytes@);
                    messages.push(forward_bytes(copy, tip));
                }
                i += 1;
            }
            assert(extras@.take(extras@.len() as int) =~= extras@);
        },
    }
    messages
}

/// The slot of a point; the origin counts as slot zero.
pub open spec fn slot_of(point: Point) -> u64 {
    match point {
        Point::Specific { slot, .. } => slot,
        Point::Origin => 0,
    }
}

/// Whether an artefact is a header as a behaviour is asked to decide on it: its
/// bytes, and the slot of its block.
pub open spec fn is_header_artefact(
    out: Outbound<'_>,
    header: WrappedHeader,
    block_point: Point,
) -> bool {
    out matches Outbound::RbHeader { slot, header: bytes } && slot == slot_of(block_point)
        && bytes@ == header.raw@
}

/// What a behaviour is asked to decide on: the header's bytes, and the slot of
/// its block.
pub fn header_artefact<'a>(header: &'a WrappedHeader, block_point: &Point) -> (out: Outbound<'a>)
    ensures
        is_header_artefact(out, *header, *block_point),
{
    let slot = match block_point {
        Point::Specific { slot, .. } => *slot,
        Point::Origin => 0,
    };
    Outbound::RbHeader { slot, header: header.raw.as_slice() }
}

/// The messages for a header that is to be sent on to `peer`: the header as it is
/// where there is no behaviour, else what the behaviour decides for this peer,
/// this header and the slot of its block. The behaviour is asked once, and is
/// left as that leaves it.
pub fn send_roll_forward<B: Behaviour>(
    header: WrappedHeader,
    block_point: &Point,
    tip: Tip,
    peer: PeerId,
    behaviour: Option<&mut B>,
) -> (messages: Vec<CsMessage>)
    ensures
        behaviour is None ==> carries_out(messages@, header, tip, OutboundDecision::Send),
        behaviour matches Some(b) ==> exists|
            r: &mut B,
            out: Outbound<'_>,
            decision: OutboundDecision,
        |
            #![trigger call_ensures(B::transform_outbound, (r, peer, out), decision)]
            call_ensures(B::transform_outbound, (r, peer, out), decision) && *r == *b
                && *final(r) == *final(b) && is_header_artefact(out, header, *block_point) && carries_out(
                messages@,
                header,
                tip,
                decision,
            ),
{
    let decision = match behaviour {
        Some(b) => b.transform_outbound(peer, header_artefact(&header, block_point)),
        None => OutboundDecision::Send,
    };
    carry_out(header, tip, decision)
}

/// Whatever a behaviour decides, every header goes out with the block number of
/// the tip that was to be sent.
pub proof fn law_block_number_stays(
    messages: Seq<CsMessage>,
    header: WrappedHeader,
    tip: Tip,
    decision: OutboundDecision,
    k: int,
)
    requires
        carries_out(messages, header, tip, decision),
        0 <= k < messages.len(),
    ensures
        messages[k] is RollForward,
        messages[k]->RollForward_tip.block_no == tip.block_no,
{
}

} // verus!
