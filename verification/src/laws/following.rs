//! How a peer is led along our chain.

use crate::behaviour::outbound::{Outbound, OutboundDecision, OwnedOutbound};
use crate::header::{blake2b_256_digest, header_info, WrappedHeader};
use crate::peer::chainsync::{
    carries_out, header_artefacts, is_forward_of, is_header_artefact, transition, ChainReading,
    ChainSyncServer, CsAction, CsEvent, CsMessage, CsPhase, CsStep, PendingBlock,
};
use crate::types::{Point, Tip};
use vstd::prelude::*;

verus! {

/// A search for a common point is answered: the peer's own points are looked up,
/// and the peer is told the one that was found, with the tip that belongs to it,
/// or that none was, with our tip. The reader then stands where the peer was told,
/// and stays where it was otherwise.
pub proof fn law_intersection_is_answered(
    server: ChainSyncServer,
    points: Vec<Point>,
    found: Option<(Point, Tip)>,
    tip: Tip,
    index: Option<usize>,
)
    requires
        server.phase is Idle,
    ensures
        ({
            let request = CsEvent::Received(CsMessage::FindIntersect { points });
            let (searching, first) = transition(server, request);
            let (middle, second) = transition(searching, CsEvent::Intersection { found, tip });
            let (after, third) = transition(middle, CsEvent::Located(index));
            &&& first == (CsStep { send: None, next: CsAction::FindIntersection(points) })
            &&& found is None ==> {
                &&& second == (CsStep {
                    send: Some(CsMessage::IntersectNotFound { tip }),
                    next: CsAction::Receive,
                })
                &&& middle == server
            }
            &&& found matches Some((point, its_tip)) ==> {
                &&& second == (CsStep { send: None, next: CsAction::Locate(point) })
                &&& third == (CsStep {
                    send: Some(CsMessage::IntersectFound { point, tip: its_tip }),
                    next: CsAction::Receive,
                })
                &&& after == (ChainSyncServer {
                    read_index: index,
                    read_point: Some(point),
                    phase: CsPhase::Idle,
                })
            }
        }),
{
}

/// A request for the next header is answered with the block that follows the
/// reader's position: its own header goes on, at its own point, with the tip that
/// was read. The reader then stands at that block.
pub proof fn law_next_header_goes_on(
    server: ChainSyncServer,
    target: Option<Point>,
    point: Point,
    header: WrappedHeader,
    tip: Tip,
    index: Option<usize>,
)
    requires
        server.phase is Idle,
    ensures
        ({
            let reading = ChainReading {
                valid: true,
                rollback_target: target,
                pending: Some(PendingBlock { point, header }),
                tip,
            };
            let (asked, first) = transition(server, CsEvent::Received(CsMessage::RequestNext));
            let (middle, second) = transition(asked, CsEvent::Reading(reading));
            let (after, third) = transition(middle, CsEvent::Located(index));
            &&& first == (CsStep {
                send: None,
                next: CsAction::ReadChain { index: server.read_index, point: server.read_point },
            })
            &&& second == (CsStep { send: None, next: CsAction::Locate(point) })
            &&& third == (CsStep {
                send: None,
                next: CsAction::Forward { header, point, tip },
            })
            &&& after == (ChainSyncServer {
                read_index: index,
                read_point: Some(point),
                phase: CsPhase::Idle,
            })
        }),
{
}

/// A peer at the end of our chain is told to wait, once, and the chain is read
/// again from the same position whenever it changes, until a block follows.
pub proof fn law_peer_waits_for_the_next_block(
    server: ChainSyncServer,
    target: Option<Point>,
    tip: Tip,
    later: ChainReading,
)
    requires
        server.phase is Idle,
    ensures
        ({
            let reading = ChainReading { valid: true, rollback_target: target, pending: None, tip };
            let read = CsStep {
                send: None,
                next: CsAction::ReadChain { index: server.read_index, point: server.read_point },
            };
            let (asked, _) = transition(server, CsEvent::Received(CsMessage::RequestNext));
            let (waiting, second) = transition(asked, CsEvent::Reading(reading));
            let (again, third) = transition(waiting, CsEvent::Changed);
            let (waiting_again, fourth) = transition(again, CsEvent::Reading(reading));
            &&& second == (CsStep {
                send: Some(CsMessage::AwaitReply),
                next: CsAction::AwaitChange,
            })
            &&& third == read
            &&& fourth == (CsStep { send: None, next: CsAction::AwaitChange })
            &&& waiting_again == waiting
            &&& later.valid && later.pending is Some ==> transition(
                again,
                CsEvent::Reading(later),
            ) == transition(asked, CsEvent::Reading(later))
            &&& !later.valid ==> transition(again, CsEvent::Reading(later)) == transition(
                asked,
                CsEvent::Reading(later),
            )
        }),
{
}

/// A peer whose position has left the chain is sent back: to where the chain was
/// cut, or to the origin where that is not known, with the tip that was read.
pub proof fn law_lost_peer_is_sent_back(
    server: ChainSyncServer,
    target: Option<Point>,
    pending: Option<PendingBlock>,
    tip: Tip,
    index: Option<usize>,
)
    requires
        server.phase is Idle,
    ensures
        ({
            let reading = ChainReading { valid: false, rollback_target: target, pending, tip };
            let point = if target is Some {
                target->Some_0
            } else {
                Point::Origin
            };
            let (asked, _) = transition(server, CsEvent::Received(CsMessage::RequestNext));
            let (middle, second) = transition(asked, CsEvent::Reading(reading));
            let (after, third) = transition(middle, CsEvent::Located(index));
            &&& second == (CsStep { send: None, next: CsAction::Locate(point) })
            &&& third == (CsStep {
                send: Some(CsMessage::RollBackward { point, tip }),
                next: CsAction::Receive,
            })
            &&& after == (ChainSyncServer {
                read_index: index,
                read_point: Some(point),
                phase: CsPhase::Idle,
            })
        }),
{
}

/// Whether the responder waits for the event.
pub open spec fn awaits_cs(server: ChainSyncServer, event: CsEvent) -> bool {
    ||| server.phase is Idle && (event matches CsEvent::Received(m) && (m is FindIntersect
        || m is RequestNext))
    ||| server.phase is Intersecting && event is Intersection
    ||| server.phase is Reading && event is Reading
    ||| server.phase is Waiting && event is Changed
    ||| server.phase is Locating && event is Located
}

/// Any other event ends the protocol, without a message; what the responder waits
/// for does not.
pub proof fn law_other_events_end_chain_sync(server: ChainSyncServer, event: CsEvent)
    ensures
        ({
            let (after, step) = transition(server, event);
            if awaits_cs(server, event) {
                step.next != CsAction::Stop && !(after.phase is Stopped)
            } else {
                step.next == CsAction::Stop && step.send is None && after.phase is Stopped
            }
        }),
{
}

/// Whether a message sends a header on from its bytes: read anew, and with the tip
/// at the header's own slot and hash where it can be read, else with the given
/// one; the number is that of the given tip.
pub open spec fn sends_header(message: CsMessage, bytes: Seq<u8>, tip: Tip) -> bool {
    &&& message is RollForward
    &&& message->header.raw@ == bytes
    &&& message->header.info == header_info(bytes)
    &&& message->RollForward_tip.block_no == tip.block_no
    &&& header_info(bytes) matches Some(info) ==> {
        &&& message->RollForward_tip.point is Specific
        &&& message->RollForward_tip.point->slot == info.slot
        &&& message->RollForward_tip.point->hash@ == blake2b_256_digest(bytes)
    }
    &&& header_info(bytes) is None ==> message->RollForward_tip.point == tip.point
}

/// A header that is to be sent goes out alone and as it is, one that is to be
/// dropped does not go out.
pub proof fn law_honest_header_goes_out_as_it_is(
    messages: Seq<CsMessage>,
    header: WrappedHeader,
    tip: Tip,
)
    ensures
        carries_out(messages, header, tip, OutboundDecision::Send) ==> messages.len() == 1
            && messages[0] == (CsMessage::RollForward { header, tip }),
        carries_out(messages, header, tip, OutboundDecision::Drop) ==> messages.len() == 0,
{
}

/// A header that takes the place of another goes out alone; anything else that
/// does cannot be sent.
pub proof fn law_replacement_goes_out_alone(
    messages: Seq<CsMessage>,
    header: WrappedHeader,
    tip: Tip,
    other: OwnedOutbound,
)
    requires
        carries_out(messages, header, tip, OutboundDecision::Replace(other)),
    ensures
        !(other is RbHeader) ==> messages.len() == 0,
        other is RbHeader ==> messages.len() == 1 && sends_header(messages[0], other->header@, tip),
{
}

/// Headers that are added to another follow it, all of them and in order; anything
/// else that is added cannot be sent.
pub proof fn law_additions_follow_the_header(
    messages: Seq<CsMessage>,
    header: WrappedHeader,
    tip: Tip,
    extras: Vec<OwnedOutbound>,
    k: int,
)
    requires
        carries_out(messages, header, tip, OutboundDecision::Augment(extras)),
    ensures
        ({
            let headers = extras@.filter(|extra: OwnedOutbound| extra is RbHeader);
            &&& messages.len() == 1 + headers.len()
            &&& messages[0] == (CsMessage::RollForward { header, tip })
            &&& 0 <= k < headers.len() ==> headers[k] is RbHeader && sends_header(
                messages[k + 1],
                headers[k]->header@,
                tip,
            )
        }),
{
    lemma_header_artefacts(extras@);
    let headers = extras@.filter(|extra: OwnedOutbound| extra is RbHeader);
    if 0 <= k < headers.len() {
        assert(is_forward_of(messages[k + 1], header_artefacts(extras@)[k], tip));
    }
}

/// The headers among artefacts are those that are headers.
proof fn lemma_header_artefacts(extras: Seq<OwnedOutbound>)
    ensures
        ({
            let headers = extras.filter(|extra: OwnedOutbound| extra is RbHeader);
            &&& header_artefacts(extras).len() == headers.len()
            &&& forall|k: int|
                0 <= k < headers.len() ==> (#[trigger] headers[k]) is RbHeader
                    && header_artefacts(extras)[k] == headers[k]->header@
        }),
    decreases extras.len(),
{
    reveal(Seq::filter);
    if extras.len() > 0 {
        lemma_header_artefacts(extras.drop_last());
    }
}

/// A behaviour decides on the header's own bytes and on the slot of its block; the
/// origin counts as slot zero.
pub proof fn law_behaviour_sees_the_header(
    out: Outbound<'_>,
    header: WrappedHeader,
    block_point: Point,
)
    requires
        is_header_artefact(out, header, block_point),
    ensures
        out is RbHeader,
        out->header@ == header.raw@,
        block_point matches Point::Specific { slot, .. } ==> out->slot == slot,
        block_point is Origin ==> out->slot == 0,
{
}

} // verus!
