//! How a peer is offered Leios data.

use crate::peer::leios_notify::{
    deliverable, is_first_deliverable, is_step, says, LeiosNotification, LeiosNotifyServer,
    LnAction, LnEvent, LnMessage, LnPhase, NotificationEntry,
};
use vstd::prelude::*;

verus! {

/// A peer is offered the first entry of the queue that it is not a source of, in
/// the message that says what the entry says, and its place moves behind it.
pub proof fn law_first_offer_for_the_peer_goes_out(
    server: LeiosNotifyServer,
    start: usize,
    entries: Vec<NotificationEntry>,
    after: LeiosNotifyServer,
    action: LnAction,
    k: int,
)
    requires
        server.phase == LnPhase::Reading,
        start + entries@.len() <= usize::MAX,
        is_step(server, LnEvent::Pending { start, entries }, after, action),
        0 <= k < entries@.len(),
        !entries@[k].sources@.contains(server.peer),
        forall|j: int|
            0 <= j < k ==> (#[trigger] entries@[j]).sources@.contains(server.peer),
    ensures
        action is Send,
        says(action->Send_0, entries@[k].notification),
        after == (LeiosNotifyServer {
            peer: server.peer,
            read_index: Some((start + k + 1) as usize),
            phase: LnPhase::Sending,
        }),
{
    assert(deliverable(entries@[k], server.peer));
    match action {
        LnAction::Send(message) => {
            let i = choose|i: int| #[trigger]
                is_first_deliverable(entries@, server.peer, i) && says(
                    message,
                    entries@[i].notification,
                ) && after.read_index == Some((start + i + 1) as usize);
            if i < k {
                assert(entries@[i].sources@.contains(server.peer));
            }
            if k < i {
                assert(!deliverable(entries@[k], server.peer));
            }
        },
        _ => {},
    }
}

/// Where the peer is a source of every entry, nothing is sent; its place moves
/// behind all of them, and the responder waits for the queue to change.
pub proof fn law_nothing_goes_out_to_a_source(
    server: LeiosNotifyServer,
    start: usize,
    entries: Vec<NotificationEntry>,
    after: LeiosNotifyServer,
    action: LnAction,
)
    requires
        server.phase == LnPhase::Reading,
        start + entries@.len() <= usize::MAX,
        is_step(server, LnEvent::Pending { start, entries }, after, action),
        forall|j: int|
            0 <= j < entries@.len() ==> (#[trigger] entries@[j]).sources@.contains(server.peer),
    ensures
        action == LnAction::AwaitChange,
        after == (LeiosNotifyServer {
            peer: server.peer,
            read_index: Some((start + entries@.len()) as usize),
            phase: LnPhase::Waiting,
        }),
{
    if let LnAction::Send(message) = action {
        let i = choose|i: int| #[trigger]
            is_first_deliverable(entries@, server.peer, i) && says(
                message,
                entries@[i].notification,
            );
        assert(entries@[i].sources@.contains(server.peer));
    }
}

/// The message for an entry says what the entry says: the point and the size of a
/// block, the point of a block's transactions, or all the votes in order.
pub proof fn law_offer_says_what_the_entry_says(
    message: LnMessage,
    notification: LeiosNotification,
    k: int,
)
    requires
        says(message, notification),
    ensures
        notification matches LeiosNotification::BlockOffer { point, eb_size } ==> message == (
        LnMessage::BlockOffer { point, eb_size }),
        notification matches LeiosNotification::BlockTxsOffer { point } ==> message == (
        LnMessage::BlockTxsOffer { point }),
        notification matches LeiosNotification::Votes { votes } ==> {
            &&& message is Votes
            &&& message->votes@.len() == votes@.len()
            &&& 0 <= k < votes@.len() ==> message->votes@[k]@ == votes@[k]@
        },
{
}

/// A request leads to the peer's place in the queue; on the first one the queue is
/// counted, and the place is behind all that is in it. While the peer waits, a
/// change of the queue leads there again, and once an offer went out the responder
/// waits for the next request.
pub proof fn law_peer_reads_on_from_its_place(
    server: LeiosNotifyServer,
    event: LnEvent,
    after: LeiosNotifyServer,
    action: LnAction,
    place: usize,
)
    requires
        is_step(server, event, after, action),
    ensures
        after.peer == server.peer,
        server.phase == LnPhase::Idle && event == LnEvent::Received(LnMessage::RequestNext)
            && server.read_index == Some(place) ==> action == LnAction::ReadFrom(place)
            && after.phase == LnPhase::Reading && after.read_index == Some(place),
        server.phase == LnPhase::Idle && event == LnEvent::Received(LnMessage::RequestNext)
            && server.read_index is None ==> action == LnAction::Count && after.phase
            == LnPhase::Counting && after.read_index is None,
        server.phase == LnPhase::Counting && event == LnEvent::Count(place) ==> action
            == LnAction::ReadFrom(place) && after.phase == LnPhase::Reading && after.read_index
            == Some(place),
        server.phase == LnPhase::Waiting && event == LnEvent::Changed && server.read_index == Some(
            place,
        ) ==> action == LnAction::ReadFrom(place) && after.phase == LnPhase::Reading
            && after.read_index == Some(place),
        server.phase == LnPhase::Sending && event == LnEvent::Sent ==> action == LnAction::Receive
            && after.phase == LnPhase::Idle && after.read_index == server.read_index,
{
}

/// Whether the responder waits for the event.
pub open spec fn awaits_ln(server: LeiosNotifyServer, event: LnEvent) -> bool {
    ||| server.phase == LnPhase::Idle && event == LnEvent::Received(LnMessage::RequestNext)
    ||| server.phase == LnPhase::Counting && event is Count
    ||| server.phase == LnPhase::Reading && event is Pending
    ||| server.phase == LnPhase::Waiting && event == LnEvent::Changed && server.read_index is Some
    ||| server.phase == LnPhase::Sending && event == LnEvent::Sent
}

/// Any other event ends the protocol; what the responder waits for does not.
pub proof fn law_other_events_end_leios_notify(
    server: LeiosNotifyServer,
    event: LnEvent,
    after: LeiosNotifyServer,
    action: LnAction,
)
    requires
        is_step(server, event, after, action),
    ensures
        if awaits_ln(server, event) {
            action != LnAction::Stop && after.phase != LnPhase::Stopped
        } else {
            action == LnAction::Stop && after.phase == LnPhase::Stopped
        },
{
}

} // verus!
