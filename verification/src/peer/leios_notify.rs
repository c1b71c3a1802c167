//! The responder side of LeiosNotify: we offer a peer what Leios data we have.
//!
//! Offers are kept in a queue. A peer is not offered what it is itself a source
//! of. What was queued before the peer's first request is passed over: it piled
//! up while nobody asked, and is too old to be of use.

use crate::types::{PeerId, Point};
use vstd::prelude::*;

verus! {

/// What can be offered. Votes are opaque.
#[derive(Debug, Clone, PartialEq, Eq)]
pub enum LeiosNotification {
    BlockOffer { point: Point, eb_size: u32 },
    BlockTxsOffer { point: Point },
    Votes { votes: Vec<Vec<u8>> },
}

/// An offer in the queue, with the peers that the data came from.
#[derive(Debug, Clone, PartialEq, Eq)]
pub struct NotificationEntry {
    pub notification: LeiosNotification,
    pub sources: Vec<PeerId>,
}

/// The messages of the protocol.
#[derive(Debug, Clone, PartialEq, Eq)]
pub enum LnMessage {
    RequestNext,
    BlockOffer { point: Point, eb_size: u32 },
    BlockTxsOffer { point: Point },
    Votes { votes: Vec<Vec<u8>> },
    Done,
}

/// What happened on the connection, or what was read for it.
#[derive(Debug, Clone, PartialEq, Eq)]
pub enum LnEvent {
    /// A message came in.
    Received(LnMessage),
    /// The connection gave no message any more.
    RecvFailed,
    /// How many offers were ever queued.
    Count(usize),
    /// The offers from a place in the queue on, and that place: it lies beyond
    /// the place that was asked for where older offers are gone.
    Pending { start: usize, entries: Vec<NotificationEntry> },
    /// The queue has changed.
    Changed,
    /// The queue will not change any more.
    Closed,
    /// The offer went out.
    Sent,
    /// The offer could not be sent.
    SendFailed,
}

/// What to do next.
#[derive(Debug, Clone, PartialEq, Eq)]
pub enum LnAction {
    /// Wait for a message.
    Receive,
    /// Count the offers that were ever queued.
    Count,
    /// Read the offers from a place in the queue on.
    ReadFrom(usize),
    /// Send an offer.
    Send(LnMessage),
    /// Wait for the queue to change.
    AwaitChange,
    /// Leave the protocol.
    Stop,
}

/// What the responder is waiting for.
#[derive(Debug, Clone, Copy, PartialEq, Eq, Structural)]
pub enum LnPhase {
    /// A message of the peer.
    Idle,
    /// How many offers were queued.
    Counting,
    /// The offers from the reader's place on.
    Reading,
    /// A change of the queue.
    Waiting,
    /// Word that the offer went out.
    Sending,
    /// Nothing any more.
    Stopped,
}

/// The state of one connection: the peer, the place in the queue up to which it
/// was served, and what the responder is waiting for.
#[derive(Debug, Clone, Copy, PartialEq, Eq, Structural)]
pub struct LeiosNotifyServer {
    pub peer: PeerId,
    pub read_index: Option<usize>,
    pub phase: LnPhase,
}

/// Whether an offer may go to a peer: the peer is not among its sources.
pub open spec fn deliverable(entry: NotificationEntry, peer: PeerId) -> bool {
    !entry.sources@.contains(peer)
}

/// Whether `k` is the first of the entries that may go to a peer.
pub open spec fn is_first_deliverable(
    entries: Seq<NotificationEntry>,
    peer: PeerId,
    k: int,
) -> bool {
    &&& 0 <= k < entries.len()
    &&& deliverable(entries[k], peer)
    &&& forall|j: int| 0 <= j < k ==> !deliverable(#[trigger] entries[j], peer)
}

/// Whether a message says what an offer says.
pub open spec fn says(message: LnMessage, notification: LeiosNotification) -> bool {
    match notification {
        LeiosNotification::BlockOffer { point, eb_size } => message == (LnMessage::BlockOffer {
            point,
            eb_size,
        }),
        LeiosNotification::BlockTxsOffer { point } => message == (LnMessage::BlockTxsOffer {
            point,
        }),
        LeiosNotification::Votes { votes } => {
            &&& message is Votes
            &&& message->votes@.len() == votes@.len()
            &&& forall|k: int|
                0 <= k < votes@.len() ==> (#[trigger] message->votes@[k])@ == votes@[k]@
        },
    }
}

/// The message for an offer.
pub fn notification_to_ln_msg(n: &LeiosNotification) -> (message: LnMessage)
    ensures
        says(message, *n),
{
    match n {
        LeiosNotification::BlockOffer { point, eb_size } => LnMessage::BlockOffer {
            point: *point,
            eb_size: *eb_size,
        },
        LeiosNotification::BlockTxsOffer { point } => LnMessage::BlockTxsOffer { point: *point },
        LeiosNotification::Votes { votes } => {
            let mut copy: Vec<Vec<u8>> = Vec::new();
            let mut i: usize = 0;
            while i < votes.len()
                invariant
                    i <= votes@.len(),
                    copy@.len() == i,
                    forall|k: int| 0 <= k < i ==> (#[trigger] copy@[k])@ == votes@[k]@,
                decreases votes@.len() - i,
            {
                let vote = votes[i].clone();
                assert(vote@ =~= votes@[i as int]@);
                copy.push(vote);
                i += 1;
            }
            LnMessage::Votes { votes: copy }
        },
    }
}

/// Whether a peer is among the sources.
fn is_source(sources: &Vec<PeerId>, peer: PeerId) -> (found: bool)
    ensures
        found <==> sources@.contains(peer),
{
    let mut i: usize = 0;
    while i < sources.len()
        invariant
            i <= sources@.len(),
            forall|j: int| 0 <= j < i ==> sources@[j] != peer,
        decreases sources@.len() - i,
    {
        if sources[i] == peer {
            return true;
        }
        i += 1;
    }
    false
}

/// The first of the entries that may go to a peer.
pub fn first_deliverable(entries: &Vec<NotificationEntry>, peer: PeerId) -> (res: Option<usize>)
    ensures
        match res {
            Some(k) => is_first_deliverable(entries@, peer, k as int),
            None => forall|j: int|
                0 <= j < entries@.len() ==> !deliverable(#[trigger] entries@[j], peer),
        },
{
    let mut k: usize = 0;
    while k < entries.len()
        invariant
            k <= entries@.len(),
            forall|j: int| 0 <= j < k ==> !deliverable(#[trigger] entries@[j], peer),
        decreases entries@.len() - k,
    {
        if !is_source(&entries[k].sources, peer) {
            return Some(k);
        }
        k += 1;
    }
    None
}

/// What reading the queue leads to: the first offer that may go to the peer is
/// sent, and the place moves past it; where there is none it moves past all.
pub open spec fn is_served(
    server: LeiosNotifyServer,
    start: usize,
    entries: Seq<NotificationEntry>,
    after: LeiosNotifyServer,
    action: LnAction,
) -> bool {
    match action {
        LnAction::Send(message) => after.phase == LnPhase::Sending && exists|k: int| #[trigger]
            is_first_deliverable(entries, server.peer, k) && says(message, entries[k].notification)
                && after.read_index == Some((start + k + 1) as usize),
        LnAction::AwaitChange => {
            &&& forall|j: int|
                0 <= j < entries.len() ==> !deliverable(#[trigger] entries[j], server.peer)
            &&& after.phase == LnPhase::Waiting
            &&& after.read_index == Some((start + entries.len()) as usize)
        },
        _ => false,
    }
}

/// What an event leads to.
pub open spec fn is_step(
    server: LeiosNotifyServer,
    event: LnEvent,
    after: LeiosNotifyServer,
    action: LnAction,
) -> bool {
    &&& after.peer == server.peer
    &&& match (server.phase, event) {
        (LnPhase::Reading, LnEvent::Pending { start, entries }) => is_served(
            server,
            start,
            entries@,
            after,
            action,
        ),
        (LnPhase::Counting, LnEvent::Count(count)) => {
            &&& after.read_index == Some(count)
            &&& after.phase == LnPhase::Reading
            &&& action == LnAction::ReadFrom(count)
        },
        (phase, event) => {
            &&& after.read_index == server.read_index
            &&& (after.phase, action) == plain_step(phase, event, server.read_index)
        },
    }
}

/// What an event leads to that does not move the place in the queue.
pub open spec fn plain_step(phase: LnPhase, event: LnEvent, place: Option<usize>) -> (
    LnPhase,
    LnAction,
) {
    match (phase, event, place) {
        (LnPhase::Idle, LnEvent::Received(LnMessage::RequestNext), None) => (
            LnPhase::Counting,
            LnAction::Count,
        ),
        (LnPhase::Idle, LnEvent::Received(LnMessage::RequestNext), Some(i)) => (
            LnPhase::Reading,
            LnAction::ReadFrom(i),
        ),
        (LnPhase::Waiting, LnEvent::Changed, Some(i)) => (LnPhase::Reading, LnAction::ReadFrom(i)),
        (LnPhase::Sending, LnEvent::Sent, _) => (LnPhase::Idle, LnAction::Receive),
        _ => (LnPhase::Stopped, LnAction::Stop),
    }
}

impl LeiosNotifyServer {
    /// A connection on which nothing was received yet.
    pub fn new(peer: PeerId) -> (server: Self)
        ensures
            server == (LeiosNotifyServer { peer, read_index: None, phase: LnPhase::Idle }),
    {
        LeiosNotifyServer { peer, read_index: None, phase: LnPhase::Idle }
    }

    /// Handles an event: what to do next. The queue may not be longer than its
    /// places can be numbered.
    pub fn step(&mut self, event: LnEvent) -> (action: LnAction)
        requires
            event matches LnEvent::Pending { start, entries } ==> start + entries@.len()
                <= usize::MAX,
        ensures
            is_step(*old(self), event, *final(self), action),
    {
        match (self.phase, event, self.read_index) {
            (LnPhase::Idle, LnEvent::Received(LnMessage::RequestNext), None) => {
                self.phase = LnPhase::Counting;
                LnAction::Count
            },
            (LnPhase::Idle, LnEvent::Received(LnMessage::RequestNext), Some(i)) => {
                self.phase = LnPhase::Reading;
                LnAction::ReadFrom(i)
            },
            (LnPhase::Counting, LnEvent::Count(count), _) => {
                self.read_index = Some(count);
                self.phase = LnPhase::Reading;
                LnAction::ReadFrom(count)
            },
            (LnPhase::Reading, LnEvent::Pending { start, entries }, _) => {
                match first_deliverable(&entries, self.peer) {
                    Some(k) => {
                        self.read_index = Some(start + k + 1);
                        self.phase = LnPhase::Sending;
                        LnAction::Send(notification_to_ln_msg(&entries[k].notification))
                    },
                    None => {
                        self.read_index = Some(start + entries.len());
                        self.phase = LnPhase::Waiting;
                        LnAction::AwaitChange
                    },
                }
            },
            (LnPhase::Waiting, LnEvent::Changed, Some(i)) => {
                self.phase = LnPhase::Reading;
                LnAction::ReadFrom(i)
            },
            (LnPhase::Sending, LnEvent::Sent, _) => {
                self.phase = LnPhase::Idle;
                LnAction::Receive
            },
            _ => {
                self.phase = LnPhase::Stopped;
                LnAction::Stop
            },
        }
    }
}

/// A peer is never offered what it is a source of.
pub proof fn law_no_echo_to_source(
    server: LeiosNotifyServer,
    start: usize,
    entries: Vec<NotificationEntry>,
    after: LeiosNotifyServer,
    message: LnMessage,
)
    requires
        server.phase == LnPhase::Reading,
        is_step(
            server,
            LnEvent::Pending { start, entries },
            after,
            LnAction::Send(message),
        ),
    ensures
        exists|k: int|
            0 <= k < entries@.len() && says(message, (#[trigger] entries@[k]).notification)
                && !entries@[k].sources@.contains(server.peer),
{
    let k = choose|k: int| #[trigger] is_first_deliverable(entries@, server.peer, k) && says(
        message,
        entries@[k].notification,
    );
    assert(deliverable(entries@[k], server.peer));
}

/// Whether the states and actions are what the events lead to, one after
/// another, on a new connection, where each reading of the queue starts at the
/// place that was asked for or beyond it.
pub open spec fn is_run(
    states: Seq<LeiosNotifyServer>,
    events: Seq<LnEvent>,
    actions: Seq<LnAction>,
) -> bool {
    &&& states.len() == events.len() + 1
    &&& actions.len() == events.len()
    &&& states[0].phase == LnPhase::Idle
    &&& states[0].read_index is None
    &&& forall|k: int|
        0 <= k < events.len() ==> is_step(
            #[trigger] states[k],
            events[k],
            states[k + 1],
            actions[k],
        ) && (events[k] matches LnEvent::Pending { start, entries } ==> {
            &&& start + entries@.len() <= usize::MAX
            &&& states[k].read_index matches Some(i) ==> i <= start
        })
}

/// The place in the queue never moves back.
proof fn lemma_place_moves_on(
    states: Seq<LeiosNotifyServer>,
    events: Seq<LnEvent>,
    actions: Seq<LnAction>,
    i: int,
    j: int,
)
    requires
        is_run(states, events, actions),
        0 <= i <= j < states.len(),
    ensures
        states[j].phase == LnPhase::Counting ==> states[j].read_index is None,
        states[i].read_index matches Some(a) ==> states[j].read_index is Some && a
            <= states[j].read_index->Some_0,
    decreases j,
{
    if j > 0 {
        assert(is_step(states[j - 1], events[j - 1], states[j], actions[j - 1]));
        if i < j {
            lemma_place_moves_on(states, events, actions, i, j - 1);
        } else {
            lemma_place_moves_on(states, events, actions, j - 1, j - 1);
        }
    }
}

/// Offers are made in the order of the queue, and each at most once: the offer
/// of a later step stands further on in the queue than that of an earlier one.
/// The place behind an offer is the reader's place after the step.
pub proof fn law_offers_are_made_once_and_in_order(
    states: Seq<LeiosNotifyServer>,
    events: Seq<LnEvent>,
    actions: Seq<LnAction>,
    i: int,
    j: int,
)
    requires
        is_run(states, events, actions),
        0 <= i < j < events.len(),
        actions[i] is Send,
        actions[j] is Send,
    ensures
        states[i + 1].read_index is Some,
        states[j + 1].read_index is Some,
        states[i + 1].read_index->Some_0 < states[j + 1].read_index->Some_0,
{
    assert(is_step(states[i], events[i], states[i + 1], actions[i]));
    assert(is_step(states[j], events[j], states[j + 1], actions[j]));
    lemma_place_moves_on(states, events, actions, i + 1, j);
}

/// What was queued before the first request is passed over: the first reading
/// starts behind everything queued so far.
pub proof fn law_backlog_is_passed_over(
    server: LeiosNotifyServer,
    counting: LeiosNotifyServer,
    first: LnAction,
    count: usize,
    after: LeiosNotifyServer,
    second: LnAction,
)
    requires
        server.phase == LnPhase::Idle,
        server.read_index is None,
        is_step(server, LnEvent::Received(LnMessage::RequestNext), counting, first),
        is_step(counting, LnEvent::Count(count), after, second),
    ensures
        first == LnAction::Count,
        second == LnAction::ReadFrom(count),
        after.read_index == Some(count),
{
}

} // verus!
