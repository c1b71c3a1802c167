//! How a connection is kept, and how far it was promoted.

use crate::peer::keepalive::{
    transition, KaAction, KaEvent, KaExit, KaMessage, KaPhase, KeepAliveServer,
};
use crate::peer::{raised, DownstreamState};
use vstd::prelude::*;

verus! {

/// Every keepalive is answered with its own cookie and counted, up to the largest
/// number; once the answer went out the responder waits for the next, with a time
/// limit.
pub proof fn law_every_keepalive_is_answered(server: KeepAliveServer, cookie: u16)
    requires
        server.phase is Idle,
    ensures
        ({
            let message = KaEvent::Received(KaMessage::KeepAlive { cookie });
            let (sending, first) = transition(server, message);
            let (after, second) = transition(sending, KaEvent::Sent);
            &&& first == KaAction::Send(KaMessage::KeepAliveResponse { cookie })
            &&& second == (KaAction::Receive { timed: true })
            &&& after.phase is Idle
            &&& server.msg_count < u64::MAX ==> after.msg_count == server.msg_count + 1
            &&& server.msg_count == u64::MAX ==> after.msg_count == u64::MAX
        }),
{
}

/// Anything else ends the protocol, with the reason that fits what happened.
pub proof fn law_keepalive_ends_for_a_reason(server: KeepAliveServer, event: KaEvent)
    requires
        !(server.phase is Stopped),
        server.phase is Idle ==> !(event matches KaEvent::Received(m) && m is KeepAlive),
        server.phase is Sending ==> event != KaEvent::Sent,
    ensures
        ({
            let (after, action) = transition(server, event);
            &&& action is Stop
            &&& after.phase == KaPhase::Stopped(action->Stop_0)
            &&& after.msg_count == server.msg_count
            &&& event == KaEvent::Received(KaMessage::Done) <==> action->Stop_0
                == KaExit::ClientDone
            &&& event == KaEvent::RecvFailed <==> action->Stop_0 == KaExit::RecvError
            &&& event == KaEvent::SendFailed <==> action->Stop_0 == KaExit::SendError
        }),
{
}

/// Level 2 is hot, level 1 is warm, and every other level is cold.
pub proof fn law_levels_of_the_states(level: u8)
    ensures
        DownstreamState::of_level(level) == DownstreamState::Hot <==> level == 2,
        DownstreamState::of_level(level) == DownstreamState::Warm <==> level == 1,
        DownstreamState::of_level(level) == DownstreamState::Cold <==> level == 0 || level > 2,
        DownstreamState::Cold.level() == 0,
        DownstreamState::Warm.level() == 1,
        DownstreamState::Hot.level() == 2,
{
}

/// A mark leaves a flag at the higher of the two levels.
pub proof fn law_mark_leaves_the_higher_level(level: u8, to: u8)
    ensures
        level >= to ==> raised(level, to) == level,
        level <= to ==> raised(level, to) == to,
{
}

} // verus!
