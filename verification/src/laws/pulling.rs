//! How transactions are pulled from a peer.

use crate::peer::txsubmission::{
    is_step, TsAction, TsEvent, TsMessage, TsPhase, TsStep, TxIdAndSize, TxSubmissionServer,
};
use vstd::prelude::*;

verus! {

/// The peer's first message is answered with a request for as many ids as the
/// responder takes at once, which acknowledges none and blocks.
pub proof fn law_first_request_blocks(
    server: TxSubmissionServer,
    after: TxSubmissionServer,
    step: TsStep,
)
    requires
        server.phase is AwaitInit,
        is_step(server, TsEvent::Received(TsMessage::Init), after, step),
    ensures
        step.send == Some(TsMessage::RequestTxIdsBlocking { ack: 0, req: server.max_unacked }),
        step.deliver@.len() == 0,
        step.next == TsAction::Receive,
        after == (TxSubmissionServer {
            max_unacked: server.max_unacked,
            phase: TsPhase::AwaitIds { again: false },
        }),
{
}

/// Every announced transaction is asked for, by its id and in order.
pub proof fn law_every_announced_transaction_is_asked_for(
    server: TxSubmissionServer,
    tx_ids: Vec<TxIdAndSize>,
    after: TxSubmissionServer,
    step: TsStep,
    k: int,
)
    requires
        server.phase is AwaitIds,
        0 <= k < tx_ids@.len(),
        is_step(server, TsEvent::Received(TsMessage::ReplyTxIds { tx_ids }), after, step),
    ensures
        step.send is Some,
        step.send->Some_0 is RequestTxs,
        step.send->Some_0->RequestTxs_tx_ids@.len() == tx_ids@.len(),
        step.send->Some_0->RequestTxs_tx_ids@[k]@ == tx_ids@[k].tx_id@,
        step.deliver@.len() == 0,
        step.next == TsAction::Receive,
        after.phase == (TsPhase::AwaitTxs { count: tx_ids.len() }),
        after.max_unacked == server.max_unacked,
{
}

/// The transactions that come are all handed on, in order, and the next request
/// acknowledges the ids of the batch, as far as 16 bits can say how many; it blocks
/// if and only if it acknowledges none.
pub proof fn law_transactions_are_handed_on(
    server: TxSubmissionServer,
    txs: Vec<Vec<u8>>,
    after: TxSubmissionServer,
    step: TsStep,
)
    requires
        server.phase is AwaitTxs,
        is_step(server, TsEvent::Received(TsMessage::ReplyTxs { txs }), after, step),
    ensures
        step.deliver@ == txs@,
        step.next == TsAction::Receive,
        ({
            let ack = server.phase->count as int % 0x1_0000;
            step.send == Some(
                if ack == 0 {
                    TsMessage::RequestTxIdsBlocking { ack: 0, req: server.max_unacked }
                } else {
                    TsMessage::RequestTxIdsNonBlocking {
                        ack: ack as u16,
                        req: server.max_unacked,
                    }
                },
            )
        }),
        server.phase->count <= 0xffff ==> server.phase->count as int % 0x1_0000
            == server.phase->count,
        after == (TxSubmissionServer {
            max_unacked: server.max_unacked,
            phase: TsPhase::AwaitIds { again: false },
        }),
{
}

/// An empty list of ids is answered with a request that blocks, once; a second one
/// in a row ends the protocol.
pub proof fn law_empty_list_is_asked_for_once_more(
    server: TxSubmissionServer,
    tx_ids: Vec<TxIdAndSize>,
    after: TxSubmissionServer,
    step: TsStep,
)
    requires
        server.phase is AwaitIds,
        tx_ids@.len() == 0,
        is_step(server, TsEvent::Received(TsMessage::ReplyTxIds { tx_ids }), after, step),
    ensures
        step.deliver@.len() == 0,
        after.max_unacked == server.max_unacked,
        !server.phase->again ==> {
            &&& step.send == Some(
                TsMessage::RequestTxIdsBlocking { ack: 0, req: server.max_unacked },
            )
            &&& step.next == TsAction::Receive
            &&& after.phase == (TsPhase::AwaitIds { again: true })
        },
        server.phase->again ==> {
            &&& step.send is None
            &&& step.next == TsAction::Stop
            &&& after.phase == TsPhase::Stopped
        },
{
}

/// Any event that is not waited for ends the protocol: nothing is sent or handed
/// on.
pub proof fn law_other_events_end_tx_submission(
    server: TxSubmissionServer,
    event: TsEvent,
    after: TxSubmissionServer,
    step: TsStep,
)
    requires
        is_step(server, event, after, step),
        server.phase is AwaitInit ==> event != TsEvent::Received(TsMessage::Init),
        server.phase is AwaitIds ==> !(event matches TsEvent::Received(m) && m is ReplyTxIds),
        server.phase is AwaitTxs ==> !(event matches TsEvent::Received(m) && m is ReplyTxs),
    ensures
        step.send is None,
        step.deliver@.len() == 0,
        step.next == TsAction::Stop,
        after.phase == TsPhase::Stopped,
{
}

} // verus!
