//! How requests for blocks, endorser blocks and peers are answered.

use crate::block::{certificate_bytes, BlockBody};
use crate::peer::blockfetch;
use crate::peer::blockfetch::{
    is_variant_block, single_block, BfAction, BfEvent, BfMessage, BlockFetchServer,
};
use crate::peer::leios_fetch;
use crate::peer::leios_fetch::{LeiosFetchServer, LfAction, LfEvent, LfMessage};
use crate::peer::peersharing;
use crate::peer::peersharing::{PeerSharingServer, PsAction, PsEvent, PsMessage};
use crate::types::Point;
use std::collections::BTreeMap;
use vstd::prelude::*;

verus! {

/// A request for a range that is on our chain is answered with a start, then the
/// blocks, all of them and in order, then an end; the responder then waits for
/// the next message.
pub proof fn law_every_block_of_a_range_is_sent(
    from: Point,
    to: Point,
    blocks: Vec<BlockBody>,
    k: int,
)
    requires
        0 <= k < blocks@.len(),
    ensures
        ({
            let request = BfEvent::Received(BfMessage::RequestRange { from, to });
            let (reading, before, first) = blockfetch::transition(BlockFetchServer::Idle, request);
            let (after, sent, next) = blockfetch::transition(reading, BfEvent::Range(blocks));
            &&& before.len() == 0
            &&& first == (BfAction::ReadRange { from, to })
            &&& sent.len() == blocks@.len() + 2
            &&& sent[0] == BfMessage::StartBatch
            &&& sent[k + 1] == (BfMessage::Block { body: blocks@[k] })
            &&& sent[sent.len() - 1] == BfMessage::BatchDone
            &&& next == BfAction::Receive
            &&& after == BlockFetchServer::Idle
        }),
{
}

/// A request for a range that is not on our chain is answered with the variant,
/// between a start and an end, or else with word that there are no blocks; the
/// responder then waits for the next message.
pub proof fn law_missing_range_is_answered(
    from: Point,
    to: Point,
    blocks: Vec<BlockBody>,
    variant: Option<BlockBody>,
)
    requires
        blocks@.len() == 0,
    ensures
        ({
            let request = BfEvent::Received(BfMessage::RequestRange { from, to });
            let reading = blockfetch::transition(BlockFetchServer::Idle, request).0;
            let (looking, before, second) = blockfetch::transition(reading, BfEvent::Range(blocks));
            let (after, sent, next) = blockfetch::transition(looking, BfEvent::Variant(variant));
            &&& before.len() == 0
            &&& second == (BfAction::LookUpVariant { from, to })
            &&& variant is None ==> sent.len() == 1 && sent[0] == BfMessage::NoBlocks
            &&& variant matches Some(body) ==> {
                &&& sent.len() == 3
                &&& sent[0] == BfMessage::StartBatch
                &&& sent[1] == (BfMessage::Block { body })
                &&& sent[2] == BfMessage::BatchDone
            }
            &&& next == BfAction::Receive
            &&& after == BlockFetchServer::Idle
        }),
{
}

/// Whether the block responder waits for the event.
pub open spec fn awaits_bf(server: BlockFetchServer, event: BfEvent) -> bool {
    ||| server is Idle && event is Received && event->Received_0 is RequestRange
    ||| server is Reading && event is Range
    ||| server is LookingUp && event is Variant
}

/// Any other event ends the protocol, without a message; what the responder waits
/// for does not.
pub proof fn law_other_events_end_block_fetch(server: BlockFetchServer, event: BfEvent)
    ensures
        ({
            let (after, sent, next) = blockfetch::transition(server, event);
            if awaits_bf(server, event) {
                next != BfAction::Stop && !(after is Stopped)
            } else {
                next == BfAction::Stop && after is Stopped && sent.len() == 0
            }
        }),
{
}

/// A range names one block if and only if both its ends are the same block.
pub proof fn law_range_of_one_block(from: Point, to: Point, slot: u64, hash: [u8; 32])
    ensures
        single_block(from, to) == Some((slot, hash)) <==> from == (Point::Specific { slot, hash })
            && to == (Point::Specific { slot, hash }),
        single_block(from, to) is None <==> from is Origin || from != to,
{
}

/// A variant's bytes are sent as they are, as a block with the metadata that they
/// hold; without bytes there is no block.
pub proof fn law_variant_is_what_its_bytes_hold(bytes: Option<Vec<u8>>, block: Option<BlockBody>)
    requires
        is_variant_block(bytes, block),
    ensures
        block is Some <==> bytes is Some,
        block matches Some(body) ==> {
            &&& body.raw@ == bytes->Some_0@
            &&& match body.leios {
                Some(info) => {
                    &&& certificate_bytes(body.raw@) is Ok
                    &&& info.eb_certificate is Some
                    &&& info.eb_certificate->Some_0@ == certificate_bytes(body.raw@)->Ok_0
                },
                None => certificate_bytes(body.raw@) is Err,
            }
        },
{
}

/// A request for an endorser block that we have is answered with it; the responder
/// then waits for the next message.
pub proof fn law_endorser_block_is_sent(slot: u64, hash: [u8; 32], block: Vec<u8>)
    ensures
        ({
            let point = Point::Specific { slot, hash };
            let request = LfEvent::Received(LfMessage::BlockRequest { point });
            let (reading, first) = leios_fetch::transition(LeiosFetchServer::Idle, request);
            let (sending, second) = leios_fetch::transition(
                reading,
                LfEvent::BlockRead(Some(block)),
            );
            let (after, third) = leios_fetch::transition(sending, LfEvent::Sent);
            &&& first == (LfAction::ReadBlock { slot, hash })
            &&& second == LfAction::Send(LfMessage::Block { block })
            &&& third == LfAction::Receive
            &&& after == LeiosFetchServer::Idle
        }),
{
}

/// A request for transactions that we have is answered with them, for the point
/// and the bitmap of the request; the responder then waits for the next message.
pub proof fn law_endorser_block_txs_are_sent(
    slot: u64,
    hash: [u8; 32],
    bitmap: BTreeMap<u16, u64>,
    transactions: Vec<Vec<u8>>,
)
    ensures
        ({
            let point = Point::Specific { slot, hash };
            let request = LfEvent::Received(LfMessage::BlockTxsRequest { point, bitmap });
            let (reading, first) = leios_fetch::transition(LeiosFetchServer::Idle, request);
            let (sending, second) = leios_fetch::transition(
                reading,
                LfEvent::TxsRead(Some(transactions)),
            );
            let (after, third) = leios_fetch::transition(sending, LfEvent::Sent);
            &&& first == (LfAction::ReadBlockTxs { slot, hash })
            &&& reading == (LeiosFetchServer::ReadingTxs { point, bitmap })
            &&& second == LfAction::Send(LfMessage::BlockTxs { point, bitmap, transactions })
            &&& third == LfAction::Receive
            &&& after == LeiosFetchServer::Idle
        }),
{
}

/// Whether the responder for endorser blocks can go on with the event.
pub open spec fn goes_on_lf(server: LeiosFetchServer, event: LfEvent) -> bool {
    ||| server is Idle && (event matches LfEvent::Received(LfMessage::BlockRequest { point })
        && point is Specific)
    ||| server is Idle && (event matches LfEvent::Received(
        LfMessage::BlockTxsRequest { point, .. },
    ) && point is Specific)
    ||| server is ReadingBlock && (event matches LfEvent::BlockRead(block) && block is Some)
    ||| server is ReadingTxs && (event matches LfEvent::TxsRead(txs) && txs is Some)
    ||| server is Sending && event is Sent
}

/// Any other event ends the protocol: a request for the origin, data that we do
/// not have, and everything that is not waited for.
pub proof fn law_other_events_end_leios_fetch(server: LeiosFetchServer, event: LfEvent)
    ensures
        ({
            let (after, action) = leios_fetch::transition(server, event);
            if goes_on_lf(server, event) {
                action != LfAction::Stop && !(after is Stopped)
            } else {
                action == LfAction::Stop && after is Stopped
            }
        }),
{
}

/// Anything but a request, and addresses once there was one, ends the sharing of
/// peers, and nothing is sent then.
pub proof fn law_other_events_end_peer_sharing<A>(server: PeerSharingServer, event: PsEvent<A>)
    ensures
        ({
            let (after, step) = peersharing::transition(server, event);
            let request = server is Idle && (event matches PsEvent::Received(m)
                && m is ShareRequest);
            let answer = server is Asking && event is Provided;
            &&& request ==> step.send is None && after is Asking
            &&& answer ==> step.next == PsAction::Receive && after is Idle
            &&& !request && !answer ==> step.send is None && step.next == PsAction::Stop
                && after is Stopped
        }),
{
}

} // verus!
