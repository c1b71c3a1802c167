//! The responder side of LeiosFetch: a peer fetches endorser blocks and their
//! transactions.
//!
//! A request for what we do not have ends the protocol.

use crate::types::Point;
use std::collections::BTreeMap;
use vstd::prelude::*;

verus! {

/// The messages of the protocol. A bitmap names transactions of a block: each
/// entry is a word of 64 of them, by the word's number.
#[derive(Debug, Clone, PartialEq, Eq)]
pub enum LfMessage {
    BlockRequest { point: Point },
    Block { block: Vec<u8> },
    BlockTxsRequest { point: Point, bitmap: BTreeMap<u16, u64> },
    BlockTxs { point: Point, bitmap: BTreeMap<u16, u64>, transactions: Vec<Vec<u8>> },
    Done,
}

/// What happened on the connection, or what was read for it.
#[derive(Debug, Clone, PartialEq, Eq)]
pub enum LfEvent {
    /// A message came in.
    Received(LfMessage),
    /// The connection gave no message any more.
    RecvFailed,
    /// The block that was read, if we have it.
    BlockRead(Option<Vec<u8>>),
    /// The transactions that were read, if we have them.
    TxsRead(Option<Vec<Vec<u8>>>),
    /// The reply went out.
    Sent,
    /// The reply could not be sent.
    SendFailed,
}

/// What to do next.
#[derive(Debug, Clone, PartialEq, Eq)]
pub enum LfAction {
    /// Wait for a message.
    Receive,
    /// Read a block.
    ReadBlock { slot: u64, hash: [u8; 32] },
    /// Read the transactions of a block that `wanted_txs` names.
    ReadBlockTxs { slot: u64, hash: [u8; 32] },
    /// Send a message.
    Send(LfMessage),
    /// Leave the protocol.
    Stop,
}

/// What the responder is waiting for.
#[derive(Debug, Clone, PartialEq, Eq)]
pub enum LeiosFetchServer {
    /// A message of the peer.
    Idle,
    /// A block.
    ReadingBlock,
    /// Transactions, for the request with the given point and bitmap.
    ReadingTxs { point: Point, bitmap: BTreeMap<u16, u64> },
    /// Word that the reply went out.
    Sending,
    /// Nothing any more.
    Stopped,
}

/// The state after an event, and what is to be done. The origin is no block, so
/// nothing is ever had for it.
pub open spec fn transition(server: LeiosFetchServer, event: LfEvent) -> (
    LeiosFetchServer,
    LfAction,
) {
    match (server, event) {
        (
            LeiosFetchServer::Idle,
            LfEvent::Received(LfMessage::BlockRequest { point: Point::Specific { slot, hash } }),
        ) => (LeiosFetchServer::ReadingBlock, LfAction::ReadBlock { slot, hash }),
        (
            LeiosFetchServer::Idle,
            LfEvent::Received(
                LfMessage::BlockTxsRequest { point: Point::Specific { slot, hash }, bitmap },
            ),
        ) => (
            LeiosFetchServer::ReadingTxs { point: Point::Specific { slot, hash }, bitmap },
            LfAction::ReadBlockTxs { slot, hash },
        ),
        (LeiosFetchServer::ReadingBlock, LfEvent::BlockRead(Some(block))) => (
            LeiosFetchServer::Sending,
            LfAction::Send(LfMessage::Block { block }),
        ),
        (
            LeiosFetchServer::ReadingTxs { point, bitmap },
            LfEvent::TxsRead(Some(transactions)),
        ) => (
            LeiosFetchServer::Sending,
            LfAction::Send(LfMessage::BlockTxs { point, bitmap, transactions }),
        ),
        (LeiosFetchServer::Sending, LfEvent::Sent) => (LeiosFetchServer::Idle, LfAction::Receive),
        _ => (LeiosFetchServer::Stopped, LfAction::Stop),
    }
}

impl LeiosFetchServer {
    /// A connection on which nothing was received yet.
    pub fn new() -> (server: Self)
        ensures
            server == LeiosFetchServer::Idle,
    {
        LeiosFetchServer::Idle
    }

    /// The transactions that are to be read, as the request named them.
    pub fn wanted_txs(&self) -> (res: Option<&BTreeMap<u16, u64>>)
        ensures
            match res {
                Some(wanted) => self is ReadingTxs && *wanted == self->bitmap,
                None => !(self is ReadingTxs),
            },
    {
        match self {
            LeiosFetchServer::ReadingTxs { bitmap, .. } => Some(bitmap),
            _ => None,
        }
    }

    /// Handles an event: the state after it, and what to do next.
    pub fn step(self, event: LfEvent) -> (res: (LeiosFetchServer, LfAction))
        ensures
            res == transition(self, event),
    {
        match (self, event) {
            (LeiosFetchServer::Idle, LfEvent::Received(LfMessage::BlockRequest { point })) => {
                match point {
                    Point::Specific { slot, hash } => (
                        LeiosFetchServer::ReadingBlock,
                        LfAction::ReadBlock { slot, hash },
                    ),
                    Point::Origin => (LeiosFetchServer::Stopped, LfAction::Stop),
                }
            },
            (
                LeiosFetchServer::Idle,
                LfEvent::Received(LfMessage::BlockTxsRequest { point, bitmap }),
            ) => match point {
                Point::Specific { slot, hash } => (
                    LeiosFetchServer::ReadingTxs { point, bitmap },
                    LfAction::ReadBlockTxs { slot, hash },
                ),
                Point::Origin => (LeiosFetchServer::Stopped, LfAction::Stop),
            },
            (LeiosFetchServer::ReadingBlock, LfEvent::BlockRead(Some(block))) => (
                LeiosFetchServer::Sending,
                LfAction::Send(LfMessage::Block { block }),
            ),
            (
                LeiosFetchServer::ReadingTxs { point, bitmap },
                LfEvent::TxsRead(Some(transactions)),
            ) => (
                LeiosFetchServer::Sending,
                LfAction::Send(LfMessage::BlockTxs { point, bitmap, transactions }),
            ),
            (LeiosFetchServer::Sending, LfEvent::Sent) => (
                LeiosFetchServer::Idle,
                LfAction::Receive,
            ),
            _ => (LeiosFetchServer::Stopped, LfAction::Stop),
        }
    }
}

/// A request for transactions is answered with the point and the bitmap of the
/// request, besides the transactions.
pub proof fn law_request_is_echoed_with_txs(
    slot: u64,
    hash: [u8; 32],
    bitmap: BTreeMap<u16, u64>,
    transactions: Vec<Vec<u8>>,
)
    ensures
        ({
            let point = Point::Specific { slot, hash };
            let request = LfEvent::Received(LfMessage::BlockTxsRequest { point, bitmap });
            let (reading, first) = transition(LeiosFetchServer::Idle, request);
            let (_, second) = transition(reading, LfEvent::TxsRead(Some(transactions)));
            &&& first == (LfAction::ReadBlockTxs { slot, hash })
            &&& second == LfAction::Send(LfMessage::BlockTxs { point, bitmap, transactions })
        }),
{
}

/// What we do not have ends the protocol: neither a block nor transactions are
/// ever sent for a request that found none, nor for the origin.
pub proof fn law_missing_data_disconnects(server: LeiosFetchServer, bitmap: BTreeMap<u16, u64>)
    ensures
        transition(server, LfEvent::BlockRead(None)).1 == LfAction::Stop,
        transition(server, LfEvent::TxsRead(None)).1 == LfAction::Stop,
        transition(
            server,
            LfEvent::Received(LfMessage::BlockRequest { point: Point::Origin }),
        ).1 == LfAction::Stop,
        transition(
            server,
            LfEvent::Received(LfMessage::BlockTxsRequest { point: Point::Origin, bitmap }),
        ).1 == LfAction::Stop,
{
}

} // verus!
