//! The responder side of BlockFetch: a peer fetches ranges of our blocks.
//!
//! Where the chain has nothing for a single block, a behaviour may still have
//! the body of a variant that was advertised but not adopted.

use crate::behaviour::Behaviour;
use crate::block::BlockBody;
use crate::types::Point;
use vstd::prelude::*;

verus! {

/// The messages of the protocol.
#[derive(Debug, Clone, PartialEq, Eq)]
pub enum BfMessage {
    RequestRange { from: Point, to: Point },
    StartBatch,
    Block { body: BlockBody },
    BatchDone,
    NoBlocks,
    ClientDone,
}

/// What happened on the connection, or what was read for it.
#[derive(Debug, Clone, PartialEq, Eq)]
pub enum BfEvent {
    /// A message came in.
    Received(BfMessage),
    /// The connection gave no message any more.
    RecvFailed,
    /// The blocks of a range, none where the range is not on our chain.
    Range(Vec<BlockBody>),
    /// The variant of a single block.
    Variant(Option<BlockBody>),
}

/// What to do next.
#[derive(Debug, Clone, Copy, PartialEq, Eq)]
pub enum BfAction {
    /// Wait for a message.
    Receive,
    /// Read a range of our chain.
    ReadRange { from: Point, to: Point },
    /// Look for a variant for the range.
    LookUpVariant { from: Point, to: Point },
    /// Leave the protocol.
    Stop,
}

/// The messages to send first, in order, and what to do next.
#[derive(Debug, Clone, PartialEq, Eq)]
pub struct BfStep {
    pub send: Vec<BfMessage>,
    pub next: BfAction,
}

/// What the responder is waiting for.
#[derive(Debug, Clone, Copy, PartialEq, Eq)]
pub enum BlockFetchServer {
    /// A message of the peer.
    Idle,
    /// The blocks of a range.
    Reading { from: Point, to: Point },
    /// A variant for the range.
    LookingUp,
    /// Nothing any more.
    Stopped,
}

/// The messages that stream blocks: the blocks in order, between a start and an
/// end.
pub open spec fn batch(blocks: Seq<BlockBody>) -> Seq<BfMessage> {
    seq![BfMessage::StartBatch] + blocks.map_values(|body: BlockBody| BfMessage::Block { body })
        + seq![BfMessage::BatchDone]
}

/// What an event leads to: the state after it, the messages, and what is to be
/// done.
pub open spec fn transition(server: BlockFetchServer, event: BfEvent) -> (
    BlockFetchServer,
    Seq<BfMessage>,
    BfAction,
) {
    match (server, event) {
        (BlockFetchServer::Idle, BfEvent::Received(BfMessage::RequestRange { from, to })) => (
            BlockFetchServer::Reading { from, to },
            Seq::empty(),
            BfAction::ReadRange { from, to },
        ),
        (BlockFetchServer::Reading { from, to }, BfEvent::Range(blocks)) => if blocks@.len() > 0 {
            (BlockFetchServer::Idle, batch(blocks@), BfAction::Receive)
        } else {
            (BlockFetchServer::LookingUp, Seq::empty(), BfAction::LookUpVariant { from, to })
        },
        (BlockFetchServer::LookingUp, BfEvent::Variant(variant)) => (
            BlockFetchServer::Idle,
            match variant {
                Some(body) => batch(seq![body]),
                None => seq![BfMessage::NoBlocks],
            },
            BfAction::Receive,
        ),
        _ => (BlockFetchServer::Stopped, Seq::empty(), BfAction::Stop),
    }
}

/// The messages that stream blocks.
fn stream(blocks: Vec<BlockBody>) -> (messages: Vec<BfMessage>)
    ensures
        messages@ == batch(blocks@),
{
    let mut messages: Vec<BfMessage> = Vec::new();
    messages.push(BfMessage::StartBatch);
    let ghost all = blocks@;
    for body in it: blocks
        invariant
            it.seq() == all,
            messages@ == seq![BfMessage::StartBatch] + all.take(it.index() as int).map_values(
                |body: BlockBody| BfMessage::Block { body },
            ),
            it.index() == it.seq().len() ==> messages@ == seq![BfMessage::StartBatch]
                + all.map_values(|body: BlockBody| BfMessage::Block { body }),
    {
        messages.push(BfMessage::Block { body });
        proof {
            assert(all.take(it.index() + 1) =~= all.take(it.index() as int).push(body));
            assert(messages@ =~= seq![BfMessage::StartBatch] + all.take(
                it.index() + 1,
            ).map_values(|body: BlockBody| BfMessage::Block { body }));
            assert(all.take(all.len() as int) =~= all);
        }
    }
    messages.push(BfMessage::BatchDone);
    assert(messages@ =~= batch(all));
    messages
}

impl BlockFetchServer {
    /// A connection on which nothing was received yet.
    pub fn new() -> (server: Self)
        ensures
            server == BlockFetchServer::Idle,
    {
        BlockFetchServer::Idle
    }

    /// Handles an event: what to send, and what to do next.
    pub fn step(&mut self, event: BfEvent) -> (step: BfStep)
        ensures
            (*final(self), step.send@, step.next) == transition(*old(self), event),
    {
        match (*self, event) {
            (BlockFetchServer::Idle, BfEvent::Received(BfMessage::RequestRange { from, to })) => {
                *self = BlockFetchServer::Reading { from, to };
                BfStep { send: Vec::new(), next: BfAction::ReadRange { from, to } }
            },
            (BlockFetchServer::Reading { from, to }, BfEvent::Range(blocks)) => {
                if blocks.len() > 0 {
                    *self = BlockFetchServer::Idle;
                    BfStep { send: stream(blocks), next: BfAction::Receive }
                } else {
                    *self = BlockFetchServer::LookingUp;
                    BfStep { send: Vec::new(), next: BfAction::LookUpVariant { from, to } }
                }
            },
            (BlockFetchServer::LookingUp, BfEvent::Variant(variant)) => {
                *self = BlockFetchServer::Idle;
                let mut send: Vec<BfMessage> = Vec::new();
                match variant {
                    Some(body) => {
                        send.push(BfMessage::StartBatch);
                        send.push(BfMessage::Block { body });
                        send.push(BfMessage::BatchDone);
                        assert(send@ =~= batch(seq![body]));
                    },
                    None => {
                        send.push(BfMessage::NoBlocks);
                        assert(send@ =~= seq![BfMessage::NoBlocks]);
                    },
                }
                BfStep { send, next: BfAction::Receive }
            },
            _ => {
                *self = BlockFetchServer::Stopped;
                BfStep { send: Vec::new(), next: BfAction::Stop }
            },
        }
    }
}

/// The block that a range of one block names.
pub open spec fn single_block(from: Point, to: Point) -> Option<(u64, [u8; 32])> {
    match from {
        Point::Specific { slot, hash } => if from == to {
            Some((slot, hash))
        } else {
            None
        },
        Point::Origin => None,
    }
}

/// The slot and hash of the block that a range of one block names; no other
/// range can be a variant.
pub fn variant_wanted(from: &Point, to: &Point) -> (res: Option<(u64, [u8; 32])>)
    ensures
        res == single_block(*from, *to),
{
    if *from != *to {
        return None;
    }
    match from {
        Point::Specific { slot, hash } => Some((*slot, *hash)),
        Point::Origin => None,
    }
}

/// Whether a block is what a variant's bytes hold.
pub open spec fn is_variant_block(bytes: Option<Vec<u8>>, block: Option<BlockBody>) -> bool {
    match block {
        Some(body) => bytes == Some(body.raw) && body.is_parsed(),
        None => bytes is None,
    }
}

/// The block that a variant's bytes hold.
pub fn variant_block(bytes: Option<Vec<u8>>) -> (res: Option<BlockBody>)
    ensures
        is_variant_block(bytes, res),
{
    match bytes {
        Some(bytes) => Some(BlockBody::new(bytes)),
        None => None,
    }
}

/// The variant that a behaviour has for a range of one block: the block that the
/// bytes hold which the behaviour gives for the block's slot and hash, and none
/// where it gives no bytes. There is none for other ranges, nor without a
/// behaviour.
pub fn lookup_variant_body<B: Behaviour>(behaviour: Option<&B>, from: &Point, to: &Point) -> (res:
    Option<BlockBody>)
    ensures
        match (single_block(*from, *to), behaviour) {
            (Some((slot, hash)), Some(b)) => exists|found: Option<Vec<u8>>| #[trigger]
                call_ensures(B::find_variant_body, (b, slot, &hash), found) && is_variant_block(
                    found,
                    res,
                ),
            _ => res is None,
        },
{
    let (slot, hash) = variant_wanted(from, to)?;
    match behaviour {
        Some(b) => variant_block(b.find_variant_body(slot, &hash)),
        None => None,
    }
}

/// A request is answered with the blocks of the range, all of them and in order;
/// where there are none, with the variant; where there is no variant either,
/// with word that there are no blocks.
pub proof fn law_range_is_answered(
    from: Point,
    to: Point,
    blocks: Vec<BlockBody>,
    variant: Option<BlockBody>,
)
    ensures
        ({
            let request = BfEvent::Received(BfMessage::RequestRange { from, to });
            let (reading, _, first) = transition(BlockFetchServer::Idle, request);
            let (second, sent, _) = transition(reading, BfEvent::Range(blocks));
            let (third, sent_then, _) = transition(second, BfEvent::Variant(variant));
            &&& first == (BfAction::ReadRange { from, to })
            &&& blocks@.len() > 0 ==> sent == batch(blocks@) && second == BlockFetchServer::Idle
            &&& blocks@.len() == 0 ==> {
                &&& sent.len() == 0
                &&& third == BlockFetchServer::Idle
                &&& variant matches Some(body) ==> sent_then == batch(seq![body])
                &&& variant is None ==> sent_then == seq![BfMessage::NoBlocks]
            }
        }),
{
}

} // verus!
