//! The consensus facade: what the Praos and the Leios layer tell each other.
//!
//! Praos is the longest chain of ranking blocks; Leios sits on top, with
//! endorser blocks and votes. The facade sends each event to the layer that it
//! concerns, tells Leios what the chain's tip announces, and decides whether a
//! new block may carry a certificate. It works on what each layer shows of its
//! state; the layers themselves run elsewhere.

use crate::eb::{decode_overflow_eb, manifest_hashes};
use crate::types::{hash_eq, Point, Tip, TxId};
use std::collections::BTreeSet;
use vstd::prelude::*;

verus! {

/// A node of the chain tree: the endorser block that its ranking block
/// announces, and how many transactions that block has, once known.
#[derive(Debug, Clone, Copy, PartialEq, Eq)]
pub struct ChainNode {
    pub announced_eb: Option<[u8; 32]>,
    pub announced_eb_tx_count: Option<u32>,
}

/// What the Praos layer shows.
#[derive(Debug, Clone)]
pub struct PraosView {
    pub current_slot: u64,
    pub local_tip: Option<Tip>,
    pub tip_hash: Option<[u8; 32]>,
    pub next_block_number: u64,
    /// The endorser block that the adopted tip announces.
    pub adopted_tip_announced_eb: Option<[u8; 32]>,
    /// The slot in which the adopted tip's header arrived.
    pub adopted_tip_header_arrival_slot: Option<u64>,
    /// The slot of the adopted tip's block.
    pub adopted_tip_rb_slot: Option<u64>,
    /// The slots in which some producer made more than one ranking block.
    pub equivocating_rb_slots: BTreeSet<u64>,
    pub chain_tree: Vec<ChainNode>,
}

/// What Leios is told of the chain's tip before each slot.
#[derive(Debug, Clone)]
pub struct ChainTipContext {
    pub rb_header_arrival_slot: Option<u64>,
    pub eb_announcement: Option<[u8; 32]>,
    pub equivocating_slots: BTreeSet<u64>,
    pub tip_rb_slot: Option<u64>,
}

/// An endorser block that has reached a quorum, with the slot in which it was
/// announced.
#[derive(Debug, Clone, Copy, PartialEq, Eq)]
pub struct CertifiableEb {
    pub eb_hash: [u8; 32],
    pub announced_slot: u64,
}

/// The transactions that an endorser block refers to.
#[derive(Debug, Clone)]
pub struct EbManifest {
    pub eb_hash: [u8; 32],
    pub tx_hashes: Vec<TxId>,
}

/// What the Leios layer shows, with its reports in the form `E`.
#[derive(Debug, Clone)]
pub struct LeiosView<E> {
    pub chain_tip: Option<ChainTipContext>,
    pub certifiable: Vec<CertifiableEb>,
    pub manifests: Vec<EbManifest>,
    pub telemetry: Vec<E>,
}

/// What both layers show.
#[derive(Debug, Clone)]
pub struct Consensus<E> {
    pub praos: PraosView,
    pub leios: LeiosView<E>,
}

/// A layer of consensus.
#[derive(Debug, Clone, Copy, PartialEq, Eq, Structural)]
pub enum Layer {
    Praos,
    Leios,
}

/// An event of the network, as far as it decides where it goes.
#[derive(Debug, Clone, PartialEq, Eq)]
pub enum NetworkEvent {
    LeiosBlockOffered,
    LeiosBlockTxsOffered,
    LeiosBlockReceived { point: Point, block: Vec<u8> },
    LeiosVotesReceived,
    LeiosBlockTxsReceived,
    /// Any event that concerns the chain.
    Chain,
}

/// What the ledger found of a block, as far as it decides what follows.
#[derive(Debug, Clone, Copy, PartialEq, Eq)]
pub enum LedgerOutcome {
    /// An endorser block is valid.
    EbValidated { point: Point },
    /// A ranking block was applied.
    Applied { point: Point },
    /// Anything else.
    Other,
}

/// What follows from a finding of the ledger.
#[derive(Debug, Clone, Copy, PartialEq, Eq)]
pub struct OutcomePlan {
    /// Tell Leios that an endorser block is valid.
    pub validated_eb: Option<Point>,
    /// Tell Leios that the chain endorses an endorser block, by slot and hash.
    pub endorsed_eb: Option<(u64, [u8; 32])>,
    /// Hand the finding to Praos, whose answer is then the answer; without that
    /// the answer is no.
    pub to_praos: bool,
}

/// What a context tells.
pub open spec fn tells_of_tip(context: ChainTipContext, praos: PraosView) -> bool {
    &&& context.rb_header_arrival_slot == praos.adopted_tip_header_arrival_slot
    &&& context.eb_announcement == praos.adopted_tip_announced_eb
    &&& context.equivocating_slots@ == praos.equivocating_rb_slots@
    &&& context.tip_rb_slot == praos.adopted_tip_rb_slot
}

/// The slot in which an endorser block that has reached a quorum was announced:
/// that of the first entry with its hash.
pub open spec fn certifiable_slot(certifiable: Seq<CertifiableEb>, eb_hash: [u8; 32]) -> Option<u64>
    decreases certifiable.len(),
{
    if certifiable.len() == 0 {
        None
    } else if certifiable[0].eb_hash == eb_hash {
        Some(certifiable[0].announced_slot)
    } else {
        certifiable_slot(certifiable.drop_first(), eb_hash)
    }
}

/// How many transactions an endorser block has: that of the first manifest with
/// its hash, in 32 bits.
pub open spec fn manifest_count(manifests: Seq<EbManifest>, eb_hash: [u8; 32]) -> Option<u32>
    decreases manifests.len(),
{
    if manifests.len() == 0 {
        None
    } else if manifests[0].eb_hash == eb_hash {
        Some((manifests[0].tx_hashes@.len() % 0x1_0000_0000) as u32)
    } else {
        manifest_count(manifests.drop_first(), eb_hash)
    }
}

/// What an encoded endorser block says of how many transactions it has, with its
/// hash: nothing at the origin, and nothing where it cannot be read.
pub open spec fn announced_count(point: Point, blob: Seq<u8>) -> Option<([u8; 32], u32)> {
    match point {
        Point::Specific { hash, .. } => match manifest_hashes(blob) {
            Some(hashes) => Some((hash, (hashes.len() % 0x1_0000_0000) as u32)),
            None => None,
        },
        Point::Origin => None,
    }
}

/// A node once the number of transactions of an endorser block is known.
pub open spec fn noted(node: ChainNode, eb_hash: [u8; 32], tx_count: u32) -> ChainNode {
    if node.announced_eb == Some(eb_hash) {
        ChainNode { announced_eb_tx_count: Some(tx_count), ..node }
    } else {
        node
    }
}

/// A chain tree once an encoded endorser block was seen.
pub open spec fn noted_tree(tree: Seq<ChainNode>, point: Point, blob: Seq<u8>) -> Seq<ChainNode> {
    match announced_count(point, blob) {
        Some((eb_hash, tx_count)) => tree.map_values(
            |node: ChainNode| noted(node, eb_hash, tx_count),
        ),
        None => tree,
    }
}

/// Whether nothing of the views differs but the chain tree.
pub open spec fn same_but_tree<E>(a: Consensus<E>, b: Consensus<E>) -> bool {
    &&& a.leios == b.leios
    &&& a.praos == (PraosView { chain_tree: a.praos.chain_tree, ..b.praos })
}

/// The layer that an event concerns.
pub open spec fn layer_of(event: NetworkEvent) -> Layer {
    match event {
        NetworkEvent::Chain => Layer::Praos,
        _ => Layer::Leios,
    }
}

impl<E> Consensus<E> {
    /// What both layers show.
    pub fn new(praos: PraosView, leios: LeiosView<E>) -> (consensus: Self)
        ensures
            consensus.praos == praos,
            consensus.leios == leios,
    {
        Consensus { praos, leios }
    }

    /// The tip of the adopted chain.
    pub fn local_tip(&self) -> (tip: Option<Tip>)
        ensures
            tip == self.praos.local_tip,
    {
        self.praos.local_tip
    }

    /// The hash of the tip's header.
    pub fn tip_hash(&self) -> (hash: Option<[u8; 32]>)
        ensures
            hash == self.praos.tip_hash,
    {
        self.praos.tip_hash
    }

    /// The number of the block that would follow the tip.
    pub fn next_block_number(&self) -> (number: u64)
        ensures
            number == self.praos.next_block_number,
    {
        self.praos.next_block_number
    }

    /// Starts a slot: Praos takes the slot first, so that headers that arrive
    /// are stamped with it, and Leios is then told of the chain's tip.
    pub fn on_slot(&mut self, slot: u64)
        ensures
            final(self).praos == (PraosView { current_slot: slot, ..old(self).praos }),
            final(self).leios.chain_tip matches Some(context) && tells_of_tip(
                context,
                final(self).praos,
            ),
            final(self).leios == (LeiosView {
                chain_tip: final(self).leios.chain_tip,
                ..old(self).leios
            }),
    {
        self.praos.current_slot = slot;
        self.refresh_chain_tip_ctx();
    }

    /// Tells Leios of the chain's tip.
    pub fn refresh_chain_tip_ctx(&mut self)
        ensures
            final(self).praos == old(self).praos,
            final(self).leios.chain_tip matches Some(context) && tells_of_tip(
                context,
                old(self).praos,
            ),
            final(self).leios == (LeiosView {
                chain_tip: final(self).leios.chain_tip,
                ..old(self).leios
            }),
    {
        let context = ChainTipContext {
            rb_header_arrival_slot: self.praos.adopted_tip_header_arrival_slot,
            eb_announcement: self.praos.adopted_tip_announced_eb,
            equivocating_slots: self.praos.equivocating_rb_slots.clone(),
            tip_rb_slot: self.praos.adopted_tip_rb_slot,
        };
        self.leios.chain_tip = Some(context);
    }

    /// The slot of the endorser block for which the next block may carry a
    /// certificate: the one that its parent announces, once it has reached a
    /// quorum.
    pub fn cert_for_parent(&self) -> (slot: Option<u64>)
        ensures
            slot == (match self.praos.adopted_tip_announced_eb {
                Some(eb_hash) => certifiable_slot(self.leios.certifiable@, eb_hash),
                None => None,
            }),
    {
        let eb_hash = self.praos.adopted_tip_announced_eb?;
        let mut i: usize = 0;
        assert(self.leios.certifiable@.skip(0) =~= self.leios.certifiable@);
        while i < self.leios.certifiable.len()
            invariant
                self.praos.adopted_tip_announced_eb == Some(eb_hash),
                i <= self.leios.certifiable@.len(),
                certifiable_slot(self.leios.certifiable@.skip(i as int), eb_hash)
                    == certifiable_slot(self.leios.certifiable@, eb_hash),
            decreases self.leios.certifiable@.len() - i,
        {
            assert(self.leios.certifiable@.skip(i as int).drop_first()
                =~= self.leios.certifiable@.skip(i + 1));
            if hash_eq(&self.leios.certifiable[i].eb_hash, &eb_hash) {
                return Some(self.leios.certifiable[i].announced_slot);
            }
            i += 1;
        }
        None
    }

    /// How many transactions an endorser block has, as its manifest says.
    pub fn eb_tx_count(&self, eb_hash: &[u8; 32]) -> (count: Option<u32>)
        ensures
            count == manifest_count(self.leios.manifests@, *eb_hash),
    {
        let mut i: usize = 0;
        assert(self.leios.manifests@.skip(0) =~= self.leios.manifests@);
        while i < self.leios.manifests.len()
            invariant
                i <= self.leios.manifests@.len(),
                manifest_count(self.leios.manifests@.skip(i as int), *eb_hash) == manifest_count(
                    self.leios.manifests@,
                    *eb_hash,
                ),
            decreases self.leios.manifests@.len() - i,
        {
            assert(self.leios.manifests@.skip(i as int).drop_first() =~= self.leios.manifests@.skip(
                i + 1,
            ));
            if hash_eq(&self.leios.manifests[i].eb_hash, eb_hash) {
                let n = self.leios.manifests[i].tx_hashes.len() as u64;
                return Some((n % 0x1_0000_0000) as u32);
            }
            i += 1;
        }
        None
    }

    /// Hands out the reports that Leios has buffered, and empties the buffer.
    pub fn drain_leios_telemetry(&mut self) -> (events: Vec<E>)
        ensures
            events == old(self).leios.telemetry,
            final(self).leios.telemetry@.len() == 0,
            final(self).praos == old(self).praos,
            final(self).leios == (LeiosView {
                telemetry: final(self).leios.telemetry,
                ..old(self).leios
            }),
    {
        let mut events: Vec<E> = Vec::new();
        core::mem::swap(&mut events, &mut self.leios.telemetry);
        events
    }

    /// Notes how many transactions an encoded endorser block has on each node of
    /// the chain tree that announces it, so that the number outlives the
    /// manifest. Nothing is noted at the origin, for bytes that cannot be read,
    /// and where no node announces the block.
    pub fn record_announced_eb_tx_count_from_blob(&mut self, point: &Point, blob: &[u8])
        ensures
            same_but_tree(*final(self), *old(self)),
            final(self).praos.chain_tree@ == noted_tree(
                old(self).praos.chain_tree@,
                *point,
                blob@,
            ),
    {
        if let Some((eb_hash, tx_count)) = announced_eb_tx_count(point, blob) {
            self.record_announced_eb_tx_count(&eb_hash, tx_count);
        }
    }

    /// Notes how many transactions an endorser block has on each node of the
    /// chain tree that announces it.
    pub fn record_announced_eb_tx_count(&mut self, eb_hash: &[u8; 32], tx_count: u32)
        ensures
            same_but_tree(*final(self), *old(self)),
            final(self).praos.chain_tree@ == old(self).praos.chain_tree@.map_values(
                |node: ChainNode| noted(node, *eb_hash, tx_count),
            ),
    {
        let mut i: usize = 0;
        while i < self.praos.chain_tree.len()
            invariant
                i <= self.praos.chain_tree@.len(),
                same_but_tree(*self, *old(self)),
                self.praos.chain_tree@.len() == old(self).praos.chain_tree@.len(),
                forall|k: int|
                    0 <= k < i ==> #[trigger] self.praos.chain_tree@[k] == noted(
                        old(self).praos.chain_tree@[k],
                        *eb_hash,
                        tx_count,
                    ),
                forall|k: int|
                    i <= k < self.praos.chain_tree@.len() ==> #[trigger] self.praos.chain_tree@[k]
                        == old(self).praos.chain_tree@[k],
            decreases self.praos.chain_tree@.len() - i,
        {
            let mut node = self.praos.chain_tree[i];
            if let Some(announced) = node.announced_eb {
                if hash_eq(&announced, eb_hash) {
                    node.announced_eb_tx_count = Some(tx_count);
                    self.praos.chain_tree[i] = node;
                }
            }
            i += 1;
        }
        assert(self.praos.chain_tree@ =~= old(self).praos.chain_tree@.map_values(
            |node: ChainNode| noted(node, *eb_hash, tx_count),
        ));
    }

    /// Routes an event of the network. The number of transactions of an endorser
    /// block that arrives is noted on the chain tree first.
    pub fn handle_event(&mut self, event: &NetworkEvent) -> (layer: Layer)
        ensures
            layer == layer_of(*event),
            same_but_tree(*final(self), *old(self)),
            final(self).praos.chain_tree@ == (match *event {
                NetworkEvent::LeiosBlockReceived { point, block } => noted_tree(
                    old(self).praos.chain_tree@,
                    point,
                    block@,
                ),
                _ => old(self).praos.chain_tree@,
            }),
    {
        match event {
            NetworkEvent::LeiosBlockReceived { point, block } => {
                self.record_announced_eb_tx_count_from_blob(point, block.as_slice());
                Layer::Leios
            },
            NetworkEvent::LeiosBlockOffered => Layer::Leios,
            NetworkEvent::LeiosBlockTxsOffered => Layer::Leios,
            NetworkEvent::LeiosVotesReceived => Layer::Leios,
            NetworkEvent::LeiosBlockTxsReceived => Layer::Leios,
            NetworkEvent::Chain => Layer::Praos,
        }
    }
}

/// The hash of an encoded endorser block and how many transactions it has;
/// nothing at the origin, and nothing for bytes that cannot be read.
pub fn announced_eb_tx_count(point: &Point, blob: &[u8]) -> (res: Option<([u8; 32], u32)>)
    ensures
        res == announced_count(*point, blob@),
{
    match point {
        Point::Specific { hash, .. } => {
            let tx_hashes = decode_overflow_eb(blob)?;
            let n = tx_hashes.len() as u64;
            Some((*hash, (n % 0x1_0000_0000) as u32))
        },
        Point::Origin => None,
    }
}

/// What follows from a finding of the ledger, where `parent_eb` is the endorser
/// block that the applied block certifies: its parent's, by slot and hash.
pub fn plan_outcome(outcome: &LedgerOutcome, parent_eb: Option<(u64, [u8; 32])>) -> (plan:
    OutcomePlan)
    ensures
        plan == (match *outcome {
            LedgerOutcome::EbValidated { point } => OutcomePlan {
                validated_eb: Some(point),
                endorsed_eb: None,
                to_praos: false,
            },
            LedgerOutcome::Applied { .. } => OutcomePlan {
                validated_eb: None,
                endorsed_eb: parent_eb,
                to_praos: true,
            },
            LedgerOutcome::Other => OutcomePlan {
                validated_eb: None,
                endorsed_eb: None,
                to_praos: true,
            },
        }),
{
    match outcome {
        LedgerOutcome::EbValidated { point } => OutcomePlan {
            validated_eb: Some(*point),
            endorsed_eb: None,
            to_praos: false,
        },
        LedgerOutcome::Applied { .. } => OutcomePlan {
            validated_eb: None,
            endorsed_eb: parent_eb,
            to_praos: true,
        },
        LedgerOutcome::Other => OutcomePlan {
            validated_eb: None,
            endorsed_eb: None,
            to_praos: true,
        },
    }
}

/// Noting an endorser block twice is noting it once.
pub proof fn law_noting_is_idempotent(tree: Seq<ChainNode>, point: Point, blob: Seq<u8>)
    ensures
        noted_tree(noted_tree(tree, point, blob), point, blob) == noted_tree(tree, point, blob),
{
    assert(noted_tree(noted_tree(tree, point, blob), point, blob) =~= noted_tree(
        tree,
        point,
        blob,
    ));
}

/// A block may carry a certificate only for an endorser block that has reached a
/// quorum: the slot is that of an entry with the announced hash, and there is
/// none only where no entry has it.
pub proof fn law_cert_needs_quorum(certifiable: Seq<CertifiableEb>, eb_hash: [u8; 32])
    ensures
        match certifiable_slot(certifiable, eb_hash) {
            Some(slot) => exists|i: int|
                0 <= i < certifiable.len() && (#[trigger] certifiable[i]).eb_hash == eb_hash
                    && certifiable[i].announced_slot == slot,
            None => forall|i: int|
                0 <= i < certifiable.len() ==> (#[trigger] certifiable[i]).eb_hash != eb_hash,
        },
    decreases certifiable.len(),
{
    if certifiable.len() > 0 && certifiable[0].eb_hash != eb_hash {
        let rest = certifiable.drop_first();
        law_cert_needs_quorum(rest, eb_hash);
        assert(forall|i: int|
            1 <= i < certifiable.len() ==> #[trigger] certifiable[i] == rest[i - 1]);
        if let Some(slot) = certifiable_slot(certifiable, eb_hash) {
            let i = choose|i: int|
                0 <= i < rest.len() && (#[trigger] rest[i]).eb_hash == eb_hash
                    && rest[i].announced_slot == slot;
            assert(certifiable[i + 1] == rest[i]);
        }
    }
}

} // verus!
