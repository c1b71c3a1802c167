//! What the consensus layers tell each other.

use super::manifests::{are_manifest_entries, law_sizes_do_not_matter, sized_manifest};
use crate::consensus::{
    announced_count, certifiable_slot, layer_of, manifest_count, noted, noted_tree, same_but_tree,
    tells_of_tip, CertifiableEb, ChainNode, ChainTipContext, Consensus, EbManifest, Layer,
    NetworkEvent, PraosView,
};
use crate::eb::manifest_hashes;
use crate::types::Point;
use vstd::prelude::*;

verus! {

/// Everything but an event of the chain goes to the Leios layer.
pub proof fn law_chain_events_alone_go_to_praos(event: NetworkEvent)
    ensures
        layer_of(event) == Layer::Praos <==> event is Chain,
        layer_of(event) == Layer::Leios <==> event is LeiosBlockOffered
            || event is LeiosBlockTxsOffered || event is LeiosBlockReceived
            || event is LeiosVotesReceived || event is LeiosBlockTxsReceived,
{
}

/// What Leios is told of the chain's tip is what Praos shows of it: when its
/// header arrived, what it announces, its slot, and the slots with more than one
/// block.
pub proof fn law_leios_is_told_what_praos_shows(context: ChainTipContext, praos: PraosView)
    requires
        tells_of_tip(context, praos),
    ensures
        context.rb_header_arrival_slot == praos.adopted_tip_header_arrival_slot,
        context.eb_announcement == praos.adopted_tip_announced_eb,
        context.equivocating_slots@ == praos.equivocating_rb_slots@,
        context.tip_rb_slot == praos.adopted_tip_rb_slot,
{
}

/// Noting numbers of transactions changes nothing but the chain tree.
pub proof fn law_noting_changes_the_tree_alone<E>(before: Consensus<E>, after: Consensus<E>)
    requires
        same_but_tree(after, before),
    ensures
        after.leios == before.leios,
        after.praos.current_slot == before.praos.current_slot,
        after.praos.local_tip == before.praos.local_tip,
        after.praos.tip_hash == before.praos.tip_hash,
        after.praos.next_block_number == before.praos.next_block_number,
        after.praos.adopted_tip_announced_eb == before.praos.adopted_tip_announced_eb,
        after.praos.adopted_tip_header_arrival_slot == before.praos.adopted_tip_header_arrival_slot,
        after.praos.adopted_tip_rb_slot == before.praos.adopted_tip_rb_slot,
        after.praos.equivocating_rb_slots == before.praos.equivocating_rb_slots,
{
}

/// The slot of a certificate is that of the first entry with the announced hash,
/// and there is none where no entry has it.
pub proof fn law_first_certifiable_entry_counts(
    certifiable: Seq<CertifiableEb>,
    eb_hash: [u8; 32],
    i: int,
)
    requires
        0 <= i <= certifiable.len(),
        forall|j: int| 0 <= j < i ==> (#[trigger] certifiable[j]).eb_hash != eb_hash,
        i < certifiable.len() ==> certifiable[i].eb_hash == eb_hash,
    ensures
        certifiable_slot(certifiable, eb_hash) == (if i < certifiable.len() {
            Some(certifiable[i].announced_slot)
        } else {
            None
        }),
    decreases certifiable.len(),
{
    if i > 0 {
        let rest = certifiable.drop_first();
        assert(certifiable[0].eb_hash != eb_hash);
        assert forall|j: int| 0 <= j < i - 1 implies (#[trigger] rest[j]).eb_hash != eb_hash by {
            assert(certifiable[j + 1].eb_hash != eb_hash);
        }
        law_first_certifiable_entry_counts(rest, eb_hash, i - 1);
    }
}

/// The number of transactions of an endorser block is that of the first manifest
/// with its hash, in 32 bits, and none is known where no manifest has it.
pub proof fn law_first_manifest_counts(manifests: Seq<EbManifest>, eb_hash: [u8; 32], i: int)
    requires
        0 <= i <= manifests.len(),
        forall|j: int| 0 <= j < i ==> (#[trigger] manifests[j]).eb_hash != eb_hash,
        i < manifests.len() ==> manifests[i].eb_hash == eb_hash,
    ensures
        manifest_count(manifests, eb_hash) is Some <==> i < manifests.len(),
        i < manifests.len() && manifests[i].tx_hashes@.len() <= 0xffff_ffff ==> manifest_count(
            manifests,
            eb_hash,
        ) == Some(manifests[i].tx_hashes@.len() as u32),
        i < manifests.len() ==> (manifests[i].tx_hashes@.len() - manifest_count(
            manifests,
            eb_hash,
        )->Some_0) % 0x1_0000_0000 == 0,
    decreases manifests.len(),
{
    if i > 0 {
        let rest = manifests.drop_first();
        assert(manifests[0].eb_hash != eb_hash);
        assert forall|j: int| 0 <= j < i - 1 implies (#[trigger] rest[j]).eb_hash != eb_hash by {
            assert(manifests[j + 1].eb_hash != eb_hash);
        }
        law_first_manifest_counts(rest, eb_hash, i - 1);
    }
}

/// An endorser block has as many transactions as its manifest has entries,
/// whatever their sizes; nothing is known at the origin, nor of bytes that are no
/// manifest.
pub proof fn law_announced_number_is_the_number_of_entries(
    slot: u64,
    hash: [u8; 32],
    keys: Seq<Seq<u8>>,
    sizes: Seq<u64>,
    definite: bool,
    rest: Seq<u8>,
)
    requires
        keys.len() == sizes.len() <= 0xffff_ffff,
        forall|k: int| 0 <= k < keys.len() ==> (#[trigger] keys[k]).len() <= u64::MAX,
    ensures
        ({
            let blob = sized_manifest(keys, sizes, definite) + rest;
            &&& announced_count(Point::Specific { slot, hash }, blob) == (if are_manifest_entries(
                keys,
                sizes,
            ) {
                Some((hash, keys.len() as u32))
            } else {
                None
            })
            &&& announced_count(Point::Origin, blob) is None
        }),
{
    law_sizes_do_not_matter(keys, sizes, definite, rest);
}

/// An endorser block that was seen is noted on every node that announces it, with
/// its number of transactions, and on no other; what the nodes announce stays.
pub proof fn law_seen_blocks_are_noted_where_announced(
    tree: Seq<ChainNode>,
    slot: u64,
    hash: [u8; 32],
    keys: Seq<Seq<u8>>,
    sizes: Seq<u64>,
    definite: bool,
    rest: Seq<u8>,
    k: int,
)
    requires
        keys.len() == sizes.len() <= 0xffff_ffff,
        are_manifest_entries(keys, sizes),
        0 <= k < tree.len(),
    ensures
        ({
            let blob = sized_manifest(keys, sizes, definite) + rest;
            let after = noted_tree(tree, Point::Specific { slot, hash }, blob);
            &&& after.len() == tree.len()
            &&& after[k].announced_eb == tree[k].announced_eb
            &&& after[k].announced_eb_tx_count == (if tree[k].announced_eb == Some(hash) {
                Some(keys.len() as u32)
            } else {
                tree[k].announced_eb_tx_count
            })
            &&& noted_tree(tree, Point::Origin, blob) == tree
        }),
{
    law_announced_number_is_the_number_of_entries(slot, hash, keys, sizes, definite, rest);
}

/// Bytes that are no manifest leave the chain tree as it is.
pub proof fn law_unreadable_blocks_are_not_noted(tree: Seq<ChainNode>, point: Point, blob: Seq<u8>)
    requires
        manifest_hashes(blob) is None,
    ensures
        noted_tree(tree, point, blob) == tree,
{
}

/// A number that is noted for an endorser block is put on a node if and only if
/// the node announces that block.
pub proof fn law_number_is_noted_where_announced(node: ChainNode, eb_hash: [u8; 32], tx_count: u32)
    ensures
        noted(node, eb_hash, tx_count).announced_eb == node.announced_eb,
        noted(node, eb_hash, tx_count).announced_eb_tx_count == (if node.announced_eb == Some(
            eb_hash,
        ) {
            Some(tx_count)
        } else {
            node.announced_eb_tx_count
        }),
{
}

} // verus!
