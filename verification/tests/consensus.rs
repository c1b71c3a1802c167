use leios_tools::consensus::{
    announced_eb_tx_count, plan_outcome, CertifiableEb, ChainNode, Consensus, EbManifest, Layer, LedgerOutcome,
    LeiosView, NetworkEvent, OutcomePlan, PraosView,
};
use leios_tools::eb::encode_overflow_eb;
use leios_tools::types::{Point, Tip, TxId};
use std::collections::BTreeSet;

fn node(eb: Option<u8>) -> ChainNode {
    ChainNode { announced_eb: eb.map(|t| [t; 32]), announced_eb_tx_count: None }
}

fn consensus() -> Consensus<&'static str> {
    let point = Point::Specific { slot: 8, hash: [8; 32] };
    Consensus::new(
        PraosView {
            current_slot: 0,
            local_tip: Some(Tip { point, block_no: 5 }),
            tip_hash: Some([8; 32]),
            next_block_number: 6,
            adopted_tip_announced_eb: Some([1; 32]),
            adopted_tip_header_arrival_slot: Some(9),
            adopted_tip_rb_slot: Some(8),
            equivocating_rb_slots: [3u64, 4].into_iter().collect(),
            chain_tree: vec![node(Some(1)), node(None), node(Some(2)), node(Some(1))],
        },
        LeiosView {
            chain_tip: None,
            certifiable: vec![
                CertifiableEb { eb_hash: [2; 32], announced_slot: 20 },
                CertifiableEb { eb_hash: [1; 32], announced_slot: 10 },
                CertifiableEb { eb_hash: [1; 32], announced_slot: 11 },
            ],
            manifests: vec![EbManifest {
                eb_hash: [2; 32],
                tx_hashes: vec![TxId::new_with_array([0; 32]), TxId::new_with_array([1; 32])],
            }],
            telemetry: vec!["a", "b"],
        },
    )
}

fn counts(c: &Consensus<&'static str>) -> Vec<Option<u32>> {
    c.praos.chain_tree.iter().map(|n| n.announced_eb_tx_count).collect()
}

fn blob(n: u8) -> Vec<u8> {
    let ids: Vec<TxId> = (0..n).map(|i| TxId::new_with_array([i; 32])).collect();
    encode_overflow_eb(&ids)
}

#[test]
fn facade_shows_the_tip() {
    let c = consensus();
    assert_eq!(c.local_tip().unwrap().block_no, 5);
    assert_eq!(c.tip_hash(), Some([8; 32]));
    assert_eq!(c.next_block_number(), 6);
}

#[test]
fn certificate_needs_the_parents_eb_and_a_quorum() {
    let mut c = consensus();
    assert_eq!(c.cert_for_parent(), Some(10));
    c.praos.adopted_tip_announced_eb = Some([9; 32]);
    assert_eq!(c.cert_for_parent(), None);
    c.praos.adopted_tip_announced_eb = None;
    assert_eq!(c.cert_for_parent(), None);
}

#[test]
fn telemetry_is_drained_once() {
    let mut c = consensus();
    assert_eq!(c.drain_leios_telemetry(), vec!["a", "b"]);
    assert!(c.drain_leios_telemetry().is_empty());
}

#[test]
fn slot_tells_leios_of_the_tip() {
    let mut c = consensus();
    c.on_slot(12);
    assert_eq!(c.praos.current_slot, 12);
    let ctx = c.leios.chain_tip.as_ref().unwrap();
    assert_eq!(ctx.rb_header_arrival_slot, Some(9));
    assert_eq!(ctx.eb_announcement, Some([1; 32]));
    assert_eq!(ctx.equivocating_slots, [3u64, 4].into_iter().collect::<BTreeSet<u64>>());
    assert_eq!(ctx.tip_rb_slot, Some(8));
    c.praos.adopted_tip_announced_eb = None;
    c.refresh_chain_tip_ctx();
    assert_eq!(c.leios.chain_tip.as_ref().unwrap().eb_announcement, None);
    assert_eq!(c.praos.current_slot, 12);
}

#[test]
fn transaction_count_is_noted_where_announced() {
    let mut c = consensus();
    let point = Point::Specific { slot: 7, hash: [1; 32] };
    c.record_announced_eb_tx_count_from_blob(&point, &blob(3));
    assert_eq!(counts(&c), vec![Some(3), None, None, Some(3)]);
    c.record_announced_eb_tx_count_from_blob(&point, &blob(3));
    assert_eq!(counts(&c), vec![Some(3), None, None, Some(3)]);
    c.record_announced_eb_tx_count_from_blob(&point, &[0xFF]);
    c.record_announced_eb_tx_count_from_blob(&Point::Origin, &blob(9));
    let unknown = Point::Specific { slot: 7, hash: [77; 32] };
    c.record_announced_eb_tx_count_from_blob(&unknown, &blob(9));
    assert_eq!(counts(&c), vec![Some(3), None, None, Some(3)]);
    c.record_announced_eb_tx_count(&[2; 32], 40);
    assert_eq!(counts(&c), vec![Some(3), None, Some(40), Some(3)]);
}

#[test]
fn encoded_block_tells_its_count() {
    let point = Point::Specific { slot: 7, hash: [1; 32] };
    assert_eq!(announced_eb_tx_count(&point, &blob(3)), Some(([1; 32], 3)));
    assert_eq!(announced_eb_tx_count(&point, &blob(0)), Some(([1; 32], 0)));
    assert_eq!(announced_eb_tx_count(&point, &[0xFF]), None);
    assert_eq!(announced_eb_tx_count(&Point::Origin, &blob(3)), None);
}

#[test]
fn events_go_to_their_layer() {
    let mut c = consensus();
    assert_eq!(c.handle_event(&NetworkEvent::Chain), Layer::Praos);
    assert_eq!(c.handle_event(&NetworkEvent::LeiosBlockOffered), Layer::Leios);
    assert_eq!(c.handle_event(&NetworkEvent::LeiosBlockTxsOffered), Layer::Leios);
    assert_eq!(c.handle_event(&NetworkEvent::LeiosVotesReceived), Layer::Leios);
    assert_eq!(c.handle_event(&NetworkEvent::LeiosBlockTxsReceived), Layer::Leios);
    assert_eq!(counts(&c), vec![None; 4]);
    let point = Point::Specific { slot: 7, hash: [2; 32] };
    let received = NetworkEvent::LeiosBlockReceived { point, block: blob(2) };
    assert_eq!(c.handle_event(&received), Layer::Leios);
    assert_eq!(counts(&c), vec![None, None, Some(2), None]);
}

#[test]
fn manifest_gives_the_count() {
    let c = consensus();
    assert_eq!(c.eb_tx_count(&[2; 32]), Some(2));
    assert_eq!(c.eb_tx_count(&[1; 32]), None);
}

#[test]
fn outcomes_have_their_plan() {
    let point = Point::Specific { slot: 1, hash: [1; 32] };
    let eb = Some((4u64, [4u8; 32]));
    assert_eq!(
        plan_outcome(&LedgerOutcome::EbValidated { point }, eb),
        OutcomePlan { validated_eb: Some(point), endorsed_eb: None, to_praos: false }
    );
    assert_eq!(
        plan_outcome(&LedgerOutcome::Applied { point }, eb),
        OutcomePlan { validated_eb: None, endorsed_eb: eb, to_praos: true }
    );
    assert_eq!(
        plan_outcome(&LedgerOutcome::Applied { point }, None),
        OutcomePlan { validated_eb: None, endorsed_eb: None, to_praos: true }
    );
    assert_eq!(
        plan_outcome(&LedgerOutcome::Other, eb),
        OutcomePlan { validated_eb: None, endorsed_eb: None, to_praos: true }
    );
}
