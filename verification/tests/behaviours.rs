use leios_tools::behaviour::echo_to_source::EchoToSource;
use leios_tools::behaviour::lie_about_eb_size::LieAboutEbSize;
use leios_tools::behaviour::outbound::{Outbound, OutboundDecision, OwnedOutbound};
use leios_tools::behaviour::variants::{EquivocationVariants, RbVariant};
use leios_tools::behaviour::{Behaviour, HonestBehaviour};
use leios_tools::types::{PeerId, Point};

#[test]
fn zero_constructor_yields_zero_size() {
    let b = LieAboutEbSize::zero();
    assert_eq!(b.mutate_size(0), 0);
    assert_eq!(b.mutate_size(42), 0);
    assert_eq!(b.mutate_size(u32::MAX), 0);
}

#[test]
fn identity_no_op() {
    let b = LieAboutEbSize::new(1, 1, 0);
    for eb_size in [0u32, 1, 42, 78627, u32::MAX] {
        assert_eq!(b.mutate_size(eb_size), eb_size, "eb_size={eb_size}");
    }
}

#[test]
fn off_by_constant() {
    let b = LieAboutEbSize::new(1, 1, 1);
    assert_eq!(b.mutate_size(0), 1);
    assert_eq!(b.mutate_size(42), 43);
    let b_neg = LieAboutEbSize::new(1, 1, -1);
    assert_eq!(b_neg.mutate_size(43), 42);
}

#[test]
fn halving() {
    let b = LieAboutEbSize::new(1, 2, 0);
    assert_eq!(b.mutate_size(100), 50);
    assert_eq!(b.mutate_size(101), 50);
    assert_eq!(b.mutate_size(0), 0);
}

#[test]
fn doubling() {
    let b = LieAboutEbSize::new(2, 1, 0);
    assert_eq!(b.mutate_size(100), 200);
    assert_eq!(b.mutate_size(u32::MAX / 2), u32::MAX - 1);
}

#[test]
fn clamp_below_zero() {
    let b = LieAboutEbSize::new(1, 1, -10);
    assert_eq!(b.mutate_size(5), 0);
}

#[test]
fn clamp_above_u32_max() {
    let b = LieAboutEbSize::new(2, 1, 0);
    assert_eq!(b.mutate_size(u32::MAX), u32::MAX);
}

#[test]
fn zero_denominator_treated_as_one() {
    let b = LieAboutEbSize::new(3, 0, 0);
    assert_eq!(b.mutate_size(42), 126);
}

#[test]
fn stored_zero_denominator_counts_as_one() {
    let b = LieAboutEbSize { scale_num: 3, scale_den: 0, offset: 4 };
    assert_eq!(b.mutate_size(2), 10);
}

#[test]
fn extreme_scales_stay_within_32_bits() {
    let b = LieAboutEbSize::new(u32::MAX, 1, i32::MAX);
    assert_eq!(b.mutate_size(u32::MAX), u32::MAX);
    let b = LieAboutEbSize::new(u32::MAX, u32::MAX, i32::MIN);
    assert_eq!(b.mutate_size(u32::MAX), 0x7FFF_FFFF);
    assert_eq!(b.mutate_size(0), 0);
}

#[test]
fn larger_blocks_are_not_stated_as_smaller() {
    for b in [LieAboutEbSize::new(7, 3, -5), LieAboutEbSize::new(0, 9, 4), LieAboutEbSize::zero()] {
        let sizes: Vec<u32> = [0, 1, 2, 3, 100, 101, u32::MAX - 1, u32::MAX]
            .iter()
            .map(|s| b.mutate_size(*s))
            .collect();
        assert!(sizes.windows(2).all(|w| w[0] <= w[1]), "{sizes:?}");
    }
    assert_eq!(LieAboutEbSize::new(7, 3, -5).mutate_size(100), 228);
}

#[test]
fn transform_replaces_block_offer() {
    let mut b = LieAboutEbSize::zero();
    let point = Point::Specific { slot: 100, hash: [7u8; 32] };
    let source = Some(PeerId(3));
    let out = Outbound::LeiosBlockOffer { point: &point, eb_size: 78627, source };
    match b.transform_outbound(PeerId(1), out) {
        OutboundDecision::Replace(OwnedOutbound::LeiosBlockOffer {
            point: p,
            eb_size,
            source: s,
        }) => {
            assert_eq!(p, point);
            assert_eq!(eb_size, 0);
            assert_eq!(s, source);
        }
        other => panic!("expected Replace(LeiosBlockOffer), got {other:?}"),
    }
}

#[test]
fn transform_leaves_other_artefacts_alone() {
    let mut b = LieAboutEbSize::zero();
    let point = Point::Specific { slot: 200, hash: [9u8; 32] };
    let out = Outbound::LeiosBlockTxsOffer { point: &point, source: Some(PeerId(5)) };
    assert!(matches!(
        b.transform_outbound(PeerId(1), out),
        OutboundDecision::Send
    ));
    let header = vec![0u8; 32];
    let out = Outbound::RbHeader { slot: 100, header: &header };
    assert!(matches!(
        b.transform_outbound(PeerId(1), out),
        OutboundDecision::Send
    ));
}

#[test]
fn allows_echo_for_block_offer() {
    let mut behaviour = EchoToSource;
    let point = Point::Specific { slot: 100, hash: [0u8; 32] };
    let peer = PeerId(7);
    let out = Outbound::LeiosBlockOffer { point: &point, eb_size: 42, source: Some(peer) };
    assert!(behaviour.allow_echo_to_source(peer, &out));
}

#[test]
fn allows_echo_for_block_txs_offer() {
    let mut behaviour = EchoToSource;
    let point = Point::Specific { slot: 200, hash: [1u8; 32] };
    let peer = PeerId(3);
    let out = Outbound::LeiosBlockTxsOffer { point: &point, source: Some(peer) };
    assert!(behaviour.allow_echo_to_source(peer, &out));
}

#[test]
fn honest_default_blocks_echo() {
    let mut honest = HonestBehaviour;
    let point = Point::Specific { slot: 100, hash: [0u8; 32] };
    let peer = PeerId(7);
    let out = Outbound::LeiosBlockOffer { point: &point, eb_size: 42, source: Some(peer) };
    assert!(!honest.allow_echo_to_source(peer, &out));
}

#[test]
fn honest_behaviour_changes_nothing() {
    let mut honest = HonestBehaviour;
    let out = Outbound::RbHeader { slot: 1, header: &[1, 2] };
    assert!(honest.transform_outbound(PeerId(1), out).is_send());
    assert!(honest.find_variant_body(1, &[0; 32]).is_none());
    assert!(OutboundDecision::default().is_send());
    assert!(!OutboundDecision::Drop.is_send());
    assert!(!OutboundDecision::Augment(vec![]).is_send());
}

#[test]
fn behaviours_have_names() {
    assert_eq!(HonestBehaviour.name(), "honest");
    assert_eq!(EchoToSource.name(), "echo-to-source");
    assert_eq!(LieAboutEbSize::zero().name(), "lie-about-eb-size");
}

fn variant(tag: u8) -> RbVariant {
    RbVariant { hash: [tag; 32], header: vec![tag, 0xAA], body: vec![tag, 0xBB] }
}

#[test]
fn record_and_route_by_bucket() {
    let mut store = EquivocationVariants::new();
    store.record(10, vec![variant(1), variant(2), variant(3)]);
    assert_eq!(store.ways_at(10), 3);
    assert_eq!(store.variant_for(10, 0), Some(&variant(1)));
    assert_eq!(store.variant_for(10, 2), Some(&variant(3)));
    assert_eq!(store.variant_for(10, 3), None);
    assert_eq!(store.variant_for(99, 0), None);
}

#[test]
fn body_lookup_by_hash() {
    let mut store = EquivocationVariants::new();
    store.record(10, vec![variant(1), variant(2)]);
    assert_eq!(store.body_for(10, &[2; 32]), Some([2, 0xBB].as_slice()));
    assert_eq!(store.body_for(10, &[9; 32]), None);
    assert_eq!(store.body_for(11, &[1; 32]), None);
}

#[test]
fn prune_below_evicts_old_slots() {
    let mut store = EquivocationVariants::new();
    store.record(5, vec![variant(1)]);
    store.record(10, vec![variant(2)]);
    store.record(15, vec![variant(3)]);
    store.prune_below(10);
    assert_eq!(store.ways_at(5), 0);
    assert_eq!(store.ways_at(10), 1);
    assert_eq!(store.ways_at(15), 1);
}

#[test]
fn recording_again_replaces_the_slot() {
    let mut store = EquivocationVariants::new();
    store.record(10, vec![variant(1), variant(2)]);
    store.record(11, vec![variant(4)]);
    store.record(10, vec![variant(3)]);
    assert_eq!(store.ways_at(10), 1);
    assert_eq!(store.variant_for(10, 0), Some(&variant(3)));
    assert_eq!(store.variant_for(11, 0), Some(&variant(4)));
}

#[test]
fn first_variant_with_a_hash_is_served() {
    let mut store = EquivocationVariants::new();
    let mut twin = variant(1);
    twin.body = vec![0xEE];
    store.record(3, vec![variant(1), twin]);
    assert_eq!(store.body_for(3, &[1; 32]), Some([1, 0xBB].as_slice()));
}

#[test]
fn pruning_everything_or_nothing() {
    let mut store = EquivocationVariants::new();
    store.prune_below(u64::MAX);
    for slot in 0..6 {
        store.record(slot, vec![variant(slot as u8)]);
    }
    store.prune_below(0);
    assert_eq!((0..6).map(|s| store.ways_at(s)).sum::<usize>(), 6);
    store.prune_below(6);
    assert_eq!((0..6).map(|s| store.ways_at(s)).sum::<usize>(), 0);
}
