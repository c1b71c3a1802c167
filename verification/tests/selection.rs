use leios_tools::behaviour::selection::{
    cover_stake, resolve_assignments, resolve_selection, stake_ranked,
    stake_ranked_with_stake, take_picks, total_stake, BehaviourSelection,
};
use leios_tools::header::blake2b_256;
use std::collections::{BTreeMap, BTreeSet};

/// The seed of an item: a hash of the run's seed and the item's place.
fn child_seed(seed: u64, index: usize) -> u64 {
    let mut data = seed.to_be_bytes().to_vec();
    data.extend_from_slice(&(index as u64).to_be_bytes());
    let hash = blake2b_256(&data);
    u64::from_be_bytes(hash[..8].try_into().unwrap())
}

/// The stake that covers a fraction of all stake.
fn fraction(stakes: &[u64], fraction: f64) -> BehaviourSelection {
    let total = total_stake(stakes);
    let target = if fraction >= 1.0 {
        total
    } else {
        (total as f64 * fraction.clamp(0.0, 1.0)).ceil() as u128
    };
    BehaviourSelection::StakeFraction { target }
}

#[test]
fn all_picks_every_node() {
    let set = resolve_selection(&BehaviourSelection::All, &[0, 5, 0, 5, 0], None);
    assert_eq!(set.iter().copied().collect::<Vec<_>>(), vec![0, 1, 2, 3, 4]);
}

#[test]
fn nodes_verbatim() {
    let set = resolve_selection(
        &BehaviourSelection::Nodes { indices: vec![1, 3] },
        &[1, 1, 1, 1],
        None,
    );
    assert_eq!(set.iter().copied().collect::<Vec<_>>(), vec![1, 3]);
}

#[test]
fn nodes_drops_out_of_range() {
    let set = resolve_selection(
        &BehaviourSelection::Nodes { indices: vec![0, 99, 2] },
        &[1, 1, 1],
        None,
    );
    assert_eq!(set.iter().copied().collect::<Vec<_>>(), vec![0, 2]);
}

#[test]
fn stake_ordered_filters_zero_stake_and_takes_top_n() {
    let stakes = vec![10, 100, 50, 0, 200];
    let set = resolve_selection(&BehaviourSelection::StakeOrdered { count: 2 }, &stakes, None);
    assert_eq!(set.iter().copied().collect::<Vec<_>>(), vec![1, 4]);
}

#[test]
fn stake_ordered_count_zero_returns_empty() {
    let set = resolve_selection(
        &BehaviourSelection::StakeOrdered { count: 0 },
        &[10, 10, 10],
        None,
    );
    assert!(set.is_empty());
}

#[test]
fn stake_ordered_count_exceeds_pool_takes_all_bearers() {
    let stakes = vec![10, 0, 20, 0, 30];
    let set = resolve_selection(&BehaviourSelection::StakeOrdered { count: 99 }, &stakes, None);
    assert_eq!(set.iter().copied().collect::<Vec<_>>(), vec![0, 2, 4]);
}

#[test]
fn stake_random_is_deterministic_for_seed() {
    let stakes = vec![10, 0, 20, 0, 30, 0, 40, 0, 50];
    let mk = |seed: u64| -> BTreeSet<usize> {
        resolve_selection(
            &BehaviourSelection::StakeRandom { count: 2 },
            &stakes,
            Some(seed),
        )
    };
    assert_eq!(mk(42), mk(42));
    let a = mk(42);
    let b = mk(43);
    assert_ne!(a, b, "seed should change the selection");
    let bearers: BTreeSet<usize> = [0, 2, 4, 6, 8].into_iter().collect();
    for node in &a {
        assert!(bearers.contains(node));
    }
}

#[test]
fn stake_random_count_zero_returns_empty() {
    let set = resolve_selection(
        &BehaviourSelection::StakeRandom { count: 0 },
        &[10, 20, 30],
        Some(0),
    );
    assert!(set.is_empty());
}

#[test]
fn stake_fraction_picks_smallest_prefix_covering_target() {
    let stakes = vec![100, 100, 100, 100, 100];
    let set = resolve_selection(&fraction(&stakes, 0.4), &stakes, None);
    assert_eq!(set.iter().copied().collect::<Vec<_>>(), vec![0, 1]);
}

#[test]
fn stake_fraction_with_uneven_pools() {
    let stakes = vec![10, 100, 50, 200];
    let set = resolve_selection(&fraction(&stakes, 0.5), &stakes, None);
    assert_eq!(set.iter().copied().collect::<Vec<_>>(), vec![3]);
}

#[test]
fn stake_fraction_skips_relays() {
    let stakes = vec![100, 100, 100, 0, 0, 0, 0];
    let set = resolve_selection(&fraction(&stakes, 0.3), &stakes, None);
    assert_eq!(set.iter().copied().collect::<Vec<_>>(), vec![0]);
}

#[test]
fn stake_fraction_zero_returns_empty() {
    let stakes = [100, 100];
    let set = resolve_selection(&fraction(&stakes, 0.0), &stakes, None);
    assert!(set.is_empty());
}

#[test]
fn stake_fraction_one_picks_all_bearers() {
    let stakes = vec![10, 0, 20, 0, 30];
    let set = resolve_selection(&fraction(&stakes, 1.0), &stakes, None);
    assert_eq!(set.iter().copied().collect::<Vec<_>>(), vec![0, 2, 4]);
}

#[test]
fn all_of_a_large_stake_picks_all_bearers() {
    let stakes = vec![1 << 53, 1, 0];
    let set = resolve_selection(&fraction(&stakes, 1.0), &stakes, None);
    assert_eq!(set.iter().copied().collect::<Vec<_>>(), vec![0, 1]);
}

#[test]
fn seed_matters_to_random_picks_only() {
    let stakes = [4, 9, 0, 2];
    for selection in [
        BehaviourSelection::All,
        BehaviourSelection::Nodes { indices: vec![2] },
        BehaviourSelection::StakeOrdered { count: 2 },
        BehaviourSelection::StakeFraction { target: 10 },
    ] {
        assert_eq!(
            resolve_selection(&selection, &stakes, Some(99)),
            resolve_selection(&selection, &stakes, None)
        );
    }
}

#[test]
fn resolve_assignments_is_payload_agnostic_and_emits_per_pick() {
    let items = vec![
        ("a.toml", BehaviourSelection::All),
        ("b.toml", BehaviourSelection::Nodes { indices: vec![1] }),
    ];
    let out = resolve_assignments(&items, &[1, 1, 1], None);
    assert_eq!(
        out,
        vec![(0, "a.toml"), (1, "a.toml"), (2, "a.toml"), (1, "b.toml"),]
    );
    let map: BTreeMap<usize, &str> = out.into_iter().collect();
    assert_eq!(map.get(&1), Some(&"b.toml"));
    assert_eq!(map.get(&0), Some(&"a.toml"));
}

#[test]
fn resolve_assignments_salts_seed_per_item_so_stake_random_items_are_independent() {
    let stakes = vec![10, 20, 30, 40, 50, 60, 70, 80, 90, 100];
    let items = vec![
        ("a", BehaviourSelection::StakeRandom { count: 3 }),
        ("b", BehaviourSelection::StakeRandom { count: 3 }),
    ];
    let seeds = [child_seed(7, 0), child_seed(7, 1)];
    let out = resolve_assignments(&items, &stakes, Some(&seeds));
    let a: BTreeSet<usize> = out.iter().filter(|(_, p)| *p == "a").map(|(i, _)| *i).collect();
    let b: BTreeSet<usize> = out.iter().filter(|(_, p)| *p == "b").map(|(i, _)| *i).collect();
    assert_ne!(
        a, b,
        "two StakeRandom items with same count should select different subsets"
    );
}

#[test]
fn stake_random_is_not_the_first_nodes() {
    let stakes = vec![1u64; 60];
    let picked = resolve_selection(
        &BehaviourSelection::StakeRandom { count: 20 },
        &stakes,
        Some(11),
    );
    assert_eq!(picked.len(), 20);
    assert_ne!(picked, (0..20).collect::<BTreeSet<usize>>());
}

#[test]
fn stake_random_without_a_seed_uses_zero() {
    let stakes = vec![3u64; 40];
    let selection = BehaviourSelection::StakeRandom { count: 7 };
    assert_eq!(
        resolve_selection(&selection, &stakes, None),
        resolve_selection(&selection, &stakes, Some(0))
    );
}

#[test]
fn stake_random_takes_all_bearers_where_it_asks_for_more() {
    let picked = resolve_selection(
        &BehaviourSelection::StakeRandom { count: 9 },
        &[0, 4, 0, 5],
        Some(1),
    );
    assert_eq!(picked, [1, 3].into_iter().collect::<BTreeSet<usize>>());
}

#[test]
fn ranking_breaks_ties_by_index() {
    assert_eq!(stake_ranked(&[5, 9, 5, 0, 9, 1]), vec![1, 4, 0, 2, 5]);
    assert_eq!(
        stake_ranked_with_stake(&[5, 9, 5, 0]),
        vec![(1, 9), (0, 5), (2, 5)]
    );
    assert!(stake_ranked(&[0, 0]).is_empty());
}

#[test]
fn picks_are_the_first_of_an_order() {
    assert_eq!(take_picks(&[4, 2, 9], 2), [2, 4].into_iter().collect::<BTreeSet<usize>>());
    assert_eq!(take_picks(&[4, 2, 9], 5).len(), 3);
    assert!(take_picks(&[4], 0).is_empty());
}

#[test]
fn cover_stops_once_the_target_is_held() {
    let stakes = [10, 30, 20];
    let set = |v: &[usize]| v.iter().copied().collect::<BTreeSet<usize>>();
    assert_eq!(cover_stake(&stakes, 0), set(&[]));
    assert_eq!(cover_stake(&stakes, 1), set(&[1]));
    assert_eq!(cover_stake(&stakes, 30), set(&[1]));
    assert_eq!(cover_stake(&stakes, 31), set(&[1, 2]));
    assert_eq!(cover_stake(&stakes, 50), set(&[1, 2]));
    assert_eq!(cover_stake(&stakes, 51), set(&[0, 1, 2]));
    assert_eq!(cover_stake(&stakes, u128::MAX), set(&[0, 1, 2]));
}

#[test]
fn total_stake_exceeds_64_bits() {
    assert_eq!(total_stake(&[u64::MAX, u64::MAX, 2]), (u64::MAX as u128) * 2 + 2);
    assert_eq!(total_stake(&[]), 0);
}

#[test]
fn each_item_uses_its_own_seed() {
    let stakes = vec![1u64; 50];
    let random = BehaviourSelection::StakeRandom { count: 5 };
    let items = vec![("a", random.clone()), ("b", random.clone()), ("c", random.clone())];
    let out = resolve_assignments(&items, &stakes, Some(&[3, 4]));
    let of = |name: &str| -> BTreeSet<usize> {
        out.iter().filter(|(_, p)| *p == name).map(|(i, _)| *i).collect()
    };
    assert_eq!(of("a"), resolve_selection(&random, &stakes, Some(3)));
    assert_eq!(of("b"), resolve_selection(&random, &stakes, Some(4)));
    assert_eq!(of("c"), resolve_selection(&random, &stakes, None));
    let swapped = resolve_assignments(&items, &stakes, Some(&[9, 4]));
    let b: BTreeSet<usize> = swapped.iter().filter(|(_, p)| *p == "b").map(|(i, _)| *i).collect();
    assert_eq!(b, of("b"));
}
