//! Which nodes the selections pick, and how payloads are assigned to them.

use crate::behaviour::selection::{
    ascending, assigned, assigns, at_most, bears_stake, is_ranking, item_picks, item_seed,
    lemma_stake_all, lemma_stake_insert, ranked_before, seed_list, seeded_shuffle, selected, stake_bearers,
    stake_of, total_of, BehaviourSelection,
};
use vstd::prelude::*;
use vstd::seq_lib::lemma_seq_concat_contains_all_elements;

verus! {

/// The nodes with stake that come before node `i` when the one with the most
/// stake comes first, and of two with as much the one with the lower index.
pub open spec fn ahead_of(stakes: Seq<u64>, i: usize) -> Set<usize> {
    Set::new(
        |j: usize|
            j < stakes.len() && stakes[j as int] > 0 && (stakes[j as int] > stakes[i as int] || (
            stakes[j as int] == stakes[i as int] && j < i)),
    )
}

/// `All` picks every node, with stake or without.
pub proof fn law_all_picks_every_node(stakes: Seq<u64>, seed: Option<u64>, i: usize)
    ensures
        selected(BehaviourSelection::All, stakes, seed).contains(i) <==> i < stakes.len(),
{
}

/// `Nodes` picks the listed nodes that exist, with stake or without, and no
/// others.
pub proof fn law_listed_nodes_are_picked(
    indices: Vec<usize>,
    stakes: Seq<u64>,
    seed: Option<u64>,
    i: usize,
)
    ensures
        selected(BehaviourSelection::Nodes { indices }, stakes, seed).contains(i) <==> i
            < stakes.len() && exists|k: int| 0 <= k < indices@.len() && #[trigger] indices@[k] == i,
{
}

/// `StakeOrdered` picks a node if and only if it has stake and fewer than `count`
/// nodes with stake are ahead of it.
pub proof fn law_most_staked_nodes_are_picked(
    count: usize,
    stakes: Seq<u64>,
    seed: Option<u64>,
    i: usize,
)
    ensures
        selected(BehaviourSelection::StakeOrdered { count }, stakes, seed).contains(i) <==> i
            < stakes.len() && stakes[i as int] > 0 && ahead_of(stakes, i).len() < count,
{
    assert(ahead_of(stakes, i) =~= ranked_before(stakes, i));
}

/// `StakeFraction` picks a node if and only if it has stake and the nodes ahead
/// of it do not hold the target.
pub proof fn law_nodes_are_picked_up_to_the_target(
    target: u128,
    stakes: Seq<u64>,
    seed: Option<u64>,
    i: usize,
)
    ensures
        selected(BehaviourSelection::StakeFraction { target }, stakes, seed).contains(i) <==> i
            < stakes.len() && stakes[i as int] > 0 && stake_of(stakes, ahead_of(stakes, i))
            < target,
{
    assert(ahead_of(stakes, i) =~= ranked_before(stakes, i));
}

/// What a set of nodes holds is the sum of their stakes: nothing for no node, and
/// with one more node its stake more. All nodes together hold the total.
pub proof fn law_stake_adds_up(stakes: Seq<u64>, nodes: Set<usize>, i: usize)
    requires
        stakes.len() <= usize::MAX,
        i < stakes.len(),
        !nodes.contains(i),
    ensures
        stake_of(stakes, Set::empty()) == 0,
        stake_of(stakes, nodes.insert(i)) == stake_of(stakes, nodes) + stakes[i as int],
        stake_of(stakes, Set::new(|j: usize| j < stakes.len())) == total_of(stakes),
{
    lemma_no_stake(stakes, stakes.len());
    lemma_stake_insert(stakes, nodes, i, stakes.len());
    lemma_stake_all(stakes, Set::new(|j: usize| j < stakes.len()), stakes.len());
    assert(stakes.take(stakes.len() as int) =~= stakes);
}

/// The total is the sum of all stakes, those of zero included.
pub proof fn law_total_adds_up(stakes: Seq<u64>, stake: u64)
    ensures
        total_of(Seq::<u64>::empty()) == 0,
        total_of(stakes.push(stake)) == total_of(stakes) + stake,
{
    assert(stakes.push(stake).drop_last() =~= stakes);
}

/// No node holds no stake.
proof fn lemma_no_stake(stakes: Seq<u64>, n: nat)
    ensures
        crate::behaviour::selection::stake_among(stakes, Set::empty(), n) == 0,
    decreases n,
{
    if n > 0 {
        lemma_no_stake(stakes, (n - 1) as nat);
    }
}

/// Whether a list holds the nodes with stake, by ascending index.
pub open spec fn lists_bearers(stakes: Seq<u64>, nodes: Seq<usize>) -> bool {
    &&& forall|a: int, b: int|
        0 <= a < b < nodes.len() ==> #[trigger] nodes[a] < #[trigger] nodes[b]
    &&& forall|a: int|
        0 <= a < nodes.len() ==> #[trigger] nodes[a] < stakes.len() && stakes[nodes[a] as int] > 0
    &&& forall|i: int|
        0 <= i < stakes.len() && #[trigger] stakes[i] > 0 ==> nodes.contains(i as usize)
}

/// The seed that counts: a missing one counts as zero.
pub open spec fn seed_or_zero(seed: Option<u64>) -> u64 {
    match seed {
        Some(s) => s,
        None => 0,
    }
}

/// `StakeRandom` picks the first `count` nodes of a shuffle of the nodes with
/// stake, which go into the shuffle by ascending index; a missing seed counts as
/// zero.
pub proof fn law_random_picks_come_first_in_the_shuffle(
    count: usize,
    stakes: Seq<u64>,
    seed: Option<u64>,
    bearers: Seq<usize>,
    i: usize,
)
    requires
        stakes.len() <= usize::MAX,
        lists_bearers(stakes, bearers),
    ensures
        ({
            let shuffled = seeded_shuffle(bearers, seed_or_zero(seed));
            selected(BehaviourSelection::StakeRandom { count }, stakes, seed).contains(i)
                <==> exists|k: int|
                0 <= k < count && k < shuffled.len() && #[trigger] shuffled[k] == i
        }),
{
    lemma_bearers_are_listed(stakes, bearers);
    let shuffled = seeded_shuffle(bearers, seed_or_zero(seed));
    let picks = at_most(shuffled, count as nat);
    let chosen = selected(BehaviourSelection::StakeRandom { count }, stakes, seed);
    assert(chosen == picks.to_set());
    if exists|k: int| 0 <= k < count && k < shuffled.len() && #[trigger] shuffled[k] == i {
        let k = choose|k: int| 0 <= k < count && k < shuffled.len() && #[trigger] shuffled[k] == i;
        assert(picks[k] == i);
        assert(picks.contains(i));
    }
    if chosen.contains(i) {
        let k = picks.index_of(i);
        assert(picks[k] == i);
        assert(shuffled[k] == i);
    }
}

/// There is one list of the nodes with stake by ascending index.
proof fn lemma_bearers_are_listed(stakes: Seq<u64>, nodes: Seq<usize>)
    requires
        stakes.len() <= usize::MAX,
        lists_bearers(stakes, nodes),
    ensures
        nodes == stake_bearers(stakes),
    decreases stakes.len(),
{
    if stakes.len() == 0 {
        if nodes.len() > 0 {
            assert(nodes[0] < stakes.len());
        }
        assert(nodes =~= Seq::empty());
    } else {
        let n = stakes.len() - 1;
        let rest = stakes.drop_last();
        assert(forall|i: int| 0 <= i < rest.len() ==> #[trigger] rest[i] == stakes[i]);
        if stakes[n] > 0 {
            assert(nodes.contains(n as usize));
            let at = nodes.index_of(n as usize);
            let last = nodes.len() - 1;
            assert(nodes[last] < stakes.len());
            assert(at == last) by {
                if at < last {
                    assert(nodes[at] < nodes[last]);
                }
            }
            let shorter = nodes.drop_last();
            assert forall|a: int| 0 <= a < shorter.len() implies #[trigger] shorter[a] < rest.len()
                && rest[shorter[a] as int] > 0 by {
                assert(nodes[a] < nodes[last]);
            }
            assert forall|i: int| 0 <= i < rest.len() && #[trigger] rest[i]
                > 0 implies shorter.contains(i as usize) by {
                assert(stakes[i] > 0);
                let k = nodes.index_of(i as usize);
                assert(nodes[k] == i as usize);
                assert(shorter[k] == i as usize);
            }
            lemma_bearers_are_listed(rest, shorter);
            assert(nodes =~= shorter.push(n as usize));
        } else {
            assert forall|a: int| 0 <= a < nodes.len() implies #[trigger] nodes[a] < rest.len()
                && rest[nodes[a] as int] > 0 by {
                assert(stakes[nodes[a] as int] > 0);
            }
            assert forall|i: int| 0 <= i < rest.len() && #[trigger] rest[i]
                > 0 implies nodes.contains(i as usize) by {
                assert(stakes[i] > 0);
            }
            lemma_bearers_are_listed(rest, nodes);
        }
    }
}

/// A ranking holds the nodes with stake, each after those that are ahead of it.
pub proof fn law_ranking_goes_by_stake(stakes: Seq<u64>, ranked: Seq<usize>, a: int, b: int)
    requires
        is_ranking(stakes, ranked),
        0 <= a < b < ranked.len(),
    ensures
        ahead_of(stakes, ranked[b]).contains(ranked[a]),
        forall|i: usize| #[trigger]
            ranked.contains(i) <==> i < stakes.len() && stakes[i as int] > 0,
{
    assert(ranked.contains(ranked[a]));
    assert forall|i: usize| #[trigger] ranked.contains(i) <==> i < stakes.len() && stakes[i as int]
        > 0 by {
        assert(ranked.contains(i) <==> bears_stake(stakes, i));
    }
}

/// Every item has its own seed: the one that stands at its place, and none where
/// the seeds do not reach that far or are not given.
pub proof fn law_every_item_has_its_own_seed(seeds: Seq<u64>, k: int)
    requires
        0 <= k,
    ensures
        k < seeds.len() ==> item_seed(Some(seeds), k) == Some(seeds[k]),
        k >= seeds.len() ==> item_seed(Some(seeds), k) is None,
        item_seed(None, k) is None,
{
}

/// The seeds are those that are given, all of them and in order.
pub proof fn law_seeds_are_those_given(seeds: &[u64])
    ensures
        seed_list(Some(seeds)) == Some(seeds@),
        seed_list(None) is None,
{
}

/// Whether a pick comes before another: of an earlier item, or of the same item
/// and a lower node.
pub open spec fn pick_precedes(a: (usize, int), b: (usize, int)) -> bool {
    a.1 < b.1 || (a.1 == b.1 && a.0 < b.0)
}

/// The list of assignments holds node `i` for item `k` if and only if the item's
/// selection picks that node.
pub proof fn law_assignments_are_the_picks<T>(
    items: Seq<(T, BehaviourSelection)>,
    stakes: Seq<u64>,
    seeds: Option<Seq<u64>>,
    i: usize,
    k: int,
)
    requires
        stakes.len() <= usize::MAX,
    ensures
        assigned(items, stakes, seeds, items.len()).contains((i, k)) <==> 0 <= k < items.len() && i
            < stakes.len() && selected(items[k].1, stakes, item_seed(seeds, k)).contains(i),
{
    lemma_assigned(items, stakes, seeds, items.len());
}

/// The list of assignments is ordered by item and then by node, strictly, so that
/// it holds no node twice for one item.
pub proof fn law_assignments_are_in_order<T>(
    items: Seq<(T, BehaviourSelection)>,
    stakes: Seq<u64>,
    seeds: Option<Seq<u64>>,
    a: int,
    b: int,
)
    requires
        stakes.len() <= usize::MAX,
        0 <= a < b < assigned(items, stakes, seeds, items.len()).len(),
    ensures
        pick_precedes(
            assigned(items, stakes, seeds, items.len())[a],
            assigned(items, stakes, seeds, items.len())[b],
        ),
        assigned(items, stakes, seeds, items.len())[a] != assigned(
            items,
            stakes,
            seeds,
            items.len(),
        )[b],
{
    lemma_assigned(items, stakes, seeds, items.len());
}

/// What is assigned: every entry is for a node that some item picks, with a copy
/// of that item's payload; entries are ordered by item and then by node; and
/// every node that an item picks has its entry.
pub proof fn law_each_pick_gets_the_payload<T: Clone>(
    items: Seq<(T, BehaviourSelection)>,
    stakes: Seq<u64>,
    seeds: Option<Seq<u64>>,
    out: Seq<(usize, T)>,
) -> (owners: Seq<int>)
    requires
        stakes.len() <= usize::MAX,
        assigns(items, assigned(items, stakes, seeds, items.len()), out),
    ensures
        owners.len() == out.len(),
        forall|e: int|
            0 <= e < out.len() ==> {
                &&& 0 <= #[trigger] owners[e] < items.len()
                &&& out[e].0 < stakes.len()
                &&& selected(
                    items[owners[e]].1,
                    stakes,
                    item_seed(seeds, owners[e]),
                ).contains(out[e].0)
                &&& cloned(items[owners[e]].0, out[e].1)
            },
        forall|e: int, f: int|
            0 <= e < f < out.len() ==> pick_precedes(
                (out[e].0, #[trigger] owners[e]),
                (out[f].0, #[trigger] owners[f]),
            ),
        forall|k: int, i: usize|
            #![trigger selected(items[k].1, stakes, item_seed(seeds, k)).contains(i)]
            0 <= k < items.len() && i < stakes.len() && selected(
                items[k].1,
                stakes,
                item_seed(seeds, k),
            ).contains(i) ==> exists|e: int|
                0 <= e < out.len() && #[trigger] owners[e] == k && out[e].0 == i,
{
    let list = assigned(items, stakes, seeds, items.len());
    let owners = list.map_values(|pick: (usize, int)| pick.1);
    lemma_assigned(items, stakes, seeds, items.len());
    assert forall|e: int| 0 <= e < out.len() implies {
        &&& 0 <= #[trigger] owners[e] < items.len()
        &&& out[e].0 < stakes.len()
        &&& selected(items[owners[e]].1, stakes, item_seed(seeds, owners[e])).contains(out[e].0)
        &&& cloned(items[owners[e]].0, out[e].1)
    } by {
        assert(list.contains(list[e]));
        assert(out[e].0 == list[e].0);
        assert(list[e] == (list[e].0, list[e].1));
    }
    assert forall|e: int, f: int| 0 <= e < f < out.len() implies pick_precedes(
        (out[e].0, #[trigger] owners[e]),
        (out[f].0, #[trigger] owners[f]),
    ) by {
        assert(pick_precedes(list[e], list[f]));
        assert(out[e].0 == list[e].0 && out[f].0 == list[f].0);
    }
    assert forall|k: int, i: usize|
        #![trigger selected(items[k].1, stakes, item_seed(seeds, k)).contains(i)]
        0 <= k < items.len() && i < stakes.len() && selected(
            items[k].1,
            stakes,
            item_seed(seeds, k),
        ).contains(i) implies exists|e: int|
        0 <= e < out.len() && #[trigger] owners[e] == k && out[e].0 == i by {
        assert(list.contains((i, k)));
        let e = list.index_of((i, k));
        assert(list[e] == (i, k));
        assert(out[e].0 == list[e].0);
        assert(owners[e] == k);
    }
    owners
}

/// The nodes of a set below `n`: in ascending order, each once.
proof fn lemma_ascending(nodes: Set<usize>, n: nat)
    requires
        n <= usize::MAX,
    ensures
        forall|i: usize| #[trigger]
            ascending(nodes, n).contains(i) <==> i < n && nodes.contains(i),
        forall|a: int, b: int|
            0 <= a < b < ascending(nodes, n).len() ==> #[trigger] ascending(nodes, n)[a]
                < #[trigger] ascending(nodes, n)[b],
    decreases n,
{
    if n > 0 {
        let m = (n - 1) as usize;
        let shorter = ascending(nodes, (n - 1) as nat);
        lemma_ascending(nodes, (n - 1) as nat);
        if nodes.contains(m) {
            let list = shorter.push(m);
            assert(list =~= shorter + seq![m]);
            assert forall|i: usize| #[trigger]
                ascending(nodes, n).contains(i) <==> i < n && nodes.contains(i) by {
                lemma_seq_concat_contains_all_elements(shorter, seq![m], i);
                assert(seq![m].contains(i) <==> i == m) by {
                    assert(seq![m][0] == m);
                }
            }
            assert forall|a: int, b: int| 0 <= a < b < list.len() implies #[trigger] list[a]
                < #[trigger] list[b] by {
                if b == shorter.len() {
                    assert(shorter.contains(shorter[a]));
                }
            }
        } else {
            assert forall|i: usize| #[trigger]
                ascending(nodes, n).contains(i) <==> i < n && nodes.contains(i) by {
                assert(shorter.contains(i) <==> i < n - 1 && nodes.contains(i));
            }
        }
    }
}

/// The picks of the first `n` items: those of each item, in order.
proof fn lemma_assigned<T>(
    items: Seq<(T, BehaviourSelection)>,
    stakes: Seq<u64>,
    seeds: Option<Seq<u64>>,
    n: nat,
)
    requires
        stakes.len() <= usize::MAX,
    ensures
        forall|pick: (usize, int)| #[trigger]
            assigned(items, stakes, seeds, n).contains(pick) <==> 0 <= pick.1 < n && pick.0
                < stakes.len() && selected(
                items[pick.1].1,
                stakes,
                item_seed(seeds, pick.1),
            ).contains(pick.0),
        forall|a: int, b: int|
            0 <= a < b < assigned(items, stakes, seeds, n).len() ==> pick_precedes(
                #[trigger] assigned(items, stakes, seeds, n)[a],
                #[trigger] assigned(items, stakes, seeds, n)[b],
            ),
    decreases n,
{
    if n > 0 {
        let before = assigned(items, stakes, seeds, (n - 1) as nat);
        let nodes = ascending(item_picks(items, stakes, seeds, n - 1), stakes.len());
        let part = nodes.map_values(|i: usize| (i, n - 1));
        let list = assigned(items, stakes, seeds, n);
        lemma_assigned(items, stakes, seeds, (n - 1) as nat);
        lemma_ascending(item_picks(items, stakes, seeds, n - 1), stakes.len());
        assert(list == before + part);
        assert forall|pick: (usize, int)| #[trigger] list.contains(pick) <==> 0 <= pick.1 < n
            && pick.0 < stakes.len() && selected(
            items[pick.1].1,
            stakes,
            item_seed(seeds, pick.1),
        ).contains(pick.0) by {
            lemma_seq_concat_contains_all_elements(before, part, pick);
            if part.contains(pick) {
                let e = part.index_of(pick);
                assert(part[e] == pick);
                assert(nodes.contains(nodes[e]));
            }
            if pick.1 == n - 1 && nodes.contains(pick.0) {
                let e = nodes.index_of(pick.0);
                assert(nodes[e] == pick.0);
                assert(part[e] == pick);
            }
        }
        assert forall|a: int, b: int| 0 <= a < b < list.len() implies pick_precedes(
            #[trigger] list[a],
            #[trigger] list[b],
        ) by {
            if b < before.len() {
                assert(pick_precedes(before[a], before[b]));
            } else if a < before.len() {
                assert(before.contains(before[a]));
                assert(list[b] == part[b - before.len()]);
            } else {
                assert(list[a] == part[a - before.len()]);
                assert(list[b] == part[b - before.len()]);
                assert(nodes[a - before.len()] < nodes[b - before.len()]);
            }
        }
    }
}

} // verus!
