//! Which nodes of a deployment run a configured behaviour.
//!
//! A selection is resolved against the nodes' stakes, in node order, and gives
//! indices into that order. Every selection is deterministic for a given seed.
//! The selections that go by stake pass over nodes without stake: those are
//! relays, which do not vote.

use rand::rngs::StdRng;
use rand::seq::SliceRandom;
use rand::SeedableRng;
use std::collections::BTreeSet;
use vstd::prelude::*;

verus! {

/// Which subset of the nodes runs a behaviour.
#[derive(Debug, Clone, PartialEq, Eq)]
pub enum BehaviourSelection {
    /// Every node.
    All,
    /// The listed nodes, as far as they exist.
    Nodes { indices: Vec<usize> },
    /// `count` nodes with stake, picked at random from a seed.
    StakeRandom { count: usize },
    /// The `count` nodes with the most stake.
    StakeOrdered { count: usize },
    /// The fewest of the nodes with the most stake that hold `target` together.
    StakeFraction { target: u128 },
}

/// Whether the stake of node `i` ranks it before node `j`: it is larger, or as
/// large and `i` comes first.
pub open spec fn outranks(stakes: Seq<u64>, i: usize, j: usize) -> bool {
    stakes[i as int] > stakes[j as int] || (stakes[i as int] == stakes[j as int] && i < j)
}

/// Whether node `i` exists and has stake.
pub open spec fn bears_stake(stakes: Seq<u64>, i: usize) -> bool {
    i < stakes.len() && stakes[i as int] > 0
}

/// The nodes with stake that rank before node `i`.
pub open spec fn ranked_before(stakes: Seq<u64>, i: usize) -> Set<usize> {
    Set::new(|j: usize| bears_stake(stakes, j) && outranks(stakes, j, i))
}

/// The stake that the nodes of a set hold together, counted over the first `n`
/// nodes.
pub open spec fn stake_among(stakes: Seq<u64>, nodes: Set<usize>, n: nat) -> nat
    decreases n,
{
    if n == 0 {
        0
    } else {
        stake_among(stakes, nodes, (n - 1) as nat) + if nodes.contains((n - 1) as usize) {
            stakes[n - 1] as nat
        } else {
            0
        }
    }
}

/// The stake that the nodes of a set hold together.
pub open spec fn stake_of(stakes: Seq<u64>, nodes: Set<usize>) -> nat {
    stake_among(stakes, nodes, stakes.len())
}

/// The stake of all nodes.
pub open spec fn total_of(stakes: Seq<u64>) -> nat
    decreases stakes.len(),
{
    if stakes.len() == 0 {
        0
    } else {
        total_of(stakes.drop_last()) + stakes.last() as nat
    }
}

/// The nodes with stake, in node order.
pub open spec fn stake_bearers(stakes: Seq<u64>) -> Seq<usize>
    decreases stakes.len(),
{
    if stakes.len() == 0 {
        Seq::empty()
    } else if stakes.last() > 0 {
        stake_bearers(stakes.drop_last()).push((stakes.len() - 1) as usize)
    } else {
        stake_bearers(stakes.drop_last())
    }
}

/// The first `count` items, or all where there are fewer.
pub open spec fn at_most<A>(s: Seq<A>, count: nat) -> Seq<A> {
    if count < s.len() {
        s.take(count as int)
    } else {
        s
    }
}

/// The nodes that a selection picks.
pub open spec fn selected(
    selection: BehaviourSelection,
    stakes: Seq<u64>,
    seed: Option<u64>,
) -> Set<usize> {
    match selection {
        BehaviourSelection::All => Set::new(|i: usize| i < stakes.len()),
        BehaviourSelection::Nodes { indices } => Set::new(
            |i: usize| i < stakes.len() && indices@.contains(i),
        ),
        BehaviourSelection::StakeOrdered { count } => Set::new(
            |i: usize| bears_stake(stakes, i) && ranked_before(stakes, i).len() < count,
        ),
        BehaviourSelection::StakeRandom { count } => at_most(
            seeded_shuffle(
                stake_bearers(stakes),
                match seed {
                    Some(s) => s,
                    None => 0,
                },
            ),
            count as nat,
        ).to_set(),
        BehaviourSelection::StakeFraction { target } => Set::new(
            |i: usize|
                bears_stake(stakes, i) && stake_of(stakes, ranked_before(stakes, i)) < target,
        ),
    }
}

/// The order in which `SliceRandom::shuffle` of `rand` leaves the items `s` with
/// the generator that `StdRng::seed_from_u64` makes of `seed`.
pub uninterp spec fn seeded_shuffle(s: Seq<usize>, seed: u64) -> Seq<usize>;

/// `rand`'s `SliceRandom::shuffle` with the generator that
/// `StdRng::seed_from_u64` makes of `seed`. The order depends on the items and
/// the seed alone, which the name `seeded_shuffle` says; the shuffle only
/// exchanges items, so each keeps its number of occurrences.
#[verifier::external_body]
fn shuffle(items: Vec<usize>, seed: u64) -> (shuffled: Vec<usize>)
    ensures
        shuffled@ == seeded_shuffle(items@, seed),
        shuffled@.to_multiset() == items@.to_multiset(),
{
    let mut shuffled = items;
    let mut rng = StdRng::seed_from_u64(seed);
    shuffled.shuffle(&mut rng);
    shuffled
}

/// Whether `ranked` lists the nodes with stake, the one with the most first.
pub open spec fn is_ranking(stakes: Seq<u64>, ranked: Seq<usize>) -> bool {
    &&& forall|i: usize| #[trigger] ranked.contains(i) <==> bears_stake(stakes, i)
    &&& forall|a: int, b: int|
        0 <= a < b < ranked.len() ==> outranks(stakes, #[trigger] ranked[a], #[trigger] ranked[b])
}

/// The same, for the first `n` nodes.
spec fn is_partial_ranking(stakes: Seq<u64>, ranked: Seq<usize>, n: int) -> bool {
    &&& forall|i: usize| #[trigger] ranked.contains(i) <==> i < n && bears_stake(stakes, i)
    &&& forall|a: int, b: int|
        0 <= a < b < ranked.len() ==> outranks(stakes, #[trigger] ranked[a], #[trigger] ranked[b])
}

/// Where node `i`, which comes after all that are ranked, belongs.
fn rank_position(stakes: &[u64], ranked: &Vec<usize>, i: usize) -> (pos: usize)
    requires
        i < stakes@.len(),
        is_partial_ranking(stakes@, ranked@, i as int),
    ensures
        pos <= ranked@.len(),
        forall|a: int| 0 <= a < pos ==> outranks(stakes@, #[trigger] ranked@[a], i),
        forall|a: int| pos <= a < ranked@.len() ==> outranks(stakes@, i, #[trigger] ranked@[a]),
{
    let mut lo: usize = 0;
    let mut hi: usize = ranked.len();
    while lo < hi
        invariant
            lo <= hi <= ranked@.len(),
            i < stakes@.len(),
            is_partial_ranking(stakes@, ranked@, i as int),
            forall|a: int| 0 <= a < lo ==> outranks(stakes@, #[trigger] ranked@[a], i),
            forall|a: int| hi <= a < ranked@.len() ==> outranks(stakes@, i, #[trigger] ranked@[a]),
        decreases hi - lo,
    {
        let mid = lo + (hi - lo) / 2;
        assert(ranked@.contains(ranked@[mid as int]));
        if stakes[ranked[mid]] >= stakes[i] {
            lo = mid + 1;
        } else {
            hi = mid;
        }
    }
    lo
}

/// The nodes with stake, the one with the most first; of two with as much, the
/// one that comes first.
pub fn stake_ranked(stakes: &[u64]) -> (ranked: Vec<usize>)
    ensures
        is_ranking(stakes@, ranked@),
{
    let mut ranked: Vec<usize> = Vec::new();
    let mut i: usize = 0;
    while i < stakes.len()
        invariant
            i <= stakes@.len(),
            is_partial_ranking(stakes@, ranked@, i as int),
        decreases stakes@.len() - i,
    {
        if stakes[i] > 0 {
            let pos = rank_position(stakes, &ranked, i);
            let ghost before = ranked@;
            ranked.insert(pos, i);
            proof {
                lemma_insert_contains(before, pos as int, i);
            }
        }
        i += 1;
    }
    ranked
}

/// What a sequence contains after an insertion.
proof fn lemma_insert_contains(s: Seq<usize>, pos: int, x: usize)
    requires
        0 <= pos <= s.len(),
    ensures
        forall|y: usize| #[trigger] s.insert(pos, x).contains(y) <==> y == x || s.contains(y),
{
    let t = s.insert(pos, x);
    assert forall|y: usize| #[trigger] t.contains(y) <==> y == x || s.contains(y) by {
        if y == x {
            assert(t[pos] == x);
        } else if s.contains(y) {
            let k = s.index_of(y);
            assert(s[k] == y);
            assert(t[if k < pos {
                k
            } else {
                k + 1
            }] == y);
        } else if t.contains(y) {
            let k = t.index_of(y);
            assert(t[k] == y);
            assert(s[if k < pos {
                k
            } else {
                k - 1
            }] == y);
        }
    }
}

/// Like `stake_ranked`, with the stake of each node.
pub fn stake_ranked_with_stake(stakes: &[u64]) -> (ranked: Vec<(usize, u64)>)
    ensures
        is_ranking(stakes@, ranked@.map_values(|node: (usize, u64)| node.0)),
        forall|k: int|
            0 <= k < ranked@.len() ==> (#[trigger] ranked@[k]).1 == stakes@[ranked@[k].0 as int],
{
    let nodes = stake_ranked(stakes);
    let mut ranked: Vec<(usize, u64)> = Vec::new();
    let mut k: usize = 0;
    while k < nodes.len()
        invariant
            k <= nodes@.len(),
            is_ranking(stakes@, nodes@),
            ranked@.len() == k,
            forall|m: int|
                0 <= m < k ==> (#[trigger] ranked@[m]).0 == nodes@[m] && ranked@[m].1
                    == stakes@[nodes@[m] as int],
        decreases nodes@.len() - k,
    {
        assert(nodes@.contains(nodes@[k as int]));
        ranked.push((nodes[k], stakes[nodes[k]]));
        k += 1;
    }
    assert(ranked@.map_values(|node: (usize, u64)| node.0) =~= nodes@);
    ranked
}

/// The stake of all nodes together.
pub fn total_stake(stakes: &[u64]) -> (total: u128)
    ensures
        total == total_of(stakes@),
{
    let mut total: u128 = 0;
    let mut i: usize = 0;
    while i < stakes.len()
        invariant
            i <= stakes@.len(),
            total == total_of(stakes@.take(i as int)),
            total <= i * 0xffff_ffff_ffff_ffff,
        decreases stakes@.len() - i,
    {
        assert(stakes@.take(i + 1).drop_last() =~= stakes@.take(i as int));
        assert(i * 0xffff_ffff_ffff_ffff + 0xffff_ffff_ffff_ffff <= u128::MAX) by (nonlinear_arith)
            requires
                i <= 0xffff_ffff_ffff_ffff,
        ;
        total = total + stakes[i] as u128;
        i += 1;
    }
    assert(stakes@.take(stakes@.len() as int) =~= stakes@);
    total
}

/// The nodes with stake, in node order.
fn collect_bearers(stakes: &[u64]) -> (bearers: Vec<usize>)
    ensures
        bearers@ == stake_bearers(stakes@),
{
    let mut bearers: Vec<usize> = Vec::new();
    let mut i: usize = 0;
    while i < stakes.len()
        invariant
            i <= stakes@.len(),
            bearers@ == stake_bearers(stakes@.take(i as int)),
        decreases stakes@.len() - i,
    {
        assert(stakes@.take(i + 1).drop_last() =~= stakes@.take(i as int));
        if stakes[i] > 0 {
            bearers.push(i);
        }
        i += 1;
    }
    assert(stakes@.take(stakes@.len() as int) =~= stakes@);
    bearers
}

/// The first `count` nodes of `order`, as a set.
pub fn take_picks(order: &[usize], count: usize) -> (picked: BTreeSet<usize>)
    ensures
        picked@ == at_most(order@, count as nat).to_set(),
{
    let mut picked: BTreeSet<usize> = BTreeSet::new();
    let mut k: usize = 0;
    assert(order@.take(0).to_set() =~= Set::<usize>::empty());
    while k < order.len() && k < count
        invariant
            k <= order@.len(),
            k <= count,
            picked@ == order@.take(k as int).to_set(),
        decreases order@.len() - k,
    {
        proof {
            lemma_take_one_more(order@, k as int);
        }
        picked.insert(order[k]);
        k += 1;
    }
    assert(order@.take(order@.len() as int) =~= order@);
    picked
}

/// One item more in a prefix is one item more in its set.
proof fn lemma_take_one_more(s: Seq<usize>, k: int)
    requires
        0 <= k < s.len(),
    ensures
        s.take(k + 1).to_set() == s.take(k).to_set().insert(s[k]),
{
    let a = s.take(k + 1).to_set();
    let b = s.take(k).to_set().insert(s[k]);
    assert forall|x: usize| a.contains(x) <==> b.contains(x) by {
        if a.contains(x) {
            let m = s.take(k + 1).index_of(x);
            assert(s.take(k + 1)[m] == x);
            if m < k {
                assert(s.take(k)[m] == x);
            }
        }
        if b.contains(x) {
            if x == s[k] {
                assert(s.take(k + 1)[k] == x);
            } else {
                let m = s.take(k).index_of(x);
                assert(s.take(k)[m] == x);
                assert(s.take(k + 1)[m] == x);
            }
        }
    }
    assert(a =~= b);
}

/// In a ranking, the nodes before a node are those that rank before it.
proof fn lemma_ranked_prefix(stakes: Seq<u64>, ranked: Seq<usize>, k: int)
    requires
        is_ranking(stakes, ranked),
        0 <= k <= ranked.len(),
    ensures
        ranked.take(k).no_duplicates(),
        ranked.take(k).to_set().len() == k,
        ranked.take(k).to_set().finite(),
        k < ranked.len() ==> ranked_before(stakes, ranked[k]) == ranked.take(k).to_set(),
{
    let prefix = ranked.take(k);
    prefix.unique_seq_to_set();
    if k < ranked.len() {
        assert forall|j: usize|
            ranked_before(stakes, ranked[k]).contains(j) <==> prefix.to_set().contains(j) by {
            if ranked_before(stakes, ranked[k]).contains(j) {
                assert(ranked.contains(j));
                let m = ranked.index_of(j);
                assert(ranked[m] == j);
                assert(m < k);
                assert(prefix[m] == j);
            }
            if prefix.to_set().contains(j) {
                let m = prefix.index_of(j);
                assert(prefix[m] == j);
                assert(ranked[m] == j);
                assert(ranked.contains(j));
                assert(outranks(stakes, ranked[m], ranked[k]));
            }
        }
        assert(ranked_before(stakes, ranked[k]) =~= prefix.to_set());
    }
}

/// The first `count` nodes of a ranking are those with fewer than `count` before
/// them.
proof fn lemma_top_ranked(stakes: Seq<u64>, ranked: Seq<usize>, count: nat)
    requires
        is_ranking(stakes, ranked),
    ensures
        at_most(ranked, count).to_set() == Set::new(
            |i: usize| bears_stake(stakes, i) && ranked_before(stakes, i).len() < count,
        ),
{
    let top = at_most(ranked, count).to_set();
    let want = Set::new(
        |i: usize| bears_stake(stakes, i) && ranked_before(stakes, i).len() < count,
    );
    assert forall|i: usize| top.contains(i) <==> want.contains(i) by {
        if top.contains(i) {
            let m = at_most(ranked, count).index_of(i);
            assert(at_most(ranked, count)[m] == i);
            assert(ranked[m] == i);
            assert(ranked.contains(i));
            lemma_ranked_prefix(stakes, ranked, m);
        }
        if want.contains(i) {
            assert(ranked.contains(i));
            let m = ranked.index_of(i);
            assert(ranked[m] == i);
            lemma_ranked_prefix(stakes, ranked, m);
            assert(at_most(ranked, count)[m] == i);
        }
    }
    assert(top =~= want);
}

/// A node that joins a set brings its stake.
pub proof fn lemma_stake_insert(stakes: Seq<u64>, nodes: Set<usize>, i: usize, n: nat)
    requires
        !nodes.contains(i),
        n <= stakes.len(),
        stakes.len() <= usize::MAX,
    ensures
        stake_among(stakes, nodes.insert(i), n) == stake_among(stakes, nodes, n) + if i < n {
            stakes[i as int] as nat
        } else {
            0
        },
    decreases n,
{
    if n > 0 {
        lemma_stake_insert(stakes, nodes, i, (n - 1) as nat);
    }
}

/// A larger set holds at least as much.
proof fn lemma_stake_subset(stakes: Seq<u64>, a: Set<usize>, b: Set<usize>, n: nat)
    requires
        a.subset_of(b),
        n <= stakes.len(),
    ensures
        stake_among(stakes, a, n) <= stake_among(stakes, b, n),
    decreases n,
{
    if n > 0 {
        lemma_stake_subset(stakes, a, b, (n - 1) as nat);
    }
}

/// The nodes with stake hold all of it.
pub proof fn lemma_stake_all(stakes: Seq<u64>, nodes: Set<usize>, n: nat)
    requires
        n <= stakes.len() <= usize::MAX,
        forall|i: usize| bears_stake(stakes, i) ==> nodes.contains(i),
    ensures
        stake_among(stakes, nodes, n) == total_of(stakes.take(n as int)),
    decreases n,
{
    if n > 0 {
        lemma_stake_all(stakes, nodes, (n - 1) as nat);
        assert(stakes.take(n as int).drop_last() =~= stakes.take(n - 1));
        if stakes[n - 1] > 0 {
            assert(bears_stake(stakes, (n - 1) as usize));
        }
    }
}

/// The empty set holds nothing.
proof fn lemma_stake_none(stakes: Seq<u64>, n: nat)
    ensures
        stake_among(stakes, Set::empty(), n) == 0,
    decreases n,
{
    if n > 0 {
        lemma_stake_none(stakes, (n - 1) as nat);
    }
}

/// The nodes, from the one with the most stake down, before which less than
/// `target` is held: the fewest that hold `target` together.
pub fn cover_stake(stakes: &[u64], target: u128) -> (chosen: BTreeSet<usize>)
    ensures
        chosen@ == selected(BehaviourSelection::StakeFraction { target }, stakes@, None),
{
    let ranked = stake_ranked(stakes);
    let mut chosen: BTreeSet<usize> = BTreeSet::new();
    let mut acc: u128 = 0;
    let mut k: usize = 0;
    proof {
        lemma_stake_none(stakes@, stakes@.len());
        assert(ranked@.take(0).to_set() =~= Set::<usize>::empty());
    }
    while k < ranked.len() && acc < target
        invariant
            k <= ranked@.len(),
            stakes@.len() == stakes.len(),
            is_ranking(stakes@, ranked@),
            chosen@ == ranked@.take(k as int).to_set(),
            acc == stake_of(stakes@, chosen@),
            forall|m: int|
                0 <= m < k ==> stake_of(
                    stakes@,
                    #[trigger] ranked_before(stakes@, ranked@[m]),
                ) < target,
        decreases ranked@.len() - k,
    {
        let i = ranked[k];
        proof {
            assert(ranked@.contains(ranked@[k as int]));
            lemma_ranked_prefix(stakes@, ranked@, k as int);
            lemma_take_one_more(ranked@, k as int);
            lemma_stake_insert(stakes@, chosen@, i, stakes@.len());
            lemma_stake_bound(stakes@, chosen@.insert(i), stakes@.len());
        }
        chosen.insert(i);
        acc = acc + stakes[i] as u128;
        k += 1;
    }
    proof {
        let want = selected(BehaviourSelection::StakeFraction { target }, stakes@, None);
        assert forall|i: usize| chosen@.contains(i) <==> want.contains(i) by {
            if chosen@.contains(i) {
                let m = ranked@.take(k as int).index_of(i);
                assert(ranked@.take(k as int)[m] == i);
                assert(ranked@[m] == i);
                assert(ranked@.contains(i));
                assert(stake_of(stakes@, ranked_before(stakes@, ranked@[m])) < target);
            }
            if want.contains(i) && !chosen@.contains(i) {
                assert(ranked@.contains(i));
                let m = ranked@.index_of(i);
                assert(ranked@[m] == i);
                if m < k {
                    assert(ranked@.take(k as int)[m] == i);
                }
                lemma_ranked_prefix(stakes@, ranked@, m);
                assert forall|j: usize| chosen@.contains(j) implies ranked@.take(
                    m,
                ).to_set().contains(j) by {
                    let q = ranked@.take(k as int).index_of(j);
                    assert(ranked@.take(k as int)[q] == j);
                    assert(ranked@.take(m)[q] == j);
                }
                lemma_stake_subset(stakes@, chosen@, ranked_before(stakes@, i), stakes@.len());
            }
        }
        assert(chosen@ =~= want);
    }
    chosen
}

/// The stake of the first `n` nodes fits in 128 bits.
proof fn lemma_stake_bound(stakes: Seq<u64>, nodes: Set<usize>, n: nat)
    requires
        n <= stakes.len() <= usize::MAX,
    ensures
        stake_among(stakes, nodes, n) <= n * 0xffff_ffff_ffff_ffff,
        n * 0xffff_ffff_ffff_ffff <= u128::MAX,
    decreases n,
{
    assert(n * 0xffff_ffff_ffff_ffff <= u128::MAX) by (nonlinear_arith)
        requires
            n <= 0xffff_ffff_ffff_ffff,
    ;
    if n > 0 {
        lemma_stake_bound(stakes, nodes, (n - 1) as nat);
    }
}

/// Whether a selection goes by stake.
pub open spec fn goes_by_stake(selection: BehaviourSelection) -> bool {
    selection is StakeRandom || selection is StakeOrdered || selection is StakeFraction
}

/// How many nodes a selection asks for, where it gives a number.
pub open spec fn asked_count(selection: BehaviourSelection) -> Option<nat> {
    match selection {
        BehaviourSelection::StakeRandom { count } => Some(count as nat),
        BehaviourSelection::StakeOrdered { count } => Some(count as nat),
        _ => None,
    }
}

/// The nodes that a selection picks. `seed` matters to `StakeRandom` alone.
///
/// A selection that goes by stake picks no node without stake; one that asks
/// for a number of nodes gets it, as far as there are nodes with stake.
pub fn resolve_selection(
    selection: &BehaviourSelection,
    stakes: &[u64],
    seed: Option<u64>,
) -> (picked: BTreeSet<usize>)
    ensures
        picked@ == selected(*selection, stakes@, seed),
        forall|i: usize| picked@.contains(i) ==> i < stakes@.len(),
        goes_by_stake(*selection) ==> forall|i: usize|
            picked@.contains(i) ==> bears_stake(stakes@, i),
        asked_count(*selection) matches Some(count) ==> picked@.len() == (if count
            < stake_bearers(stakes@).len() {
            count
        } else {
            stake_bearers(stakes@).len()
        }),
{
    let n = stakes.len();
    match selection {
        BehaviourSelection::All => {
            let mut picked: BTreeSet<usize> = BTreeSet::new();
            let mut i: usize = 0;
            while i < n
                invariant
                    n == stakes@.len(),
                    i <= n,
                    picked@ == Set::new(|j: usize| j < i),
                decreases stakes@.len() - i,
            {
                picked.insert(i);
                i += 1;
                assert(picked@ =~= Set::new(|j: usize| j < i));
            }
            assert(picked@ =~= selected(*selection, stakes@, seed));
            picked
        },
        BehaviourSelection::Nodes { indices } => {
            let mut picked: BTreeSet<usize> = BTreeSet::new();
            let mut k: usize = 0;
            assert(picked@ =~= Set::new(
                |i: usize| i < stakes@.len() && indices@.take(0).contains(i),
            ));
            while k < indices.len()
                invariant
                    n == stakes@.len(),
                    k <= indices@.len(),
                    picked@ == Set::new(
                        |i: usize| i < stakes@.len() && indices@.take(k as int).contains(i),
                    ),
                decreases indices@.len() - k,
            {
                proof {
                    lemma_take_one_more(indices@, k as int);
                    let (shorter, longer) = (indices@.take(k as int), indices@.take(k + 1));
                    assert forall|i: usize| #[trigger] longer.contains(i) <==> shorter.contains(i)
                        || i == indices@[k as int] by {
                        assert(longer.to_set().contains(i) <==> longer.contains(i));
                        assert(shorter.to_set().contains(i) <==> shorter.contains(i));
                    }
                }
                if indices[k] < n {
                    picked.insert(indices[k]);
                }
                k += 1;
                assert(picked@ =~= Set::new(
                    |i: usize| i < stakes@.len() && indices@.take(k as int).contains(i),
                ));
            }
            assert(indices@.take(indices@.len() as int) =~= indices@);
            picked
        },
        BehaviourSelection::StakeOrdered { count } => {
            let ranked = stake_ranked(stakes);
            proof {
                lemma_top_ranked(stakes@, ranked@, *count as nat);
                lemma_ranked_prefix(stakes@, ranked@, ranked@.len() as int);
                assert(ranked@.take(ranked@.len() as int) =~= ranked@);
                if *count < ranked@.len() {
                    lemma_ranked_prefix(stakes@, ranked@, *count as int);
                }
                lemma_bearers(stakes@);
                stake_bearers(stakes@).unique_seq_to_set();
                assert(stake_bearers(stakes@).to_set() =~= ranked@.to_set());
            }
            take_picks(ranked.as_slice(), *count)
        },
        BehaviourSelection::StakeRandom { count } => {
            let bearers = collect_bearers(stakes);
            let used_seed: u64 = match seed {
                Some(s) => s,
                None => 0,
            };
            let shuffled = shuffle(bearers, used_seed);
            proof {
                lemma_bearers(stakes@);
                lemma_permuted_picks(shuffled@, bearers@, *count as nat);
            }
            let picked = take_picks(shuffled.as_slice(), *count);
            assert forall|i: usize| picked@.contains(i) implies bears_stake(stakes@, i) by {
                assert(stake_bearers(stakes@).contains(i));
            }
            picked
        },
        BehaviourSelection::StakeFraction { target } => cover_stake(stakes, *target),
    }
}

/// The list of nodes with stake holds each of them once.
proof fn lemma_bearers(stakes: Seq<u64>)
    requires
        stakes.len() <= usize::MAX,
    ensures
        forall|i: usize|
            #[trigger] stake_bearers(stakes).contains(i) <==> bears_stake(stakes, i),
        stake_bearers(stakes).no_duplicates(),
    decreases stakes.len(),
{
    if stakes.len() > 0 {
        let rest = stakes.drop_last();
        let n = (stakes.len() - 1) as usize;
        lemma_bearers(rest);
        assert forall|i: usize|
            #[trigger] stake_bearers(stakes).contains(i) <==> bears_stake(stakes, i) by {
            assert(stake_bearers(rest).contains(i) <==> bears_stake(rest, i));
            if stakes.last() > 0 {
                let s = stake_bearers(rest);
                assert(s.push(n)[s.len() as int] == n);
                if s.contains(i) {
                    assert(s.push(n)[s.index_of(i)] == i);
                }
                if s.push(n).contains(i) && i != n {
                    assert(s[s.push(n).index_of(i)] == i);
                }
            }
        }
        if stakes.last() > 0 {
            let s = stake_bearers(rest);
            assert forall|a: int, b: int|
                0 <= a < s.push(n).len() && 0 <= b < s.push(n).len() && a != b implies s.push(n)[a]
                != s.push(n)[b] by {
                if a < s.len() {
                    assert(s.contains(s[a]));
                }
                if b < s.len() {
                    assert(s.contains(s[b]));
                }
            }
        }
    }
}

/// The first items of a rearranged list without repetitions are so many
/// different items of the list.
proof fn lemma_permuted_picks(shuffled: Seq<usize>, items: Seq<usize>, count: nat)
    requires
        shuffled.to_multiset() == items.to_multiset(),
        items.no_duplicates(),
    ensures
        shuffled.len() == items.len(),
        forall|i: usize| at_most(shuffled, count).to_set().contains(i) ==> items.contains(i),
        at_most(shuffled, count).to_set().len() == (if count < items.len() {
            count
        } else {
            items.len()
        }),
{
    shuffled.to_multiset_ensures();
    items.to_multiset_ensures();
    items.lemma_multiset_has_no_duplicates();
    shuffled.lemma_multiset_has_no_duplicates_conv();
    let picks = at_most(shuffled, count);
    assert(picks.no_duplicates());
    picks.unique_seq_to_set();
    assert forall|i: usize| picks.to_set().contains(i) implies items.contains(i) by {
        let k = picks.index_of(i);
        assert(picks[k] == i);
        assert(shuffled[k] == i);
        assert(shuffled.contains(i));
        assert(shuffled.to_multiset().count(i) > 0);
    }
}

/// The seed of item `k` of a list; an item past the last seed has none.
pub open spec fn item_seed(seeds: Option<Seq<u64>>, k: int) -> Option<u64> {
    match seeds {
        Some(s) => if 0 <= k < s.len() {
            Some(s[k])
        } else {
            None
        },
        None => None,
    }
}

/// The content of the seeds, where there are any.
pub open spec fn seed_list(seeds: Option<&[u64]>) -> Option<Seq<u64>> {
    match seeds {
        Some(s) => Some(s@),
        None => None,
    }
}

/// The nodes of a set below `n`, in ascending order.
pub open spec fn ascending(nodes: Set<usize>, n: nat) -> Seq<usize>
    decreases n,
{
    if n == 0 {
        Seq::empty()
    } else if nodes.contains((n - 1) as usize) {
        ascending(nodes, (n - 1) as nat).push((n - 1) as usize)
    } else {
        ascending(nodes, (n - 1) as nat)
    }
}

/// The nodes that item `k` of a list picks.
pub open spec fn item_picks<T>(
    items: Seq<(T, BehaviourSelection)>,
    stakes: Seq<u64>,
    seeds: Option<Seq<u64>>,
    k: int,
) -> Set<usize> {
    selected(items[k].1, stakes, item_seed(seeds, k))
}

/// The nodes that the first `n` items pick, each with the item that picks it:
/// item by item, and within an item in ascending order.
pub open spec fn assigned<T>(
    items: Seq<(T, BehaviourSelection)>,
    stakes: Seq<u64>,
    seeds: Option<Seq<u64>>,
    n: nat,
) -> Seq<(usize, int)>
    decreases n,
{
    if n == 0 {
        Seq::empty()
    } else {
        assigned(items, stakes, seeds, (n - 1) as nat) + ascending(
            item_picks(items, stakes, seeds, n - 1),
            stakes.len(),
        ).map_values(|i: usize| (i, n - 1))
    }
}

/// Whether `out` assigns a copy of an item's payload to each node that the item
/// picks.
pub open spec fn assigns<T: Clone>(
    items: Seq<(T, BehaviourSelection)>,
    picks: Seq<(usize, int)>,
    out: Seq<(usize, T)>,
) -> bool {
    &&& out.len() == picks.len()
    &&& forall|k: int|
        0 <= k < out.len() ==> (#[trigger] out[k]).0 == picks[k].0 && cloned(
            items[picks[k].1].0,
            out[k].1,
        )
}

/// Assigns payloads to nodes: item by item, one entry for each node that the
/// item's selection picks, in ascending order. A node that several items pick
/// has an entry for each. Every item has a seed of its own in `seeds`, in item
/// order, so that two items with `StakeRandom` pick independently; an item past
/// the last seed has none.
pub fn resolve_assignments<T: Clone>(
    items: &[(T, BehaviourSelection)],
    stakes: &[u64],
    seeds: Option<&[u64]>,
) -> (out: Vec<(usize, T)>)
    ensures
        assigns(items@, assigned(items@, stakes@, seed_list(seeds), items@.len()), out@),
{
    let mut out: Vec<(usize, T)> = Vec::new();
    let mut k: usize = 0;
    while k < items.len()
        invariant
            k <= items@.len(),
            assigns(items@, assigned(items@, stakes@, seed_list(seeds), k as nat), out@),
        decreases items@.len() - k,
    {
        let own_seed = match seeds {
            Some(s) => if k < s.len() {
                Some(s[k])
            } else {
                None
            },
            None => None,
        };
        let picked = resolve_selection(&items[k].1, stakes, own_seed);
        let ghost before = assigned(items@, stakes@, seed_list(seeds), k as nat);
        let mut i: usize = 0;
        assert(before + ascending(picked@, 0).map_values(|i: usize| (i, k as int)) =~= before);
        while i < stakes.len()
            invariant
                k < items@.len(),
                i <= stakes@.len(),
                assigns(
                    items@,
                    before + ascending(picked@, i as nat).map_values(|i: usize| (i, k as int)),
                    out@,
                ),
            decreases stakes@.len() - i,
        {
            let ghost done = before + ascending(picked@, i as nat).map_values(
                |i: usize| (i, k as int),
            );
            if picked.contains(&i) {
                out.push((i, items[k].0.clone()));
                assert(before + ascending(picked@, (i + 1) as nat).map_values(
                    |i: usize| (i, k as int),
                ) =~= done.push((i, k as int)));
            }
            i += 1;
        }
        k += 1;
        assert(assigned(items@, stakes@, seed_list(seeds), k as nat) == before + ascending(
            picked@,
            stakes@.len(),
        ).map_values(|i: usize| (i, k - 1)));
    }
    out
}

/// A missing seed counts as zero, and a seed matters to `StakeRandom` alone.
pub proof fn law_seed_matters_to_random_picks_only(
    selection: BehaviourSelection,
    stakes: Seq<u64>,
    seed: Option<u64>,
)
    ensures
        selected(selection, stakes, None) == selected(selection, stakes, Some(0)),
        !(selection is StakeRandom) ==> selected(selection, stakes, seed) == selected(
            selection,
            stakes,
            None,
        ),
{
}

/// Items pick independently: what an item picks depends on its own selection and
/// its own seed, whatever the other items of the list and their seeds are.
pub proof fn law_items_pick_independently<T>(
    items: Seq<(T, BehaviourSelection)>,
    others: Seq<(T, BehaviourSelection)>,
    stakes: Seq<u64>,
    seeds: Option<Seq<u64>>,
    other_seeds: Option<Seq<u64>>,
    k: int,
)
    requires
        0 <= k < items.len(),
        k < others.len(),
        items[k].1 == others[k].1,
        item_seed(seeds, k) == item_seed(other_seeds, k),
    ensures
        item_picks(items, stakes, seeds, k) == item_picks(others, stakes, other_seeds, k),
{
}

/// There is one ranking: the order by stake is total.
pub proof fn law_ranking_is_unique(stakes: Seq<u64>, a: Seq<usize>, b: Seq<usize>)
    requires
        stakes.len() <= usize::MAX,
        is_ranking(stakes, a),
        is_ranking(stakes, b),
    ensures
        a == b,
{
    lemma_bearers(stakes);
    lemma_ranked_prefix(stakes, a, a.len() as int);
    lemma_ranked_prefix(stakes, b, b.len() as int);
    assert(a.take(a.len() as int) =~= a);
    assert(b.take(b.len() as int) =~= b);
    assert(a.to_set() =~= b.to_set()) by {
        assert forall|i: usize| a.to_set().contains(i) <==> b.to_set().contains(i) by {
            assert(a.contains(i) <==> bears_stake(stakes, i));
            assert(b.contains(i) <==> bears_stake(stakes, i));
        }
    }
    assert forall|k: int| 0 <= k < a.len() implies a[k] == b[k] by {
        assert(a.contains(a[k]));
        assert(b.contains(a[k]));
        let m = b.index_of(a[k]);
        assert(b[m] == a[k]);
        lemma_ranked_prefix(stakes, a, k);
        lemma_ranked_prefix(stakes, b, m);
    }
    assert(a =~= b);
}

/// Whether a set of nodes with stake is a prefix of the ranking: with each of
/// its nodes it holds every node that ranks before.
pub open spec fn is_top_set(stakes: Seq<u64>, nodes: Set<usize>) -> bool {
    forall|i: usize| #[trigger]
        nodes.contains(i) ==> bears_stake(stakes, i) && ranked_before(stakes, i).subset_of(nodes)
}

/// `StakeFraction` picks the smallest prefix of the ranking that holds the
/// target: what it picks is a prefix, it holds the target where all nodes
/// together do, and every prefix that holds the target contains it.
pub proof fn law_stake_fraction_is_smallest_cover(stakes: Seq<u64>, target: u128, top: Set<usize>)
    requires
        stakes.len() <= usize::MAX,
        is_top_set(stakes, top),
    ensures
        ({
            let chosen = selected(BehaviourSelection::StakeFraction { target }, stakes, None);
            &&& is_top_set(stakes, chosen)
            &&& target <= total_of(stakes) ==> target <= stake_of(stakes, chosen)
            &&& target <= stake_of(stakes, top) ==> chosen.subset_of(top)
        }),
{
    let chosen = selected(BehaviourSelection::StakeFraction { target }, stakes, None);
    assert forall|i: usize| #[trigger] chosen.contains(i) implies bears_stake(stakes, i)
        && ranked_before(stakes, i).subset_of(chosen) by {
        assert forall|j: usize| ranked_before(stakes, i).contains(j) implies chosen.contains(
            j,
        ) by {
            lemma_stake_subset(
                stakes,
                ranked_before(stakes, j),
                ranked_before(stakes, i),
                stakes.len(),
            );
        }
    }
    if stake_of(stakes, chosen) < target {
        if exists|i: usize| bears_stake(stakes, i) && !chosen.contains(i) {
            let i = choose|i: usize| bears_stake(stakes, i) && !chosen.contains(i);
            let first = lemma_first_missing(stakes, chosen, i, stakes.len());
            assert(ranked_before(stakes, first).subset_of(chosen));
            lemma_stake_subset(stakes, ranked_before(stakes, first), chosen, stakes.len());
            assert(chosen.contains(first));
        } else {
            lemma_stake_all(stakes, chosen, stakes.len());
            assert(stakes.take(stakes.len() as int) =~= stakes);
        }
    }
    if target <= stake_of(stakes, top) {
        assert forall|i: usize| chosen.contains(i) implies top.contains(i) by {
            if !top.contains(i) {
                assert forall|j: usize| top.contains(j) implies ranked_before(stakes, i).contains(
                    j,
                ) by {
                    if !outranks(stakes, j, i) {
                        assert(ranked_before(stakes, j).contains(i));
                    }
                }
                lemma_stake_subset(stakes, top, ranked_before(stakes, i), stakes.len());
            }
        }
    }
}

/// Of the first `n` nodes and `i`, the highest ranked of those with stake that a
/// set lacks.
proof fn lemma_first_missing(stakes: Seq<u64>, nodes: Set<usize>, i: usize, n: nat) -> (first:
    usize)
    requires
        n <= stakes.len() <= usize::MAX,
        bears_stake(stakes, i),
        !nodes.contains(i),
    ensures
        bears_stake(stakes, first),
        !nodes.contains(first),
        first == i || outranks(stakes, first, i),
        forall|j: usize|
            j < n && #[trigger] bears_stake(stakes, j) && outranks(stakes, j, first)
                ==> nodes.contains(j),
    decreases n,
{
    if n == 0 {
        i
    } else {
        let best = lemma_first_missing(stakes, nodes, i, (n - 1) as nat);
        let last = (n - 1) as usize;
        if bears_stake(stakes, last) && !nodes.contains(last) && outranks(stakes, last, best) {
            last
        } else {
            best
        }
    }
}

/// `StakeFraction` with nothing to hold picks no node; with all stake to hold it
/// picks every node with stake.
pub proof fn law_stake_fraction_bounds(stakes: Seq<u64>, target: u128, i: usize)
    requires
        stakes.len() <= usize::MAX,
        target == total_of(stakes),
    ensures
        !selected(BehaviourSelection::StakeFraction { target: 0 }, stakes, None).contains(i),
        selected(BehaviourSelection::StakeFraction { target }, stakes, None).contains(i)
            <==> bears_stake(stakes, i),
{
    if bears_stake(stakes, i) {
        let all = Set::new(|j: usize| bears_stake(stakes, j));
        let before = ranked_before(stakes, i);
        lemma_stake_all(stakes, all, stakes.len());
        assert(stakes.take(stakes.len() as int) =~= stakes);
        lemma_stake_insert(stakes, before, i, stakes.len());
        lemma_stake_subset(stakes, before.insert(i), all, stakes.len());
    }
}

} // verus!
