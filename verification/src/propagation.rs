//! Label propagation: a node takes the label that most of its neighbours
//! carry, node after node along a given visiting order.

use crate::graph::adjacency;
use crate::keys::{all_keys, key_order};
use crate::sums::{count_of, lemma_count_is_bounded, lemma_entry_is_counted};
use std::collections::HashMap;
use vstd::prelude::*;
use vstd::std_specs::hash::*;

verus! {

/// The label at position `i` wins: no label occurs more often, and every
/// label that comes before it occurs less often.
pub open spec fn wins_at(labels: Seq<u32>, i: int) -> bool {
    &&& 0 <= i < labels.len()
    &&& forall|j: int|
        0 <= j < labels.len() ==> count_of(labels, #[trigger] labels[j]) <= count_of(
            labels,
            labels[i],
        )
    &&& forall|j: int|
        0 <= j < i ==> count_of(labels, #[trigger] labels[j]) < count_of(labels, labels[i])
}

/// The label that occurs most often in `labels`; among several that occur
/// equally often, the one that is met first. None where `labels` is empty.
pub open spec fn majority(labels: Seq<u32>) -> Option<u32> {
    if labels.len() == 0 {
        None
    } else {
        Some(labels[choose|i: int| wins_at(labels, i)])
    }
}

/// The labels that the nodes of `neighbors` carry, in their order; a
/// neighbour without a label is passed over.
pub open spec fn neighbor_labels(neighbors: Seq<u32>, labels: Map<u32, u32>) -> Seq<u32>
    decreases neighbors.len(),
{
    if neighbors.len() == 0 {
        Seq::empty()
    } else {
        let before = neighbor_labels(neighbors.drop_last(), labels);
        if labels.contains_key(neighbors.last()) {
            before.push(labels[neighbors.last()])
        } else {
            before
        }
    }
}

/// The labelling after `n` has taken the majority label of its neighbours.
/// Nothing changes where `n` is no node of `g` or none of its neighbours
/// carries a label.
pub open spec fn relabel(g: Map<u32, Seq<u32>>, labels: Map<u32, u32>, n: u32) -> Map<u32, u32> {
    if g.contains_key(n) {
        match majority(neighbor_labels(g[n], labels)) {
            Some(winner) => labels.insert(n, winner),
            None => labels,
        }
    } else {
        labels
    }
}

/// The labelling after the nodes of `order` have been relabelled one after
/// the other; each sees the labels that the earlier ones have taken.
pub open spec fn propagate(g: Map<u32, Seq<u32>>, labels: Map<u32, u32>, order: Seq<u32>) -> Map<
    u32,
    u32,
>
    decreases order.len(),
{
    if order.len() == 0 {
        labels
    } else {
        relabel(g, propagate(g, labels, order.drop_last()), order.last())
    }
}

/// Every node of `g` carries a label, no other node does, and every label
/// is a node of `g`.
pub open spec fn labels_are_nodes(labels: Map<u32, u32>, g: Map<u32, Seq<u32>>) -> bool {
    &&& labels.dom() == g.dom()
    &&& forall|n: u32| #[trigger] labels.contains_key(n) ==> g.contains_key(labels[n])
}

/// `tally` holds, for each label that occurs in `s`, how often it occurs.
spec fn tallies(tally: Map<u32, usize>, s: Seq<u32>) -> bool {
    forall|l: u32|
        {
            &&& #[trigger] tally.contains_key(l) <==> count_of(s, l) > 0
            &&& tally.contains_key(l) ==> tally[l] == count_of(s, l)
        }
}

/// At most one position wins.
pub proof fn lemma_winner_is_unique(labels: Seq<u32>, i: int, j: int)
    requires
        wins_at(labels, i),
        wins_at(labels, j),
    ensures
        i == j,
{
    if i < j {
        assert(count_of(labels, labels[i]) < count_of(labels, labels[j]));
    } else if j < i {
        assert(count_of(labels, labels[j]) < count_of(labels, labels[i]));
    }
}

/// The majority label is one of the labels.
pub proof fn lemma_majority_is_a_label(labels: Seq<u32>, i: int)
    requires
        wins_at(labels, i),
    ensures
        majority(labels) == Some(labels[i]),
        labels.contains(labels[i]),
{
    let chosen = choose|k: int| wins_at(labels, k);
    lemma_winner_is_unique(labels, i, chosen);
}

/// The label that occurs most often in `labels`; among several that occur
/// equally often, the one that is met first. None where there is no label.
pub fn majority_label(labels: &Vec<u32>) -> (winner: Option<u32>)
    ensures
        winner == majority(labels@),
{
    broadcast use group_hash_axioms;

    let ghost ls = labels@;
    let mut tally: HashMap<u32, usize> = HashMap::new();
    let mut i: usize = 0;
    proof {
        assert(ls.take(0) =~= Seq::<u32>::empty());
    }
    while i < labels.len()
        invariant
            ls == labels@,
            0 <= i <= ls.len(),
            tallies(tally@, ls.take(i as int)),
        decreases ls.len() - i,
    {
        let l: u32 = labels[i];
        let ghost prefix = ls.take(i as int);
        proof {
            lemma_count_is_bounded(prefix, l);
            assert(ls.take(i + 1) =~= prefix.push(l));
            assert(prefix.push(l).drop_last() =~= prefix);
        }
        let seen: usize = match tally.get(&l) {
            Some(c) => *c,
            None => 0,
        };
        tally.insert(l, seen + 1);
        proof {
            let next = ls.take(i + 1);
            assert forall|x: u32|
                {
                    &&& #[trigger] tally@.contains_key(x) <==> count_of(next, x) > 0
                    &&& tally@.contains_key(x) ==> tally@[x] == count_of(next, x)
                } by {
                assert(count_of(next, x) == count_of(prefix, x) + if l == x {
                    1nat
                } else {
                    0nat
                });
            }
        }
        i += 1;
    }
    if labels.len() == 0 {
        return None;
    }
    proof {
        assert(ls.take(i as int) =~= ls);
        lemma_entry_is_counted(ls, 0);
    }
    let first: u32 = labels[0];
    let mut best: usize = 0;
    let mut best_count: usize = *tally.get(&first).unwrap();
    let mut j: usize = 1;
    while j < labels.len()
        invariant
            ls == labels@,
            tallies(tally@, ls),
            1 <= j <= ls.len(),
            0 <= best < j,
            best_count == count_of(ls, ls[best as int]),
            forall|k: int| 0 <= k < j ==> count_of(ls, #[trigger] ls[k]) <= best_count,
            forall|k: int| 0 <= k < best ==> count_of(ls, #[trigger] ls[k]) < best_count,
        decreases ls.len() - j,
    {
        let l: u32 = labels[j];
        proof {
            lemma_entry_is_counted(ls, j as int);
        }
        let count: usize = *tally.get(&l).unwrap();
        if count > best_count {
            best = j;
            best_count = count;
        }
        j += 1;
    }
    proof {
        assert(wins_at(ls, best as int));
        lemma_majority_is_a_label(ls, best as int);
    }
    Some(labels[best])
}

/// The labels that the nodes of `neighbors` carry, in their order.
pub fn labels_of_neighbors(neighbors: &Vec<u32>, labels: &HashMap<u32, u32>) -> (found: Vec<u32>)
    ensures
        found@ == neighbor_labels(neighbors@, labels@),
{
    broadcast use group_hash_axioms;

    let mut found: Vec<u32> = Vec::new();
    let mut i: usize = 0;
    proof {
        assert(neighbors@.take(0) =~= Seq::<u32>::empty());
    }
    while i < neighbors.len()
        invariant
            0 <= i <= neighbors@.len(),
            found@ == neighbor_labels(neighbors@.take(i as int), labels@),
        decreases neighbors@.len() - i,
    {
        let m: u32 = neighbors[i];
        proof {
            assert(neighbors@.take(i + 1).drop_last() =~= neighbors@.take(i as int));
        }
        match labels.get(&m) {
            Some(label) => {
                found.push(*label);
            },
            None => {},
        }
        i += 1;
    }
    proof {
        assert(neighbors@.take(i as int) =~= neighbors@);
    }
    found
}

/// Relabels the nodes of `order` one after the other: each takes the label
/// that most of its neighbours carry at that moment, so that a label taken
/// early in the round is seen by the nodes that follow.
pub fn propagate_round(
    graph: &HashMap<u32, Vec<u32>>,
    labels: &mut HashMap<u32, u32>,
    order: &Vec<u32>,
)
    ensures
        final(labels)@ == propagate(adjacency(graph), old(labels)@, order@),
{
    broadcast use group_hash_axioms;

    let ghost g = adjacency(graph);
    let ghost start = labels@;
    let mut i: usize = 0;
    proof {
        assert(order@.take(0) =~= Seq::<u32>::empty());
    }
    while i < order.len()
        invariant
            g == adjacency(graph),
            0 <= i <= order@.len(),
            labels@ == propagate(g, start, order@.take(i as int)),
        decreases order@.len() - i,
    {
        let node: u32 = order[i];
        proof {
            assert(order@.take(i + 1).drop_last() =~= order@.take(i as int));
        }
        match graph.get(&node) {
            Some(neighbors) => {
                let carried = labels_of_neighbors(neighbors, labels);
                match majority_label(&carried) {
                    Some(winner) => {
                        labels.insert(node, winner);
                    },
                    None => {},
                }
            },
            None => {},
        }
        i += 1;
    }
    proof {
        assert(order@.take(i as int) =~= order@);
    }
}

/// Every label among those of the neighbours is carried by a labelled node.
proof fn lemma_neighbor_labels_are_carried(neighbors: Seq<u32>, labels: Map<u32, u32>, k: int)
    requires
        0 <= k < neighbor_labels(neighbors, labels).len(),
    ensures
        exists|m: u32| #[trigger]
            labels.contains_key(m) && labels[m] == neighbor_labels(neighbors, labels)[k],
    decreases neighbors.len(),
{
    if neighbors.len() > 0 {
        let before = neighbor_labels(neighbors.drop_last(), labels);
        if k < before.len() {
            lemma_neighbor_labels_are_carried(neighbors.drop_last(), labels, k);
        } else {
            assert(labels.contains_key(neighbors.last()));
        }
    }
}

/// Relabelling a node never brings in a label from outside the graph.
pub proof fn lemma_relabel_keeps_labels(g: Map<u32, Seq<u32>>, labels: Map<u32, u32>, n: u32)
    requires
        labels_are_nodes(labels, g),
    ensures
        labels_are_nodes(relabel(g, labels, n), g),
{
    if g.contains_key(n) {
        let carried = neighbor_labels(g[n], labels);
        if carried.len() > 0 {
            let i = choose|i: int| wins_at(carried, i);
            lemma_some_position_wins(carried);
            lemma_neighbor_labels_are_carried(g[n], labels, i);
            assert(relabel(g, labels, n).dom() =~= g.dom());
        }
    }
}

/// Where there is a label, some position wins.
proof fn lemma_some_position_wins(labels: Seq<u32>)
    requires
        labels.len() > 0,
    ensures
        exists|i: int| wins_at(labels, i),
{
    let i = first_best(labels, labels.len() as int);
    lemma_first_best(labels, labels.len() as int);
    assert(wins_at(labels, i));
}

/// The first position among the first `n` whose label occurs most often
/// among the labels at those positions.
spec fn first_best(labels: Seq<u32>, n: int) -> int
    decreases n,
{
    if n <= 1 {
        0
    } else {
        let before = first_best(labels, n - 1);
        if count_of(labels, labels[n - 1]) > count_of(labels, labels[before]) {
            n - 1
        } else {
            before
        }
    }
}

/// That position lies among the first `n`; no label at those positions
/// occurs more often than its label, and every label before it occurs less
/// often.
proof fn lemma_first_best(labels: Seq<u32>, n: int)
    requires
        1 <= n <= labels.len(),
    ensures
        0 <= first_best(labels, n) < n,
        forall|j: int|
            0 <= j < n ==> count_of(labels, #[trigger] labels[j]) <= count_of(
                labels,
                labels[first_best(labels, n)],
            ),
        forall|j: int|
            0 <= j < first_best(labels, n) ==> count_of(labels, #[trigger] labels[j]) < count_of(
                labels,
                labels[first_best(labels, n)],
            ),
    decreases n,
{
    if n > 1 {
        lemma_first_best(labels, n - 1);
    }
}

/// A round of propagation never brings in a label from outside the graph.
pub proof fn lemma_propagate_keeps_labels(
    g: Map<u32, Seq<u32>>,
    labels: Map<u32, u32>,
    order: Seq<u32>,
)
    requires
        labels_are_nodes(labels, g),
    ensures
        labels_are_nodes(propagate(g, labels, order), g),
    decreases order.len(),
{
    if order.len() > 0 {
        lemma_propagate_keeps_labels(g, labels, order.drop_last());
        lemma_relabel_keeps_labels(g, propagate(g, labels, order.drop_last()), order.last());
    }
}

/// The nodes of `order` that carry the label `l`, in their order.
pub open spec fn members_among(labels: Map<u32, u32>, order: Seq<u32>, l: u32) -> Seq<u32>
    decreases order.len(),
{
    if order.len() == 0 {
        Seq::empty()
    } else {
        let before = members_among(labels, order.drop_last(), l);
        if labels.contains_key(order.last()) && labels[order.last()] == l {
            before.push(order.last())
        } else {
            before
        }
    }
}

/// `groups` maps every label that some node of `order` carries to the nodes
/// of `order` that carry it, in their order, and holds no other label.
pub open spec fn groups_members(
    groups: Map<u32, Vec<u32>>,
    labels: Map<u32, u32>,
    order: Seq<u32>,
) -> bool {
    forall|l: u32|
        {
            &&& #[trigger] groups.contains_key(l) <==> members_among(labels, order, l).len() > 0
            &&& groups.contains_key(l) ==> groups[l]@ == members_among(labels, order, l)
        }
}

/// A node is a member of the community of `l` exactly where it is listed and
/// carries `l`.
pub proof fn lemma_members_carry_the_label(
    labels: Map<u32, u32>,
    order: Seq<u32>,
    l: u32,
    n: u32,
)
    ensures
        members_among(labels, order, l).contains(n) <==> order.contains(n) && labels.contains_key(
            n,
        ) && labels[n] == l,
    decreases order.len(),
{
    if order.len() > 0 {
        let before = order.drop_last();
        let last = order.last();
        let earlier = members_among(labels, before, l);
        let all = members_among(labels, order, l);
        lemma_members_carry_the_label(labels, before, l, n);
        if all.contains(n) {
            let k = choose|k: int| 0 <= k < all.len() && all[k] == n;
            if k < earlier.len() {
                assert(earlier[k] == n);
                let j = choose|j: int| 0 <= j < before.len() && before[j] == n;
                assert(order[j] == n);
            } else {
                assert(order[order.len() - 1] == n);
            }
        }
        if order.contains(n) && labels.contains_key(n) && labels[n] == l {
            if n == last {
                assert(all[all.len() - 1] == n);
            } else {
                let j = choose|j: int| 0 <= j < order.len() && order[j] == n;
                assert(before[j] == n);
                let k = choose|k: int| 0 <= k < earlier.len() && earlier[k] == n;
                assert(all[k] == n);
            }
        }
    }
}

/// Gathers the communities of a labelling: for every label that is carried,
/// the nodes that carry it, in the order in which the labelling hands its
/// nodes out.
pub fn group_by_label(labels: &HashMap<u32, u32>) -> (groups: HashMap<u32, Vec<u32>>)
    ensures
        groups_members(groups@, labels@, key_order(labels)),
{
    broadcast use group_hash_axioms;

    let order = all_keys(labels);
    let mut groups: HashMap<u32, Vec<u32>> = HashMap::new();
    let mut i: usize = 0;
    proof {
        assert(order@.take(0) =~= Seq::<u32>::empty());
    }
    while i < order.len()
        invariant
            order@ == key_order(labels),
            order@.to_set() == labels@.dom(),
            0 <= i <= order@.len(),
            groups_members(groups@, labels@, order@.take(i as int)),
        decreases order@.len() - i,
    {
        let n: u32 = order[i];
        assert(order@.to_set().contains(n));
        let carried: Option<&u32> = labels.get(&n);
        let l: u32 = *carried.unwrap();
        let ghost before = groups@;
        let ghost seen = order@.take(i as int);
        proof {
            assert(order@.take(i + 1).drop_last() =~= seen);
            assert(order@.take(i + 1).last() == n);
        }
        let mut members: Vec<u32> = match groups.remove(&l) {
            Some(members) => members,
            None => Vec::new(),
        };
        proof {
            assert(members@ =~= members_among(labels@, seen, l));
        }
        members.push(n);
        groups.insert(l, members);
        proof {
            assert forall|x: u32|
                {
                    &&& #[trigger] groups@.contains_key(x) <==> members_among(
                        labels@,
                        order@.take(i + 1),
                        x,
                    ).len() > 0
                    &&& groups@.contains_key(x) ==> groups@[x]@ == members_among(
                        labels@,
                        order@.take(i + 1),
                        x,
                    )
                } by {
                if x != l {
                    assert(before.contains_key(x) <==> groups@.contains_key(x));
                }
            }
        }
        i += 1;
    }
    proof {
        assert(order@.take(i as int) =~= order@);
    }
    groups
}

} // verus!
