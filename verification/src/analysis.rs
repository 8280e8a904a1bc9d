//! Whole-graph statistics: the mean shortest-path length over a sample of
//! sources, the degree distribution, and communities by label propagation.

use crate::graph::{adjacency, degree_in, degree_sum, nodes, sample_nodes, sample_of};
use crate::keys::all_keys;
use crate::paths::{others_reached, total_distance};
use crate::propagation::{
    labels_are_nodes, lemma_propagate_keeps_labels, propagate, propagate_round,
};
use crate::ratio::Ratio;
use crate::sums::{
    lemma_count_sets_are_finite, lemma_node_sets_are_finite, lemma_sum_along_distinct,
    lemma_sum_along_push,
    lemma_sum_over_agrees, lemma_sum_over_empty, lemma_sum_over_insert,
    lemma_sum_over_remove, sum_along, sum_over,
};
use crate::traversal::measure_reach;
use crate::sorted::sorted_nodes;
use crate::trusted::{seeded_generator, shuffle_nodes};
use std::collections::HashMap;
use vstd::prelude::*;
use vstd::std_specs::hash::*;

verus! {

/// The total distance from a node of `g`, as a function of the node.
pub open spec fn total_distance_in(g: Map<u32, Seq<u32>>) -> spec_fn(u32) -> nat {
    |s: u32| total_distance(g, s)
}

/// The number of other nodes that a node of `g` reaches, as a function of
/// the node.
pub open spec fn others_reached_in(g: Map<u32, Seq<u32>>) -> spec_fn(u32) -> nat {
    |s: u32| others_reached(g, s)
}

/// `mean` is the mean shortest-path length from `sources`: the sum of the
/// hop distances from each source to every node that it reaches, over the
/// number of such ordered pairs of distinct nodes.
pub open spec fn is_mean_path_length(
    mean: Ratio,
    g: Map<u32, Seq<u32>>,
    sources: Seq<u32>,
) -> bool {
    &&& mean.numerator == sum_along(sources, total_distance_in(g))
    &&& mean.denominator == sum_along(sources, others_reached_in(g))
}

/// The mean shortest-path length from the given sources, each searched
/// breadth first. A source counts as often as it is listed. The mean is zero
/// where no source reaches another node.
pub fn average_shortest_path_from(graph: &HashMap<u32, Vec<u32>>, sources: &Vec<u32>) -> (mean:
    Ratio)
    ensures
        is_mean_path_length(mean, adjacency(graph), sources@),
{
    let ghost g = adjacency(graph);
    let mut total_distance: u128 = 0;
    let mut total_pairs: u128 = 0;
    let mut i: usize = 0;
    proof {
        assert(sources@.take(0) =~= Seq::<u32>::empty());
    }
    while i < sources.len()
        invariant
            g == adjacency(graph),
            0 <= i <= sources@.len(),
            total_distance == sum_along(sources@.take(i as int), total_distance_in(g)),
            total_pairs == sum_along(sources@.take(i as int), others_reached_in(g)),
            total_distance <= i * 0xffff_ffff_ffff_ffff,
            total_pairs <= i * 0xffff_ffff_ffff_ffff,
        decreases sources@.len() - i,
    {
        let start: u32 = sources[i];
        let reach = measure_reach(graph, start);
        proof {
            assert(sources@.take(i + 1) =~= sources@.take(i as int).push(start));
            lemma_sum_along_push(sources@.take(i as int), total_distance_in(g), start);
            lemma_sum_along_push(sources@.take(i as int), others_reached_in(g), start);
            assert(i < usize::MAX);
            assert(i * 0xffff_ffff_ffff_ffff + 0xffff_ffff_ffff_ffff <= u128::MAX)
                by (nonlinear_arith)
                requires
                    i < 0xffff_ffff_ffff_ffff,
            ;
        }
        total_distance = total_distance + reach.total_distance as u128;
        total_pairs = total_pairs + reach.others as u128;
        i += 1;
    }
    proof {
        assert(sources@.take(i as int) =~= sources@);
    }
    Ratio { numerator: total_distance, denominator: total_pairs }
}

/// The mean shortest-path length from a set of sources does not depend on
/// the order in which the sources are searched.
pub proof fn lemma_mean_path_length_ignores_order(
    first: Ratio,
    second: Ratio,
    g: Map<u32, Seq<u32>>,
    sources: Seq<u32>,
    reordered: Seq<u32>,
)
    requires
        is_mean_path_length(first, g, sources),
        is_mean_path_length(second, g, reordered),
        sources.no_duplicates(),
        reordered.no_duplicates(),
        sources.to_set() == reordered.to_set(),
    ensures
        first == second,
{
    lemma_sum_along_distinct(sources, total_distance_in(g));
    lemma_sum_along_distinct(reordered, total_distance_in(g));
    lemma_sum_along_distinct(sources, others_reached_in(g));
    lemma_sum_along_distinct(reordered, others_reached_in(g));
}

/// Estimates the mean shortest-path length of `graph` from its first
/// `sample_size` nodes in iteration order; from all of them where the graph
/// has no more. The estimate is zero for an empty sample and where no
/// sampled node reaches another.
pub fn calculate_average_shortest_path(graph: &HashMap<u32, Vec<u32>>, sample_size: usize) -> (mean:
    Ratio)
    ensures
        is_mean_path_length(mean, adjacency(graph), sample_of(graph, sample_size)),
{
    let sample = sample_nodes(graph, sample_size);
    average_shortest_path_from(graph, &sample)
}

/// The nodes among `among` whose neighbour sequence in `g` has length `d`.
pub open spec fn nodes_of_degree(g: Map<u32, Seq<u32>>, among: Set<u32>, d: nat) -> Set<u32> {
    Set::new(|n: u32| among.contains(n) && g[n].len() == d)
}

/// `counts` maps each degree that occurs among the nodes of `among` to the
/// number of those nodes that have it, and holds no other degree.
pub open spec fn counts_degrees_among(
    counts: Map<usize, usize>,
    g: Map<u32, Seq<u32>>,
    among: Set<u32>,
) -> bool {
    forall|d: usize|
        {
            &&& counts.contains_key(d) <==> nodes_of_degree(g, among, d as nat).len() > 0
            &&& counts.contains_key(d) ==> counts[d] == #[trigger] nodes_of_degree(
                g,
                among,
                d as nat,
            ).len()
        }
}

/// `counts` is the degree distribution of `g`.
pub open spec fn is_degree_distribution(counts: Map<usize, usize>, g: Map<u32, Seq<u32>>) -> bool {
    counts_degrees_among(counts, g, g.dom())
}

/// One more node moves into the class of its own degree and into no other.
proof fn lemma_degree_class_grows(g: Map<u32, Seq<u32>>, among: Set<u32>, n: u32, d: nat)
    requires
        among.finite(),
        !among.contains(n),
    ensures
        nodes_of_degree(g, among, d).finite(),
        nodes_of_degree(g, among, d).len() <= among.len(),
        g[n].len() == d ==> nodes_of_degree(g, among.insert(n), d) == nodes_of_degree(
            g,
            among,
            d,
        ).insert(n) && !nodes_of_degree(g, among, d).contains(n),
        g[n].len() != d ==> nodes_of_degree(g, among.insert(n), d) == nodes_of_degree(
            g,
            among,
            d,
        ),
{
    let class = nodes_of_degree(g, among, d);
    assert(class.subset_of(among));
    vstd::set_lib::lemma_set_subset_finite(among, class);
    vstd::set_lib::lemma_len_subset(class, among);
    if g[n].len() == d {
        assert(nodes_of_degree(g, among.insert(n), d) =~= class.insert(n));
    } else {
        assert(nodes_of_degree(g, among.insert(n), d) =~= class);
    }
}

/// The degree distribution of `graph`: for each length that a neighbour
/// sequence has, the number of nodes whose sequence has that length.
pub fn calculate_degree_distribution(graph: &HashMap<u32, Vec<u32>>) -> (counts: HashMap<
    usize,
    usize,
>)
    ensures
        is_degree_distribution(counts@, adjacency(graph)),
        weighted_degree_total(counts@) == degree_sum(adjacency(graph)),
{
    broadcast use group_hash_axioms;

    let ghost g = adjacency(graph);
    let all = nodes(graph);
    let mut counts: HashMap<usize, usize> = HashMap::new();
    let mut i: usize = 0;
    proof {
        assert(all@.take(0) =~= Seq::<u32>::empty());
        assert(all@.take(0).to_set() =~= Set::<u32>::empty());
        assert forall|d: usize| nodes_of_degree(g, Set::<u32>::empty(), d as nat).len() == 0 by {
            assert(nodes_of_degree(g, Set::<u32>::empty(), d as nat) =~= Set::<u32>::empty());
        }
    }
    while i < all.len()
        invariant
            g == adjacency(graph),
            all@.no_duplicates(),
            all@.to_set() == g.dom(),
            0 <= i <= all@.len(),
            counts_degrees_among(counts@, g, all@.take(i as int).to_set()),
        decreases all@.len() - i,
    {
        let n: u32 = all[i];
        let ghost seen = all@.take(i as int).to_set();
        assert(all@.to_set().contains(n));
        let neighbors: Option<&Vec<u32>> = graph.get(&n);
        let degree: usize = neighbors.unwrap().len();
        proof {
            assert(all@.take(i + 1) =~= all@.take(i as int).push(n));
            all@.take(i as int).lemma_push_to_set_commute(n);
            vstd::seq_lib::seq_to_set_is_finite(all@.take(i as int));
            all@.take(i as int).unique_seq_to_set();
            assert(!seen.contains(n)) by {
                if all@.take(i as int).contains(n) {
                    let j = choose|j: int| 0 <= j < i && all@.take(i as int)[j] == n;
                    assert(all@[j] == all@[i as int]);
                }
            }
            assert forall|d: usize|
                {
                    &&& nodes_of_degree(g, seen, d as nat).finite()
                    &&& nodes_of_degree(g, seen, d as nat).len() <= i
                    &&& #[trigger] nodes_of_degree(g, seen.insert(n), d as nat).len() == if d
                        == degree {
                        nodes_of_degree(g, seen, d as nat).len() + 1
                    } else {
                        nodes_of_degree(g, seen, d as nat).len()
                    }
                } by {
                lemma_degree_class_grows(g, seen, n, d as nat);
            }
        }
        let before: Option<&usize> = counts.get(&degree);
        let count: usize = match before {
            Some(c) => {
                proof {
                    lemma_degree_class_grows(g, seen, n, degree as nat);
                    assert(*c == nodes_of_degree(g, seen, degree as nat).len());
                    assert(seen.len() == i && i < all.len());
                }
                *c + 1
            },
            None => 1,
        };
        counts.insert(degree, count);
        i += 1;
    }
    proof {
        assert(all@.take(i as int) =~= all@);
        assert forall|n: u32| g.contains_key(n) implies (#[trigger] g[n]).len() <= usize::MAX by {
            assert(graph@[n].len() <= usize::MAX);
        }
        lemma_distribution_sums_to_degree_sum(counts@, g);
    }
    counts
}

/// The half-edges that the nodes of one degree hold together, as a function
/// of the degree: the degree times the number of nodes that have it.
pub open spec fn weight_in(counts: Map<usize, usize>) -> spec_fn(usize) -> nat {
    |d: usize| (d * counts[d]) as nat
}

/// The sum, over the degrees of a distribution, of the degree times its
/// count.
pub open spec fn weighted_degree_total(counts: Map<usize, usize>) -> nat {
    sum_over(counts.dom(), weight_in(counts))
}

/// The counts of the degrees among `among`, weighted by the degree, add up
/// to the sum of the degrees of the nodes of `among`.
proof fn lemma_weighted_counts_among(
    counts: Map<usize, usize>,
    g: Map<u32, Seq<u32>>,
    among: Set<u32>,
)
    requires
        among.finite(),
        counts_degrees_among(counts, g, among),
        forall|n: u32| among.contains(n) ==> (#[trigger] g[n]).len() <= usize::MAX,
    ensures
        weighted_degree_total(counts) == sum_over(among, degree_in(g)),
    decreases among.len(),
{
    lemma_count_sets_are_finite(counts.dom());
    if among.len() == 0 {
        assert(among =~= Set::<u32>::empty());
        assert forall|d: usize| !counts.contains_key(d) by {
            assert(nodes_of_degree(g, among, d as nat) =~= Set::<u32>::empty());
        }
        assert(counts.dom() =~= Set::<usize>::empty());
        lemma_sum_over_empty(weight_in(counts));
        lemma_sum_over_empty(degree_in(g));
    } else {
        let a = among.choose();
        assert(among.contains(a));
        let rest = among.remove(a);
        assert(g[a].len() <= usize::MAX);
        let d0 = g[a].len() as usize;
        assert(rest.insert(a) =~= among);
        assert forall|d: usize|
            {
                &&& nodes_of_degree(g, rest, d as nat).finite()
                &&& #[trigger] nodes_of_degree(g, among, d as nat).len() == nodes_of_degree(
                    g,
                    rest,
                    d as nat,
                ).len() + if d == d0 {
                    1nat
                } else {
                    0nat
                }
            } by {
            lemma_degree_class_grows(g, rest, a, d as nat);
        }
        assert(nodes_of_degree(g, among, d0 as nat).len() >= 1);
        assert(counts.contains_key(d0));
        let c = counts[d0];
        assert(c >= 1);
        let fewer = if c == 1 {
            counts.remove(d0)
        } else {
            counts.insert(d0, (c - 1) as usize)
        };
        assert(counts_degrees_among(fewer, g, rest)) by {
            assert forall|d: usize|
                {
                    &&& fewer.contains_key(d) <==> nodes_of_degree(g, rest, d as nat).len() > 0
                    &&& fewer.contains_key(d) ==> fewer[d] == #[trigger] nodes_of_degree(
                        g,
                        rest,
                        d as nat,
                    ).len()
                } by {
                assert(nodes_of_degree(g, among, d as nat).len() == nodes_of_degree(
                    g,
                    rest,
                    d as nat,
                ).len() + if d == d0 {
                    1nat
                } else {
                    0nat
                });
            }
        }
        lemma_weighted_counts_among(fewer, g, rest);
        lemma_sum_over_insert(rest, degree_in(g), a);
        let w = weight_in(counts);
        let v = weight_in(fewer);
        lemma_count_sets_are_finite(fewer.dom());
        if c == 1 {
            assert(fewer.dom().insert(d0) =~= counts.dom());
            lemma_sum_over_insert(fewer.dom(), w, d0);
            lemma_sum_over_agrees(fewer.dom(), w, v);
            assert(w(d0) == d0) by (nonlinear_arith)
                requires
                    w(d0) == (d0 * c) as nat,
                    c == 1,
                    d0 >= 0,
            ;
        } else {
            let others = counts.dom().remove(d0);
            assert(fewer.dom() =~= counts.dom());
            lemma_sum_over_remove(counts.dom(), w, d0);
            lemma_sum_over_remove(fewer.dom(), v, d0);
            lemma_sum_over_agrees(others, w, v);
            assert(w(d0) == v(d0) + d0) by (nonlinear_arith)
                requires
                    w(d0) == (d0 * c) as nat,
                    v(d0) == (d0 * (c - 1)) as nat,
                    c >= 1,
                    d0 >= 0,
            ;
        }
    }
}

/// The degree distribution accounts for every half-edge: the sum, over its
/// degrees, of the degree times its count equals the sum of the lengths of
/// all neighbour sequences.
pub proof fn lemma_distribution_sums_to_degree_sum(
    counts: Map<usize, usize>,
    g: Map<u32, Seq<u32>>,
)
    requires
        is_degree_distribution(counts, g),
        forall|n: u32| g.contains_key(n) ==> (#[trigger] g[n]).len() <= usize::MAX,
    ensures
        weighted_degree_total(counts) == degree_sum(g),
{
    lemma_node_sets_are_finite(g.dom());
    lemma_weighted_counts_among(counts, g, g.dom());
}

/// `d` is the largest degree of the distribution; zero where it is empty.
pub open spec fn is_largest_degree(counts: Map<usize, usize>, d: usize) -> bool {
    if counts.dom() =~= Set::empty() {
        d == 0
    } else {
        counts.contains_key(d) && forall|k: usize| counts.contains_key(k) ==> k <= d
    }
}

/// `c` is the largest count of the distribution: the size of its largest
/// class of nodes of one degree; zero where it is empty.
pub open spec fn is_largest_count(counts: Map<usize, usize>, c: usize) -> bool {
    if counts.dom() =~= Set::empty() {
        c == 0
    } else {
        &&& exists|k: usize| counts.contains_key(k) && #[trigger] counts[k] == c
        &&& forall|k: usize| counts.contains_key(k) ==> #[trigger] counts[k] <= c
    }
}

/// The extent of a degree distribution: its largest degree and its largest
/// count, each zero where the distribution is empty.
pub fn distribution_extent(counts: &HashMap<usize, usize>) -> (extent: (usize, usize))
    ensures
        is_largest_degree(counts@, extent.0),
        is_largest_count(counts@, extent.1),
{
    broadcast use group_hash_axioms;

    let degrees = all_keys(counts);
    let mut largest_degree: usize = 0;
    let mut largest_count: usize = 0;
    let mut i: usize = 0;
    while i < degrees.len()
        invariant
            degrees@.to_set() == counts@.dom(),
            0 <= i <= degrees@.len(),
            i == 0 ==> largest_degree == 0 && largest_count == 0,
            i > 0 ==> counts@.contains_key(largest_degree),
            i > 0 ==> exists|j: int| 0 <= j < i && counts@[#[trigger] degrees@[j]] == largest_count,
            forall|j: int| 0 <= j < i ==> #[trigger] degrees@[j] <= largest_degree,
            forall|j: int| 0 <= j < i ==> counts@[#[trigger] degrees@[j]] <= largest_count,
        decreases degrees@.len() - i,
    {
        let d: usize = degrees[i];
        assert(degrees@.to_set().contains(d));
        let held: Option<&usize> = counts.get(&d);
        let c: usize = *held.unwrap();
        let ghost before = largest_count;
        let ghost witness = if i > 0 {
            choose|j: int| 0 <= j < i && counts@[#[trigger] degrees@[j]] == largest_count
        } else {
            0
        };
        if i == 0 || d > largest_degree {
            largest_degree = d;
        }
        if i == 0 || c > largest_count {
            largest_count = c;
        }
        proof {
            if largest_count == c {
                assert(counts@[degrees@[i as int]] == largest_count);
            } else {
                assert(counts@[degrees@[witness]] == largest_count);
            }
        }
        i += 1;
    }
    proof {
        if degrees@.len() == 0 {
            assert(counts@.dom() =~= Set::empty());
        } else {
            assert(counts@.dom().contains(degrees@[0]));
            assert forall|k: usize| counts@.contains_key(k) implies k <= largest_degree
                && #[trigger] counts@[k] <= largest_count by {
                assert(degrees@.contains(k));
                let j = choose|j: int| 0 <= j < degrees@.len() && degrees@[j] == k;
                assert(degrees@[j] <= largest_degree);
            }
            let j = choose|j: int|
                0 <= j < degrees@.len() && counts@[#[trigger] degrees@[j]] == largest_count;
            assert(degrees@.to_set().contains(degrees@[j]));
        }
    }
    (largest_degree, largest_count)
}

/// The labelling in which every node of `g` is its own label.
pub open spec fn own_labels(g: Map<u32, Seq<u32>>) -> Map<u32, u32> {
    Map::new(|n: u32| g.contains_key(n), |n: u32| n)
}

/// `order` visits every node of `g` exactly once.
pub open spec fn is_visiting_order(order: Seq<u32>, g: Map<u32, Seq<u32>>) -> bool {
    order.no_duplicates() && order.to_set() == g.dom()
}

/// The labelling after one round of propagation along each of `orders`, in
/// turn.
pub open spec fn propagate_rounds(
    g: Map<u32, Seq<u32>>,
    labels: Map<u32, u32>,
    orders: Seq<Seq<u32>>,
) -> Map<u32, u32>
    decreases orders.len(),
{
    if orders.len() == 0 {
        labels
    } else {
        propagate(g, propagate_rounds(g, labels, orders.drop_last()), orders.last())
    }
}

/// A rearrangement of a list of distinct nodes lists the same nodes, again
/// each once.
proof fn lemma_rearranged_nodes(before: Seq<u32>, after: Seq<u32>)
    requires
        before.no_duplicates(),
        after.to_multiset() == before.to_multiset(),
    ensures
        after.no_duplicates(),
        after.to_set() == before.to_set(),
{
    before.to_multiset_ensures();
    after.to_multiset_ensures();
    before.lemma_multiset_has_no_duplicates();
    after.lemma_multiset_has_no_duplicates_conv();
    assert forall|n: u32| after.to_set().contains(n) <==> before.to_set().contains(n) by {
        assert(after.contains(n) <==> after.to_multiset().count(n) > 0);
        assert(before.contains(n) <==> before.to_multiset().count(n) > 0);
    }
    assert(after.to_set() =~= before.to_set());
}

/// Detects communities by label propagation. Every node starts as its own
/// label. In each of `rounds` rounds the nodes are visited in an order
/// shuffled from the ascending one by a generator seeded with `seed`, and
/// each takes the label that most of its neighbours carry at that moment;
/// among labels that tie, the one met first among the neighbours. No round
/// is skipped where the labels have settled. Every label of the result is a
/// node of the graph.
///
/// Which orders the generator deals is not specified; what is returned is
/// the outcome of propagating along some `rounds` visiting orders.
pub fn detect_communities(graph: &HashMap<u32, Vec<u32>>, rounds: usize, seed: u64) -> (labels:
    HashMap<u32, u32>)
    ensures
        labels_are_nodes(labels@, adjacency(graph)),
        exists|orders: Seq<Seq<u32>>|
            {
                &&& orders.len() == rounds
                &&& forall|r: int|
                    0 <= r < rounds ==> is_visiting_order(#[trigger] orders[r], adjacency(graph))
                &&& labels@ == propagate_rounds(
                    adjacency(graph),
                    own_labels(adjacency(graph)),
                    orders,
                )
            },
{
    broadcast use group_hash_axioms;

    let ghost g = adjacency(graph);
    let sorted = sorted_nodes(graph);
    let mut labels: HashMap<u32, u32> = HashMap::new();
    let mut i: usize = 0;
    while i < sorted.len()
        invariant
            g == adjacency(graph),
            sorted@.to_set() == g.dom(),
            0 <= i <= sorted@.len(),
            labels@.dom() == sorted@.take(i as int).to_set(),
            forall|n: u32| #[trigger] labels@.contains_key(n) ==> labels@[n] == n,
        decreases sorted@.len() - i,
    {
        let n: u32 = sorted[i];
        labels.insert(n, n);
        proof {
            assert(sorted@.take(i + 1) =~= sorted@.take(i as int).push(n));
            sorted@.take(i as int).lemma_push_to_set_commute(n);
        }
        i += 1;
    }
    proof {
        assert(sorted@.take(i as int) =~= sorted@);
        assert(labels@ =~= own_labels(g));
        assert(labels_are_nodes(labels@, g));
    }
    let mut generator = seeded_generator(seed);
    let ghost mut orders: Seq<Seq<u32>> = Seq::empty();
    let mut round: usize = 0;
    while round < rounds
        invariant
            g == adjacency(graph),
            is_visiting_order(sorted@, g),
            0 <= round <= rounds,
            orders.len() == round,
            forall|r: int| 0 <= r < round ==> is_visiting_order(#[trigger] orders[r], g),
            labels@ == propagate_rounds(g, own_labels(g), orders),
            labels_are_nodes(labels@, g),
        decreases rounds - round,
    {
        let mut order = sorted.clone();
        assert(order@ =~= sorted@);
        shuffle_nodes(&mut order, &mut generator);
        proof {
            lemma_rearranged_nodes(sorted@, order@);
            lemma_propagate_keeps_labels(g, labels@, order@);
            assert(orders.push(order@).drop_last() =~= orders);
        }
        propagate_round(graph, &mut labels, &order);
        proof {
            orders = orders.push(order@);
        }
        round += 1;
    }
    labels
}

} // verus!
