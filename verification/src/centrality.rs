//! Centrality scores: degree, sampled closeness, and the shortest-path
//! structure from which sampled betweenness is accumulated.

use crate::graph::{adjacency, nodes, sample_nodes, sample_of};
use crate::paths::{
    has_edge, is_isolated, is_walk, lemma_total_distance_of_isolated, lemma_walk_extends,
    reachable, total_distance,
};
use crate::ratio::Ratio;
use crate::sums::{
    count_of, lemma_count_push, lemma_counted_iff_contained, lemma_node_sets_are_finite,
};
use crate::traversal::{breadth_first_search, lemma_search_is_determined, Traversal};
use crate::trusted::measure_reach_in_parallel;
use std::collections::HashMap;
use vstd::prelude::*;
use vstd::std_specs::hash::*;

verus! {

/// `scores` gives every node of `g` the length of its neighbour sequence,
/// repeated neighbours counted as often as they are listed.
pub open spec fn is_degree_centrality(scores: Map<u32, usize>, g: Map<u32, Seq<u32>>) -> bool {
    &&& scores.dom() == g.dom()
    &&& forall|n: u32| #[trigger] g.contains_key(n) ==> scores[n] == g[n].len()
}

/// The degree centrality of every node: the raw length of its neighbour
/// sequence, not normalised.
pub fn calculate_degree_centrality(graph: &HashMap<u32, Vec<u32>>) -> (scores: HashMap<u32, usize>)
    ensures
        is_degree_centrality(scores@, adjacency(graph)),
{
    broadcast use group_hash_axioms;

    let ghost g = adjacency(graph);
    let all = nodes(graph);
    let mut scores: HashMap<u32, usize> = HashMap::new();
    let mut i: usize = 0;
    while i < all.len()
        invariant
            g == adjacency(graph),
            all@.to_set() == g.dom(),
            0 <= i <= all@.len(),
            scores@.dom() == all@.take(i as int).to_set(),
            forall|n: u32| #[trigger] scores@.contains_key(n) ==> scores@[n] == g[n].len(),
        decreases all@.len() - i,
    {
        let n: u32 = all[i];
        assert(all@.to_set().contains(n));
        let neighbors: Option<&Vec<u32>> = graph.get(&n);
        let degree: usize = neighbors.unwrap().len();
        scores.insert(n, degree);
        proof {
            assert(all@.take(i + 1) =~= all@.take(i as int).push(n));
            all@.take(i as int).lemma_push_to_set_commute(n);
        }
        i += 1;
    }
    proof {
        assert(all@.take(i as int) =~= all@);
    }
    scores
}

/// Two degree centralities of one graph are the same: the scores depend on
/// the graph alone.
pub proof fn lemma_degree_centrality_is_determined(
    first: Map<u32, usize>,
    second: Map<u32, usize>,
    g: Map<u32, Seq<u32>>,
)
    requires
        is_degree_centrality(first, g),
        is_degree_centrality(second, g),
    ensures
        first == second,
{
    assert(first =~= second);
}

/// The number of nodes of `g` but one; zero for the empty graph.
pub open spec fn other_nodes(g: Map<u32, Seq<u32>>) -> nat {
    if g.dom().len() >= 1 {
        (g.dom().len() - 1) as nat
    } else {
        0
    }
}

/// `score` is the closeness of `s` in `g`: the number of the other nodes of
/// `g`, over the sum of the hop distances from `s` to every node it reaches.
pub open spec fn is_closeness_of(score: Ratio, g: Map<u32, Seq<u32>>, s: u32) -> bool {
    &&& score.numerator == other_nodes(g)
    &&& score.denominator == total_distance(g, s)
}

/// `scores` holds the closeness of each node of `sources`, and of no other.
pub open spec fn is_closeness_centrality(
    scores: Map<u32, Ratio>,
    g: Map<u32, Seq<u32>>,
    sources: Seq<u32>,
) -> bool {
    &&& scores.dom() == sources.to_set()
    &&& forall|s: u32| #[trigger] scores.contains_key(s) ==> is_closeness_of(scores[s], g, s)
}

/// The closeness of a node of the graph is zero exactly where the node
/// reaches no other node or the graph has no other node.
pub proof fn lemma_closeness_vanishes(score: Ratio, g: Map<u32, Seq<u32>>, s: u32)
    requires
        g.contains_key(s),
        is_closeness_of(score, g, s),
    ensures
        score.vanishes() <==> is_isolated(g, s) || g.dom().len() == 1,
{
    lemma_node_sets_are_finite(g.dom());
    assert(g.dom().len() >= 1) by {
        assert(g.dom().contains(s));
    }
    lemma_total_distance_of_isolated(g, s);
}

/// Two closeness centralities of one graph from the same sources are the
/// same: the scores depend on the graph and on the set of sources alone,
/// not on the order in which the searches end.
pub proof fn lemma_closeness_centrality_is_determined(
    first: Map<u32, Ratio>,
    second: Map<u32, Ratio>,
    g: Map<u32, Seq<u32>>,
    sources: Seq<u32>,
    other_sources: Seq<u32>,
)
    requires
        is_closeness_centrality(first, g, sources),
        is_closeness_centrality(second, g, other_sources),
        sources.to_set() == other_sources.to_set(),
    ensures
        first == second,
{
    assert forall|s: u32| first.contains_key(s) implies first[s] == second[s] by {
        assert(is_closeness_of(first[s], g, s));
        assert(is_closeness_of(second[s], g, s));
    }
    assert(first =~= second);
}

/// The closeness of each of the given sources; the searches run in
/// parallel, one per source. A source that reaches no other node scores
/// zero, and so does every source where the graph has one node.
pub fn closeness_centrality_of(graph: &HashMap<u32, Vec<u32>>, sources: &Vec<u32>) -> (scores:
    HashMap<u32, Ratio>)
    ensures
        is_closeness_centrality(scores@, adjacency(graph), sources@),
{
    broadcast use group_hash_axioms;

    let ghost g = adjacency(graph);
    let node_count: usize = graph.len();
    let others: usize = if node_count >= 1 {
        node_count - 1
    } else {
        0
    };
    proof {
        assert(g.dom() =~= graph@.dom());
    }
    let reaches = measure_reach_in_parallel(graph, sources);
    let mut scores: HashMap<u32, Ratio> = HashMap::new();
    let mut i: usize = 0;
    while i < sources.len()
        invariant
            g == adjacency(graph),
            others == other_nodes(g),
            reaches@.dom() == sources@.to_set(),
            forall|s: u32| #[trigger]
                reaches@.contains_key(s) ==> reaches@[s].total_distance == total_distance(g, s),
            0 <= i <= sources@.len(),
            scores@.dom() == sources@.take(i as int).to_set(),
            forall|s: u32| #[trigger] scores@.contains_key(s) ==> is_closeness_of(scores@[s], g, s),
        decreases sources@.len() - i,
    {
        let s: u32 = sources[i];
        assert(sources@.to_set().contains(s));
        let reach = reaches.get(&s);
        let total: u64 = reach.unwrap().total_distance;
        scores.insert(s, Ratio { numerator: others as u128, denominator: total as u128 });
        proof {
            assert(sources@.take(i + 1) =~= sources@.take(i as int).push(s));
            sources@.take(i as int).lemma_push_to_set_commute(s);
        }
        i += 1;
    }
    proof {
        assert(sources@.take(i as int) =~= sources@);
    }
    scores
}

/// The closeness of the first `sample_size` nodes of `graph` in iteration
/// order, of all of them where the graph has no more. Only sampled nodes
/// receive a score.
pub fn calculate_closeness_centrality_parallel(
    graph: &HashMap<u32, Vec<u32>>,
    sample_size: usize,
) -> (scores: HashMap<u32, Ratio>)
    ensures
        is_closeness_centrality(scores@, adjacency(graph), sample_of(graph, sample_size)),
{
    let sample = sample_nodes(graph, sample_size);
    closeness_centrality_of(graph, &sample)
}

/// The shortest paths from one source: the search that found them and, for
/// every node found, its predecessors, the nodes from which a shortest path
/// makes its last hop to it.
pub struct ShortestPaths {
    pub found: Traversal,
    pub predecessors: HashMap<u32, Vec<u32>>,
}

/// `v` as often as `count` says.
pub open spec fn repeated(v: u32, count: nat) -> Seq<u32> {
    Seq::new(count, |i: int| v)
}

/// How often `v` lists `w` as a neighbour, where `w` lies one hop beyond
/// `v`; zero where it does not.
pub open spec fn hops_into(g: Map<u32, Seq<u32>>, dist: Map<u32, usize>, v: u32, w: u32) -> nat {
    if g.contains_key(v) && dist.contains_key(v) && dist.contains_key(w) && dist[w] == dist[v]
        + 1 {
        count_of(g[v], w)
    } else {
        0
    }
}

/// The predecessors of `w` among the nodes of `expanded`, in their order;
/// each stands as often as it lists `w`.
pub open spec fn predecessors_among(
    g: Map<u32, Seq<u32>>,
    dist: Map<u32, usize>,
    expanded: Seq<u32>,
    w: u32,
) -> Seq<u32>
    decreases expanded.len(),
{
    if expanded.len() == 0 {
        Seq::empty()
    } else {
        predecessors_among(g, dist, expanded.drop_last(), w) + repeated(
            expanded.last(),
            hops_into(g, dist, expanded.last(), w),
        )
    }
}

impl ShortestPaths {
    /// The search is one of `g` from `source`, and every node found has its
    /// predecessors, in the order in which the search expanded them.
    pub open spec fn is_shortest_paths_of(&self, g: Map<u32, Seq<u32>>, source: u32) -> bool {
        &&& self.found.is_search_of(g, source)
        &&& self.predecessors@.dom() == self.found.distance@.dom()
        &&& forall|w: u32| #[trigger]
            self.predecessors@.contains_key(w) ==> self.predecessors@[w]@ == predecessors_among(
                g,
                self.found.distance@,
                self.found.order@,
                w,
            )
    }
}

/// The predecessors of every discovered node while `v = order[i]` is being
/// expanded and the first `k` of its neighbours have been looked at.
spec fn predecessors_so_far(
    preds: Map<u32, Vec<u32>>,
    g: Map<u32, Seq<u32>>,
    dist: Map<u32, usize>,
    order: Seq<u32>,
    i: int,
    k: int,
) -> bool {
    &&& preds.dom() == dist.dom()
    &&& forall|w: u32| #[trigger]
        preds.contains_key(w) ==> preds[w]@ == predecessors_among(g, dist, order.take(i), w)
            + repeated(
            order[i],
            if dist[w] == dist[order[i]] + 1 {
                count_of(g[order[i]].take(k), w)
            } else {
                0
            },
        )
}

/// The shortest paths from `source`: a breadth-first search, and for every
/// node found the nodes from which a shortest path reaches it in one hop. A
/// node stands among the predecessors of `w` once for each time that it
/// lists `w`, and the predecessors stand in the order in which the search
/// expanded them.
pub fn shortest_paths_from(graph: &HashMap<u32, Vec<u32>>, source: u32) -> (paths: ShortestPaths)
    ensures
        paths.is_shortest_paths_of(adjacency(graph), source),
{
    broadcast use group_hash_axioms;

    let ghost g = adjacency(graph);
    let found = breadth_first_search(graph, source);
    let ghost dist = found.distance@;
    let ghost order = found.order@;
    let mut predecessors: HashMap<u32, Vec<u32>> = HashMap::new();
    let mut i: usize = 0;
    while i < found.order.len()
        invariant
            order == found.order@,
            0 <= i <= order.len(),
            predecessors@.dom() == order.take(i as int).to_set(),
            forall|w: u32| #[trigger]
                predecessors@.contains_key(w) ==> predecessors@[w]@.len() == 0,
        decreases order.len() - i,
    {
        let n: u32 = found.order[i];
        predecessors.insert(n, Vec::new());
        proof {
            assert(order.take(i + 1) =~= order.take(i as int).push(n));
            order.take(i as int).lemma_push_to_set_commute(n);
        }
        i += 1;
    }
    proof {
        assert(order.take(i as int) =~= order);
        assert(predecessors@.dom() =~= dist.dom()) by {
            assert forall|n: u32| predecessors@.contains_key(n) <==> dist.contains_key(n) by {
                assert(order.to_set().contains(n) <==> order.contains(n));
            }
        }
        assert(order.take(0) =~= Seq::<u32>::empty());
        assert forall|w: u32| #[trigger]
                        predecessors@.contains_key(w) implies predecessors@[w]@
            == predecessors_among(g, dist, order.take(0), w) by {
            assert(predecessors@[w]@ =~= Seq::<u32>::empty());
        }
    }
    let mut i: usize = 0;
    while i < found.order.len()
        invariant
            g == adjacency(graph),
            dist == found.distance@,
            order == found.order@,
            found.is_search_of(g, source),
            0 <= i <= order.len(),
            predecessors@.dom() == dist.dom(),
            forall|w: u32| #[trigger]
                predecessors@.contains_key(w) ==> predecessors@[w]@ == predecessors_among(
                    g,
                    dist,
                    order.take(i as int),
                    w,
                ),
        decreases order.len() - i,
    {
        let v: u32 = found.order[i];
        assert(order.contains(v));
        let reached: Option<&usize> = found.distance.get(&v);
        let dv: usize = *reached.unwrap();
        assert(dist[order[i as int]] <= i);
        proof {
            assert(order.take(i + 1).drop_last() =~= order.take(i as int));
        }
        match graph.get(&v) {
            Some(neighbors) => {
                let mut k: usize = 0;
                proof {
                    assert(neighbors@.take(0) =~= Seq::<u32>::empty());
                    assert forall|w: u32| #[trigger]
                        predecessors@.contains_key(w) implies predecessors@[w]@
                        == predecessors_among(g, dist, order.take(i as int), w) + repeated(
                        v,
                        0,
                    ) by {
                        assert(repeated(v, 0) =~= Seq::<u32>::empty());
                        assert(predecessors@[w]@ + Seq::<u32>::empty() =~= predecessors@[w]@);
                    }
                }
                while k < neighbors.len()
                    invariant
                        g == adjacency(graph),
                        dist == found.distance@,
                        order == found.order@,
                        found.is_search_of(g, source),
                        0 <= i < order.len(),
                        v == order[i as int],
                        dist.contains_key(v),
                        dv == dist[v],
                        dv < order.len(),
                        g.contains_key(v),
                        g[v] == neighbors@,
                        0 <= k <= neighbors@.len(),
                        predecessors_so_far(predecessors@, g, dist, order, i as int, k as int),
                    decreases neighbors@.len() - k,
                {
                    let w: u32 = neighbors[k];
                    proof {
                        assert(g[v][k as int] == w);
                        assert(has_edge(g, v, w));
                        let p = choose|p: Seq<u32>| is_walk(g, source, v, p);
                        lemma_walk_extends(g, source, v, p, w);
                        assert(reachable(g, source, w));
                        assert(neighbors@.take(k + 1) =~= neighbors@.take(k as int).push(w));
                        assert forall|x: u32|
                            count_of(neighbors@.take(k + 1), x) == count_of(
                                neighbors@.take(k as int),
                                x,
                            ) + if w == x {
                                1nat
                            } else {
                                0nat
                            } by {
                            lemma_count_push(neighbors@.take(k as int), w, x);
                        }
                    }
                    let beyond: Option<&usize> = found.distance.get(&w);
                    let dw: usize = *beyond.unwrap();
                    assert(dv < found.order.len());
                    if dw == dv + 1 {
                        let ghost before = predecessors@;
                        let held: Option<Vec<u32>> = predecessors.remove(&w);
                        let mut list: Vec<u32> = held.unwrap();
                        list.push(v);
                        predecessors.insert(w, list);
                        proof {
                            let base = predecessors_among(g, dist, order.take(i as int), w);
                            let c = count_of(neighbors@.take(k as int), w);
                            assert(repeated(v, c).push(v) =~= repeated(v, c + 1));
                            assert((base + repeated(v, c)).push(v) =~= base + repeated(v, c + 1));
                            assert(predecessors@.dom() =~= before.dom());
                        }
                    }
                    k += 1;
                }
                proof {
                    assert(neighbors@.take(k as int) =~= neighbors@);
                    assert forall|w: u32| #[trigger]
                        predecessors@.contains_key(w) implies predecessors@[w]@
                        == predecessors_among(g, dist, order.take(i + 1), w) by {}
                }
            },
            None => {
                proof {
                    assert forall|w: u32| #[trigger]
                        predecessors@.contains_key(w) implies predecessors@[w]@
                        == predecessors_among(g, dist, order.take(i + 1), w) by {
                        assert(repeated(v, 0) =~= Seq::<u32>::empty());
                        assert(predecessors@[w]@ + Seq::<u32>::empty() =~= predecessors@[w]@);
                    }
                }
            },
        }
        i += 1;
    }
    proof {
        assert(order.take(i as int) =~= order);
    }
    ShortestPaths { found, predecessors }
}

/// Two computations of the shortest paths of one graph from one source are
/// the same: the same search, and the same predecessors in the same order.
pub proof fn lemma_shortest_paths_are_determined(
    first: ShortestPaths,
    second: ShortestPaths,
    g: Map<u32, Seq<u32>>,
    source: u32,
)
    requires
        first.is_shortest_paths_of(g, source),
        second.is_shortest_paths_of(g, source),
    ensures
        first.found.order@ == second.found.order@,
        first.found.distance@ == second.found.distance@,
        first.predecessors@.dom() == second.predecessors@.dom(),
        forall|w: u32| #[trigger]
            first.predecessors@.contains_key(w) ==> first.predecessors@[w]@
                == second.predecessors@[w]@,
{
    lemma_search_is_determined(first.found, second.found, g, source);
}

/// Counting how often `v` lists `w` counts exactly the edges from `v` to
/// `w` that lead one hop on.
pub proof fn lemma_hops_follow_edges(
    g: Map<u32, Seq<u32>>,
    dist: Map<u32, usize>,
    v: u32,
    w: u32,
)
    ensures
        hops_into(g, dist, v, w) > 0 <==> has_edge(g, v, w) && dist.contains_key(v)
            && dist.contains_key(w) && dist[w] == dist[v] + 1,
{
    if g.contains_key(v) {
        lemma_counted_iff_contained(g[v], w);
    }
}

/// A node is a predecessor of `w` exactly where it was expanded and an edge
/// leads from it to `w`, one hop on.
pub proof fn lemma_predecessors_are_last_hops(
    g: Map<u32, Seq<u32>>,
    dist: Map<u32, usize>,
    expanded: Seq<u32>,
    w: u32,
    v: u32,
)
    ensures
        predecessors_among(g, dist, expanded, w).contains(v) <==> expanded.contains(v)
            && hops_into(g, dist, v, w) > 0,
    decreases expanded.len(),
{
    if expanded.len() > 0 {
        let before = expanded.drop_last();
        let last = expanded.last();
        let earlier = predecessors_among(g, dist, before, w);
        let added = repeated(last, hops_into(g, dist, last, w));
        let all = predecessors_among(g, dist, expanded, w);
        lemma_predecessors_are_last_hops(g, dist, before, w, v);
        if all.contains(v) {
            let k = choose|k: int| 0 <= k < all.len() && all[k] == v;
            if k < earlier.len() {
                assert(earlier[k] == v);
                let j = choose|j: int| 0 <= j < before.len() && before[j] == v;
                assert(expanded[j] == v);
            } else {
                assert(added[k - earlier.len()] == v);
                assert(expanded[expanded.len() - 1] == v);
            }
        }
        if expanded.contains(v) && hops_into(g, dist, v, w) > 0 {
            if v == last {
                assert(added[0] == v);
                assert(all[earlier.len() as int] == v);
            } else {
                let j = choose|j: int| 0 <= j < expanded.len() && expanded[j] == v;
                assert(before[j] == v);
                let k = choose|k: int| 0 <= k < earlier.len() && earlier[k] == v;
                assert(all[k] == v);
            }
        }
    }
}

} // verus!
