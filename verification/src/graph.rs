//! The adjacency structure shared by every analysis, and its mathematical model.

use crate::keys::{all_keys, first_keys, key_order};
use crate::paths::has_edge;
use crate::sums::{lemma_sum_along_distinct, lemma_sum_along_push, sum_along, sum_over};
use std::collections::HashMap;
use vstd::prelude::*;
use vstd::std_specs::hash::*;

verus! {

/// The model of a graph: each node with the sequence of its neighbours.
pub open spec fn adjacency(graph: &HashMap<u32, Vec<u32>>) -> Map<u32, Seq<u32>> {
    Map::new(|n: u32| graph@.contains_key(n), |n: u32| graph@[n]@)
}

/// The order in which the nodes of `graph` are met when its keys are walked.
pub open spec fn iteration_order(graph: &HashMap<u32, Vec<u32>>) -> Seq<u32> {
    key_order(graph)
}

/// The nodes of the graph, in iteration order: every node exactly once.
pub fn nodes(graph: &HashMap<u32, Vec<u32>>) -> (all: Vec<u32>)
    ensures
        all@ == iteration_order(graph),
        all@.no_duplicates(),
        all@.to_set() == adjacency(graph).dom(),
        all@.len() == adjacency(graph).dom().len(),
{
    broadcast use group_hash_axioms;

    proof {
        assert(adjacency(graph).dom() =~= graph@.dom());
    }
    all_keys(graph)
}

/// The first `sample_size` nodes in iteration order, or all of them where
/// the graph has fewer.
pub open spec fn sample_of(graph: &HashMap<u32, Vec<u32>>, sample_size: usize) -> Seq<u32> {
    let order = iteration_order(graph);
    if sample_size <= order.len() {
        order.take(sample_size as int)
    } else {
        order
    }
}

/// Picks the nodes from which a sampled analysis starts: the first
/// `sample_size` nodes in iteration order, all of them where the graph has
/// no more. Which nodes come first is a matter of the map, not of chance.
pub fn sample_nodes(graph: &HashMap<u32, Vec<u32>>, sample_size: usize) -> (sample: Vec<u32>)
    ensures
        sample@ == sample_of(graph, sample_size),
        sample@.no_duplicates(),
        forall|i: int|
            0 <= i < sample@.len() ==> adjacency(graph).contains_key(#[trigger] sample@[i]),
        sample@.len() <= adjacency(graph).dom().len(),
        sample@.len() == sample_size || sample@.len() == adjacency(graph).dom().len(),
{
    broadcast use group_hash_axioms;

    let sample = first_keys(graph, sample_size);
    proof {
        let order = iteration_order(graph);
        assert(adjacency(graph).dom() =~= graph@.dom());
        assert(order.take(order.len() as int) =~= order);
        assert forall|i: int| 0 <= i < sample@.len() implies adjacency(graph).contains_key(
            #[trigger] sample@[i],
        ) by {
            assert(order[i] == sample@[i]);
            assert(order.to_set().contains(order[i]));
        }
    }
    sample
}

/// The length of the neighbour sequence of a node of `g`, as a function of
/// the node.
pub open spec fn degree_in(g: Map<u32, Seq<u32>>) -> spec_fn(u32) -> nat {
    |n: u32| g[n].len()
}

/// The sum of the lengths of all neighbour sequences of `g`: the number of
/// half-edges that it stores.
pub open spec fn degree_sum(g: Map<u32, Seq<u32>>) -> nat {
    sum_over(g.dom(), degree_in(g))
}

/// The size of `graph`: the number of its nodes, and the number of its
/// edges, which is half the number of half-edges that it stores.
pub fn get_graph_info(graph: &HashMap<u32, Vec<u32>>) -> (info: (usize, u128))
    ensures
        info.0 == adjacency(graph).dom().len(),
        info.1 == degree_sum(adjacency(graph)) / 2,
{
    broadcast use group_hash_axioms;

    let ghost g = adjacency(graph);
    let all = nodes(graph);
    let mut half_edges: u128 = 0;
    let mut i: usize = 0;
    proof {
        assert(all@.take(0) =~= Seq::<u32>::empty());
    }
    while i < all.len()
        invariant
            g == adjacency(graph),
            all@.to_set() == g.dom(),
            0 <= i <= all@.len(),
            half_edges == sum_along(all@.take(i as int), degree_in(g)),
            half_edges <= i * 0xffff_ffff_ffff_ffff,
        decreases all@.len() - i,
    {
        let n: u32 = all[i];
        assert(all@.to_set().contains(n));
        let neighbors: Option<&Vec<u32>> = graph.get(&n);
        let degree: usize = neighbors.unwrap().len();
        proof {
            assert(all@.take(i + 1) =~= all@.take(i as int).push(n));
            lemma_sum_along_push(all@.take(i as int), degree_in(g), n);
            assert(i * 0xffff_ffff_ffff_ffff + 0xffff_ffff_ffff_ffff <= u128::MAX)
                by (nonlinear_arith)
                requires
                    i < 0xffff_ffff_ffff_ffff,
            ;
        }
        half_edges = half_edges + degree as u128;
        i += 1;
    }
    proof {
        assert(all@.take(i as int) =~= all@);
        lemma_sum_along_distinct(all@, degree_in(g));
    }
    (all.len(), half_edges / 2)
}

/// Every edge is stored in both directions: a node that lists a neighbour is
/// listed by it.
pub open spec fn is_symmetric(g: Map<u32, Seq<u32>>) -> bool {
    forall|a: u32, b: u32| #[trigger] has_edge(g, a, b) ==> has_edge(g, b, a)
}

/// The neighbour sequence of `n` in `g`, empty where `n` is no node.
pub open spec fn neighbors_of(g: Map<u32, Seq<u32>>, n: u32) -> Seq<u32> {
    if g.contains_key(n) {
        g[n]
    } else {
        Seq::empty()
    }
}

/// `g` with `b` added at the end of the neighbours of `a`.
pub open spec fn with_neighbor(g: Map<u32, Seq<u32>>, a: u32, b: u32) -> Map<u32, Seq<u32>> {
    g.insert(a, neighbors_of(g, a).push(b))
}

/// `g` with the undirected edge between `a` and `b` added: `b` at the end of
/// the neighbours of `a`, then `a` at the end of those of `b`.
pub open spec fn with_edge(g: Map<u32, Seq<u32>>, a: u32, b: u32) -> Map<u32, Seq<u32>> {
    with_neighbor(with_neighbor(g, a, b), b, a)
}

/// Appends `neighbor` to the neighbours of `node`, which becomes a node
/// where it was none.
fn add_neighbor(graph: &mut HashMap<u32, Vec<u32>>, node: u32, neighbor: u32)
    ensures
        adjacency(final(graph)) == with_neighbor(adjacency(old(graph)), node, neighbor),
{
    broadcast use group_hash_axioms;

    let ghost before = adjacency(graph);
    let mut list: Vec<u32> = match graph.remove(&node) {
        Some(list) => list,
        None => Vec::new(),
    };
    list.push(neighbor);
    graph.insert(node, list);
    proof {
        assert(adjacency(graph) =~= with_neighbor(before, node, neighbor));
    }
}

/// Adds the undirected edge between `a` and `b`: each becomes the last
/// neighbour of the other. An edge that is added twice is stored twice.
pub fn add_edge(graph: &mut HashMap<u32, Vec<u32>>, a: u32, b: u32)
    ensures
        adjacency(final(graph)) == with_edge(adjacency(old(graph)), a, b),
{
    add_neighbor(graph, a, b);
    add_neighbor(graph, b, a);
}

/// Adding an edge keeps a symmetric graph symmetric.
pub proof fn lemma_edge_keeps_symmetry(g: Map<u32, Seq<u32>>, a: u32, b: u32)
    requires
        is_symmetric(g),
    ensures
        is_symmetric(with_edge(g, a, b)),
{
    let mid = with_neighbor(g, a, b);
    let end = with_edge(g, a, b);
    assert(mid[a].last() == b);
    assert(end[b].last() == a);
    assert(has_edge(end, b, a));
    assert(has_edge(end, a, b)) by {
        if a == b {
        } else {
            assert(end[a] == mid[a]);
            assert(mid[a][mid[a].len() - 1] == b);
        }
    }
    assert forall|x: u32, y: u32| #[trigger] has_edge(end, x, y) implies has_edge(end, y, x) by {
        if (x == a && y == b) || (x == b && y == a) {
        } else {
            // the edge was there before
            let k = choose|k: int| 0 <= k < end[x].len() && end[x][k] == y;
            assert(has_edge(g, x, y)) by {
                if x == b {
                    assert(end[x] == neighbors_of(mid, b).push(a));
                    assert(k < neighbors_of(mid, b).len());
                    if a == b {
                        assert(mid[b] == neighbors_of(g, a).push(b));
                        assert(k < neighbors_of(g, a).len());
                        assert(g[x][k] == y);
                    } else {
                        assert(neighbors_of(mid, b) == neighbors_of(g, b));
                        assert(g[x][k] == y);
                    }
                } else if x == a {
                    assert(end[x] == neighbors_of(g, a).push(b));
                    assert(k < neighbors_of(g, a).len());
                    assert(g[x][k] == y);
                } else {
                    assert(end[x] == g[x]);
                    assert(g[x][k] == y);
                }
            }
            assert(has_edge(g, y, x));
            let j = choose|j: int| 0 <= j < g[y].len() && g[y][j] == x;
            assert(end.contains_key(y));
            assert(end[y][j] == x) by {
                if y == b {
                    if a == b {
                        assert(end[y] == neighbors_of(g, a).push(b).push(a));
                    } else {
                        assert(end[y] == neighbors_of(g, b).push(a));
                    }
                } else if y == a {
                    assert(end[y] == neighbors_of(g, a).push(b));
                } else {
                    assert(end[y] == g[y]);
                }
            }
        }
    }
}

} // verus!
