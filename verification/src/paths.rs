//! Walks, reachability and hop distance in the model of a graph.

use crate::sums::{
    lemma_node_sets_are_finite, lemma_sum_over_bounds_term, lemma_sum_over_empty,
    lemma_sum_over_insert, sum_over,
};
use vstd::prelude::*;

verus! {

/// `a` lists `b` among its neighbours.
pub open spec fn has_edge(g: Map<u32, Seq<u32>>, a: u32, b: u32) -> bool {
    g.contains_key(a) && g[a].contains(b)
}

/// The step of `p` that leaves position `i` follows an edge.
pub open spec fn walk_step(g: Map<u32, Seq<u32>>, p: Seq<u32>, i: int) -> bool {
    has_edge(g, p[i], p[i + 1])
}

/// `p` is a walk from `s` to `t`: it is not empty, starts at `s`, ends at `t`,
/// and each of its steps follows an edge.
pub open spec fn is_walk(g: Map<u32, Seq<u32>>, s: u32, t: u32, p: Seq<u32>) -> bool {
    &&& p.len() >= 1
    &&& p[0] == s
    &&& p[p.len() - 1] == t
    &&& forall|i: int| 0 <= i < p.len() - 1 ==> #[trigger] walk_step(g, p, i)
}

/// Some walk leads from `s` to `t`.
pub open spec fn reachable(g: Map<u32, Seq<u32>>, s: u32, t: u32) -> bool {
    exists|p: Seq<u32>| is_walk(g, s, t, p)
}

/// `d` is the least number of hops of any walk from `s` to `t`.
pub open spec fn is_distance(g: Map<u32, Seq<u32>>, s: u32, t: u32, d: nat) -> bool {
    &&& exists|p: Seq<u32>| is_walk(g, s, t, p) && p.len() == d + 1
    &&& forall|p: Seq<u32>| is_walk(g, s, t, p) ==> p.len() >= d + 1
}

/// The least number of hops from `s` to `t`, where `t` can be reached.
pub open spec fn hop_distance(g: Map<u32, Seq<u32>>, s: u32, t: u32) -> nat {
    choose|d: nat| is_distance(g, s, t, d)
}

/// The nodes that can be reached from `s`; `s` is one of them.
pub open spec fn reachable_set(g: Map<u32, Seq<u32>>, s: u32) -> Set<u32> {
    Set::new(|t: u32| reachable(g, s, t))
}

/// The hop distance from `s`, as a function of the node reached.
pub open spec fn hops_from(g: Map<u32, Seq<u32>>, s: u32) -> spec_fn(u32) -> nat {
    |t: u32| hop_distance(g, s, t)
}

/// The sum of the hop distances from `s` to every node that it reaches.
pub open spec fn total_distance(g: Map<u32, Seq<u32>>, s: u32) -> nat {
    sum_over(reachable_set(g, s), hops_from(g, s))
}

/// The number of nodes other than `s` that `s` reaches.
pub open spec fn others_reached(g: Map<u32, Seq<u32>>, s: u32) -> nat {
    (reachable_set(g, s).len() - 1) as nat
}

/// Every node reaches itself, in no hops.
pub proof fn lemma_start_is_reachable(g: Map<u32, Seq<u32>>, s: u32)
    ensures
        reachable(g, s, s),
        is_distance(g, s, s, 0),
        hop_distance(g, s, s) == 0,
{
    let p = seq![s];
    assert(is_walk(g, s, s, p));
    lemma_distance_is_unique(g, s, s, 0, hop_distance(g, s, s));
}

/// A pair of nodes has at most one distance.
pub proof fn lemma_distance_is_unique(g: Map<u32, Seq<u32>>, s: u32, t: u32, d1: nat, d2: nat)
    requires
        is_distance(g, s, t, d1),
    ensures
        is_distance(g, s, t, d2) ==> d1 == d2,
        hop_distance(g, s, t) == d1,
{
}

/// Where some walk from `s` to `t` has `n` hops, the two have a distance.
proof fn lemma_some_walk_is_shortest(g: Map<u32, Seq<u32>>, s: u32, t: u32, n: nat)
    requires
        exists|p: Seq<u32>| is_walk(g, s, t, p) && p.len() == n + 1,
    ensures
        exists|d: nat| is_distance(g, s, t, d),
    decreases n,
{
    if exists|q: Seq<u32>| is_walk(g, s, t, q) && q.len() < n + 1 {
        let q = choose|q: Seq<u32>| is_walk(g, s, t, q) && q.len() < n + 1;
        lemma_some_walk_is_shortest(g, s, t, (q.len() - 1) as nat);
    } else {
        assert(is_distance(g, s, t, n));
    }
}

/// A node that can be reached has a hop distance, and `hop_distance` is it.
pub proof fn lemma_reachable_has_distance(g: Map<u32, Seq<u32>>, s: u32, t: u32)
    requires
        reachable(g, s, t),
    ensures
        is_distance(g, s, t, hop_distance(g, s, t)),
        t != s ==> hop_distance(g, s, t) >= 1,
{
    let p = choose|p: Seq<u32>| is_walk(g, s, t, p);
    lemma_some_walk_is_shortest(g, s, t, (p.len() - 1) as nat);
    let d = hop_distance(g, s, t);
    let q = choose|q: Seq<u32>| is_walk(g, s, t, q) && q.len() == d + 1;
    if t != s {
        assert(q.len() >= 2);
    }
}

/// `s` reaches no node but itself.
pub open spec fn is_isolated(g: Map<u32, Seq<u32>>, s: u32) -> bool {
    forall|t: u32| reachable(g, s, t) ==> t == s
}

/// The total distance from `s` is zero exactly where `s` is isolated.
pub proof fn lemma_total_distance_of_isolated(g: Map<u32, Seq<u32>>, s: u32)
    ensures
        total_distance(g, s) == 0 <==> is_isolated(g, s),
{
    let reached = reachable_set(g, s);
    let hops = hops_from(g, s);
    lemma_node_sets_are_finite(reached);
    lemma_start_is_reachable(g, s);
    if is_isolated(g, s) {
        assert(reached =~= Set::<u32>::empty().insert(s));
        lemma_sum_over_empty(hops);
        lemma_sum_over_insert(Set::<u32>::empty(), hops, s);
    } else {
        let t = choose|t: u32| reachable(g, s, t) && t != s;
        lemma_reachable_has_distance(g, s, t);
        assert(reached.contains(t));
        lemma_sum_over_bounds_term(reached, hops, t);
    }
}

/// A walk grows by one edge at its end.
pub proof fn lemma_walk_extends(g: Map<u32, Seq<u32>>, s: u32, t: u32, p: Seq<u32>, w: u32)
    requires
        is_walk(g, s, t, p),
        has_edge(g, t, w),
    ensures
        is_walk(g, s, w, p.push(w)),
{
    let q = p.push(w);
    assert forall|i: int| 0 <= i < q.len() - 1 implies #[trigger] walk_step(g, q, i) by {
        if i < p.len() - 1 {
            assert(walk_step(g, p, i));
        }
    }
}

} // verus!
