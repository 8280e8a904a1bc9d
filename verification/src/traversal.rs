//! Breadth-first search from one node: the primitive under the path-length
//! estimate and the closeness and betweenness scores.

use crate::graph::adjacency;
use crate::paths::{
    has_edge, hops_from, is_distance, is_walk, lemma_distance_is_unique, lemma_walk_extends,
    others_reached, reachable, reachable_set, total_distance, walk_step,
};
use crate::sums::{
    lemma_sum_along_agrees, lemma_sum_along_distinct, lemma_sum_along_push, sum_along,
};
use std::collections::HashMap;
use vstd::prelude::*;
use vstd::std_specs::hash::*;

verus! {

/// What one search found: the nodes in the order in which they were
/// discovered, and the hop count of each.
pub struct Traversal {
    pub order: Vec<u32>,
    pub distance: HashMap<u32, usize>,
}

/// The search met `w` for the first time at place `k` among the neighbours
/// of the node at position `p` of `order`: no node before that one lists
/// `w`, and that one does not list it before place `k`.
pub open spec fn discovered_at(
    g: Map<u32, Seq<u32>>,
    order: Seq<u32>,
    w: u32,
    p: int,
    k: int,
) -> bool {
    &&& 0 <= p < order.len()
    &&& g.contains_key(order[p])
    &&& 0 <= k < g[order[p]].len()
    &&& g[order[p]][k] == w
    &&& forall|m: int| 0 <= m < k ==> g[order[p]][m] != w
    &&& forall|q: int| 0 <= q < p ==> !#[trigger] has_edge(g, order[q], w)
}

/// The node at position `j` of `order` was discovered from a node that
/// stands before it.
pub open spec fn discovered_from_earlier(g: Map<u32, Seq<u32>>, order: Seq<u32>, j: int) -> bool {
    exists|p: int, k: int| p < j && #[trigger] discovered_at(g, order, order[j], p, k)
}

/// Every node after the first was discovered from a node that stands before
/// it, and the nodes stand in the order of their discovery: by the position
/// of the node they were discovered from, then by their place among its
/// neighbours. This is the order in which a first-in-first-out frontier
/// hands the nodes out.
pub open spec fn in_discovery_order(g: Map<u32, Seq<u32>>, order: Seq<u32>) -> bool {
    &&& forall|j: int| 1 <= j < order.len() ==> #[trigger] discovered_from_earlier(g, order, j)
    &&& forall|i: int, j: int, pi: int, ki: int, pj: int, kj: int|
        1 <= i < j < order.len() && #[trigger] discovered_at(g, order, order[i], pi, ki)
            && #[trigger] discovered_at(g, order, order[j], pj, kj) ==> pi < pj || (pi == pj
            && ki < kj)
}

impl Traversal {
    /// The order starts with the node the search began at, which has
    /// distance 0, and lists each discovered node once; each of them has a
    /// distance, no greater than its position, and the distances never fall
    /// along the order.
    pub open spec fn well_formed(&self) -> bool {
        &&& self.order@.len() >= 1
        &&& self.order@.no_duplicates()
        &&& forall|n: u32| self.distance@.contains_key(n) <==> self.order@.contains(n)
        &&& self.distance@[self.order@[0]] == 0
        &&& forall|i: int, j: int|
            0 <= i <= j < self.order@.len() ==> self.distance@[#[trigger] self.order@[i]]
                <= self.distance@[#[trigger] self.order@[j]]
        &&& forall|i: int|
            0 <= i < self.order@.len() ==> self.distance@[#[trigger] self.order@[i]] <= i
    }

    /// The search found exactly the nodes that `start` reaches in `g`, each
    /// with its least number of hops, and lists them in the order of their
    /// discovery.
    pub open spec fn is_search_of(&self, g: Map<u32, Seq<u32>>, start: u32) -> bool {
        &&& self.well_formed()
        &&& self.order@[0] == start
        &&& in_discovery_order(g, self.order@)
        &&& forall|n: u32| self.distance@.contains_key(n) <==> reachable(g, start, n)
        &&& forall|n: u32| #[trigger]
            self.distance@.contains_key(n) ==> is_distance(g, start, n, self.distance@[n] as nat)
    }
}

/// How far a node reaches: how many other nodes, and the sum of its hop
/// distances to them.
#[derive(Clone, Copy, Debug, PartialEq, Eq, Structural)]
pub struct Reach {
    pub others: u64,
    pub total_distance: u64,
}

/// Every neighbour of `v` has a distance, at most one hop beyond that of `v`.
spec fn settled(g: Map<u32, Seq<u32>>, dist: Map<u32, usize>, v: u32) -> bool {
    g.contains_key(v) ==> forall|k: int|
        0 <= k < g[v].len() ==> dist.contains_key(#[trigger] g[v][k]) && dist[g[v][k]] <= dist[v]
            + 1
}

/// What holds of a search in progress, but for the witness walks:
/// `order[..head]` has been expanded and `order[head..]` is the frontier.
spec fn frontier_invariant(
    g: Map<u32, Seq<u32>>,
    start: u32,
    order: Seq<u32>,
    dist: Map<u32, usize>,
    head: int,
) -> bool {
    &&& 0 <= head <= order.len()
    &&& order.len() >= 1
    &&& order[0] == start
    &&& order.no_duplicates()
    &&& forall|n: u32| dist.contains_key(n) <==> order.contains(n)
    &&& dist[start] == 0
    &&& forall|i: int, j: int|
        0 <= i <= j < order.len() ==> dist[#[trigger] order[i]] <= dist[#[trigger] order[j]]
    &&& forall|i: int| 0 <= i < order.len() ==> dist[#[trigger] order[i]] <= i
    &&& head < order.len() ==> dist[order[order.len() - 1]] <= dist[order[head]] + 1
    &&& forall|i: int| 0 <= i < head ==> settled(g, dist, #[trigger] order[i])
}

/// `walks` holds, for every discovered node, a walk to it of as many hops as
/// its distance.
spec fn witnessed(
    g: Map<u32, Seq<u32>>,
    start: u32,
    dist: Map<u32, usize>,
    walks: Map<u32, Seq<u32>>,
) -> bool {
    forall|n: u32| #[trigger]
        dist.contains_key(n) ==> is_walk(g, start, n, walks[n]) && walks[n].len() == dist[n] + 1
}

/// What holds of a search in progress.
spec fn search_invariant(
    g: Map<u32, Seq<u32>>,
    start: u32,
    order: Seq<u32>,
    dist: Map<u32, usize>,
    walks: Map<u32, Seq<u32>>,
    head: int,
) -> bool {
    &&& frontier_invariant(g, start, order, dist, head)
    &&& witnessed(g, start, dist, walks)
}

/// The first of two discoveries comes before the second.
spec fn comes_before(first: (int, int), second: (int, int)) -> bool {
    first.0 < second.0 || (first.0 == second.0 && first.1 < second.1)
}

/// `origin` records where each node after the first was discovered; the
/// records rise along the order and all come before place `k` of the node
/// at position `head`.
spec fn origins_recorded(
    g: Map<u32, Seq<u32>>,
    order: Seq<u32>,
    origin: Map<u32, (int, int)>,
    head: int,
    k: int,
) -> bool {
    &&& forall|j: int|
        1 <= j < order.len() ==> {
            let from = origin[#[trigger] order[j]];
            &&& discovered_at(g, order, order[j], from.0, from.1)
            &&& from.0 < j
            &&& comes_before(from, (head, k))
        }
    &&& forall|i: int, j: int|
        1 <= i < j < order.len() ==> comes_before(
            origin[#[trigger] order[i]],
            origin[#[trigger] order[j]],
        )
}

/// A node is discovered at one place only.
proof fn lemma_discovery_is_unique(
    g: Map<u32, Seq<u32>>,
    order: Seq<u32>,
    w: u32,
    pa: int,
    ka: int,
    pb: int,
    kb: int,
)
    requires
        discovered_at(g, order, w, pa, ka),
        discovered_at(g, order, w, pb, kb),
    ensures
        pa == pb,
        ka == kb,
{
    if pa < pb {
        assert(has_edge(g, order[pa], w));
    } else if pb < pa {
        assert(has_edge(g, order[pb], w));
    }
}

/// The records stay good while the search moves on.
proof fn lemma_origins_advance(
    g: Map<u32, Seq<u32>>,
    order: Seq<u32>,
    origin: Map<u32, (int, int)>,
    head: int,
    k: int,
    next_head: int,
    next_k: int,
)
    requires
        origins_recorded(g, order, origin, head, k),
        comes_before((head, k), (next_head, next_k)),
    ensures
        origins_recorded(g, order, origin, next_head, next_k),
{
}

/// Recording the place of a discovery keeps the records good.
proof fn lemma_discovery_keeps_origins(
    g: Map<u32, Seq<u32>>,
    start: u32,
    order: Seq<u32>,
    dist: Map<u32, usize>,
    origin: Map<u32, (int, int)>,
    head: int,
    k: int,
    w: u32,
)
    requires
        frontier_invariant(g, start, order, dist, head),
        origins_recorded(g, order, origin, head, k),
        head < order.len(),
        !dist.contains_key(w),
        g.contains_key(order[head]),
        0 <= k < g[order[head]].len(),
        g[order[head]][k] == w,
        forall|m: int| 0 <= m < k ==> dist.contains_key(#[trigger] g[order[head]][m]),
    ensures
        origins_recorded(g, order.push(w), origin.insert(w, (head, k)), head, k + 1),
{
    let longer = order.push(w);
    let recorded = origin.insert(w, (head, k));
    assert(!order.contains(w));
    assert(discovered_at(g, longer, w, head, k)) by {
        assert forall|q: int| 0 <= q < head implies !#[trigger] has_edge(g, longer[q], w) by {
            assert(settled(g, dist, order[q]));
            if has_edge(g, order[q], w) {
                let m = choose|m: int| 0 <= m < g[order[q]].len() && g[order[q]][m] == w;
                assert(dist.contains_key(g[order[q]][m]));
            }
        }
    }
    assert forall|j: int| 1 <= j < longer.len() implies {
        let from = recorded[#[trigger] longer[j]];
        &&& discovered_at(g, longer, longer[j], from.0, from.1)
        &&& from.0 < j
        &&& comes_before(from, (head, k + 1))
    } by {
        if j < order.len() {
            assert(order.contains(order[j]));
            let from = origin[order[j]];
            assert(discovered_at(g, order, order[j], from.0, from.1));
            assert forall|q: int| 0 <= q < from.0 implies !#[trigger] has_edge(
                g,
                longer[q],
                longer[j],
            ) by {
                assert(!has_edge(g, order[q], order[j]));
            }
        }
    }
    assert forall|i: int, j: int| 1 <= i < j < longer.len() implies comes_before(
        recorded[#[trigger] longer[i]],
        recorded[#[trigger] longer[j]],
    ) by {
        assert(order.contains(order[i]));
        if j < order.len() {
            assert(order.contains(order[j]));
            assert(comes_before(origin[order[i]], origin[order[j]]));
        }
    }
}

/// Good records show that the nodes stand in the order of their discovery.
proof fn lemma_origins_give_order(
    g: Map<u32, Seq<u32>>,
    order: Seq<u32>,
    origin: Map<u32, (int, int)>,
    head: int,
    k: int,
)
    requires
        origins_recorded(g, order, origin, head, k),
    ensures
        in_discovery_order(g, order),
{
    assert forall|j: int| 1 <= j < order.len() implies #[trigger] discovered_from_earlier(
        g,
        order,
        j,
    ) by {
        let from = origin[order[j]];
        assert(discovered_at(g, order, order[j], from.0, from.1));
    }
    assert forall|i: int, j: int, pi: int, ki: int, pj: int, kj: int|
        1 <= i < j < order.len() && #[trigger] discovered_at(g, order, order[i], pi, ki)
            && #[trigger] discovered_at(g, order, order[j], pj, kj) implies pi < pj || (pi == pj
        && ki < kj) by {
        let a = origin[order[i]];
        let b = origin[order[j]];
        lemma_discovery_is_unique(g, order, order[i], pi, ki, a.0, a.1);
        lemma_discovery_is_unique(g, order, order[j], pj, kj, b.0, b.1);
        assert(comes_before(a, b));
    }
}

/// Where every discovered node is settled, each position of a walk from
/// `start` holds a discovered node whose distance is at most the position.
proof fn lemma_walk_stays_inside(
    g: Map<u32, Seq<u32>>,
    start: u32,
    order: Seq<u32>,
    dist: Map<u32, usize>,
    walks: Map<u32, Seq<u32>>,
    p: Seq<u32>,
    t: u32,
    i: int,
)
    requires
        search_invariant(g, start, order, dist, walks, order.len() as int),
        is_walk(g, start, t, p),
        0 <= i < p.len(),
    ensures
        dist.contains_key(p[i]),
        dist[p[i]] <= i,
    decreases i,
{
    if i == 0 {
        assert(order[0] == start);
        assert(order.contains(start));
    } else {
        lemma_walk_stays_inside(g, start, order, dist, walks, p, t, i - 1);
        let v = p[i - 1];
        assert(walk_step(g, p, i - 1));
        assert(order.contains(v));
        let j = choose|j: int| 0 <= j < order.len() && order[j] == v;
        assert(settled(g, dist, order[j]));
        let k = choose|k: int| 0 <= k < g[v].len() && g[v][k] == p[i];
        assert(dist.contains_key(g[v][k]));
    }
}

/// Discovering `w` from the node under expansion keeps the invariant.
proof fn lemma_discovery_keeps_invariant(
    g: Map<u32, Seq<u32>>,
    start: u32,
    order: Seq<u32>,
    dist: Map<u32, usize>,
    walks: Map<u32, Seq<u32>>,
    head: int,
    w: u32,
)
    requires
        head < order.len(),
        !dist.contains_key(w),
        dist[order[head]] + 1 <= usize::MAX,
        frontier_invariant(g, start, order, dist, head),
        witnessed(g, start, dist, walks),
        is_walk(g, start, w, walks[w]),
        walks[w].len() == dist[order[head]] + 2,
    ensures
        search_invariant(
            g,
            start,
            order.push(w),
            dist.insert(w, (dist[order[head]] + 1) as usize),
            walks,
            head,
        ),
{
    let d = (dist[order[head]] + 1) as usize;
    let order2 = order.push(w);
    let dist2 = dist.insert(w, d);
    assert(!order.contains(w));
    assert forall|n: u32| dist2.contains_key(n) <==> order2.contains(n) by {
        if order.contains(n) {
            let j = choose|j: int| 0 <= j < order.len() && order[j] == n;
            assert(order2[j] == n);
        }
        if n == w {
            assert(order2[order.len() as int] == w);
        }
    }
    assert forall|i: int, j: int| 0 <= i <= j < order2.len() implies dist2[#[trigger] order2[i]]
        <= dist2[#[trigger] order2[j]] by {
        if j < order.len() {
            assert(order.contains(order[i]));
            assert(order.contains(order[j]));
            assert(dist[order[i]] <= dist[order[j]]);
        } else if i < order.len() {
            assert(order.contains(order[i]));
            assert(dist[order[i]] <= dist[order[order.len() - 1]]);
        }
    }
    assert forall|i: int| 0 <= i < order2.len() implies dist2[#[trigger] order2[i]] <= i by {
        if i < order.len() {
            assert(order.contains(order[i]));
            assert(dist[order[i]] <= i);
        } else {
            assert(dist[order[head]] <= head);
        }
    }
    assert(order.contains(order[head]));
    assert(order.contains(start));
    assert forall|i: int| 0 <= i < head implies settled(g, dist2, #[trigger] order2[i]) by {
        assert(settled(g, dist, order[i]));
        assert(order.contains(order[i]));
    }
    assert(order2.no_duplicates());
}

/// A sequence of distinct node identifiers has at most 2^32 entries.
pub proof fn lemma_distinct_nodes_are_few(s: Seq<u32>)
    requires
        s.no_duplicates(),
    ensures
        s.len() <= 0x1_0000_0000,
{
    let all = Set::<u32>::full();
    let below = Set::<u32>::range(0u32, u32::MAX);
    vstd::set_lib::range_set_properties::<u32>(0u32, u32::MAX);
    assert(all =~= below.insert(u32::MAX));
    assert(all.finite());
    assert(all.len() == 0x1_0000_0000);
    s.unique_seq_to_set();
    assert(s.to_set().subset_of(all));
    vstd::set_lib::lemma_len_subset(s.to_set(), all);
}

/// Searches `graph` breadth first from `start`.
///
/// The result holds exactly the nodes that `start` reaches, `start` among
/// them with distance 0, each with the least number of hops of any walk to
/// it, in the order in which a first-in-first-out frontier discovers them:
/// layer by layer, and the distances never fall along the order. A node
/// that no walk reaches is absent. A neighbour that is no key of `graph` is
/// reached and has no neighbours of its own.
pub fn breadth_first_search(graph: &HashMap<u32, Vec<u32>>, start: u32) -> (found: Traversal)
    ensures
        found.is_search_of(adjacency(graph), start),
{
    broadcast use group_hash_axioms;

    let ghost g = adjacency(graph);
    let mut order: Vec<u32> = Vec::new();
    let mut distance: HashMap<u32, usize> = HashMap::new();
    order.push(start);
    distance.insert(start, 0);
    let ghost mut walks: Map<u32, Seq<u32>> = Map::empty().insert(start, seq![start]);
    let ghost mut origin: Map<u32, (int, int)> = Map::empty();
    let mut head: usize = 0;
    proof {
        assert(is_walk(g, start, start, seq![start]));
        assert(order@ =~= seq![start]);
    }
    while head < order.len()
        invariant
            g == adjacency(graph),
            search_invariant(g, start, order@, distance@, walks, head as int),
            origins_recorded(g, order@, origin, head as int, 0),
        decreases 0x1_0000_0000 - head,
    {
        proof {
            lemma_distinct_nodes_are_few(order@);
        }
        let v: u32 = order[head];
        assert(order@.contains(v));
        let reached: Option<&usize> = distance.get(&v);
        let d: usize = *reached.unwrap();
        match graph.get(&v) {
            Some(neighbors) => {
                let mut k: usize = 0;
                while k < neighbors.len()
                    invariant
                        g == adjacency(graph),
                        search_invariant(g, start, order@, distance@, walks, head as int),
                        origins_recorded(g, order@, origin, head as int, k as int),
                        head < order@.len(),
                        v == order@[head as int],
                        distance@.contains_key(v),
                        d == distance@[v],
                        g.contains_key(v),
                        g[v] == neighbors@,
                        0 <= k <= neighbors@.len(),
                        forall|m: int|
                            0 <= m < k ==> distance@.contains_key(#[trigger] neighbors@[m])
                                && distance@[neighbors@[m]] <= d + 1,
                    decreases neighbors@.len() - k,
                {
                    let w: u32 = neighbors[k];
                    assert(distance@[order@[head as int]] <= head);
                    assert(d < order.len());
                    if !distance.contains_key(&w) {
                        proof {
                            assert(g[v][k as int] == w);
                            assert(has_edge(g, v, w));
                            lemma_walk_extends(g, start, v, walks[v], w);
                            walks = walks.insert(w, walks[v].push(w));
                        }
                        let ghost before = order@;
                        let ghost dist_before = distance@;
                        proof {
                            lemma_discovery_keeps_origins(
                                g,
                                start,
                                before,
                                dist_before,
                                origin,
                                head as int,
                                k as int,
                                w,
                            );
                            origin = origin.insert(w, (head as int, k as int));
                        }
                        distance.insert(w, d + 1);
                        order.push(w);
                        proof {
                            lemma_discovery_keeps_invariant(
                                g,
                                start,
                                before,
                                dist_before,
                                walks,
                                head as int,
                                w,
                            );
                        }
                    } else {
                        proof {
                            assert(order@.contains(w));
                            let j = choose|j: int| 0 <= j < order@.len() && order@[j] == w;
                            assert(distance@[order@[j]] <= distance@[order@[order@.len() - 1]]);
                            lemma_origins_advance(
                                g,
                                order@,
                                origin,
                                head as int,
                                k as int,
                                head as int,
                                k + 1,
                            );
                        }
                    }
                    k += 1;
                }
                proof {
                    assert(settled(g, distance@, v));
                    lemma_origins_advance(g, order@, origin, head as int, k as int, head + 1, 0);
                }
            },
            None => {
                proof {
                    assert(settled(g, distance@, v));
                    lemma_origins_advance(g, order@, origin, head as int, 0, head + 1, 0);
                }
            },
        }
        head += 1;
    }
    let found = Traversal { order, distance };
    proof {
        lemma_origins_give_order(g, found.order@, origin, head as int, 0);
        assert forall|n: u32| found.distance@.contains_key(n) <==> reachable(g, start, n) by {
            if found.distance@.contains_key(n) {
                assert(is_walk(g, start, n, walks[n]));
            }
            if reachable(g, start, n) {
                let p = choose|p: Seq<u32>| is_walk(g, start, n, p);
                lemma_walk_stays_inside(
                    g,
                    start,
                    found.order@,
                    found.distance@,
                    walks,
                    p,
                    n,
                    p.len() - 1,
                );
            }
        }
        assert forall|n: u32| #[trigger] found.distance@.contains_key(n) implies is_distance(
            g,
            start,
            n,
            found.distance@[n] as nat,
        ) by {
            assert(is_walk(g, start, n, walks[n]));
            assert forall|p: Seq<u32>| is_walk(g, start, n, p) implies p.len()
                >= found.distance@[n] + 1 by {
                lemma_walk_stays_inside(
                    g,
                    start,
                    found.order@,
                    found.distance@,
                    walks,
                    p,
                    n,
                    p.len() - 1,
                );
            }
        }
    }
    found
}

/// A discovery from a node of the common beginning of two orders is a
/// discovery in both.
proof fn lemma_discovery_carries_over(
    g: Map<u32, Seq<u32>>,
    a: Seq<u32>,
    b: Seq<u32>,
    n: int,
    w: u32,
    p: int,
    k: int,
)
    requires
        0 <= n <= a.len(),
        n <= b.len(),
        forall|i: int| 0 <= i < n ==> a[i] == b[i],
        discovered_at(g, a, w, p, k),
        p < n,
    ensures
        discovered_at(g, b, w, p, k),
{
    assert(a[p] == b[p]);
    assert forall|q: int| 0 <= q < p implies !#[trigger] has_edge(g, b[q], w) by {
        assert(!has_edge(g, a[q], w));
    }
}

/// Two listings of the same nodes in the order of their discovery agree
/// position by position.
proof fn lemma_orders_agree(g: Map<u32, Seq<u32>>, a: Seq<u32>, b: Seq<u32>, n: int)
    requires
        in_discovery_order(g, a),
        in_discovery_order(g, b),
        a.no_duplicates(),
        b.no_duplicates(),
        a.to_set() == b.to_set(),
        a.len() == b.len(),
        a.len() >= 1,
        a[0] == b[0],
        0 <= n <= a.len(),
    ensures
        forall|i: int| 0 <= i < n ==> a[i] == b[i],
    decreases n,
{
    if n >= 2 {
        lemma_orders_agree(g, a, b, n - 1);
        let m = n - 1;
        let w1 = a[m];
        let w2 = b[m];
        if w1 != w2 {
            assert(discovered_from_earlier(g, a, m));
            assert(discovered_from_earlier(g, b, m));
            let (pa, ka) = choose|p: int, k: int| p < m && #[trigger] discovered_at(g, a, w1, p, k);
            let (pb, kb) = choose|p: int, k: int| p < m && #[trigger] discovered_at(g, b, w2, p, k);
            lemma_discovery_carries_over(g, a, b, m, w1, pa, ka);
            lemma_discovery_carries_over(g, b, a, m, w2, pb, kb);
            assert(a.to_set().contains(w1));
            assert(b.contains(w1));
            let j = choose|j: int| 0 <= j < b.len() && b[j] == w1;
            assert(j > m) by {
                if j < m {
                    assert(a[j] == a[m]);
                }
            }
            assert(b.to_set().contains(w2));
            assert(a.contains(w2));
            let i = choose|i: int| 0 <= i < a.len() && a[i] == w2;
            assert(i > m) by {
                if i < m {
                    assert(b[i] == b[m]);
                }
            }
            assert(pb < pa || (pb == pa && kb < ka));
            assert(pa < pb || (pa == pb && ka < kb));
        }
    } else if n == 1 {
    }
}

/// Two searches of one graph from one start are the same: the same nodes in
/// the same order, with the same distances.
pub proof fn lemma_search_is_determined(
    first: Traversal,
    second: Traversal,
    g: Map<u32, Seq<u32>>,
    start: u32,
)
    requires
        first.is_search_of(g, start),
        second.is_search_of(g, start),
    ensures
        first.order@ == second.order@,
        first.distance@ == second.distance@,
{
    let a = first.order@;
    let b = second.order@;
    assert forall|n: u32| first.distance@.contains_key(n) implies first.distance@[n]
        == second.distance@[n] by {
        assert(reachable(g, start, n));
        assert(second.distance@.contains_key(n));
        lemma_distance_is_unique(
            g,
            start,
            n,
            first.distance@[n] as nat,
            second.distance@[n] as nat,
        );
    }
    assert forall|n: u32| first.distance@.contains_key(n) <==> second.distance@.contains_key(
        n,
    ) by {
        assert(first.distance@.contains_key(n) <==> reachable(g, start, n));
        assert(second.distance@.contains_key(n) <==> reachable(g, start, n));
    }
    assert(first.distance@ =~= second.distance@);
    assert(a.to_set() =~= b.to_set());
    a.unique_seq_to_set();
    b.unique_seq_to_set();
    lemma_orders_agree(g, a, b, a.len() as int);
    assert(a =~= b);
}

/// The distance that a search gave to `n`, as a function of `n`.
spec fn found_distance(dist: Map<u32, usize>) -> spec_fn(u32) -> nat {
    |n: u32| dist[n] as nat
}

/// A finished search lists the reachable set, and its distances sum to the
/// total distance from its start.
proof fn lemma_search_measures_reach(found: Traversal, g: Map<u32, Seq<u32>>, start: u32)
    requires
        found.is_search_of(g, start),
    ensures
        found.order@.to_set() == reachable_set(g, start),
        found.order@.len() == reachable_set(g, start).len(),
        sum_along(found.order@, found_distance(found.distance@)) == total_distance(g, start),
{
    let order = found.order@;
    let by_search = found_distance(found.distance@);
    let by_model = hops_from(g, start);
    assert(order.to_set() =~= reachable_set(g, start));
    order.unique_seq_to_set();
    assert forall|i: int| 0 <= i < order.len() implies by_search(#[trigger] order[i]) == by_model(
        order[i],
    ) by {
        let n = order[i];
        assert(order.contains(n));
        assert(found.distance@.contains_key(n));
        lemma_distance_is_unique(g, start, n, found.distance@[n] as nat, 0);
    }
    lemma_sum_along_agrees(order, by_search, by_model);
    lemma_sum_along_distinct(order, by_model);
}

/// Measures how far `start` reaches in `graph`: the number of other nodes
/// that it reaches, and the sum of its hop distances to them.
pub fn measure_reach(graph: &HashMap<u32, Vec<u32>>, start: u32) -> (reach: Reach)
    ensures
        reach.others == others_reached(adjacency(graph), start),
        reach.total_distance == total_distance(adjacency(graph), start),
{
    broadcast use group_hash_axioms;

    let found = breadth_first_search(graph, start);
    let ghost by_search = found_distance(found.distance@);
    let mut total: u64 = 0;
    let mut i: usize = 0;
    proof {
        lemma_distinct_nodes_are_few(found.order@);
        assert(found.order@.take(0) =~= Seq::<u32>::empty());
    }
    while i < found.order.len()
        invariant
            found.well_formed(),
            found.order@.len() <= 0x1_0000_0000,
            by_search == found_distance(found.distance@),
            0 <= i <= found.order@.len(),
            total == sum_along(found.order@.take(i as int), by_search),
            total <= i * 0xffff_ffff,
        decreases found.order@.len() - i,
    {
        let n: u32 = found.order[i];
        assert(found.order@.contains(n));
        let reached: Option<&usize> = found.distance.get(&n);
        let d: usize = *reached.unwrap();
        proof {
            assert(found.distance@[found.order@[i as int]] <= i);
            assert(found.order@.take(i + 1) =~= found.order@.take(i as int).push(n));
            lemma_sum_along_push(found.order@.take(i as int), by_search, n);
        }
        total = total + d as u64;
        i += 1;
    }
    proof {
        assert(found.order@.take(i as int) =~= found.order@);
        lemma_search_measures_reach(found, adjacency(graph), start);
    }
    Reach { others: (found.order.len() - 1) as u64, total_distance: total }
}

/// The reach of `start`, paired with `start`: an entry for a map from nodes
/// to their reach.
pub fn measure_reach_entry(graph: &HashMap<u32, Vec<u32>>, start: &u32) -> (entry: (u32, Reach))
    ensures
        entry.0 == *start,
        entry.1.others == others_reached(adjacency(graph), *start),
        entry.1.total_distance == total_distance(adjacency(graph), *start),
{
    (*start, measure_reach(graph, *start))
}

} // verus!
