//! The nodes of a graph in ascending order, which does not depend on how
//! the adjacency map happens to be laid out.

use crate::graph::{adjacency, nodes};
use std::collections::BTreeSet;
use std::collections::HashMap;
use vstd::prelude::*;
use vstd::std_specs::btree::*;
use vstd::std_specs::cmp::OrdSpec;
use vstd::std_specs::iter::IteratorSpec;

verus! {

/// `list` ascends strictly.
pub open spec fn ascends(list: Seq<u32>) -> bool {
    forall|i: int, j: int| 0 <= i < j < list.len() ==> list[i] < list[j]
}

/// What a tree set hands out in increasing order ascends.
proof fn lemma_increasing_ascends(entries: Seq<&u32>)
    requires
        increasing_seq(entries),
    ensures
        ascends(entries.unref()),
{
    broadcast use group_btree_axioms;

    assert(vstd::laws_cmp::obeys_cmp::<&u32>());
    let listed = entries.unref();
    assert forall|i: int, j: int| 0 <= i < j < listed.len() implies listed[i] < listed[j] by {
        assert(OrdSpec::cmp_spec(&entries[i], &entries[j]) is Less);
    }
}

/// The nodes of the graph in ascending order, every node once.
pub fn sorted_nodes(graph: &HashMap<u32, Vec<u32>>) -> (sorted: Vec<u32>)
    ensures
        ascends(sorted@),
        sorted@.no_duplicates(),
        sorted@.to_set() == adjacency(graph).dom(),
{
    broadcast use group_btree_axioms;

    let all = nodes(graph);
    let mut ordered: BTreeSet<u32> = BTreeSet::new();
    let mut i: usize = 0;
    proof {
        assert(all@.take(0).to_set() =~= Set::<u32>::empty());
    }
    while i < all.len()
        invariant
            0 <= i <= all@.len(),
            ordered@ == all@.take(i as int).to_set(),
        decreases all@.len() - i,
    {
        let n: u32 = all[i];
        ordered.insert(n);
        proof {
            assert(all@.take(i + 1) =~= all@.take(i as int).push(n));
            all@.take(i as int).lemma_push_to_set_commute(n);
        }
        i += 1;
    }
    proof {
        assert(all@.take(i as int) =~= all@);
    }
    let mut sorted: Vec<u32> = Vec::new();
    let entries = ordered.iter();
    let ghost listed = entries.remaining().unref();
    proof {
        assert(listed.to_set() == ordered@);
        assert(listed.len() == entries.remaining().len());
        assert(listed.no_duplicates());
        assert(increasing_seq(entries.remaining()));
        lemma_increasing_ascends(entries.remaining());
    }
    for n in it: entries
        invariant
            listed == it.seq().unref(),
            sorted@ == listed.take(it.index()),
    {
        sorted.push(*n);
    }
    proof {
        assert(listed.take(listed.len() as int) =~= listed);
    }
    sorted
}

} // verus!
