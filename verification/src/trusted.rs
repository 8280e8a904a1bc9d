//! The calls into other crates. Verus takes the contracts in this file on
//! trust: each states what the called function is documented to do.

use crate::graph::adjacency;
use crate::paths::{others_reached, total_distance};
use crate::traversal::{measure_reach_entry, Reach};
use rand::rngs::StdRng;
use rand::seq::SliceRandom;
use rand::SeedableRng;
use rayon::iter::{IntoParallelRefIterator, ParallelIterator};
use std::collections::HashMap;
use vstd::prelude::*;

verus! {

/// rand's standard generator, `rand::rngs::StdRng`. Its state is opaque to
/// the verifier.
#[verifier::external_type_specification]
#[verifier::external_body]
pub struct ExStdRng(rand::rngs::StdRng);

/// A generator seeded with `seed`: rand's `SeedableRng::seed_from_u64` for
/// `StdRng`. Nothing is claimed of the generator that comes back.
#[verifier::external_body]
pub(crate) fn seeded_generator(seed: u64) -> (generator: StdRng) {
    StdRng::seed_from_u64(seed)
}

/// Shuffles `order` in place with numbers drawn from `generator`: rand's
/// `SliceRandom::shuffle`.
///
/// Trusted: the shuffle only swaps entries, so `order` holds afterwards what
/// it held before, each entry as often; nothing is claimed of the order in
/// which they stand.
#[verifier::external_body]
pub(crate) fn shuffle_nodes(order: &mut Vec<u32>, generator: &mut StdRng)
    ensures
        final(order)@.to_multiset() == old(order)@.to_multiset(),
{
    order.shuffle(generator);
}

/// Measures the reach of every node of `sources` on rayon's worker pool and
/// gathers the results in a map keyed by the node: rayon's
/// `par_iter().map(..).collect()`.
///
/// Trusted: rayon applies the closure to each item of the slice once and
/// collects every pair that it returns; the keys of the map are therefore
/// the nodes of `sources`, and each value is what `measure_reach_entry`
/// returns for its key, which is the same whichever worker computed it.
#[verifier::external_body]
pub(crate) fn measure_reach_in_parallel(
    graph: &HashMap<u32, Vec<u32>>,
    sources: &Vec<u32>,
) -> (reaches: HashMap<u32, Reach>)
    ensures
        reaches@.dom() == sources@.to_set(),
        forall|s: u32| #[trigger]
            reaches@.contains_key(s) ==> reaches@[s].others == others_reached(
                adjacency(graph),
                s,
            ) && reaches@[s].total_distance == total_distance(adjacency(graph), s),
{
    sources.par_iter().map(|start| measure_reach_entry(graph, start)).collect()
}

} // verus!
