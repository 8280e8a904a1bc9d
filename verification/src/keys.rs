//! The keys of a hash map, listed in the order in which the map hands them
//! out.

use std::collections::HashMap;
use vstd::prelude::*;
use vstd::std_specs::hash::*;
use vstd::std_specs::iter::IteratorSpec;

verus! {

/// The order in which the keys of `map` are met when they are walked. It is
/// a matter of the map, and the same each time the same map is walked.
pub open spec fn key_order<K, V>(map: &HashMap<K, V>) -> Seq<K> {
    into_iter_keys(spec_keys_iter(map))
}

/// The first `limit` keys of `map` in the order in which it hands them out;
/// all of them where it has no more. Every key is listed once at most.
pub(crate) fn first_keys<K: Copy, V>(map: &HashMap<K, V>, limit: usize) -> (listed: Vec<K>)
    requires
        obeys_key_model::<K>(),
    ensures
        listed@ == key_order(map).take(listed@.len() as int),
        listed@.len() == limit || listed@.len() == key_order(map).len(),
        listed@.len() <= limit,
        listed@.len() <= key_order(map).len(),
        key_order(map).no_duplicates(),
        key_order(map).to_set() == map@.dom(),
        key_order(map).len() == map@.dom().len(),
{
    broadcast use group_hash_axioms;

    let mut listed: Vec<K> = Vec::new();
    let keys = map.keys();
    let ghost order = key_order(map);
    proof {
        let refs = keys.remaining();
        assert(order == refs.unref());
        assert(refs.unref().to_set() == map@.dom());
        assert(refs.unref().len() == refs.len());
        assert(refs.unref().no_duplicates());
        assert(order.take(0) =~= Seq::<K>::empty());
    }
    if limit == 0 {
        return listed;
    }
    for key in it: keys
        invariant_except_break
            listed@.len() < limit,
        invariant
            order == it.seq().unref(),
            listed@ == order.take(it.index()),
        ensures
            listed@ == order.take(listed@.len() as int),
            listed@.len() == limit || listed@.len() == order.len(),
            listed@.len() <= order.len(),
            listed@.len() <= limit,
    {
        listed.push(*key);
        if listed.len() >= limit {
            break;
        }
    }
    listed
}

/// All keys of `map` in the order in which it hands them out, every key
/// once.
pub(crate) fn all_keys<K: Copy, V>(map: &HashMap<K, V>) -> (listed: Vec<K>)
    requires
        obeys_key_model::<K>(),
    ensures
        listed@ == key_order(map),
        listed@.no_duplicates(),
        listed@.to_set() == map@.dom(),
        listed@.len() == map@.dom().len(),
{
    broadcast use group_hash_axioms;

    let listed = first_keys(map, map.len());
    proof {
        assert(key_order(map).take(key_order(map).len() as int) =~= key_order(map));
    }
    listed
}

} // verus!
