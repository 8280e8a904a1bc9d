//! Sums of a natural-valued function over a finite set and over a sequence,
//! and counts of the occurrences of an entry.

use vstd::prelude::*;

verus! {

/// The sum of `f` over the elements of the finite set `s`.
pub open spec fn sum_over<A>(s: Set<A>, f: spec_fn(A) -> nat) -> nat {
    s.fold(0nat, |acc: nat, a: A| acc + f(a))
}

/// The sum of `f` over the entries of `s`, each counted as often as it occurs.
pub open spec fn sum_along<A>(s: Seq<A>, f: spec_fn(A) -> nat) -> nat
    decreases s.len(),
{
    if s.len() == 0 {
        0
    } else {
        sum_along(s.drop_last(), f) + f(s.last())
    }
}

/// The empty set sums to zero.
pub proof fn lemma_sum_over_empty<A>(f: spec_fn(A) -> nat)
    ensures
        sum_over(Set::<A>::empty(), f) == 0,
{
    vstd::set::fold::lemma_fold_empty(0nat, |acc: nat, a: A| acc + f(a));
}

/// A new element adds its own term.
pub proof fn lemma_sum_over_insert<A>(s: Set<A>, f: spec_fn(A) -> nat, a: A)
    requires
        s.finite(),
        !s.contains(a),
    ensures
        sum_over(s.insert(a), f) == sum_over(s, f) + f(a),
{
    let step = |acc: nat, a: A| acc + f(a);
    assert(vstd::set::fold::is_fun_commutative(step));
    vstd::set::fold::lemma_fold_insert(s, 0nat, step, a);
}

/// Taking an element out takes its term out.
pub proof fn lemma_sum_over_remove<A>(s: Set<A>, f: spec_fn(A) -> nat, a: A)
    requires
        s.finite(),
        s.contains(a),
    ensures
        sum_over(s, f) == sum_over(s.remove(a), f) + f(a),
{
    assert(s.remove(a).insert(a) =~= s);
    lemma_sum_over_insert(s.remove(a), f, a);
}

/// Along a sequence, one more entry adds its term.
pub proof fn lemma_sum_along_push<A>(s: Seq<A>, f: spec_fn(A) -> nat, a: A)
    ensures
        sum_along(s.push(a), f) == sum_along(s, f) + f(a),
{
    assert(s.push(a).drop_last() =~= s);
}

/// Over a sequence without repetition, the two sums agree.
pub proof fn lemma_sum_along_distinct<A>(s: Seq<A>, f: spec_fn(A) -> nat)
    requires
        s.no_duplicates(),
    ensures
        sum_along(s, f) == sum_over(s.to_set(), f),
    decreases s.len(),
{
    if s.len() == 0 {
        assert(s.to_set() =~= Set::<A>::empty());
        lemma_sum_over_empty(f);
    } else {
        let init = s.drop_last();
        let a = s.last();
        lemma_sum_along_distinct(init, f);
        assert(!init.to_set().contains(a)) by {
            if init.contains(a) {
                let j = choose|j: int| 0 <= j < init.len() && init[j] == a;
                assert(s[j] == s[s.len() - 1]);
            }
        }
        assert(init.to_set().insert(a) =~= s.to_set()) by {
            assert forall|x: A| s.to_set().contains(x) implies init.to_set().insert(a).contains(
                x,
            ) by {
                let j = choose|j: int| 0 <= j < s.len() && s[j] == x;
                if j < s.len() - 1 {
                    assert(init[j] == x);
                }
            }
            assert forall|x: A| init.to_set().insert(a).contains(x) implies s.to_set().contains(
                x,
            ) by {
                if x == a {
                    assert(s[s.len() - 1] == x);
                } else {
                    let j = choose|j: int| 0 <= j < init.len() && init[j] == x;
                    assert(s[j] == x);
                }
            }
        }
        vstd::seq_lib::seq_to_set_is_finite(init);
        lemma_sum_over_insert(init.to_set(), f, a);
    }
}

/// Two functions that agree on every entry have the same sum.
pub proof fn lemma_sum_along_agrees<A>(s: Seq<A>, f: spec_fn(A) -> nat, h: spec_fn(A) -> nat)
    requires
        forall|i: int| 0 <= i < s.len() ==> f(#[trigger] s[i]) == h(s[i]),
    ensures
        sum_along(s, f) == sum_along(s, h),
    decreases s.len(),
{
    if s.len() > 0 {
        let init = s.drop_last();
        assert forall|i: int| 0 <= i < init.len() implies f(#[trigger] init[i]) == h(init[i]) by {
            assert(init[i] == s[i]);
        }
        lemma_sum_along_agrees(init, f, h);
    }
}

/// A set of node identifiers is finite.
pub proof fn lemma_node_sets_are_finite(s: Set<u32>)
    ensures
        s.finite(),
{
    broadcast use vstd::set_lib::full_set_properties;

    assert(s.subset_of(Set::<u32>::full()));
    vstd::set_lib::lemma_set_subset_finite(Set::<u32>::full(), s);
}

/// A set of machine-sized counts is finite.
pub proof fn lemma_count_sets_are_finite(s: Set<usize>)
    ensures
        s.finite(),
{
    broadcast use vstd::set_lib::full_set_properties;

    assert(s.subset_of(Set::<usize>::full()));
    vstd::set_lib::lemma_set_subset_finite(Set::<usize>::full(), s);
}

/// Two functions that agree on every element of a set have the same sum
/// over it.
pub proof fn lemma_sum_over_agrees<A>(s: Set<A>, f: spec_fn(A) -> nat, h: spec_fn(A) -> nat)
    requires
        s.finite(),
        forall|a: A| s.contains(a) ==> #[trigger] f(a) == h(a),
    ensures
        sum_over(s, f) == sum_over(s, h),
    decreases s.len(),
{
    if s.len() == 0 {
        assert(s =~= Set::<A>::empty());
        lemma_sum_over_empty(f);
        lemma_sum_over_empty(h);
    } else {
        let a = s.choose();
        lemma_sum_over_remove(s, f, a);
        lemma_sum_over_remove(s, h, a);
        lemma_sum_over_agrees(s.remove(a), f, h);
    }
}

/// A sum over a set is at least each of its terms.
pub proof fn lemma_sum_over_bounds_term<A>(s: Set<A>, f: spec_fn(A) -> nat, a: A)
    requires
        s.finite(),
        s.contains(a),
    ensures
        f(a) <= sum_over(s, f),
{
    lemma_sum_over_remove(s, f, a);
}

/// How often `x` occurs in `s`.
pub open spec fn count_of(s: Seq<u32>, x: u32) -> nat
    decreases s.len(),
{
    if s.len() == 0 {
        0
    } else {
        count_of(s.drop_last(), x) + if s.last() == x {
            1nat
        } else {
            0nat
        }
    }
}

/// Nothing occurs more often than there are entries.
pub proof fn lemma_count_is_bounded(s: Seq<u32>, x: u32)
    ensures
        count_of(s, x) <= s.len(),
    decreases s.len(),
{
    if s.len() > 0 {
        lemma_count_is_bounded(s.drop_last(), x);
    }
}

/// What stands in a sequence occurs in it.
pub proof fn lemma_entry_is_counted(s: Seq<u32>, k: int)
    requires
        0 <= k < s.len(),
    ensures
        count_of(s, s[k]) >= 1,
    decreases s.len(),
{
    if k < s.len() - 1 {
        lemma_entry_is_counted(s.drop_last(), k);
    }
}

/// One more entry at the end counts where it is the entry counted.
pub proof fn lemma_count_push(s: Seq<u32>, a: u32, x: u32)
    ensures
        count_of(s.push(a), x) == count_of(s, x) + if a == x {
            1nat
        } else {
            0nat
        },
{
    assert(s.push(a).drop_last() =~= s);
}

/// An entry is counted exactly where it occurs.
pub proof fn lemma_counted_iff_contained(s: Seq<u32>, x: u32)
    ensures
        count_of(s, x) > 0 <==> s.contains(x),
    decreases s.len(),
{
    if s.len() > 0 {
        lemma_counted_iff_contained(s.drop_last(), x);
        if s.last() == x {
            assert(s[s.len() - 1] == x);
        } else {
            if s.contains(x) {
                let k = choose|k: int| 0 <= k < s.len() && s[k] == x;
                assert(s.drop_last()[k] == x);
            }
            if s.drop_last().contains(x) {
                let k = choose|k: int| 0 <= k < s.drop_last().len() && s.drop_last()[k] == x;
                assert(s[k] == x);
            }
        }
    }
}

} // verus!
