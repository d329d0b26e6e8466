//! Sums and head counts over queues.
//!
//! The scheduler's bookkeeping is additive: the work that is left, the time
//! until the last I/O wait is over, and the identities of the processes that
//! are in the system.  This module defines the sum of a quantity over a
//! queue and the census of a queue, and proves how each behaves when a queue
//! is extended, shortened, split by a test, or rearranged.

use vstd::multiset::*;
use vstd::prelude::*;
use vstd::seq_lib::*;

verus! {

/// Sum of `f` over the elements of `s`.
pub open spec fn total<T>(s: Seq<T>, f: spec_fn(T) -> int) -> int
    decreases s.len(),
{
    if s.len() == 0 {
        0
    } else {
        total(s.drop_last(), f) + f(s.last())
    }
}

/// The values of `f` on the elements of `s`, each as often as it occurs.
pub open spec fn census<T, K>(s: Seq<T>, f: spec_fn(T) -> K) -> Multiset<K> {
    s.map_values(f).to_multiset()
}

/// The test that holds where `test` does not.
pub open spec fn negated<T>(test: spec_fn(T) -> bool) -> spec_fn(T) -> bool {
    |x: T| !test(x)
}

/// Adding an element at the back adds its value to the sum.
pub proof fn lemma_total_push<T>(s: Seq<T>, x: T, f: spec_fn(T) -> int)
    ensures
        total(s.push(x), f) == total(s, f) + f(x),
{
    assert(s.push(x).drop_last() =~= s);
}

/// The sum over two queues joined is the sum of the sums.
pub proof fn lemma_total_concat<T>(a: Seq<T>, b: Seq<T>, f: spec_fn(T) -> int)
    ensures
        total(a + b, f) == total(a, f) + total(b, f),
    decreases b.len(),
{
    if b.len() == 0 {
        assert(a + b =~= a);
    } else {
        lemma_total_concat(a, b.drop_last(), f);
        assert((a + b).drop_last() =~= a + b.drop_last());
    }
}

/// Taking the first element away takes its value from the sum.
pub proof fn lemma_total_skip_first<T>(s: Seq<T>, f: spec_fn(T) -> int)
    requires
        s.len() > 0,
    ensures
        total(s.skip(1), f) == total(s, f) - f(s[0]),
{
    let head = seq![s[0]];
    assert(head + s.skip(1) =~= s);
    lemma_total_concat(head, s.skip(1), f);
    assert(head.drop_last() =~= Seq::<T>::empty());
    assert(total(head, f) == f(s[0])) by {
        assert(total(head.drop_last(), f) == 0);
    }
}

/// Inserting an element anywhere adds its value to the sum.
pub proof fn lemma_total_insert<T>(s: Seq<T>, i: int, x: T, f: spec_fn(T) -> int)
    requires
        0 <= i <= s.len(),
    ensures
        total(s.insert(i, x), f) == total(s, f) + f(x),
{
    let left = s.take(i);
    let right = s.skip(i);
    assert(s =~= left + right);
    assert(s.insert(i, x) =~= left.push(x) + right);
    lemma_total_concat(left, right, f);
    lemma_total_concat(left.push(x), right, f);
    lemma_total_push(left, x, f);
}

/// Removing an element takes its value from the sum.
pub proof fn lemma_total_remove<T>(s: Seq<T>, i: int, f: spec_fn(T) -> int)
    requires
        0 <= i < s.len(),
    ensures
        total(s.remove(i), f) == total(s, f) - f(s[i]),
{
    assert(s.remove(i).insert(i, s[i]) =~= s);
    lemma_total_insert(s.remove(i), i, s[i], f);
}

/// A test splits a queue in two parts whose sums add up to the sum of the
/// whole.
pub proof fn lemma_total_filter<T>(s: Seq<T>, test: spec_fn(T) -> bool, f: spec_fn(T) -> int)
    ensures
        total(s.filter(test), f) + total(s.filter(negated(test)), f) == total(s, f),
    decreases s.len(),
{
    reveal(Seq::filter);
    if s.len() > 0 {
        lemma_total_filter(s.drop_last(), test, f);
        if test(s.last()) {
            lemma_total_push(s.drop_last().filter(test), s.last(), f);
        } else {
            lemma_total_push(s.drop_last().filter(negated(test)), s.last(), f);
        }
    }
}

/// Queues with the same elements have the same sum, whatever their order.
pub proof fn lemma_total_rearranged<T>(a: Seq<T>, b: Seq<T>, f: spec_fn(T) -> int)
    requires
        a.to_multiset() == b.to_multiset(),
    ensures
        total(a, f) == total(b, f),
    decreases a.len(),
{
    broadcast use group_to_multiset_ensures;
    broadcast use group_multiset_axioms;

    to_multiset_len(a);
    to_multiset_len(b);
    if a.len() > 0 {
        let x = a.last();
        let a1 = a.drop_last();
        assert(a =~= a1.push(x));
        assert(a.contains(x));
        assert(b.to_multiset().count(x) > 0);
        assert(b.contains(x));
        let i = choose|i: int| 0 <= i < b.len() && b[i] == x;
        let b1 = b.remove(i);
        assert(a1.to_multiset() =~= a.to_multiset().remove(x));
        assert(b1.to_multiset() =~= b.to_multiset().remove(x));
        lemma_total_rearranged(a1, b1, f);
        lemma_total_remove(b, i, f);
    }
}

/// Where `f` is nowhere above `g` on a queue, its sum is not above that of
/// `g`.
pub proof fn lemma_total_le<T>(s: Seq<T>, f: spec_fn(T) -> int, g: spec_fn(T) -> int)
    requires
        forall|i: int| 0 <= i < s.len() ==> f(#[trigger] s[i]) <= g(s[i]),
    ensures
        total(s, f) <= total(s, g),
    decreases s.len(),
{
    if s.len() > 0 {
        lemma_total_le(s.drop_last(), f, g);
    }
}

/// Where `f` is below `g` everywhere on a queue that is not empty, its sum
/// is below that of `g`.
pub proof fn lemma_total_lt<T>(s: Seq<T>, f: spec_fn(T) -> int, g: spec_fn(T) -> int)
    requires
        s.len() > 0,
        forall|i: int| 0 <= i < s.len() ==> f(#[trigger] s[i]) < g(s[i]),
    ensures
        total(s, f) < total(s, g),
    decreases s.len(),
{
    assert(f(s[s.len() - 1]) < g(s[s.len() - 1]));
    if s.len() > 1 {
        lemma_total_lt(s.drop_last(), f, g);
    } else {
        assert(total(s.drop_last(), f) == 0);
        assert(total(s.drop_last(), g) == 0);
    }
}

/// A sum of values that are not negative is not negative, and no single
/// value is above it.
pub proof fn lemma_total_bounds<T>(s: Seq<T>, f: spec_fn(T) -> int)
    requires
        forall|i: int| 0 <= i < s.len() ==> f(#[trigger] s[i]) >= 0,
    ensures
        total(s, f) >= 0,
        forall|i: int| 0 <= i < s.len() ==> f(#[trigger] s[i]) <= total(s, f),
    decreases s.len(),
{
    if s.len() > 0 {
        lemma_total_bounds(s.drop_last(), f);
        assert forall|i: int| 0 <= i < s.len() implies f(#[trigger] s[i]) <= total(s, f) by {
            if i < s.len() - 1 {
                assert(s.drop_last()[i] == s[i]);
            }
        }
    }
}

/// A sum of zeros is zero.
pub proof fn lemma_total_zero<T>(s: Seq<T>, f: spec_fn(T) -> int)
    requires
        forall|i: int| 0 <= i < s.len() ==> f(#[trigger] s[i]) == 0,
    ensures
        total(s, f) == 0,
    decreases s.len(),
{
    if s.len() > 0 {
        lemma_total_zero(s.drop_last(), f);
    }
}

/// The census of an empty queue is empty.
pub proof fn lemma_census_empty<T, K>(f: spec_fn(T) -> K)
    ensures
        census(Seq::<T>::empty(), f) == Multiset::<K>::empty(),
{
    broadcast use group_to_multiset_ensures;
    broadcast use group_multiset_axioms;

    let none = Seq::<T>::empty().map_values(f);
    to_multiset_len(none);
    assert(none.to_multiset() =~= Multiset::<K>::empty());
}

/// Adding an element at the back adds its value to the census.
pub proof fn lemma_census_push<T, K>(s: Seq<T>, x: T, f: spec_fn(T) -> K)
    ensures
        census(s.push(x), f) == census(s, f).insert(f(x)),
{
    broadcast use group_to_multiset_ensures;

    assert(s.push(x).map_values(f) =~= s.map_values(f).push(f(x)));
}

/// The census of two queues joined is the two censuses together.
pub proof fn lemma_census_concat<T, K>(a: Seq<T>, b: Seq<T>, f: spec_fn(T) -> K)
    ensures
        census(a + b, f) == census(a, f).add(census(b, f)),
{
    assert((a + b).map_values(f) =~= a.map_values(f) + b.map_values(f));
    lemma_multiset_commutative(a.map_values(f), b.map_values(f));
}

/// Taking the first element away takes its value from the census.
pub proof fn lemma_census_skip_first<T, K>(s: Seq<T>, f: spec_fn(T) -> K)
    requires
        s.len() > 0,
    ensures
        census(s, f) == census(s.skip(1), f).insert(f(s[0])),
{
    broadcast use group_multiset_axioms;

    let head = seq![s[0]];
    assert(head + s.skip(1) =~= s);
    lemma_census_concat(head, s.skip(1), f);
    assert(head =~= Seq::<T>::empty().push(s[0]));
    lemma_census_push(Seq::<T>::empty(), s[0], f);
    lemma_census_empty::<T, K>(f);
    assert(census(s, f) =~= census(s.skip(1), f).insert(f(s[0])));
}

/// A test splits a queue in two parts whose censuses together are the
/// census of the whole.
pub proof fn lemma_census_filter<T, K>(s: Seq<T>, test: spec_fn(T) -> bool, f: spec_fn(T) -> K)
    ensures
        census(s.filter(test), f).add(census(s.filter(negated(test)), f)) == census(s, f),
    decreases s.len(),
{
    broadcast use group_multiset_axioms;

    reveal(Seq::filter);
    if s.len() == 0 {
        lemma_census_empty::<T, K>(f);
        assert(s =~= Seq::<T>::empty());
        assert(census(s.filter(test), f).add(census(s.filter(negated(test)), f)) =~= census(
            s,
            f,
        ));
    } else {
        let most = s.drop_last();
        lemma_census_filter(most, test, f);
        assert(s =~= most.push(s.last()));
        lemma_census_push(most, s.last(), f);
        if test(s.last()) {
            lemma_census_push(most.filter(test), s.last(), f);
        } else {
            lemma_census_push(most.filter(negated(test)), s.last(), f);
        }
        assert(census(s.filter(test), f).add(census(s.filter(negated(test)), f)) =~= census(
            s,
            f,
        ));
    }
}

/// Queues with the same elements have the same census, whatever their
/// order.
pub proof fn lemma_census_rearranged<T, K>(a: Seq<T>, b: Seq<T>, f: spec_fn(T) -> K)
    requires
        a.to_multiset() == b.to_multiset(),
    ensures
        census(a, f) == census(b, f),
{
    crate::ordering::lemma_map_values_multiset(a, b, f);
}

/// A test splits a queue in two parts whose lengths add up to the length of
/// the whole.
pub proof fn lemma_filter_lengths<T>(s: Seq<T>, test: spec_fn(T) -> bool)
    ensures
        s.filter(test).len() + s.filter(negated(test)).len() == s.len(),
    decreases s.len(),
{
    reveal(Seq::filter);
    if s.len() > 0 {
        lemma_filter_lengths(s.drop_last(), test);
    }
}

/// What a test lets through passes the test, is an element of the queue,
/// and keeps every property that all elements of the queue have.
pub proof fn lemma_filter_members<T>(s: Seq<T>, test: spec_fn(T) -> bool)
    ensures
        forall|i: int|
            0 <= i < s.filter(test).len() ==> test(#[trigger] s.filter(test)[i]) && s.contains(
                s.filter(test)[i],
            ),
    decreases s.len(),
{
    reveal(Seq::filter);
    if s.len() > 0 {
        let most = s.drop_last();
        lemma_filter_members(most, test);
        assert forall|i: int| 0 <= i < s.filter(test).len() implies test(
            #[trigger] s.filter(test)[i],
        ) && s.contains(s.filter(test)[i]) by {
            if i < most.filter(test).len() {
                let x = most.filter(test)[i];
                assert(most.contains(x));
                let j = choose|j: int| 0 <= j < most.len() && most[j] == x;
                assert(s[j] == x);
            } else {
                assert(s[s.len() - 1] == s.last());
            }
        }
    }
}

} // verus!
