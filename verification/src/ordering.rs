//! Queue orderings.
//!
//! A queue is put in order by an integer key that is read off each process:
//! the length of its current burst, or the time at which its I/O wait ends.
//! Processes with equal keys keep the order in which they stood before, so
//! the order is the one that sorts the pairs (key, position).

use crate::process::{Process, ProcessView};
use std::collections::VecDeque;
use vstd::multiset::*;
use vstd::prelude::*;
use vstd::relations::*;
use vstd::seq_lib::*;

verus! {

/// A key together with the position at which it stood.
pub type Ranked = (int, int);

/// Pairs are ordered by key first and by position second.
pub open spec fn ranked_le(a: Ranked, b: Ranked) -> bool {
    a.0 < b.0 || (a.0 == b.0 && a.1 <= b.1)
}

/// [`ranked_le`] as a relation value.
pub open spec fn ranked_order() -> spec_fn(Ranked, Ranked) -> bool {
    |a: Ranked, b: Ranked| ranked_le(a, b)
}

/// Each key paired with its position.
pub open spec fn ranked(keys: Seq<int>) -> Seq<Ranked> {
    Seq::new(keys.len(), |i: int| (keys[i], i))
}

/// The pairs (key, position) of `keys` in ascending order.  The second
/// component of the `j`-th pair is the position from which the `j`-th
/// smallest key comes.
pub open spec fn stable_order(keys: Seq<int>) -> Seq<Ranked> {
    ranked(keys).sort_by(ranked_order())
}

/// `s` rearranged so that `keys`, which holds one key for each element of
/// `s`, ascends; elements with equal keys keep their relative order.
pub open spec fn arrange<T>(s: Seq<T>, keys: Seq<int>) -> Seq<T> {
    Seq::new(s.len(), |j: int| s[stable_order(keys)[j].1])
}

/// The keys of a queue that is ordered by current burst.
pub open spec fn burst_keys(s: Seq<ProcessView>) -> Seq<int> {
    s.map_values(|p: ProcessView| p.front())
}

/// The keys of a queue that is ordered by the end of the I/O wait.
pub open spec fn return_keys(s: Seq<ProcessView>) -> Seq<int> {
    s.map_values(|p: ProcessView| p.return_from_io_time)
}

/// The queue in shortest-burst-first order.
pub open spec fn sorted_by_burst(s: Seq<ProcessView>) -> Seq<ProcessView> {
    arrange(s, burst_keys(s))
}

/// The queue in soonest-return-first order.
pub open spec fn sorted_by_return(s: Seq<ProcessView>) -> Seq<ProcessView> {
    arrange(s, return_keys(s))
}

/// The orders in which a scheduler keeps its queues.
#[derive(Clone, Copy, Debug, PartialEq, Eq)]
pub enum QueueOrder {
    /// Shortest current burst first.
    ShortestBurst,
    /// Soonest end of the I/O wait first.
    SoonestReturn,
}

impl QueueOrder {
    /// The key by which this order ranks each process of `s`.
    pub open spec fn keys(self, s: Seq<ProcessView>) -> Seq<int> {
        match self {
            QueueOrder::ShortestBurst => burst_keys(s),
            QueueOrder::SoonestReturn => return_keys(s),
        }
    }

    /// The queue `s` put in this order.
    pub open spec fn sorted(self, s: Seq<ProcessView>) -> Seq<ProcessView> {
        arrange(s, self.keys(s))
    }

    /// Whether every process of `s` has the key that this order reads: the
    /// burst order needs a current burst.
    pub open spec fn applies_to(self, s: Seq<ProcessView>) -> bool {
        self is ShortestBurst ==> forall|i: int| 0 <= i < s.len() ==> (#[trigger] s[i]).has_burst()
    }
}

/// A key and a position as the machine holds them.
pub open spec fn widen(p: (i32, usize)) -> Ranked {
    (p.0 as int, p.1 as int)
}

/// The keys of `s` never descend.
pub open spec fn ascending(keys: Seq<int>) -> bool {
    forall|i: int, j: int| 0 <= i < j < keys.len() ==> keys[i] <= keys[j]
}

/// The views of the processes of a queue, in queue order.
pub open spec fn views(q: Seq<Process>) -> Seq<ProcessView> {
    q.map_values(|p: Process| p@)
}

/// The order on pairs is total.
pub proof fn lemma_ranked_order_total()
    ensures
        total_ordering(ranked_order()),
{
    let r = ranked_order();
    assert(reflexive(r));
    assert(antisymmetric(r)) by {
        assert forall|x: Ranked, y: Ranked| #[trigger] r(x, y) && #[trigger] r(y, x) implies x
            == y by {
            assert(x.0 == y.0 && x.1 == y.1);
        }
    }
    assert(transitive(r));
    assert(strongly_connected(r));
}

/// Sequences with the same elements still have the same elements after one
/// function has been applied to each element of both.
pub proof fn lemma_map_values_multiset<A, B>(a: Seq<A>, b: Seq<A>, f: spec_fn(A) -> B)
    requires
        a.to_multiset() == b.to_multiset(),
    ensures
        a.map_values(f).to_multiset() == b.map_values(f).to_multiset(),
    decreases a.len(),
{
    broadcast use group_to_multiset_ensures;
    broadcast use group_multiset_axioms;

    if a.len() == 0 {
        to_multiset_len(a);
        to_multiset_len(b);
        assert(a.map_values(f) =~= b.map_values(f));
    } else {
        let x = a.last();
        let a1 = a.drop_last();
        assert(a =~= a1.push(x));
        assert(a.contains(x));
        assert(b.to_multiset().count(x) > 0);
        assert(b.contains(x));
        let i = choose|i: int| 0 <= i < b.len() && b[i] == x;
        let b1 = b.remove(i);
        assert(b1.len() == b.len() - 1);
        assert(a1.to_multiset() =~= a.to_multiset().remove(x));
        assert(b1.to_multiset() =~= b.to_multiset().remove(x));
        lemma_map_values_multiset(a1, b1, f);
        assert(a.map_values(f) =~= a1.map_values(f).push(f(x)));
        assert(b.map_values(f) =~= b1.map_values(f).insert(i, f(x)));
    }
}

/// What [`stable_order`] yields: as many pairs as there are keys, in
/// ascending order, and every position once, each with its own key.
pub proof fn lemma_stable_order(keys: Seq<int>)
    ensures
        stable_order(keys).len() == keys.len(),
        stable_order(keys).to_multiset() == ranked(keys).to_multiset(),
        sorted_by(stable_order(keys), ranked_order()),
        forall|j: int|
            0 <= j < keys.len() ==> 0 <= (#[trigger] stable_order(keys)[j]).1 < keys.len()
                && stable_order(keys)[j].0 == keys[stable_order(keys)[j].1],
        forall|j: int, k: int|
            0 <= j < k < keys.len() ==> (#[trigger] stable_order(keys)[j]).1 != (
            #[trigger] stable_order(keys)[k]).1,
        forall|i: int|
            0 <= i < keys.len() ==> stable_order(keys).contains(#[trigger] ranked(keys)[i]),
{
    broadcast use group_to_multiset_ensures;

    let r = ranked(keys);
    let o = stable_order(keys);
    lemma_ranked_order_total();
    r.lemma_sort_by_ensures(ranked_order());
    assert(o.len() == o.to_multiset().len());
    assert(r.len() == r.to_multiset().len());
    assert forall|j: int| 0 <= j < keys.len() implies 0 <= (#[trigger] o[j]).1 < keys.len()
        && o[j].0 == keys[o[j].1] by {
        assert(o.contains(o[j]));
        assert(r.to_multiset().count(o[j]) > 0);
        assert(r.contains(o[j]));
        let i = choose|i: int| 0 <= i < r.len() && r[i] == o[j];
        assert(r[i] == (keys[i], i));
    }
    assert(r.no_duplicates());
    r.lemma_multiset_has_no_duplicates();
    o.lemma_multiset_has_no_duplicates_conv();
    assert forall|j: int, k: int| 0 <= j < k < keys.len() implies (#[trigger] o[j]).1 != (
    #[trigger] o[k]).1 by {
        assert(o[j] != o[k]);
    }
    assert forall|i: int| 0 <= i < keys.len() implies o.contains(#[trigger] r[i]) by {
        assert(r.contains(r[i]));
        assert(o.to_multiset().count(r[i]) > 0);
    }
}

/// There is one way only to put the pairs of `keys` in ascending order.
pub proof fn lemma_stable_order_unique(keys: Seq<int>, t: Seq<Ranked>)
    requires
        t.to_multiset() == ranked(keys).to_multiset(),
        sorted_by(t, ranked_order()),
    ensures
        t == stable_order(keys),
{
    lemma_ranked_order_total();
    ranked(keys).lemma_sort_by_ensures(ranked_order());
    lemma_sorted_unique(t, stable_order(keys), ranked_order());
}

/// Keys that already ascend are left where they stand.
pub proof fn lemma_stable_order_of_ascending(keys: Seq<int>)
    requires
        ascending(keys),
    ensures
        stable_order(keys) == ranked(keys),
{
    let r = ranked(keys);
    assert(sorted_by(r, ranked_order())) by {
        assert forall|i: int, j: int| 0 <= i < j < r.len() implies #[trigger] ranked_le(
            r[i],
            r[j],
        ) by {
            assert(keys[i] <= keys[j]);
        }
    }
    lemma_stable_order_unique(keys, r);
}

/// Arranging a queue loses nothing and adds nothing, puts the keys in
/// ascending order, and keeps elements with equal keys in their order.
pub proof fn lemma_arrange<T>(s: Seq<T>, keys: Seq<int>)
    requires
        keys.len() == s.len(),
    ensures
        arrange(s, keys).len() == s.len(),
        arrange(s, keys).to_multiset() == s.to_multiset(),
        arrange(keys, keys) == stable_order(keys).map_values(|p: Ranked| p.0),
        ascending(arrange(keys, keys)),
        forall|j: int, k: int|
            0 <= j < k < keys.len() && (#[trigger] stable_order(keys)[j]).0 == (
            #[trigger] stable_order(keys)[k]).0 ==> stable_order(keys)[j].1 < stable_order(
                keys,
            )[k].1,
{
    let r = ranked(keys);
    let o = stable_order(keys);
    lemma_stable_order(keys);
    let pick = |p: Ranked| s[p.1];
    lemma_map_values_multiset(o, r, pick);
    assert(o.map_values(pick) =~= arrange(s, keys));
    assert(r.map_values(pick) =~= s);
    assert(arrange(keys, keys) =~= o.map_values(|p: Ranked| p.0));
    assert forall|j: int, k: int| 0 <= j < k < keys.len() implies arrange(keys, keys)[j]
        <= arrange(keys, keys)[k] by {
        assert(ranked_order()(o[j], o[k]));
    }
    assert forall|j: int, k: int|
        0 <= j < k < keys.len() && (#[trigger] o[j]).0 == (#[trigger] o[k]).0 implies o[j].1
        < o[k].1 by {
        assert(ranked_order()(o[j], o[k]));
    }
}

/// Every element of an arranged queue is an element of the queue.
pub proof fn lemma_arrange_members<T>(s: Seq<T>, keys: Seq<int>)
    requires
        keys.len() == s.len(),
    ensures
        arrange(s, keys).len() == s.len(),
        forall|j: int| 0 <= j < s.len() ==> s.contains(#[trigger] arrange(s, keys)[j]),
{
    lemma_stable_order(keys);
    assert forall|j: int| 0 <= j < s.len() implies s.contains(#[trigger] arrange(s, keys)[j]) by {
        let from = stable_order(keys)[j].1;
        assert(s[from] == arrange(s, keys)[j]);
    }
}

/// Putting in order a queue whose keys already ascend changes nothing.
pub proof fn lemma_arrange_of_ascending<T>(s: Seq<T>, keys: Seq<int>)
    requires
        keys.len() == s.len(),
        ascending(keys),
    ensures
        arrange(s, keys) == s,
{
    lemma_stable_order_of_ascending(keys);
    assert(arrange(s, keys) =~= s);
}

/// Elements may be rearranged before or after a function is applied to
/// each: the result is the same.
pub proof fn lemma_arrange_map_values<A, B>(s: Seq<A>, keys: Seq<int>, f: spec_fn(A) -> B)
    requires
        keys.len() == s.len(),
    ensures
        arrange(s, keys).map_values(f) == arrange(s.map_values(f), keys),
{
    lemma_stable_order(keys);
    assert(arrange(s, keys).map_values(f) =~= arrange(s.map_values(f), keys));
}

/// A queue that has been put in order is in order: its keys ascend.
pub proof fn lemma_sorted_ascends(order: QueueOrder, s: Seq<ProcessView>)
    ensures
        order.sorted(s).len() == s.len(),
        order.sorted(s).to_multiset() == s.to_multiset(),
        ascending(order.keys(order.sorted(s))),
{
    let keys = order.keys(s);
    lemma_arrange(s, keys);
    lemma_stable_order(keys);
    assert(order.keys(order.sorted(s)) =~= arrange(keys, keys));
}

/// Putting a queue in order a second time changes nothing, and a queue
/// whose keys ascend already is left as it is: no process moves and none is
/// lost.
pub proof fn lemma_sorting_again_changes_nothing(order: QueueOrder, s: Seq<ProcessView>)
    ensures
        order.sorted(order.sorted(s)) == order.sorted(s),
        ascending(order.keys(s)) ==> order.sorted(s) == s,
{
    lemma_sorted_ascends(order, s);
    lemma_arrange_of_ascending(order.sorted(s), order.keys(order.sorted(s)));
    if ascending(order.keys(s)) {
        lemma_arrange_of_ascending(s, order.keys(s));
    }
}

/// Taking processes out of a queue that is in order leaves it in order.
pub proof fn lemma_filter_keeps_order(
    order: QueueOrder,
    s: Seq<ProcessView>,
    test: spec_fn(ProcessView) -> bool,
)
    requires
        ascending(order.keys(s)),
    ensures
        ascending(order.keys(s.filter(test))),
    decreases s.len(),
{
    reveal(Seq::filter);
    if s.len() > 0 {
        let most = s.drop_last();
        let kept = most.filter(test);
        assert(order.keys(most) =~= order.keys(s).drop_last());
        lemma_filter_keeps_order(order, most, test);
        crate::tally::lemma_filter_members(most, test);
        if test(s.last()) {
            let keys = order.keys(kept.push(s.last()));
            assert forall|i: int, j: int| 0 <= i < j < keys.len() implies keys[i] <= keys[j] by {
                if j < kept.len() {
                    assert(order.keys(kept)[i] <= order.keys(kept)[j]);
                } else {
                    assert(most.contains(kept[i]));
                    let k = choose|k: int| 0 <= k < most.len() && most[k] == kept[i];
                    assert(order.keys(s)[k] <= order.keys(s)[s.len() - 1]);
                }
            }
        }
    }
}

/// A queue that is in order stays in order when its head leaves.
pub proof fn lemma_tail_keeps_order(order: QueueOrder, s: Seq<ProcessView>)
    requires
        ascending(order.keys(s)),
        s.len() > 0,
    ensures
        ascending(order.keys(s.skip(1))),
{
    let keys = order.keys(s.skip(1));
    assert forall|i: int, j: int| 0 <= i < j < keys.len() implies keys[i] <= keys[j] by {
        assert(order.keys(s)[i + 1] <= order.keys(s)[j + 1]);
    }
}

/// Sorts `pairs` in place with `sorts::quick_sort::quick_sort`, which
/// compares two pairs with `<`: by key first, then by position.
///
/// Taken on trust: afterwards `pairs` holds the pairs it held before, each
/// as often as before, and no pair stands before a smaller one.  The sort
/// recurses once for each partition, so its stack use grows with the length
/// of `pairs`.
#[verifier::external_body]
fn quick_sort_pairs(pairs: &mut Vec<(i32, usize)>)
    ensures
        final(pairs)@.to_multiset() == old(pairs)@.to_multiset(),
        forall|i: int, j: int|
            0 <= i < j < final(pairs)@.len() ==> ranked_le(
                widen(#[trigger] final(pairs)@[i]),
                widen(#[trigger] final(pairs)@[j]),
            ),
{
    sorts::quick_sort::quick_sort(pairs.as_mut_slice());
}

/// Puts `queue` in the given order.  Processes whose keys are equal stay in
/// the order in which they stood, so a queue that is in order already is
/// left unchanged.
pub fn sort_queue(queue: &mut VecDeque<Process>, order: QueueOrder)
    requires
        order.applies_to(views(old(queue)@)),
    ensures
        final(queue)@ == arrange(old(queue)@, order.keys(views(old(queue)@))),
        views(final(queue)@) == order.sorted(views(old(queue)@)),
{
    let n: usize = queue.len();
    let ghost q0 = queue@;
    let ghost keys = order.keys(views(q0));
    let mut pairs: Vec<(i32, usize)> = Vec::new();
    let mut i: usize = 0;
    while i < n
        invariant
            queue@ == q0,
            n == q0.len(),
            keys == order.keys(views(q0)),
            order.applies_to(views(q0)),
            i <= n,
            pairs@.len() == i,
            forall|k: int| 0 <= k < i ==> widen(#[trigger] pairs@[k]) == (keys[k], k),
        decreases n - i,
    {
        let key: i32 = match order {
            QueueOrder::ShortestBurst => {
                assert(views(q0)[i as int].has_burst());
                queue[i].process_bursts[0]
            },
            QueueOrder::SoonestReturn => queue[i].return_from_io_time,
        };
        pairs.push((key, i));
        i = i + 1;
    }
    let ghost unsorted = pairs@;
    quick_sort_pairs(&mut pairs);
    let ghost turn = stable_order(keys);
    proof {
        let w = |p: (i32, usize)| widen(p);
        lemma_map_values_multiset(pairs@, unsorted, w);
        assert(unsorted.map_values(w) =~= ranked(keys));
        assert(sorted_by(pairs@.map_values(w), ranked_order()));
        lemma_stable_order_unique(keys, pairs@.map_values(w));
        lemma_stable_order(keys);
        assert(pairs@.len() == n);
        assert forall|k: int| 0 <= k < n implies (#[trigger] pairs@[k]).1 == turn[k].1 by {
            assert(pairs@.map_values(w)[k] == turn[k]);
        }
    }
    let mut slots: Vec<Option<Process>> = Vec::new();
    let mut i: usize = 0;
    while i < n
        invariant
            n == q0.len(),
            i <= n,
            slots@.len() == i,
            queue@ == q0.skip(i as int),
            forall|k: int| 0 <= k < i ==> #[trigger] slots@[k] == Some(q0[k]),
        decreases n - i,
    {
        let front = queue.pop_front();
        slots.push(front);
        i = i + 1;
    }
    assert(queue@ =~= Seq::<Process>::empty());
    let mut j: usize = 0;
    while j < n
        invariant
            n == q0.len(),
            keys.len() == n,
            turn == stable_order(keys),
            turn.len() == n,
            pairs@.len() == n,
            forall|k: int| 0 <= k < n ==> (#[trigger] pairs@[k]).1 == turn[k].1,
            forall|k: int| 0 <= k < n ==> 0 <= (#[trigger] turn[k]).1 < n,
            forall|k: int, l: int|
                0 <= k < l < n ==> (#[trigger] turn[k]).1 != (#[trigger] turn[l]).1,
            j <= n,
            slots@.len() == n,
            queue@.len() == j,
            forall|k: int| 0 <= k < j ==> #[trigger] queue@[k] == q0[turn[k].1],
            forall|k: int| j <= k < n ==> slots@[(#[trigger] turn[k]).1] == Some(q0[turn[k].1]),
        decreases n - j,
    {
        let from: usize = pairs[j].1;
        assert(from == turn[j as int].1);
        slots.push(None);
        let taken = slots.swap_remove(from);
        match taken {
            Some(process) => {
                queue.push_back(process);
            },
            None => {
                assert(false);
            },
        }
        j = j + 1;
    }
    proof {
        assert(queue@ =~= arrange(q0, keys));
        lemma_arrange_map_values(q0, keys, |p: Process| p@);
    }
}

} // verus!
