//! Stable ordering: the order in which tiles load and labels compete for space.

use vstd::prelude::*;

verus! {

/// A type with a total preorder on its values.
pub trait Ranked: Sized {
    /// `self` ranks no later than `other`.
    spec fn precedes(&self, other: &Self) -> bool;

    proof fn total(a: &Self, b: &Self)
        ensures
            a.precedes(b) || b.precedes(a),
    ;

    proof fn transitive(a: &Self, b: &Self, c: &Self)
        requires
            a.precedes(b),
            b.precedes(c),
        ensures
            a.precedes(c),
    ;

    fn ranks_before(&self, other: &Self) -> (r: bool)
        ensures
            r == self.precedes(other),
    ;
}

/// `order` lists the positions of `items`, each once, by rank; items of equal
/// rank keep the order they had.
pub open spec fn stable_order<T: Ranked>(items: Seq<T>, order: Seq<usize>) -> bool {
    &&& order.len() == items.len()
    &&& forall|i: int| 0 <= i < order.len() ==> #[trigger] order[i] < items.len()
    &&& forall|k: usize| k < items.len() ==> order.contains(k)
    &&& forall|i: int, j: int|
        #![trigger order[i], order[j]]
        0 <= i < j < order.len() ==> stands_before(items, order[i], order[j])
}

/// Position `a` has to come before position `b` in a stable order of `items`.
pub open spec fn stands_before<T: Ranked>(items: Seq<T>, a: usize, b: usize) -> bool {
    &&& items[a as int].precedes(&items[b as int])
    &&& items[b as int].precedes(&items[a as int]) ==> a < b
}

/// The positions of `items` in stable order of rank.
pub fn stable_sort<T: Ranked>(items: &Vec<T>) -> (order: Vec<usize>)
    ensures
        stable_order(items@, order@),
{
    let mut order: Vec<usize> = Vec::new();
    let mut k: usize = 0;
    while k < items.len()
        invariant
            k <= items.len(),
            stable_order(items@.take(k as int), order@),
        decreases items.len() - k,
    {
        let ghost done = items@.take(k as int);
        let ghost more = items@.take(k as int + 1);
        let ghost before = order@;
        let mut p: usize = k;
        while p > 0 && !items[order[p - 1]].ranks_before(&items[k])
            invariant
                p <= k < items.len(),
                before == order@,
                done == items@.take(k as int),
                stable_order(done, before),
                forall|j: int| p <= j < k ==> !items@[#[trigger] before[j] as int].precedes(&items@[k as int]),
            decreases p,
        {
            p = p - 1;
        }
        order.insert(p, k);
        proof {
            lemma_inserted(items@, before, p as int, k);
        }
        k = k + 1;
    }
    proof {
        assert(items@.take(k as int) =~= items@);
    }
    order
}

proof fn lemma_inserted<T: Ranked>(items: Seq<T>, before: Seq<usize>, p: int, k: usize)
    requires
        k < items.len(),
        0 <= p <= k,
        stable_order(items.take(k as int), before),
        p > 0 ==> items[before[p - 1] as int].precedes(&items[k as int]),
        forall|j: int| p <= j < k ==> !items[#[trigger] before[j] as int].precedes(&items[k as int]),
    ensures
        stable_order(items.take(k as int + 1), before.insert(p, k)),
{
    let done = items.take(k as int);
    let more = items.take(k as int + 1);
    let after = before.insert(p, k);
    assert forall|c: usize| c < more.len() implies after.contains(c) by {
        if c == k {
            assert(after[p] == k);
        } else {
            assert(before.contains(c));
            let i = choose|i: int| 0 <= i < before.len() && before[i] == c;
            if i < p {
                assert(after[i] == c);
            } else {
                assert(after[i + 1] == c);
            }
        }
    }
    assert forall|i: int, j: int| #![trigger after[i], after[j]] 0 <= i < j < after.len() implies stands_before(
        more,
        after[i],
        after[j],
    ) by {
        let bi = if i < p { i } else { i - 1 };
        let bj = if j < p { j } else { j - 1 };
        if j == p {
            assert(after[i] == before[i]);
            assert(before[p - 1] < done.len());
            if i < p - 1 {
                assert(stands_before(done, before[i], before[p - 1]));
                T::transitive(
                    &items[before[i] as int],
                    &items[before[p - 1] as int],
                    &items[k as int],
                );
            }
        } else if i == p {
            assert(after[j] == before[bj]);
            T::total(&items[before[bj] as int], &items[k as int]);
        } else {
            assert(after[i] == before[bi] && after[j] == before[bj]);
            assert(stands_before(done, before[bi], before[bj]));
        }
    }
}

/// Items have one stable order only.
pub proof fn stable_order_is_unique<T: Ranked>(items: Seq<T>, a: Seq<usize>, b: Seq<usize>)
    requires
        stable_order(items, a),
        stable_order(items, b),
        items.len() <= usize::MAX,
    ensures
        a == b,
{
    lemma_agree(items, a, b, items.len() as int);
    assert(a =~= b);
}

proof fn lemma_agree<T: Ranked>(items: Seq<T>, a: Seq<usize>, b: Seq<usize>, n: int)
    requires
        stable_order(items, a),
        stable_order(items, b),
        0 <= n <= items.len(),
        items.len() <= usize::MAX,
    ensures
        forall|i: int| 0 <= i < n ==> #[trigger] a[i] == b[i],
    decreases n,
{
    if n > 0 {
        let i = n - 1;
        lemma_agree(items, a, b, i);
        if a[i] != b[i] {
            assert(b.contains(a[i]));
            assert(a.contains(b[i]));
            let j = choose|j: int| 0 <= j < b.len() && b[j] == a[i];
            let m = choose|m: int| 0 <= m < a.len() && a[m] == b[i];
            if j < i {
                assert(a[j] == b[j]);
                assert(stands_before(items, a[j], a[i]));
            } else if m < i {
                assert(a[m] == b[m]);
                assert(stands_before(items, b[m], b[i]));
            } else {
                assert(stands_before(items, b[i], b[j]));
                assert(stands_before(items, a[i], a[m]));
            }
        }
    }
}

/// In a stable order every position stands once; of two, the one that stands first
/// ranks no later, and where their ranks are equal it stood first among the items.
pub proof fn order_is_by_rank_and_then_by_place<T: Ranked>(
    items: Seq<T>,
    order: Seq<usize>,
    i: int,
    j: int,
)
    requires
        stable_order(items, order),
        0 <= i < j < order.len(),
    ensures
        order[i] != order[j],
        items[order[i] as int].precedes(&items[order[j] as int]),
        items[order[j] as int].precedes(&items[order[i] as int]) ==> order[i] < order[j],
        order.len() == items.len(),
        forall|k: usize| k < items.len() ==> order.contains(k),
{
    assert(stands_before(items, order[i], order[j]));
    if order[i] == order[j] {
        T::total(&items[order[i] as int], &items[order[i] as int]);
    }
}

}
