//! Putting the items of a list in order, without moving them.
//!
//! A list is ordered by the places of its items: the result names, smallest first, the
//! place that each item has in the list. Items that the order does not tell apart keep the
//! order in which the list holds them.

use vstd::prelude::*;
use vstd::relations::injective_on;
use vstd::set_lib::{lemma_int_range, lemma_len_subset, lemma_map_size, lemma_map_size_bound, set_int_range};

verus! {

/// A way to compare two items: a strict order in which being incomparable is transitive.
pub trait Comparison<T> {
    /// The items that this comparison can handle.
    spec fn admits(&self, item: T) -> bool;

    /// Whether `a` comes strictly before `b`.
    spec fn below(&self, a: T, b: T) -> bool;

    /// Tells whether `a` comes strictly before `b`.
    fn is_below(&self, a: &T, b: &T) -> (below: bool)
        requires
            self.admits(*a),
            self.admits(*b),
        ensures
            below == self.below(*a, *b),
    ;

    /// Nothing is below itself; `below` is transitive; and what is below `c` is below any `b`
    /// or has that `b` below `c`.
    proof fn weak_order(&self, a: T, b: T, c: T)
        requires
            self.admits(a),
            self.admits(b),
            self.admits(c),
        ensures
            !self.below(a, a),
            self.below(a, b) && self.below(b, c) ==> self.below(a, c),
            self.below(a, c) ==> self.below(a, b) || self.below(b, c),
    ;
}

/// Whether place `i` of `items` comes before place `j`: its item is below the other, or the two
/// are not told apart and `i` is the earlier place.
pub open spec fn precedes<T, C: Comparison<T>>(by: C, items: Seq<T>, i: int, j: int) -> bool {
    by.below(items[i], items[j]) || (!by.below(items[j], items[i]) && i < j)
}

/// Whether `place` stands somewhere in `order`.
pub open spec fn names(order: Seq<usize>, place: int) -> bool {
    exists|k: int| 0 <= k < order.len() && #[trigger] order[k] == place
}

/// Whether `order` names each place from `lo` up to `hi` once, in the order of their items.
pub open spec fn is_order_of<T, C: Comparison<T>>(
    by: C,
    items: Seq<T>,
    order: Seq<usize>,
    lo: int,
    hi: int,
) -> bool {
    &&& order.len() == hi - lo
    &&& forall|k: int| 0 <= k < order.len() ==> lo <= #[trigger] order[k] < hi
    &&& forall|i: int| lo <= i < hi ==> #[trigger] names(order, i)
    &&& forall|k: int, l: int|
        0 <= k < l < order.len() ==> precedes(by, items, #[trigger] order[k] as int, #[trigger] order[l] as int)
}

/// Whether `order` names every place of `items` once, in the order of their items.
pub open spec fn is_order<T, C: Comparison<T>>(by: C, items: Seq<T>, order: Seq<usize>) -> bool {
    is_order_of(by, items, order, 0, items.len() as int)
}

/// The items of `items` in the order that `order` gives.
pub open spec fn arranged<T>(items: Seq<T>, order: Seq<usize>) -> Seq<T> {
    Seq::new(order.len(), |k: int| items[order[k] as int])
}

/// `precedes` is transitive.
pub proof fn lemma_precedes_transitive<T, C: Comparison<T>>(by: C, items: Seq<T>, i: int, j: int, k: int)
    requires
        0 <= i < items.len(),
        0 <= j < items.len(),
        0 <= k < items.len(),
        by.admits(items[i]),
        by.admits(items[j]),
        by.admits(items[k]),
        precedes(by, items, i, j),
        precedes(by, items, j, k),
    ensures
        precedes(by, items, i, k),
{
    by.weak_order(items[i], items[j], items[k]);
    by.weak_order(items[k], items[j], items[i]);
    by.weak_order(items[j], items[i], items[k]);
    by.weak_order(items[j], items[k], items[i]);
    by.weak_order(items[i], items[k], items[j]);
    by.weak_order(items[k], items[i], items[j]);
}

/// The places of `items` whose item is strictly below `pivot`.
pub open spec fn places_below<T, C: Comparison<T>>(by: C, items: Seq<T>, pivot: T) -> Set<int> {
    Set::new(|i: int| 0 <= i < items.len() && by.below(items[i], pivot))
}

/// The places of `items` whose item `pivot` is not strictly below.
pub open spec fn places_up_to<T, C: Comparison<T>>(by: C, items: Seq<T>, pivot: T) -> Set<int> {
    Set::new(|i: int| 0 <= i < items.len() && !by.below(pivot, items[i]))
}

/// An order names no place twice.
pub proof fn lemma_order_distinct<T, C: Comparison<T>>(by: C, items: Seq<T>, order: Seq<usize>, k: int, l: int)
    requires
        is_order(by, items, order),
        forall|i: int| 0 <= i < items.len() ==> by.admits(#[trigger] items[i]),
        0 <= k < l < order.len(),
    ensures
        order[k] != order[l],
{
    assert(precedes(by, items, order[k] as int, order[l] as int));
    by.weak_order(items[order[k] as int], items[order[k] as int], items[order[k] as int]);
}

proof fn lemma_order_same_start<T, C: Comparison<T>>(
    by: C,
    items: Seq<T>,
    first: Seq<usize>,
    second: Seq<usize>,
    k: int,
)
    requires
        is_order(by, items, first),
        is_order(by, items, second),
        forall|i: int| 0 <= i < items.len() ==> by.admits(#[trigger] items[i]),
        0 <= k <= items.len(),
    ensures
        first.take(k) == second.take(k),
    decreases k,
{
    if k == 0 {
        assert(first.take(0) =~= second.take(0));
    } else {
        lemma_order_same_start(by, items, first, second, k - 1);
        let x = first[k - 1] as int;
        let y = second[k - 1] as int;
        if x != y {
            assert(names(second, x));
            let l = choose|l: int| 0 <= l < second.len() && second[l] == x;
            if l < k - 1 {
                assert(second.take(k - 1)[l] == first.take(k - 1)[l]);
                lemma_order_distinct(by, items, first, l, k - 1);
            }
            assert(precedes(by, items, second[k - 1] as int, second[l] as int));
            assert(names(first, y));
            let m = choose|m: int| 0 <= m < first.len() && first[m] == y;
            if m < k - 1 {
                assert(first.take(k - 1)[m] == second.take(k - 1)[m]);
                lemma_order_distinct(by, items, second, m, k - 1);
            }
            assert(precedes(by, items, first[k - 1] as int, first[m] as int));
            by.weak_order(items[x], items[y], items[x]);
            assert(false);
        }
        assert(first.take(k) =~= first.take(k - 1).push(first[k - 1]));
        assert(second.take(k) =~= second.take(k - 1).push(second[k - 1]));
    }
}

/// A list has one order.
pub proof fn lemma_order_unique<T, C: Comparison<T>>(by: C, items: Seq<T>, first: Seq<usize>, second: Seq<usize>)
    requires
        is_order(by, items, first),
        is_order(by, items, second),
        forall|i: int| 0 <= i < items.len() ==> by.admits(#[trigger] items[i]),
    ensures
        first == second,
{
    lemma_order_same_start(by, items, first, second, items.len() as int);
    assert(first.take(items.len() as int) =~= first);
    assert(second.take(items.len() as int) =~= second);
}

/// The item that an order puts at place `h` has at most `h` items strictly below it, and is
/// strictly below at most all but `h + 1` items.
pub proof fn lemma_rank<T, C: Comparison<T>>(by: C, items: Seq<T>, order: Seq<usize>, h: int)
    requires
        is_order(by, items, order),
        forall|i: int| 0 <= i < items.len() ==> by.admits(#[trigger] items[i]),
        0 <= h < items.len(),
    ensures
        places_below(by, items, items[order[h] as int]).finite(),
        places_up_to(by, items, items[order[h] as int]).finite(),
        places_below(by, items, items[order[h] as int]).len() <= h,
        places_up_to(by, items, items[order[h] as int]).len() >= h + 1,
{
    let n = items.len() as int;
    let pivot = items[order[h] as int];
    let f = |k: int| order[k] as int;
    let below = places_below(by, items, pivot);
    let up_to = places_up_to(by, items, pivot);
    let early = set_int_range(0, h);
    let early_places = early.map(f);
    lemma_int_range(0, h);
    lemma_int_range(0, h + 1);
    lemma_int_range(0, n);
    lemma_map_size_bound(early, early_places, f);
    assert forall|i: int| below.contains(i) implies early_places.contains(i) by {
        assert(names(order, i));
        let k = choose|k: int| 0 <= k < order.len() && order[k] == i;
        by.weak_order(items[i], pivot, items[i]);
        if k > h {
            assert(precedes(by, items, order[h] as int, order[k] as int));
        }
        assert(early.contains(k) && f(k) == i);
    }
    lemma_len_subset(below, early_places);
    let first = set_int_range(0, h + 1);
    let first_places = first.map(f);
    assert(injective_on(f, first)) by {
        assert forall|k: int, l: int| first.contains(k) && first.contains(l) && #[trigger] f(k) == #[trigger] f(l)
            implies k == l by {
            if k < l {
                lemma_order_distinct(by, items, order, k, l);
            }
            if l < k {
                lemma_order_distinct(by, items, order, l, k);
            }
        }
    }
    lemma_map_size(first, first_places, f);
    assert(up_to.subset_of(set_int_range(0, n)));
    lemma_len_subset(up_to, set_int_range(0, n));
    assert forall|i: int| first_places.contains(i) implies up_to.contains(i) by {
        let k = choose|k: int| first.contains(k) && f(k) == i;
        by.weak_order(pivot, items[i], pivot);
        if k < h {
            assert(precedes(by, items, order[k] as int, order[h] as int));
        }
    }
    lemma_len_subset(first_places, up_to);
}

fn merge<T, C: Comparison<T>>(
    by: &C,
    items: &Vec<T>,
    left: Vec<usize>,
    right: Vec<usize>,
    Ghost(lo): Ghost<int>,
    Ghost(mid): Ghost<int>,
    Ghost(hi): Ghost<int>,
) -> (order: Vec<usize>)
    requires
        0 <= lo <= mid <= hi <= items.len(),
        forall|i: int| 0 <= i < items.len() ==> by.admits(#[trigger] items[i]),
        is_order_of(*by, items@, left@, lo, mid),
        is_order_of(*by, items@, right@, mid, hi),
    ensures
        is_order_of(*by, items@, order@, lo, hi),
{
    let mut order: Vec<usize> = Vec::new();
    let mut i: usize = 0;
    let mut j: usize = 0;
    while i < left.len() || j < right.len()
        invariant
            0 <= lo <= mid <= hi <= items.len(),
            forall|i: int| 0 <= i < items.len() ==> by.admits(#[trigger] items[i]),
            is_order_of(*by, items@, left@, lo, mid),
            is_order_of(*by, items@, right@, mid, hi),
            i <= left.len(),
            j <= right.len(),
            order.len() == i + j,
            forall|k: int| 0 <= k < order.len() ==> lo <= #[trigger] order[k] < hi,
            forall|k: int, l: int|
                0 <= k < l < order.len() ==> precedes(
                    *by,
                    items@,
                    #[trigger] order[k] as int,
                    #[trigger] order[l] as int,
                ),
            forall|k: int, l: int|
                0 <= k < order.len() && i <= l < left.len() ==> precedes(
                    *by,
                    items@,
                    #[trigger] order[k] as int,
                    #[trigger] left[l] as int,
                ),
            forall|k: int, l: int|
                0 <= k < order.len() && j <= l < right.len() ==> precedes(
                    *by,
                    items@,
                    #[trigger] order[k] as int,
                    #[trigger] right[l] as int,
                ),
            forall|l: int| 0 <= l < i ==> names(order@, #[trigger] left[l] as int),
            forall|l: int| 0 <= l < j ==> names(order@, #[trigger] right[l] as int),
        decreases left.len() - i + right.len() - j,
    {
        let ghost before = order@;
        assert(forall|l: int| 0 <= l < i ==> names(before, #[trigger] left[l] as int));
        assert(forall|l: int| 0 <= l < j ==> names(before, #[trigger] right[l] as int));
        let take_left: bool = if j >= right.len() {
            true
        } else if i >= left.len() {
            false
        } else {
            !by.is_below(&items[right[j]], &items[left[i]])
        };
        if take_left {
            let x: usize = left[i];
            order.push(x);
            proof {
                assert forall|l: int| j <= l < right.len() implies precedes(
                    *by,
                    items@,
                    x as int,
                    #[trigger] right[l] as int,
                ) by {
                    if l > j {
                        lemma_precedes_transitive(*by, items@, x as int, right[j as int] as int, right[l] as int);
                    }
                }
                assert forall|l: int| 0 <= l < i + 1 implies names(
                    order@,
                    #[trigger] left[l] as int,
                ) by {
                    if l < i {
                        let k = choose|k: int| 0 <= k < before.len() && before[k] == left[l];
                        assert(order[k] == left[l]);
                    } else {
                        assert(order[order.len() - 1] == left[l]);
                    }
                }
                assert forall|l: int| 0 <= l < j implies names(
                    order@,
                    #[trigger] right[l] as int,
                ) by {
                    let k = choose|k: int| 0 <= k < before.len() && before[k] == right[l];
                    assert(order[k] == right[l]);
                }
            }
            i += 1;
        } else {
            let x: usize = right[j];
            order.push(x);
            proof {
                assert forall|l: int| i <= l < left.len() implies precedes(
                    *by,
                    items@,
                    x as int,
                    #[trigger] left[l] as int,
                ) by {
                    assert(precedes(*by, items@, x as int, left[i as int] as int));
                    if l > i {
                        lemma_precedes_transitive(*by, items@, x as int, left[i as int] as int, left[l] as int);
                    }
                }
                assert forall|l: int| 0 <= l < j + 1 implies names(
                    order@,
                    #[trigger] right[l] as int,
                ) by {
                    if l < j {
                        let k = choose|k: int| 0 <= k < before.len() && before[k] == right[l];
                        assert(order[k] == right[l]);
                    } else {
                        assert(order[order.len() - 1] == right[l]);
                    }
                }
                assert forall|l: int| 0 <= l < i implies names(
                    order@,
                    #[trigger] left[l] as int,
                ) by {
                    let k = choose|k: int| 0 <= k < before.len() && before[k] == left[l];
                    assert(order[k] == left[l]);
                }
            }
            j += 1;
        }
    }
    proof {
        assert forall|p: int| lo <= p < hi implies #[trigger] names(order@, p) by {
            if p < mid {
                assert(names(left@, p));
                let l = choose|l: int| 0 <= l < left.len() && left[l] == p;
                assert(names(order@, left[l] as int));
            } else {
                assert(names(right@, p));
                let l = choose|l: int| 0 <= l < right.len() && right[l] == p;
                assert(names(order@, right[l] as int));
            }
        }
    }
    order
}

fn sorted_range<T, C: Comparison<T>>(by: &C, items: &Vec<T>, lo: usize, hi: usize) -> (order: Vec<usize>)
    requires
        lo <= hi <= items.len(),
        forall|i: int| 0 <= i < items.len() ==> by.admits(#[trigger] items[i]),
    ensures
        is_order_of(*by, items@, order@, lo as int, hi as int),
    decreases hi - lo,
{
    let mut order: Vec<usize> = Vec::new();
    if hi - lo == 0 {
        order
    } else if hi - lo == 1 {
        order.push(lo);
        assert(order[0] == lo);
        assert(names(order@, lo as int));
        order
    } else {
        let mid: usize = lo + (hi - lo) / 2;
        let left = sorted_range(by, items, lo, mid);
        let right = sorted_range(by, items, mid, hi);
        merge(by, items, left, right, Ghost(lo as int), Ghost(mid as int), Ghost(hi as int))
    }
}

/// The places of `items` in the order of their items, equal items in the order of their
/// places.
pub fn sorted_order<T, C: Comparison<T>>(by: &C, items: &Vec<T>) -> (order: Vec<usize>)
    requires
        forall|i: int| 0 <= i < items.len() ==> by.admits(#[trigger] items[i]),
    ensures
        is_order(*by, items@, order@),
{
    sorted_range(by, items, 0, items.len())
}


/// Two tests that agree on every item of a list pick the same items from it.
pub proof fn lemma_filter_same<T>(items: Seq<T>, p: spec_fn(T) -> bool, q: spec_fn(T) -> bool)
    requires
        forall|i: int| 0 <= i < items.len() ==> p(#[trigger] items[i]) == q(items[i]),
    ensures
        items.filter(p) == items.filter(q),
    decreases items.len(),
{
    reveal(Seq::filter);
    if items.len() > 0 {
        let rest = items.drop_last();
        assert forall|i: int| 0 <= i < rest.len() implies p(#[trigger] rest[i]) == q(rest[i]) by {
            assert(rest[i] == items[i]);
        }
        lemma_filter_same(rest, p, q);
        assert(items.last() == items[items.len() - 1]);
    }
}

} // verus!
