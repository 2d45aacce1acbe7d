//! Sorting by a total order of the item type.

use vstd::multiset::Multiset;
use vstd::prelude::*;

verus! {

/// A total order. Items that are ordered both ways need not be equal.
pub trait Ranked: Sized {
    /// `self` may stand before `other`.
    spec fn ranked_le(self, other: Self) -> bool;

    proof fn ranked_total(a: Self, b: Self)
        ensures
            a.ranked_le(b) || b.ranked_le(a),
    ;

    proof fn ranked_transitive(a: Self, b: Self, c: Self)
        requires
            a.ranked_le(b),
            b.ranked_le(c),
        ensures
            a.ranked_le(c),
    ;

    fn is_ranked_le(&self, other: &Self) -> (r: bool)
        ensures
            r == self.ranked_le(*other),
    ;
}

/// Every item may stand before every later one.
pub open spec fn in_order<T: Ranked>(s: Seq<T>) -> bool {
    forall|i: int, j: int| 0 <= i < j < s.len() ==> (#[trigger] s[i]).ranked_le(#[trigger] s[j])
}

/// Every item of `low` may stand before every item of `high`.
spec fn all_le<T: Ranked>(low: Seq<T>, high: Seq<T>) -> bool {
    forall|i: int, j: int|
        0 <= i < low.len() && 0 <= j < high.len() ==> (#[trigger] low[i]).ranked_le(
            #[trigger] high[j],
        )
}

/// The items of `v`, last one first.
pub(crate) fn reversed<T>(v: Vec<T>) -> (r: Vec<T>)
    ensures
        r@ == v@.reverse(),
{
    let mut v = v;
    let ghost all = v@;
    let mut r: Vec<T> = Vec::with_capacity(v.len());
    while v.len() > 0
        invariant
            v@.len() + r@.len() == all.len(),
            v@ == all.take(v@.len() as int),
            r@ == all.skip(v@.len() as int).reverse(),
        decreases v@.len(),
    {
        let ghost n = v@.len() as int;
        match v.pop() {
            Some(item) => {
                r.push(item);
                assert(v@ =~= all.take(n - 1));
                assert(r@ =~= all.skip(n - 1).reverse());
            },
            None => {},
        }
    }
    assert(all.skip(0) =~= all);
    r
}

/// Taking the last item off a sequence takes it out of the multiset.
proof fn lemma_pop_multiset<T>(s: Seq<T>)
    requires
        s.len() > 0,
    ensures
        s.to_multiset() == s.drop_last().to_multiset().insert(s.last()),
{
    broadcast use vstd::seq_lib::group_to_multiset_ensures;

    assert(s =~= s.drop_last().push(s.last()));
}

/// Merges two lists that are in order.
fn merge<T: Ranked>(left: Vec<T>, right: Vec<T>) -> (r: Vec<T>)
    requires
        in_order(left@),
        in_order(right@),
    ensures
        in_order(r@),
        r@.to_multiset() == left@.to_multiset().add(right@.to_multiset()),
{
    let mut left = left;
    let mut right = right;
    let ghost all = left@.to_multiset().add(right@.to_multiset());
    let mut top: Vec<T> = Vec::with_capacity(left.len());
    assert(top@.to_multiset() =~= Multiset::empty()) by {
        broadcast use vstd::seq_lib::group_to_multiset_ensures;

    }
    while left.len() > 0 || right.len() > 0
        invariant
            in_order(left@),
            in_order(right@),
            in_order(top@.reverse()),
            all_le(left@, top@),
            all_le(right@, top@),
            all == left@.to_multiset().add(right@.to_multiset()).add(top@.to_multiset()),
        decreases left@.len() + right@.len(),
    {
        let from_left: bool = if right.len() == 0 {
            true
        } else if left.len() == 0 {
            false
        } else {
            right[right.len() - 1].is_ranked_le(&left[left.len() - 1])
        };
        let ghost left0 = left@;
        let ghost right0 = right@;
        let ghost top0 = top@;
        proof {
            if left0.len() > 0 && right0.len() > 0 {
                T::ranked_total(left0.last(), right0.last());
            }
            if left0.len() > 0 {
                lemma_pop_multiset(left0);
            }
            if right0.len() > 0 {
                lemma_pop_multiset(right0);
            }
        }
        let popped: Option<T> = if from_left {
            left.pop()
        } else {
            right.pop()
        };
        match popped {
            Some(item) => {
                top.push(item);
                proof {
                    lemma_pop_multiset(top@);
                    assert(top@.drop_last() =~= top0);
                    if from_left {
                        assert(left@ =~= left0.drop_last());
                        assert forall|i: int| 0 <= i < right@.len() implies (
                        #[trigger] right@[i]).ranked_le(item) by {
                            if i < right@.len() - 1 {
                                T::ranked_transitive(right@[i], right@.last(), item);
                            }
                        }
                    } else {
                        assert(right@ =~= right0.drop_last());
                        assert forall|i: int| 0 <= i < left@.len() implies (
                        #[trigger] left@[i]).ranked_le(item) by {
                            if i < left@.len() - 1 {
                                T::ranked_transitive(left@[i], left@.last(), item);
                            }
                        }
                    }
                    assert(all =~= left@.to_multiset().add(right@.to_multiset()).add(
                        top@.to_multiset(),
                    ));
                    assert(top@.reverse() =~= seq![item] + top0.reverse());
                    assert forall|i: int, j: int| 0 <= i < j < top@.len() implies (
                    #[trigger] top@.reverse()[i]).ranked_le(#[trigger] top@.reverse()[j]) by {
                        if i > 0 {
                            assert(top@.reverse()[i] == top0.reverse()[i - 1]);
                            assert(top@.reverse()[j] == top0.reverse()[j - 1]);
                        } else {
                            assert(top@.reverse()[j] == top0[top0.len() - j]);
                        }
                    }
                }
            },
            None => {},
        }
    }
    proof {
        broadcast use vstd::seq_lib::group_to_multiset_ensures;

        assert(left@ =~= Seq::empty());
        assert(right@ =~= Seq::empty());
        assert(top@.to_multiset() =~= all);
        top@.lemma_reverse_to_multiset();
    }
    reversed(top)
}

/// The items of `items`, each as often as it occurs there, in order.
pub fn merge_sort<T: Ranked>(items: Vec<T>) -> (r: Vec<T>)
    ensures
        in_order(r@),
        r@.to_multiset() == items@.to_multiset(),
    decreases items@.len(),
{
    let mut items = items;
    if items.len() <= 1 {
        return items;
    }
    let ghost all = items@;
    let mid: usize = items.len() / 2;
    let upper: Vec<T> = items.split_off(mid);
    proof {
        assert(all =~= items@ + upper@);
        vstd::seq_lib::lemma_multiset_commutative(items@, upper@);
    }
    merge(merge_sort(items), merge_sort(upper))
}

/// An item may stand before another: it is ordered before it, or neither is ordered before the
/// other and it has the lower index.
pub open spec fn stable_le<T: Ranked>(a: T, i: usize, b: T, j: usize) -> bool {
    a.ranked_le(b) && (b.ranked_le(a) ==> i <= j)
}

/// An item and its index.
struct Place<'a, T> {
    item: &'a T,
    index: usize,
}

impl<'a, T: Ranked> Ranked for Place<'a, T> {
    closed spec fn ranked_le(self, other: Self) -> bool {
        stable_le(*self.item, self.index, *other.item, other.index)
    }

    proof fn ranked_total(a: Self, b: Self) {
        T::ranked_total(*a.item, *b.item);
    }

    proof fn ranked_transitive(a: Self, b: Self, c: Self) {
        T::ranked_transitive(*a.item, *b.item, *c.item);
        if c.item.ranked_le(*a.item) {
            T::ranked_transitive(*c.item, *a.item, *b.item);
            T::ranked_transitive(*b.item, *c.item, *a.item);
        }
    }

    fn is_ranked_le(&self, other: &Self) -> (r: bool) {
        self.item.is_ranked_le(other.item) && (!other.item.is_ranked_le(self.item) || self.index
            <= other.index)
    }
}

/// Every index may stand before every later one.
pub open spec fn is_sorted<T: Ranked>(items: Seq<T>, order: Seq<usize>) -> bool {
    forall|i: int, j: int|
        0 <= i < j < order.len() ==> stable_le(
            items[(#[trigger] order[i]) as int],
            order[i],
            items[(#[trigger] order[j]) as int],
            order[j],
        )
}

/// `indexes`, in the order of the items that they stand for.
pub fn sort_indexes<T: Ranked>(items: &Vec<T>, indexes: &Vec<usize>) -> (order: Vec<usize>)
    requires
        indexes@.no_duplicates(),
        forall|k: int| 0 <= k < indexes@.len() ==> (#[trigger] indexes@[k]) < items@.len(),
    ensures
        order@.no_duplicates(),
        forall|i: usize| order@.contains(i) <==> indexes@.contains(i),
        is_sorted(items@, order@),
{
    let mut places: Vec<Place<T>> = Vec::new();
    let mut i: usize = 0;
    while i < indexes.len()
        invariant
            i <= indexes@.len(),
            places@.len() == i,
            forall|k: int| 0 <= k < indexes@.len() ==> (#[trigger] indexes@[k]) < items@.len(),
            forall|k: int|
                0 <= k < i ==> (#[trigger] places@[k]).index == indexes@[k] && *places@[k].item
                    == items@[indexes@[k] as int],
        decreases indexes@.len() - i,
    {
        places.push(Place { item: &items[indexes[i]], index: indexes[i] });
        i = i + 1;
    }
    let ghost placed = places@;
    let sorted: Vec<Place<T>> = merge_sort(places);
    let ghost listed = sorted@;
    proof {
        broadcast use vstd::seq_lib::group_to_multiset_ensures;

        placed.lemma_multiset_has_no_duplicates();
        listed.lemma_multiset_has_no_duplicates_conv();
        assert forall|p: Place<T>| listed.contains(p) <==> placed.contains(p) by {
            assert(listed.to_multiset().count(p) > 0 <==> listed.contains(p));
            assert(placed.to_multiset().count(p) > 0 <==> placed.contains(p));
        }
        assert forall|k: int| 0 <= k < listed.len() implies {
            &&& indexes@.contains((#[trigger] listed[k]).index)
            &&& *listed[k].item == items@[listed[k].index as int]
        } by {
            assert(listed.contains(listed[k]));
            let j = choose|j: int| 0 <= j < placed.len() && placed[j] == listed[k];
            assert(indexes@[j] == listed[k].index);
        }
        assert forall|x: usize| indexes@.contains(x) implies exists|k: int|
            0 <= k < listed.len() && (#[trigger] listed[k]).index == x by {
            let j = choose|j: int| 0 <= j < indexes@.len() && indexes@[j] == x;
            assert(placed.contains(placed[j]));
            assert(listed.contains(placed[j]));
            let k = choose|k: int| 0 <= k < listed.len() && listed[k] == placed[j];
            assert(listed[k].index == x);
        }
    }
    let mut order: Vec<usize> = Vec::new();
    let mut i: usize = 0;
    while i < sorted.len()
        invariant
            i <= sorted@.len(),
            order@.len() == i,
            forall|k: int| 0 <= k < i ==> #[trigger] order@[k] == sorted@[k].index,
        decreases sorted@.len() - i,
    {
        order.push(sorted[i].index);
        i = i + 1;
    }
    proof {
        assert forall|a: int, b: int|
            0 <= a < order@.len() && 0 <= b < order@.len() && a != b implies order@[a]
            != order@[b] by {
            assert(listed[a] != listed[b]);
        }
        assert forall|x: usize| order@.contains(x) <==> indexes@.contains(x) by {
            if order@.contains(x) {
                let k = choose|k: int| 0 <= k < order@.len() && order@[k] == x;
                assert(indexes@.contains(listed[k].index));
            }
            if indexes@.contains(x) {
                let k = choose|k: int| 0 <= k < listed.len() && (#[trigger] listed[k]).index == x;
                assert(order@[k] == x);
            }
        }
        assert forall|a: int, b: int| 0 <= a < b < order@.len() implies stable_le(
            items@[(#[trigger] order@[a]) as int],
            order@[a],
            items@[(#[trigger] order@[b]) as int],
            order@[b],
        ) by {
            assert(listed[a].ranked_le(listed[b]));
        }
    }
    order
}

/// The indexes of a list of `n` items.
pub open spec fn all_indexes(n: nat) -> Seq<usize> {
    Seq::new(n, |i: int| i as usize)
}

/// `order` holds each of the `n` indexes once, and each may stand before every later one.
pub open spec fn is_listing(
    order: Seq<usize>,
    n: nat,
    le: spec_fn(usize, usize) -> bool,
) -> bool {
    &&& order.no_duplicates()
    &&& forall|i: usize| order.contains(i) <==> i < n
    &&& forall|i: int, j: int|
        0 <= i < j < order.len() ==> le(#[trigger] order[i], #[trigger] order[j])
}

/// Two lists without repetition that hold the same items hold them equally often.
proof fn lemma_same_multiset<T>(a: Seq<T>, b: Seq<T>)
    requires
        a.no_duplicates(),
        b.no_duplicates(),
        forall|x: T| a.contains(x) <==> b.contains(x),
    ensures
        a.to_multiset() == b.to_multiset(),
{
    broadcast use vstd::seq_lib::group_to_multiset_ensures;

    a.lemma_multiset_has_no_duplicates();
    b.lemma_multiset_has_no_duplicates();
    assert forall|x: T| #[trigger] a.to_multiset().count(x) == b.to_multiset().count(x) by {
        assert(a.to_multiset().count(x) > 0 <==> a.contains(x));
        assert(b.to_multiset().count(x) > 0 <==> b.contains(x));
        assert(a.to_multiset().contains(x) <==> a.contains(x));
        assert(b.to_multiset().contains(x) <==> b.contains(x));
    }
    assert(a.to_multiset() =~= b.to_multiset());
}

/// A listing leaves no item out.
pub proof fn listing_is_complete(
    order: Seq<usize>,
    n: nat,
    le: spec_fn(usize, usize) -> bool,
)
    requires
        is_listing(order, n, le),
        n <= usize::MAX,
    ensures
        order.len() == n,
        order.to_multiset() == all_indexes(n).to_multiset(),
{
    broadcast use vstd::seq_lib::group_to_multiset_ensures;

    let all = all_indexes(n);
    assert forall|i: usize| order.contains(i) <==> all.contains(i) by {
        if i < n {
            assert(all[i as int] == i);
        }
    }
    lemma_same_multiset(order, all);
    assert(order.to_multiset().len() == order.len());
    assert(all.to_multiset().len() == all.len());
}

/// There is only one listing by a total order.
pub proof fn listing_is_unique(
    a: Seq<usize>,
    b: Seq<usize>,
    n: nat,
    le: spec_fn(usize, usize) -> bool,
)
    requires
        is_listing(a, n, le),
        is_listing(b, n, le),
        vstd::relations::total_ordering(le),
    ensures
        a == b,
{
    lemma_same_multiset(a, b);
    assert forall|i: int, j: int| 0 <= i < j < a.len() implies #[trigger] le(a[i], a[j]) by {}
    assert forall|i: int, j: int| 0 <= i < j < b.len() implies #[trigger] le(b[i], b[j]) by {}
    vstd::seq_lib::lemma_sorted_unique(a, b, le);
}

} // verus!
