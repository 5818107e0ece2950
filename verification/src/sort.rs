//! Stable sorting by an integer rank.

use vstd::prelude::*;

verus! {

/// A value that is ordered by a number.
pub trait Ranked: Copy {
    spec fn rank(self) -> int;

    fn rank_of(self) -> (r: u64)
        ensures
            r == self.rank(),
    ;
}

impl Ranked for u32 {
    open spec fn rank(self) -> int {
        self as int
    }

    fn rank_of(self) -> (r: u64) {
        self as u64
    }
}

/// Whether the ranks never decrease.
pub open spec fn ascending<T: Ranked>(items: Seq<T>) -> bool {
    forall|i: int, j: int|
        0 <= i < j < items.len() ==> (#[trigger] items[i]).rank() <= (#[trigger] items[j]).rank()
}

/// `items` with `item` put behind everything of no greater rank.
pub open spec fn inserted<T: Ranked>(items: Seq<T>, item: T) -> Seq<T>
    decreases items.len(),
{
    if items.len() == 0 || items.last().rank() <= item.rank() {
        items.push(item)
    } else {
        inserted(items.drop_last(), item).push(items.last())
    }
}

/// `items` by ascending rank; items of equal rank keep their order.
pub open spec fn sorted<T: Ranked>(items: Seq<T>) -> Seq<T>
    decreases items.len(),
{
    if items.len() == 0 {
        Seq::empty()
    } else {
        inserted(sorted(items.drop_last()), items.last())
    }
}

proof fn lemma_inserted<T: Ranked>(items: Seq<T>, item: T)
    requires
        ascending(items),
    ensures
        ascending(inserted(items, item)),
        inserted(items, item).to_multiset() == items.to_multiset().insert(item),
        inserted(items, item).len() == items.len() + 1,
        inserted(items, item).len() > 0,
        inserted(items, item).last().rank() == item.rank() || (items.len() > 0 && inserted(
            items,
            item,
        ).last() == items.last()),
    decreases items.len(),
{
    broadcast use vstd::seq_lib::group_to_multiset_ensures;

    if items.len() == 0 || items.last().rank() <= item.rank() {
        assert forall|i: int, j: int| 0 <= i < j < items.push(item).len() implies (
        #[trigger] items.push(item)[i]).rank() <= (#[trigger] items.push(item)[j]).rank() by {
            if j == items.len() {
                assert(items[i].rank() <= items.last().rank());
            }
        }
    } else {
        let front = items.drop_last();
        let last = items.last();
        lemma_inserted(front, item);
        let low = inserted(front, item);
        let all = low.push(last);
        assert(items =~= front.push(last));
        assert forall|i: int, j: int| 0 <= i < j < all.len() implies (#[trigger] all[i]).rank() <= (
        #[trigger] all[j]).rank() by {
            if j == low.len() {
                assert(low[i].rank() <= low.last().rank());
                if front.len() > 0 {
                    assert(items[front.len() - 1].rank() <= items[items.len() - 1].rank());
                }
            }
        }
        assert(all.to_multiset() =~= items.to_multiset().insert(item));
    }
}

/// Sorting orders the items by rank and neither adds nor loses one.
pub proof fn sorting_is_a_sorted_permutation<T: Ranked>(items: Seq<T>)
    ensures
        ascending(sorted(items)),
        sorted(items).to_multiset() == items.to_multiset(),
        sorted(items).len() == items.len(),
    decreases items.len(),
{
    broadcast use vstd::seq_lib::group_to_multiset_ensures;

    if items.len() > 0 {
        sorting_is_a_sorted_permutation(items.drop_last());
        lemma_inserted(sorted(items.drop_last()), items.last());
        assert(items =~= items.drop_last().push(items.last()));
    } else {
        assert(items =~= Seq::<T>::empty());
    }
}

/// Sorting keeps exactly the items that were there.
pub proof fn sorting_keeps_the_items<T: Ranked>(items: Seq<T>, item: T)
    ensures
        sorted(items).contains(item) <==> items.contains(item),
{
    broadcast use vstd::seq_lib::group_to_multiset_ensures;

    sorting_is_a_sorted_permutation(items);
    assert(sorted(items).contains(item) <==> sorted(items).to_multiset().count(item) > 0);
    assert(items.contains(item) <==> items.to_multiset().count(item) > 0);
}

/// What inserting below the last `items.len() - at` entries leaves to do.
proof fn lemma_insert_point<T: Ranked>(items: Seq<T>, item: T, at: int)
    requires
        0 <= at <= items.len(),
        forall|i: int| at <= i < items.len() ==> (#[trigger] items[i]).rank() > item.rank(),
        at == 0 || items[at - 1].rank() <= item.rank(),
    ensures
        inserted(items, item) == items.insert(at, item),
    decreases items.len() - at,
{
    if at == items.len() {
        assert(items.insert(at, item) =~= items.push(item));
    } else {
        let front = items.drop_last();
        lemma_insert_point(front, item, at);
        assert(items.insert(at, item) =~= front.insert(at, item).push(items.last()));
    }
}

/// Sorts by ascending rank; items of equal rank keep their order.
pub fn sort_by_rank<T: Ranked>(items: &Vec<T>) -> (r: Vec<T>)
    ensures
        r@ == sorted(items@),
{
    let mut result: Vec<T> = Vec::new();
    let mut index: usize = 0;
    while index < items.len()
        invariant
            index <= items@.len(),
            result@ == sorted(items@.take(index as int)),
            result@.len() == index,
        decreases items@.len() - index,
    {
        let item: T = items[index];
        let rank: u64 = item.rank_of();
        let mut at: usize = result.len();
        while at > 0 && result[at - 1].rank_of() > rank
            invariant
                at <= result@.len(),
                rank == item.rank(),
                forall|i: int| at <= i < result@.len() ==> (#[trigger] result@[i]).rank() > rank,
            decreases at,
        {
            at = at - 1;
        }
        proof {
            lemma_insert_point(result@, item, at as int);
            let longer = items@.take(index + 1);
            assert(longer.drop_last() =~= items@.take(index as int));
        }
        result.insert(at, item);
        index = index + 1;
    }
    assert(items@.take(index as int) =~= items@);
    result
}

/// Whether `places` are the numbers below `n` that are wanted, each once and in ascending
/// order.
pub open spec fn are_places(places: Seq<int>, n: int, wanted: spec_fn(int) -> bool) -> bool {
    &&& forall|j: int|
        0 <= j < places.len() ==> 0 <= #[trigger] places[j] < n && wanted(places[j])
    &&& forall|i: int, j: int|
        0 <= i < j < places.len() ==> #[trigger] places[i] < #[trigger] places[j]
    &&& forall|m: int| 0 <= m < n && #[trigger] wanted(m) ==> places.contains(m)
}

/// The next number makes one more place where it is wanted, and none where it is not.
pub proof fn lemma_next_place(
    places: Seq<int>,
    n: int,
    wanted: spec_fn(int) -> bool,
) -> (r: Seq<int>)
    requires
        0 <= n,
        are_places(places, n, wanted),
    ensures
        are_places(r, n + 1, wanted),
        r == if wanted(n) {
            places.push(n)
        } else {
            places
        },
{
    if wanted(n) {
        let r = places.push(n);
        assert forall|m: int| 0 <= m < n + 1 && #[trigger] wanted(m) implies r.contains(m) by {
            if m < n {
                let j = choose|j: int| 0 <= j < places.len() && places[j] == m;
                assert(r[j] == m);
            } else {
                assert(r[places.len() as int] == m);
            }
        }
        r
    } else {
        assert forall|m: int| 0 <= m < n + 1 && #[trigger] wanted(m) implies places.contains(m) by {
            assert(m < n);
        }
        places
    }
}

proof fn lemma_inserted_behind<T: Ranked>(items: Seq<T>, item: T, wanted: u64)
    ensures
        inserted(items, item).filter(|x: T| x.rank() == wanted) == if item.rank() == wanted {
            items.filter(|x: T| x.rank() == wanted).push(item)
        } else {
            items.filter(|x: T| x.rank() == wanted)
        },
    decreases items.len(),
{
    reveal(Seq::filter);
    let of_rank = |x: T| x.rank() == wanted;
    if items.len() == 0 || items.last().rank() <= item.rank() {
        assert(items.push(item).drop_last() =~= items);
        assert(items.push(item).last() == item);
    } else {
        let front = items.drop_last();
        lemma_inserted_behind(front, item, wanted);
        let low = inserted(front, item);
        assert(low.push(items.last()).drop_last() =~= low);
        assert(low.push(items.last()).last() == items.last());
        assert(items.filter(of_rank) == if of_rank(items.last()) {
            front.filter(of_rank).push(items.last())
        } else {
            front.filter(of_rank)
        });
    }
}

/// Sorting keeps items of equal rank in their order.
pub proof fn sorting_is_stable<T: Ranked>(items: Seq<T>, wanted: u64)
    ensures
        sorted(items).filter(|x: T| x.rank() == wanted) == items.filter(
            |x: T| x.rank() == wanted,
        ),
    decreases items.len(),
{
    reveal(Seq::filter);
    if items.len() > 0 {
        sorting_is_stable(items.drop_last(), wanted);
        lemma_inserted_behind(sorted(items.drop_last()), items.last(), wanted);
    } else {
        assert(sorted(items) =~= items);
    }
}

} // verus!
