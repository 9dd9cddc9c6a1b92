//! A stable sort, stated over what the sorted values stand for.

use vstd::prelude::*;

verus! {

/// A value with a place in a strict weak order.
pub trait Ranked: View + Sized {
    /// Whether a value that stands for `a` goes before one that stands for `b`.
    spec fn goes_before(a: Self::V, b: Self::V) -> bool;

    /// The order is irreflexive and transitive, and so is being unordered.
    proof fn order_laws(a: Self::V, b: Self::V, c: Self::V)
        ensures
            !Self::goes_before(a, a),
            Self::goes_before(a, b) && Self::goes_before(b, c) ==> Self::goes_before(a, c),
            !Self::goes_before(a, b) && !Self::goes_before(b, c) ==> !Self::goes_before(a, c),
    ;

    /// Whether this value goes before `other`.
    fn is_before(&self, other: &Self) -> (r: bool)
        ensures
            r == Self::goes_before(self@, other@),
    ;
}

/// What a list of values stands for.
pub open spec fn views<T: View>(list: Seq<T>) -> Seq<T::V> {
    Seq::new(list.len(), |i: int| list[i]@)
}

/// Appending one value to a list appends what it stands for.
pub proof fn lemma_views_push<T: View>(list: Seq<T>, x: T)
    ensures
        views(list.push(x)) == views(list).push(x@),
{
    assert(views(list.push(x)) =~= views(list).push(x@));
}

/// `list` with `x` put in front of the first element that does not go before it.
pub open spec fn placed<T: Ranked>(x: T::V, list: Seq<T::V>) -> Seq<T::V>
    decreases list.len(),
{
    if list.len() == 0 || !T::goes_before(list[0], x) {
        seq![x] + list
    } else {
        seq![list[0]] + placed::<T>(x, list.drop_first())
    }
}

/// The elements of `list` in order; those of equal rank stay as they were.
pub open spec fn stable_sorted<T: Ranked>(list: Seq<T::V>) -> Seq<T::V>
    decreases list.len(),
{
    if list.len() == 0 {
        list
    } else {
        placed::<T>(list[0], stable_sorted::<T>(list.drop_first()))
    }
}

/// No element goes before an earlier one.
pub open spec fn in_order<T: Ranked>(list: Seq<T::V>) -> bool {
    forall|i: int, j: int|
        0 <= i < j < list.len() ==> !T::goes_before(#[trigger] list[j], #[trigger] list[i])
}

proof fn lemma_placed<T: Ranked>(x: T::V, list: Seq<T::V>)
    requires
        in_order::<T>(list),
    ensures
        in_order::<T>(placed::<T>(x, list)),
        placed::<T>(x, list).to_multiset() == list.to_multiset().insert(x),
    decreases list.len(),
{
    broadcast use vstd::seq_lib::group_to_multiset_ensures;

    let r = placed::<T>(x, list);
    if list.len() == 0 || !T::goes_before(list[0], x) {
        assert(r =~= list.insert(0, x));
        assert forall|i: int, j: int| 0 <= i < j < r.len() implies !T::goes_before(
            #[trigger] r[j],
            #[trigger] r[i],
        ) by {
            if i == 0 {
                assert(r[j] == list[j - 1]);
                if j > 1 {
                    T::order_laws(list[j - 1], list[0], x);
                }
            } else {
                assert(r[j] == list[j - 1] && r[i] == list[i - 1]);
            }
        }
    } else {
        let tail = list.drop_first();
        assert(in_order::<T>(tail)) by {
            assert forall|i: int, j: int| 0 <= i < j < tail.len() implies !T::goes_before(
                #[trigger] tail[j],
                #[trigger] tail[i],
            ) by {
                assert(tail[j] == list[j + 1] && tail[i] == list[i + 1]);
            }
        }
        lemma_placed::<T>(x, tail);
        let rest = placed::<T>(x, tail);
        assert(r =~= rest.insert(0, list[0]));
        assert(list =~= tail.insert(0, list[0]));
        assert(r.to_multiset() =~= list.to_multiset().insert(x));
        assert forall|i: int, j: int| 0 <= i < j < r.len() implies !T::goes_before(
            #[trigger] r[j],
            #[trigger] r[i],
        ) by {
            assert(r[j] == rest[j - 1]);
            if i == 0 {
                assert(rest.to_multiset().contains(rest[j - 1]));
                assert(tail.to_multiset().insert(x).contains(rest[j - 1]));
                if rest[j - 1] != x {
                    assert(tail.to_multiset().contains(rest[j - 1]));
                    assert(tail.contains(rest[j - 1]));
                    let k = choose|k: int| 0 <= k < tail.len() && tail[k] == rest[j - 1];
                    assert(list[k + 1] == tail[k]);
                } else {
                    T::order_laws(x, list[0], x);
                }
            } else {
                assert(r[i] == rest[i - 1]);
            }
        }
    }
}

/// Sorting puts the elements in order and neither loses nor repeats one.
pub proof fn law_stable_sorted<T: Ranked>(list: Seq<T::V>)
    ensures
        in_order::<T>(stable_sorted::<T>(list)),
        stable_sorted::<T>(list).to_multiset() == list.to_multiset(),
        stable_sorted::<T>(list).len() == list.len(),
    decreases list.len(),
{
    broadcast use vstd::seq_lib::group_to_multiset_ensures;

    if list.len() > 0 {
        let tail = list.drop_first();
        law_stable_sorted::<T>(tail);
        lemma_placed::<T>(list[0], stable_sorted::<T>(tail));
        assert(list =~= tail.insert(0, list[0]));
    }
    assert(stable_sorted::<T>(list).to_multiset().len() == stable_sorted::<T>(list).len());
    assert(list.to_multiset().len() == list.len());
}

/// The values of `list` in order; those of equal rank stay as they were.
pub fn stable_sort<T: Ranked>(list: Vec<T>) -> (r: Vec<T>)
    ensures
        views(r@) == stable_sorted::<T>(views(list@)),
{
    let mut rest = list;
    let mut out: Vec<T> = Vec::new();
    let ghost all = views(rest@);
    assert(all.skip(all.len() as int) =~= Seq::<T::V>::empty());
    assert(views(out@) =~= Seq::<T::V>::empty());
    while rest.len() > 0
        invariant
            rest@.len() <= all.len(),
            views(rest@) == all.take(rest@.len() as int),
            views(out@) == stable_sorted::<T>(all.skip(rest@.len() as int)),
        decreases rest@.len(),
    {
        let ghost before = rest@;
        let x = rest.pop().unwrap();
        let ghost n = rest@.len() as int;
        proof {
            assert(x@ == views(before)[n]);
            assert(x@ == all[n]);
            assert(views(rest@) =~= all.take(n));
            assert(all.skip(n).drop_first() =~= all.skip(n + 1));
        }
        place(&mut out, x);
    }
    assert(all.skip(0) =~= all);
    out
}

/// Puts `x` in front of the first element that does not go before it.
fn place<T: Ranked>(list: &mut Vec<T>, x: T)
    ensures
        views(final(list)@) == placed::<T>(x@, views(old(list)@)),
{
    let ghost all = views(list@);
    let mut i: usize = 0;
    assert(all.skip(0) =~= all);
    assert(all.take(0) + placed::<T>(x@, all) =~= placed::<T>(x@, all));
    while i < list.len() && list[i].is_before(&x)
        invariant
            all == views(list@),
            list@ == old(list)@,
            i <= list@.len(),
            all.take(i as int) + placed::<T>(x@, all.skip(i as int)) == placed::<T>(x@, all),
        decreases list@.len() - i,
    {
        proof {
            let here = all.skip(i as int);
            assert(here[0] == list@[i as int]@);
            assert(here.drop_first() =~= all.skip(i + 1));
            assert(all.take(i as int) + (seq![here[0]] + placed::<T>(x@, all.skip(i + 1)))
                =~= all.take(i + 1) + placed::<T>(x@, all.skip(i + 1)));
        }
        i = i + 1;
    }
    proof {
        if i < list@.len() {
            assert(all.skip(i as int)[0] == list@[i as int]@);
        }
        assert(all.take(i as int) + (seq![x@] + all.skip(i as int)) =~= all.insert(i as int, x@));
    }
    let ghost item = x@;
    list.insert(i, x);
    assert(views(list@) =~= all.insert(i as int, item));
}

/// Sorting is stable: what is in order already stays as it is, elements of equal rank in their order
/// among the rest.
pub proof fn law_sorted_stays<T: Ranked>(list: Seq<T::V>)
    requires
        in_order::<T>(list),
    ensures
        stable_sorted::<T>(list) == list,
    decreases list.len(),
{
    if list.len() > 0 {
        let tail = list.drop_first();
        assert forall|i: int, j: int| 0 <= i < j < tail.len() implies !T::goes_before(
            #[trigger] tail[j],
            #[trigger] tail[i],
        ) by {
            assert(tail[j] == list[j + 1] && tail[i] == list[i + 1]);
        }
        law_sorted_stays::<T>(tail);
        if tail.len() > 0 {
            assert(tail[0] == list[1]);
            assert(!T::goes_before(list[1], list[0]));
        }
        assert(seq![list[0]] + tail =~= list);
    }
}

/// Sorting keeps what it is given: an element is in the sorted list exactly when it was in the list.
pub proof fn law_sorting_keeps_elements<T: Ranked>(list: Seq<T::V>, x: T::V)
    ensures
        stable_sorted::<T>(list).contains(x) <==> list.contains(x),
{
    broadcast use vstd::seq_lib::group_to_multiset_ensures;

    law_stable_sorted::<T>(list);
    assert(stable_sorted::<T>(list).to_multiset().count(x) == list.to_multiset().count(x));
}

} // verus!
