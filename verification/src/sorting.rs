//! A stable sort, as a specification: each item is put behind the last item
//! that may stand in front of it.

use vstd::prelude::*;

verus! {

/// `sorted` with `item` put in behind the last item `x` for which
/// `le(x, item)` holds, or in front of all where there is none.
pub open spec fn insert_by<T>(sorted: Seq<T>, item: T, le: spec_fn(T, T) -> bool) -> Seq<T>
    decreases sorted.len(),
{
    if sorted.len() == 0 {
        seq![item]
    } else if le(sorted.last(), item) {
        sorted.push(item)
    } else {
        insert_by(sorted.drop_last(), item, le).push(sorted.last())
    }
}

/// The items of `s` in ascending order by `le`; items that `le` holds both
/// ways of keep the order they had in `s`.
pub open spec fn sorted_by<T>(s: Seq<T>, le: spec_fn(T, T) -> bool) -> Seq<T>
    decreases s.len(),
{
    if s.len() == 0 {
        Seq::empty()
    } else {
        insert_by(sorted_by(s.drop_last(), le), s.last(), le)
    }
}

/// Each item of `s` may stand in front of every later one.
pub open spec fn ascending<T>(s: Seq<T>, le: spec_fn(T, T) -> bool) -> bool {
    forall|i: int, j: int| 0 <= i < j < s.len() ==> le(#[trigger] s[i], #[trigger] s[j])
}

/// `le` holds one way or the other of any two items, and carries over.
pub open spec fn total_preorder<T>(le: spec_fn(T, T) -> bool) -> bool {
    &&& forall|a: T, b: T| #[trigger] le(a, b) || #[trigger] le(b, a)
    &&& forall|a: T, b: T, c: T| #[trigger] le(a, b) && #[trigger] le(b, c) ==> le(a, c)
}

/// Where the item goes: `at` is the place behind the last item that may stand
/// in front of it.
pub proof fn lemma_insert_at<T>(sorted: Seq<T>, item: T, le: spec_fn(T, T) -> bool, at: int)
    requires
        0 <= at <= sorted.len(),
        at > 0 ==> le(sorted[at - 1], item),
        forall|j: int| at <= j < sorted.len() ==> !le(sorted[j], item),
    ensures
        insert_by(sorted, item, le) == sorted.insert(at, item),
    decreases sorted.len(),
{
    if sorted.len() == 0 {
        assert(sorted.insert(at, item) =~= seq![item]);
    } else if at == sorted.len() {
        assert(sorted.insert(at, item) =~= sorted.push(item));
    } else {
        let shorter = sorted.drop_last();
        lemma_insert_at(shorter, item, le, at);
        assert(shorter.insert(at, item).push(sorted.last()) =~= sorted.insert(at, item));
    }
}

/// Putting an item in adds that item and nothing else.
pub proof fn lemma_insert_by_holds<T>(sorted: Seq<T>, item: T, le: spec_fn(T, T) -> bool)
    ensures
        insert_by(sorted, item, le).len() == sorted.len() + 1,
        insert_by(sorted, item, le).to_multiset() == sorted.to_multiset().insert(item),
    decreases sorted.len(),
{
    broadcast use vstd::seq_lib::group_to_multiset_ensures;

    if sorted.len() == 0 {
        assert(sorted =~= Seq::<T>::empty());
        assert(seq![item] =~= Seq::<T>::empty().push(item));
    } else if le(sorted.last(), item) {
    } else {
        let shorter = sorted.drop_last();
        lemma_insert_by_holds(shorter, item, le);
        assert(shorter.push(sorted.last()) =~= sorted);
        assert(insert_by(sorted, item, le).to_multiset() =~= sorted.to_multiset().insert(item));
    }
}

/// Sorting keeps every item, as often as it occurs, and adds none.
pub proof fn lemma_sorted_by_permutes<T>(s: Seq<T>, le: spec_fn(T, T) -> bool)
    ensures
        sorted_by(s, le).len() == s.len(),
        sorted_by(s, le).to_multiset() == s.to_multiset(),
    decreases s.len(),
{
    broadcast use vstd::seq_lib::group_to_multiset_ensures;

    if s.len() == 0 {
        assert(s =~= Seq::<T>::empty());
    } else {
        let shorter = s.drop_last();
        lemma_sorted_by_permutes(shorter, le);
        lemma_insert_by_holds(sorted_by(shorter, le), s.last(), le);
        assert(shorter.push(s.last()) =~= s);
    }
}

/// Every item of the sorted sequence is an item of the given one.
pub proof fn lemma_sorted_by_item<T>(s: Seq<T>, le: spec_fn(T, T) -> bool, k: int)
    requires
        0 <= k < sorted_by(s, le).len(),
    ensures
        s.contains(sorted_by(s, le)[k]),
{
    broadcast use vstd::seq_lib::group_to_multiset_ensures;

    let sorted = sorted_by(s, le);
    lemma_sorted_by_permutes(s, le);
    assert(sorted.contains(sorted[k]));
    assert(sorted.to_multiset().count(sorted[k]) > 0);
    assert(s.to_multiset().count(sorted[k]) > 0);
}

/// Putting an item into an ascending sequence leaves it ascending.
pub proof fn lemma_insert_by_ascending<T>(sorted: Seq<T>, item: T, le: spec_fn(T, T) -> bool)
    requires
        total_preorder(le),
        ascending(sorted, le),
    ensures
        ascending(insert_by(sorted, item, le), le),
    decreases sorted.len(),
{
    let after = insert_by(sorted, item, le);
    if sorted.len() == 0 {
    } else if le(sorted.last(), item) {
        assert forall|i: int, j: int| 0 <= i < j < after.len() implies le(
            #[trigger] after[i],
            #[trigger] after[j],
        ) by {
            if j == sorted.len() {
                if i < sorted.len() - 1 {
                    assert(le(sorted[i], sorted.last()));
                }
            }
        }
    } else {
        let shorter = sorted.drop_last();
        let inner = insert_by(shorter, item, le);
        assert(ascending(shorter, le)) by {
            assert forall|i: int, j: int| 0 <= i < j < shorter.len() implies le(
                #[trigger] shorter[i],
                #[trigger] shorter[j],
            ) by {
                assert(le(sorted[i], sorted[j]));
            }
        }
        lemma_insert_by_ascending(shorter, item, le);
        lemma_insert_by_holds(shorter, item, le);
        assert(le(item, sorted.last()));
        assert forall|i: int, j: int| 0 <= i < j < after.len() implies le(
            #[trigger] after[i],
            #[trigger] after[j],
        ) by {
            if j == after.len() - 1 {
                lemma_insert_by_item(shorter, item, le, i);
                if inner[i] != item {
                    let at = choose|at: int| 0 <= at < shorter.len() && shorter[at] == inner[i];
                    assert(le(sorted[at], sorted[sorted.len() - 1]));
                }
            } else {
                assert(le(inner[i], inner[j]));
            }
        }
    }
}

/// Every item of a sequence with `item` put in is `item` or was there before.
pub proof fn lemma_insert_by_item<T>(sorted: Seq<T>, item: T, le: spec_fn(T, T) -> bool, k: int)
    requires
        0 <= k <= sorted.len(),
    ensures
        insert_by(sorted, item, le).len() == sorted.len() + 1,
        insert_by(sorted, item, le)[k] == item || exists|at: int|
            0 <= at < sorted.len() && sorted[at] == insert_by(sorted, item, le)[k],
    decreases sorted.len(),
{
    lemma_insert_by_holds(sorted, item, le);
    if sorted.len() == 0 {
    } else if le(sorted.last(), item) {
        if k < sorted.len() {
            assert(sorted[k] == insert_by(sorted, item, le)[k]);
        }
    } else {
        let shorter = sorted.drop_last();
        lemma_insert_by_holds(shorter, item, le);
        if k == sorted.len() {
            assert(sorted[sorted.len() - 1] == insert_by(sorted, item, le)[k]);
        } else {
            lemma_insert_by_item(shorter, item, le, k);
            let inner = insert_by(shorter, item, le);
            if inner[k] != item {
                let at = choose|at: int| 0 <= at < shorter.len() && shorter[at] == inner[k];
                assert(sorted[at] == insert_by(sorted, item, le)[k]);
            }
        }
    }
}

/// The sorted sequence is ascending.
pub proof fn lemma_sorted_by_ascending<T>(s: Seq<T>, le: spec_fn(T, T) -> bool)
    requires
        total_preorder(le),
    ensures
        ascending(sorted_by(s, le), le),
    decreases s.len(),
{
    if s.len() > 0 {
        lemma_sorted_by_ascending(s.drop_last(), le);
        lemma_insert_by_ascending(sorted_by(s.drop_last(), le), s.last(), le);
    }
}

} // verus!
