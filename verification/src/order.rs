//! The order of the numbered entries of one directory: sorted by prefix,
//! each prefix one more than the one before.

use crate::entry::{numbered_entries, Entry, NumberedEntry, NumberedEntryView};
use crate::model::views;
use crate::name_codec::split_number_from_name;
use crate::sorting::{
    ascending, lemma_insert_at, lemma_sorted_by_ascending, lemma_sorted_by_permutes, sorted_by,
};
use vstd::prelude::*;

verus! {

/// Where the numbers of a directory break off: the number that was due, the
/// number that stands there, and the path of the entry that carries it.
#[derive(Debug, PartialEq, Eq)]
pub struct GapError {
    pub expected: u64,
    pub actual: u32,
    pub path: String,
}

/// What a `GapError` stands for.
pub struct GapErrorView {
    pub expected: nat,
    pub actual: nat,
    pub path: Seq<char>,
}

impl View for GapError {
    type V = GapErrorView;

    open spec fn view(&self) -> GapErrorView {
        GapErrorView {
            expected: self.expected as nat,
            actual: self.actual as nat,
            path: self.path@,
        }
    }
}

/// The order of numbered entries: that of their prefixes.
pub open spec fn by_prefix() -> spec_fn(NumberedEntryView, NumberedEntryView) -> bool {
    |a: NumberedEntryView, b: NumberedEntryView| a.prefix <= b.prefix
}

/// The entries in ascending order of their prefixes; entries with the same
/// prefix keep the order they came in.
pub open spec fn sorted_by_prefix(entries: Seq<NumberedEntryView>) -> Seq<NumberedEntryView> {
    sorted_by(entries, by_prefix())
}

/// The prefix at `k` is one more than the prefix in front of it.
pub open spec fn follows(entries: Seq<NumberedEntryView>, k: int) -> bool {
    entries[k].prefix == entries[k - 1].prefix + 1
}

/// Each prefix but the first is one more than the prefix in front of it.
pub open spec fn contiguous(entries: Seq<NumberedEntryView>) -> bool {
    forall|k: int| 1 <= k < entries.len() ==> follows(entries, k)
}

/// `k` is the first place whose prefix is not one more than the prefix in
/// front of it.
pub open spec fn first_gap(entries: Seq<NumberedEntryView>, k: int) -> bool {
    &&& 1 <= k < entries.len()
    &&& !follows(entries, k)
    &&& forall|j: int| 1 <= j < k ==> follows(entries, j)
}

/// What is reported of a gap at `k`.
pub open spec fn gap_at(entries: Seq<NumberedEntryView>, k: int) -> GapErrorView {
    GapErrorView {
        expected: (entries[k - 1].prefix + 1) as nat,
        actual: entries[k].prefix as nat,
        path: entries[k].entry.path,
    }
}

/// The first place whose prefix is not one more than the prefix in front of
/// it, in a sequence that has such a place.
pub open spec fn gap_index(entries: Seq<NumberedEntryView>) -> int {
    choose|k: int| first_gap(entries, k)
}

/// What validating gives: the entries sorted by prefix where these are
/// contiguous, and else the first gap among the sorted entries.
pub open spec fn validate_spec(entries: Seq<NumberedEntryView>) -> Result<
    Seq<NumberedEntryView>,
    GapErrorView,
> {
    let sorted = sorted_by_prefix(entries);
    if contiguous(sorted) {
        Ok(sorted)
    } else {
        Err(gap_at(sorted, gap_index(sorted)))
    }
}

/// There is one first gap at most.
pub proof fn lemma_first_gap_unique(entries: Seq<NumberedEntryView>, k: int)
    requires
        first_gap(entries, k),
    ensures
        gap_index(entries) == k,
        !contiguous(entries),
{
    let other = gap_index(entries);
    assert(first_gap(entries, other));
    if other < k {
        assert(follows(entries, other));
    } else if k < other {
        assert(follows(entries, k));
    }
}

/// Sorting by prefix keeps every entry, as often as it occurs, and leaves
/// no prefix in front of a smaller one.
pub proof fn lemma_sorted_by_prefix(entries: Seq<NumberedEntryView>)
    ensures
        sorted_by_prefix(entries).len() == entries.len(),
        sorted_by_prefix(entries).to_multiset() == entries.to_multiset(),
        ascending(sorted_by_prefix(entries), by_prefix()),
{
    lemma_sorted_by_permutes(entries, by_prefix());
    lemma_sorted_by_ascending(entries, by_prefix());
}

/// The entries sorted by prefix: the same entries, in ascending order of
/// their prefixes, those with the same prefix in the order they came in.
pub fn sort_by_prefix(entries: Vec<NumberedEntry>) -> (sorted: Vec<NumberedEntry>)
    ensures
        views(sorted@) == sorted_by_prefix(views(entries@)),
        views(sorted@).to_multiset() == views(entries@).to_multiset(),
        ascending(views(sorted@), by_prefix()),
        sorted@.len() == entries@.len(),
{
    let ghost all = views(entries@);
    let mut sorted: Vec<NumberedEntry> = Vec::new();
    assert(all.take(0) =~= Seq::<NumberedEntryView>::empty());
    assert(views(sorted@) =~= Seq::<NumberedEntryView>::empty());
    for entry in it: entries
        invariant
            views(it.seq()) == all,
            views(sorted@) == sorted_by_prefix(all.take(it.index())),
            sorted@.len() == it.index(),
    {
        let ghost done = views(sorted@);
        let ghost index = it.index();
        let mut at: usize = sorted.len();
        while at > 0 && sorted[at - 1].prefix > entry.prefix
            invariant
                at <= sorted@.len(),
                done == views(sorted@),
                forall|j: int| at <= j < done.len() ==> !by_prefix()(done[j], entry@),
            decreases at,
        {
            at -= 1;
        }
        proof {
            lemma_insert_at(done, entry@, by_prefix(), at as int);
            assert(all.take(index + 1).drop_last() =~= all.take(index));
            assert(all.take(index + 1).last() == entry@);
            assert(views(sorted@.insert(at as int, entry)) =~= done.insert(at as int, entry@));
        }
        sorted.insert(at, entry);
    }
    assert(all.take(all.len() as int) =~= all);
    proof {
        lemma_sorted_by_prefix(all);
    }
    sorted
}

/// Sorts the numbered entries of one directory by prefix and checks that each
/// prefix but the first is one more than the one before it. Otherwise the
/// first place where that fails is reported.
pub fn validate(entries: Vec<NumberedEntry>) -> (r: Result<Vec<NumberedEntry>, GapError>)
    ensures
        match r {
            Ok(sorted) => validate_spec(views(entries@)) == Ok::<
                Seq<NumberedEntryView>,
                GapErrorView,
            >(views(sorted@)),
            Err(e) => validate_spec(views(entries@)) == Err::<
                Seq<NumberedEntryView>,
                GapErrorView,
            >(e@),
        },
{
    let sorted = sort_by_prefix(entries);
    let ghost all = views(sorted@);
    let mut k: usize = 1;
    while k < sorted.len()
        invariant
            1 <= k,
            all == views(sorted@),
            all == sorted_by_prefix(views(entries@)),
            forall|j: int| 1 <= j < k && j < all.len() ==> follows(all, j),
        decreases sorted.len() - k,
    {
        let expected: u64 = sorted[k - 1].prefix as u64 + 1;
        if sorted[k].prefix as u64 != expected {
            let error = GapError {
                expected,
                actual: sorted[k].prefix,
                path: sorted[k].entry.path.clone(),
            };
            assert(first_gap(all, k as int));
            assert(error@ == gap_at(all, k as int));
            proof {
                lemma_first_gap_unique(all, k as int);
            }
            return Err(error);
        }
        k += 1;
    }
    Ok(sorted)
}

/// The numbered entries among those of a directory, sorted and checked as
/// `validate` does.
pub fn get_numbered_entries(listing: Vec<Entry>) -> (r: Result<Vec<NumberedEntry>, GapError>)
    ensures
        match r {
            Ok(sorted) => validate_spec(numbered_entries(views(listing@))) == Ok::<
                Seq<NumberedEntryView>,
                GapErrorView,
            >(views(sorted@)),
            Err(e) => validate_spec(numbered_entries(views(listing@))) == Err::<
                Seq<NumberedEntryView>,
                GapErrorView,
            >(e@),
        },
{
    let ghost all = views(listing@);
    let mut found: Vec<NumberedEntry> = Vec::new();
    assert(all.take(0) =~= Seq::<crate::entry::EntryView>::empty());
    assert(views(found@) =~= Seq::<NumberedEntryView>::empty());
    for entry in it: listing
        invariant
            views(it.seq()) == all,
            views(found@) == numbered_entries(all.take(it.index())),
    {
        let ghost index = it.index();
        proof {
            assert(all.take(index + 1).drop_last() =~= all.take(index));
            assert(all.take(index + 1).last() == entry@);
        }
        match split_number_from_name(&entry.name) {
            Some((prefix, base_name)) => {
                let item = NumberedEntry { prefix, base_name, entry };
                assert(views(found@.push(item)) =~= views(found@).push(item@));
                found.push(item);
            },
            None => {},
        }
    }
    assert(all.take(all.len() as int) =~= all);
    validate(found)
}

} // verus!
