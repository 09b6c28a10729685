//! Moving an entry to a place among the numbered entries of a directory: the
//! renames that make room for it there and that close the gap it leaves.

use crate::entry::{
    numbered_entries, Entry, EntryKind, EntryView, NumberedEntry, NumberedEntryView,
};
use crate::model::views;
use crate::name_codec::{decode, decode_spec, encode, encode_spec, lemma_decode_encode};
use crate::order::{
    by_prefix, contiguous, follows, get_numbered_entries, sorted_by_prefix, validate_spec,
    GapError, GapErrorView,
};
use crate::sorting::{lemma_sorted_by_item, lemma_sorted_by_permutes};
use vstd::prelude::*;

verus! {

/// One of the two directories that a move touches.
#[derive(Clone, Copy, Debug, PartialEq, Eq, Structural)]
pub enum Place {
    /// The directory that the entry is moved into.
    Destination,
    /// The directory that holds the entry before the move.
    SourceParent,
}

/// One rename: the entry named `from_name` in `from_dir` becomes the entry
/// named `to_name` in `to_dir`.
#[derive(Debug, PartialEq, Eq)]
pub struct Rename {
    pub from_dir: Place,
    pub from_name: String,
    pub to_dir: Place,
    pub to_name: String,
}

/// What a `Rename` stands for.
pub struct RenameView {
    pub from_dir: Place,
    pub from_name: Seq<char>,
    pub to_dir: Place,
    pub to_name: Seq<char>,
}

impl View for Rename {
    type V = RenameView;

    open spec fn view(&self) -> RenameView {
        RenameView {
            from_dir: self.from_dir,
            from_name: self.from_name@,
            to_dir: self.to_dir,
            to_name: self.to_name@,
        }
    }
}

/// An entry that is to get a number: where it lies, what it is named there,
/// and its base name.
#[derive(Debug, PartialEq, Eq)]
pub struct Slot {
    pub place: Place,
    pub name: String,
    pub base_name: String,
}

/// What a `Slot` stands for.
pub struct SlotView {
    pub place: Place,
    pub name: Seq<char>,
    pub base_name: Seq<char>,
}

impl View for Slot {
    type V = SlotView;

    open spec fn view(&self) -> SlotView {
        SlotView { place: self.place, name: self.name@, base_name: self.base_name@ }
    }
}

/// The entry that is moved, as it was found.
#[derive(Debug, PartialEq, Eq)]
pub struct Source {
    /// Its name in the directory that holds it.
    pub name: String,
    /// The path that leads to it.
    pub path: String,
    /// The path of the directory that holds it.
    pub parent: String,
    /// Whether anything is there.
    pub exists: bool,
    /// A file, a directory, or neither.
    pub kind: Option<EntryKind>,
}

/// What a `Source` stands for.
pub struct SourceView {
    pub name: Seq<char>,
    pub path: Seq<char>,
    pub parent: Seq<char>,
    pub exists: bool,
    pub kind: Option<EntryKind>,
}

impl View for Source {
    type V = SourceView;

    open spec fn view(&self) -> SourceView {
        SourceView {
            name: self.name@,
            path: self.path@,
            parent: self.parent@,
            exists: self.exists,
            kind: self.kind,
        }
    }
}

/// The directory that the entry is moved into, as it was found.
#[derive(Debug, PartialEq, Eq)]
pub struct Destination {
    /// The path that leads to it.
    pub path: String,
    /// Whether anything is there.
    pub exists: bool,
    /// Whether what is there is a directory.
    pub is_directory: bool,
    /// What it holds.
    pub entries: Vec<Entry>,
}

/// What a `Destination` stands for.
pub struct DestinationView {
    pub path: Seq<char>,
    pub exists: bool,
    pub is_directory: bool,
    pub entries: Seq<EntryView>,
}

impl View for Destination {
    type V = DestinationView;

    open spec fn view(&self) -> DestinationView {
        DestinationView {
            path: self.path@,
            exists: self.exists,
            is_directory: self.is_directory,
            entries: views(self.entries@),
        }
    }
}

/// Why a move is not made.
#[derive(Debug, PartialEq, Eq)]
pub enum MoveError {
    /// Nothing is there to move.
    SourceMissing,
    /// The destination is not there, or is no directory.
    DestinationNotDirectory,
    /// The place asked for is below one.
    IndexBelowOne,
    /// What is to be moved is neither a file nor a directory.
    SourceNotFileOrDirectory,
    /// The numbers of one of the two directories break off.
    Gap(GapError),
    /// The place asked for lies more than one behind the last entry.
    IndexOutOfRange { index: u32, count: usize },
}

/// What a `MoveError` stands for.
pub enum MoveErrorView {
    SourceMissing,
    DestinationNotDirectory,
    IndexBelowOne,
    SourceNotFileOrDirectory,
    Gap(GapErrorView),
    IndexOutOfRange { index: nat, count: nat },
}

impl View for MoveError {
    type V = MoveErrorView;

    open spec fn view(&self) -> MoveErrorView {
        match self {
            MoveError::SourceMissing => MoveErrorView::SourceMissing,
            MoveError::DestinationNotDirectory => MoveErrorView::DestinationNotDirectory,
            MoveError::IndexBelowOne => MoveErrorView::IndexBelowOne,
            MoveError::SourceNotFileOrDirectory => MoveErrorView::SourceNotFileOrDirectory,
            MoveError::Gap(gap) => MoveErrorView::Gap(gap@),
            MoveError::IndexOutOfRange { index, count } => MoveErrorView::IndexOutOfRange {
                index: *index as nat,
                count: *count as nat,
            },
        }
    }
}

/// The entries but those that lie at `path`.
pub open spec fn without_path(entries: Seq<NumberedEntryView>, path: Seq<char>) -> Seq<
    NumberedEntryView,
>
    decreases entries.len(),
{
    if entries.len() == 0 {
        Seq::empty()
    } else if entries.last().entry.path == path {
        without_path(entries.drop_last(), path)
    } else {
        without_path(entries.drop_last(), path).push(entries.last())
    }
}

/// How many of the entries carry a prefix of `prefix` at most.
pub open spec fn count_up_to(entries: Seq<NumberedEntryView>, prefix: nat) -> nat
    decreases entries.len(),
{
    if entries.len() == 0 {
        0
    } else if entries.last().prefix <= prefix {
        count_up_to(entries.drop_last(), prefix) + 1
    } else {
        count_up_to(entries.drop_last(), prefix)
    }
}

/// The entry as one that lies in `place`.
pub open spec fn slot_of(entry: NumberedEntryView, place: Place) -> SlotView {
    SlotView { place, name: entry.entry.name, base_name: entry.base_name }
}

/// The entries as entries that lie in `place`.
pub open spec fn slots_in(entries: Seq<NumberedEntryView>, place: Place) -> Seq<SlotView> {
    entries.map_values(|entry: NumberedEntryView| slot_of(entry, place))
}

/// The moved entry where it lies before the move. A number that its name
/// carries there is not part of its base name, and counts for nothing more.
pub open spec fn moved_slot(source: SourceView) -> SlotView {
    SlotView {
        place: Place::SourceParent,
        name: source.name,
        base_name: decode_spec(source.name).base_name,
    }
}

/// The rename that gives `slot` the number `position` in the directory `to`.
pub open spec fn rename_to(slot: SlotView, to: Place, position: nat, width: nat) -> RenameView {
    RenameView {
        from_dir: slot.place,
        from_name: slot.name,
        to_dir: to,
        to_name: encode_spec(position, slot.base_name, width),
    }
}

/// The renames that number `slots` from one on in the order they stand in,
/// each ending up in the directory `to`.
pub open spec fn renumber_spec(slots: Seq<SlotView>, to: Place, width: nat) -> Seq<RenameView> {
    Seq::new(slots.len(), |k: int| rename_to(slots[k], to, (k + 1) as nat, width))
}

/// `slot` once it carries the number `position` in the directory that the
/// entry was moved out of and into.
pub open spec fn settled(slot: SlotView, position: nat, width: nat) -> SlotView {
    SlotView {
        place: Place::SourceParent,
        name: encode_spec(position, slot.base_name, width),
        base_name: slot.base_name,
    }
}

/// The order in which the destination is numbered anew: its entries, but the
/// moved one itself should it lie among them, with the moved one put in at
/// the place `index`, or behind them all where fewer are left.
pub open spec fn arrangement(source: SourceView, index: nat, entries: Seq<NumberedEntryView>) -> Seq<
    SlotView,
> {
    let others = slots_in(without_path(entries, source.path), Place::Destination);
    let at = if index - 1 <= others.len() {
        index - 1
    } else {
        others.len() as int
    };
    others.insert(at, moved_slot(source))
}

/// The renames that put the moved entry at the place `index` of the
/// destination. One behind the last entry, it is renamed and nothing else
/// is. Anywhere else, every entry of the destination is numbered anew, in
/// ascending order, the moved one among them.
pub open spec fn insert_spec(
    source: SourceView,
    index: nat,
    entries: Seq<NumberedEntryView>,
    width: nat,
) -> Seq<RenameView> {
    if index == entries.len() + 1 {
        seq![rename_to(moved_slot(source), Place::Destination, index, width)]
    } else {
        renumber_spec(arrangement(source, index, entries), Place::Destination, width)
    }
}

/// The numbered entries of the destination once the renames of `insert_spec`
/// are made, in ascending order of their prefixes, for entries that were in
/// that order.
pub open spec fn after_insert(
    source: SourceView,
    index: nat,
    entries: Seq<NumberedEntryView>,
    width: nat,
) -> Seq<SlotView> {
    if index == entries.len() + 1 {
        let others = without_path(entries, source.path);
        slots_in(others, Place::SourceParent).insert(
            count_up_to(others, index) as int,
            settled(moved_slot(source), index, width),
        )
    } else {
        let placed = arrangement(source, index, entries);
        Seq::new(placed.len(), |k: int| settled(placed[k], (k + 1) as nat, width))
    }
}

/// The renames of a whole move, or why it is not made. The checks come in
/// this order: the source is there; the destination is a directory; the
/// place is one at least; the source is a file or a directory; the numbers
/// of the destination are contiguous; the place lies one behind its last
/// entry at most; the numbers of the directory that holds the source are
/// contiguous. Then the destination makes room, and the directory that held
/// the source is numbered anew from one on.
pub open spec fn mv_spec(
    source: SourceView,
    destination: DestinationView,
    siblings: Seq<EntryView>,
    index: nat,
    width: nat,
) -> Result<Seq<RenameView>, MoveErrorView> {
    if !source.exists {
        Err(MoveErrorView::SourceMissing)
    } else if !destination.exists || !destination.is_directory {
        Err(MoveErrorView::DestinationNotDirectory)
    } else if index < 1 {
        Err(MoveErrorView::IndexBelowOne)
    } else if source.kind is None {
        Err(MoveErrorView::SourceNotFileOrDirectory)
    } else {
        match validate_spec(numbered_entries(destination.entries)) {
            Err(gap) => Err(MoveErrorView::Gap(gap)),
            Ok(entries) => {
                if index > entries.len() + 1 {
                    Err(MoveErrorView::IndexOutOfRange { index, count: entries.len() })
                } else if source.parent == destination.path {
                    Ok(
                        insert_spec(source, index, entries, width) + renumber_spec(
                            after_insert(source, index, entries, width),
                            Place::SourceParent,
                            width,
                        ),
                    )
                } else {
                    match validate_spec(numbered_entries(siblings)) {
                        Err(gap) => Err(MoveErrorView::Gap(gap)),
                        Ok(left) => Ok(
                            insert_spec(source, index, entries, width) + renumber_spec(
                                slots_in(without_path(left, source.path), Place::SourceParent),
                                Place::SourceParent,
                                width,
                            ),
                        ),
                    }
                }
            },
        }
    }
}

/// The entries but those at `path`, as entries that lie in `place`, and how
/// many of them carry a prefix of `prefix` at most.
fn slots_without(entries: &Vec<NumberedEntry>, path: &String, place: Place, prefix: u64) -> (r: (
    Vec<Slot>,
    usize,
))
    ensures
        views(r.0@) == slots_in(without_path(views(entries@), path@), place),
        r.1 == count_up_to(without_path(views(entries@), path@), prefix as nat),
        r.1 <= r.0@.len() <= entries@.len(),
{
    let ghost all = views(entries@);
    let mut slots: Vec<Slot> = Vec::new();
    let mut below: usize = 0;
    let mut i: usize = 0;
    assert(all.take(0) =~= Seq::<NumberedEntryView>::empty());
    assert(views(slots@) =~= slots_in(Seq::<NumberedEntryView>::empty(), place));
    while i < entries.len()
        invariant
            i <= entries.len(),
            all == views(entries@),
            views(slots@) == slots_in(without_path(all.take(i as int), path@), place),
            below == count_up_to(without_path(all.take(i as int), path@), prefix as nat),
            below <= slots@.len() <= i,
        decreases entries.len() - i,
    {
        let entry = &entries[i];
        proof {
            assert(all.take(i + 1).drop_last() =~= all.take(i as int));
            assert(all.take(i + 1).last() == entry@);
        }
        if entry.entry.path != *path {
            let ghost kept = without_path(all.take(i as int), path@);
            let slot = Slot {
                place,
                name: entry.entry.name.clone(),
                base_name: entry.base_name.clone(),
            };
            proof {
                assert(kept.push(entry@).drop_last() =~= kept);
                assert(slot@ == slot_of(entry@, place));
                assert(views(slots@.push(slot)) =~= views(slots@).push(slot@));
                assert(slots_in(kept.push(entry@), place) =~= slots_in(kept, place).push(
                    slot_of(entry@, place),
                ));
            }
            slots.push(slot);
            if entry.prefix as u64 <= prefix {
                below += 1;
            }
        }
        i += 1;
    }
    assert(all.take(entries.len() as int) =~= all);
    (slots, below)
}

/// The renames that number `slots` from one on in the order they stand in,
/// each ending up in `to`.
pub fn renumber(slots: &Vec<Slot>, to: Place, width: usize) -> (plan: Vec<Rename>)
    ensures
        views(plan@) == renumber_spec(views(slots@), to, width as nat),
{
    let mut plan: Vec<Rename> = Vec::new();
    let mut k: usize = 0;
    while k < slots.len()
        invariant
            k <= slots.len(),
            plan@.len() == k,
            forall|j: int|
                0 <= j < k ==> (#[trigger] plan@[j])@ == rename_to(
                    slots@[j]@,
                    to,
                    (j + 1) as nat,
                    width as nat,
                ),
        decreases slots.len() - k,
    {
        let slot = &slots[k];
        let to_name = encode(k as u64 + 1, &slot.base_name, width);
        plan.push(
            Rename { from_dir: slot.place, from_name: slot.name.clone(), to_dir: to, to_name },
        );
        k += 1;
    }
    assert(views(plan@) =~= renumber_spec(views(slots@), to, width as nat));
    plan
}

/// The moved entry where it lies before the move.
fn moved(source: &Source) -> (slot: Slot)
    ensures
        slot@ == moved_slot(source@),
{
    Slot {
        place: Place::SourceParent,
        name: source.name.clone(),
        base_name: decode(&source.name).base_name,
    }
}

/// The destination's entries with the moved one put in at `index`.
fn arrange(source: &Source, index: usize, entries: &Vec<NumberedEntry>) -> (placed: Vec<Slot>)
    requires
        1 <= index,
    ensures
        views(placed@) == arrangement(source@, index as nat, views(entries@)),
{
    let (mut others, _) = slots_without(entries, &source.path, Place::Destination, 0);
    let at = if index - 1 <= others.len() {
        index - 1
    } else {
        others.len()
    };
    let slot = moved(source);
    assert(views(others@.insert(at as int, slot)) =~= views(others@).insert(at as int, slot@));
    others.insert(at, slot);
    others
}

/// The renames that put the moved entry at the place `index` among
/// `entries`, the numbered entries of the destination in ascending order.
pub fn insert_at(source: &Source, index: usize, entries: &Vec<NumberedEntry>, width: usize) -> (plan:
    Vec<Rename>)
    requires
        1 <= index <= entries@.len() + 1,
    ensures
        views(plan@) == insert_spec(source@, index as nat, views(entries@), width as nat),
{
    if index - 1 == entries.len() {
        let slot = moved(source);
        let to_name = encode(index as u64, &slot.base_name, width);
        let step = Rename {
            from_dir: slot.place,
            from_name: slot.name,
            to_dir: Place::Destination,
            to_name,
        };
        let plan = vec![step];
        assert(views(plan@) =~= insert_spec(
            source@,
            index as nat,
            views(entries@),
            width as nat,
        ));
        plan
    } else {
        let placed = arrange(source, index, entries);
        renumber(&placed, Place::Destination, width)
    }
}

/// The numbered entries of the destination as the renames of `insert_at`
/// leave them.
fn settle(source: &Source, index: usize, entries: &Vec<NumberedEntry>, width: usize) -> (left: Vec<
    Slot,
>)
    requires
        1 <= index <= entries@.len() + 1,
    ensures
        views(left@) == after_insert(source@, index as nat, views(entries@), width as nat),
{
    if index - 1 == entries.len() {
        let (mut others, below) = slots_without(
            entries,
            &source.path,
            Place::SourceParent,
            index as u64,
        );
        let slot = moved(source);
        let name = encode(index as u64, &slot.base_name, width);
        let placed = Slot { place: Place::SourceParent, name, base_name: slot.base_name };
        assert(views(others@.insert(below as int, placed)) =~= views(others@).insert(
            below as int,
            placed@,
        ));
        others.insert(below, placed);
        others
    } else {
        let placed = arrange(source, index, entries);
        let mut left: Vec<Slot> = Vec::new();
        let mut k: usize = 0;
        while k < placed.len()
            invariant
                k <= placed.len(),
                left@.len() == k,
                forall|j: int|
                    0 <= j < k ==> (#[trigger] left@[j])@ == settled(
                        placed@[j]@,
                        (j + 1) as nat,
                        width as nat,
                    ),
            decreases placed.len() - k,
        {
            let name = encode(k as u64 + 1, &placed[k].base_name, width);
            left.push(
                Slot { place: Place::SourceParent, name, base_name: placed[k].base_name.clone() },
            );
            k += 1;
        }
        assert(views(left@) =~= after_insert(
            source@,
            index as nat,
            views(entries@),
            width as nat,
        ));
        left
    }
}

/// The renames that number the entries `slots` of the directory that held
/// the moved entry from one on, in the order they stand in.
pub fn reorder(slots: &Vec<Slot>, width: usize) -> (plan: Vec<Rename>)
    ensures
        views(plan@) == renumber_spec(views(slots@), Place::SourceParent, width as nat),
{
    renumber(slots, Place::SourceParent, width)
}

/// Plans the move of `source` to the place `index` among the numbered
/// entries of `destination`: every rename to be made, in the order to make
/// them in, or the reason why none is made. `siblings` is what the directory
/// that holds the source holds before the move; it is not looked at where
/// that directory is the destination.
pub fn mv_command(
    source: &Source,
    destination: Destination,
    siblings: Vec<Entry>,
    index: u32,
    width: usize,
) -> (r: Result<Vec<Rename>, MoveError>)
    ensures
        match r {
            Ok(plan) => mv_spec(
                source@,
                destination@,
                views(siblings@),
                index as nat,
                width as nat,
            ) == Ok::<Seq<RenameView>, MoveErrorView>(views(plan@)),
            Err(e) => mv_spec(
                source@,
                destination@,
                views(siblings@),
                index as nat,
                width as nat,
            ) == Err::<Seq<RenameView>, MoveErrorView>(e@),
        },
{
    if !source.exists {
        return Err(MoveError::SourceMissing);
    }
    if !destination.exists || !destination.is_directory {
        return Err(MoveError::DestinationNotDirectory);
    }
    if index < 1 {
        return Err(MoveError::IndexBelowOne);
    }
    if source.kind.is_none() {
        return Err(MoveError::SourceNotFileOrDirectory);
    }
    let same_directory = source.parent == destination.path;
    let entries = match get_numbered_entries(destination.entries) {
        Ok(entries) => entries,
        Err(gap) => {
            return Err(MoveError::Gap(gap));
        },
    };
    if index as usize - 1 > entries.len() {
        return Err(MoveError::IndexOutOfRange { index, count: entries.len() });
    }
    let mut plan = insert_at(source, index as usize, &entries, width);
    let left = if same_directory {
        settle(source, index as usize, &entries, width)
    } else {
        match get_numbered_entries(siblings) {
            Ok(left) => slots_without(&left, &source.path, Place::SourceParent, 0).0,
            Err(gap) => {
                return Err(MoveError::Gap(gap));
            },
        }
    };
    let mut closing = reorder(&left, width);
    assert(views(plan@ + closing@) =~= views(plan@) + views(closing@));
    plan.append(&mut closing);
    Ok(plan)
}

/// The numbered entries of a listing in ascending order of their prefixes.
pub open spec fn ordered(listing: Seq<EntryView>) -> Seq<NumberedEntryView> {
    sorted_by_prefix(numbered_entries(listing))
}

/// The entries that the last part of a move numbers anew: those of the
/// directory that held the moved entry, as the first part leaves them.
pub open spec fn left_behind(
    source: SourceView,
    destination: DestinationView,
    siblings: Seq<EntryView>,
    index: nat,
    width: nat,
) -> Seq<SlotView> {
    if source.parent == destination.path {
        after_insert(source, index, ordered(destination.entries), width)
    } else {
        slots_in(without_path(ordered(siblings), source.path), Place::SourceParent)
    }
}

/// The names that the renames lead to.
pub open spec fn new_names(plan: Seq<RenameView>) -> Seq<Seq<char>> {
    plan.map_values(|step: RenameView| step.to_name)
}

/// The names of the entries.
pub open spec fn slot_names(slots: Seq<SlotView>) -> Seq<Seq<char>> {
    slots.map_values(|slot: SlotView| slot.name)
}

/// The names of the numbered entries of the directory that held the moved
/// entry, once the move is made, in ascending order.
pub open spec fn parent_after(
    source: SourceView,
    destination: DestinationView,
    siblings: Seq<EntryView>,
    index: nat,
    width: nat,
) -> Seq<Seq<char>> {
    new_names(
        renumber_spec(
            left_behind(source, destination, siblings, index, width),
            Place::SourceParent,
            width,
        ),
    )
}

/// The names of the numbered entries of the destination, once the move is
/// made, in ascending order.
pub open spec fn destination_after(
    source: SourceView,
    destination: DestinationView,
    siblings: Seq<EntryView>,
    index: nat,
    width: nat,
) -> Seq<Seq<char>> {
    if source.parent == destination.path {
        parent_after(source, destination, siblings, index, width)
    } else {
        slot_names(after_insert(source, index, ordered(destination.entries), width))
    }
}

/// The names read, one after the other, as the numbers one, two, three and
/// so on.
pub open spec fn reads_in_order(names: Seq<Seq<char>>) -> bool {
    forall|k: int|
        0 <= k < names.len() ==> decode_spec(#[trigger] names[k]).prefix == Some((k + 1) as u32)
}

/// The moved entry lies in the destination only where that is the directory
/// that holds it.
pub open spec fn lies_apart(source: SourceView, destination: DestinationView) -> bool {
    source.parent != destination.path ==> forall|k: int|
        0 <= k < destination.entries.len() ==> (#[trigger] destination.entries[k]).path
            != source.path
}

/// The moved entry is put behind the last entry of another directory than
/// the one that holds it, and the numbers of that directory do not start at
/// one.
pub open spec fn appends_to_shifted(
    source: SourceView,
    destination: DestinationView,
    index: nat,
) -> bool {
    let entries = ordered(destination.entries);
    &&& source.parent != destination.path
    &&& entries.len() > 0
    &&& index == entries.len() + 1
    &&& entries[0].prefix != 1
}

/// The numbered entries of a listing are entries of that listing, with the
/// prefix and the base name that their names read as.
pub proof fn lemma_numbered_entries(listing: Seq<EntryView>, k: int)
    requires
        0 <= k < numbered_entries(listing).len(),
    ensures
        numbered_entries(listing)[k].well_formed(),
        listing.contains(numbered_entries(listing)[k].entry),
        numbered_entries(listing).len() <= listing.len(),
    decreases listing.len(),
{
    let shorter = listing.drop_last();
    let found = numbered_entries(shorter);
    if k < found.len() {
        lemma_numbered_entries(shorter, k);
        let at = choose|at: int| 0 <= at < shorter.len() && shorter[at] == found[k].entry;
        assert(listing[at] == found[k].entry);
    } else {
        lemma_numbered_entries_len(shorter);
        assert(listing[listing.len() - 1] == numbered_entries(listing)[k].entry);
    }
}

/// A listing holds no more numbered entries than entries.
pub proof fn lemma_numbered_entries_len(listing: Seq<EntryView>)
    ensures
        numbered_entries(listing).len() <= listing.len(),
    decreases listing.len(),
{
    if listing.len() > 0 {
        lemma_numbered_entries_len(listing.drop_last());
    }
}

/// The ordered entries of a listing are as many as its numbered entries,
/// and each is one of them.
pub proof fn lemma_ordered(listing: Seq<EntryView>, k: int)
    requires
        0 <= k < ordered(listing).len(),
    ensures
        ordered(listing).len() == numbered_entries(listing).len(),
        ordered(listing)[k].well_formed(),
        listing.contains(ordered(listing)[k].entry),
{
    let found = numbered_entries(listing);
    lemma_sorted_by_permutes(found, by_prefix());
    lemma_sorted_by_item(found, by_prefix(), k);
    let at = choose|at: int| 0 <= at < found.len() && found[at] == ordered(listing)[k];
    lemma_numbered_entries(listing, at);
}

/// Leaving entries out leaves no more entries than there were.
pub proof fn lemma_without_path_len(entries: Seq<NumberedEntryView>, path: Seq<char>)
    ensures
        without_path(entries, path).len() <= entries.len(),
    decreases entries.len(),
{
    if entries.len() > 0 {
        lemma_without_path_len(entries.drop_last(), path);
    }
}

/// Where no entry lies at `path`, none is left out.
pub proof fn lemma_without_path_keeps(entries: Seq<NumberedEntryView>, path: Seq<char>)
    requires
        forall|k: int| 0 <= k < entries.len() ==> (#[trigger] entries[k]).entry.path != path,
    ensures
        without_path(entries, path) == entries,
    decreases entries.len(),
{
    if entries.len() > 0 {
        let shorter = entries.drop_last();
        assert forall|k: int| 0 <= k < shorter.len() implies (#[trigger] shorter[k]).entry.path
            != path by {
            assert(shorter[k] == entries[k]);
        }
        lemma_without_path_keeps(shorter, path);
        assert(entries.last() == entries[entries.len() - 1]);
        assert(shorter.push(entries.last()) =~= entries);
    } else {
        assert(entries =~= Seq::<NumberedEntryView>::empty());
    }
}

/// Contiguous prefixes that start at one are one, two, three and so on.
pub proof fn lemma_counts_from_one(entries: Seq<NumberedEntryView>, k: int)
    requires
        contiguous(entries),
        0 <= k < entries.len(),
        entries[0].prefix == 1,
    ensures
        entries[k].prefix == k + 1,
    decreases k,
{
    if k > 0 {
        lemma_counts_from_one(entries, k - 1);
        assert(follows(entries, k));
    }
}

/// Where every prefix is `prefix` at most, every entry is counted.
pub proof fn lemma_count_up_to_all(entries: Seq<NumberedEntryView>, prefix: nat)
    requires
        forall|k: int| 0 <= k < entries.len() ==> (#[trigger] entries[k]).prefix <= prefix,
    ensures
        count_up_to(entries, prefix) == entries.len(),
    decreases entries.len(),
{
    if entries.len() > 0 {
        let shorter = entries.drop_last();
        assert forall|k: int| 0 <= k < shorter.len() implies (#[trigger] shorter[k]).prefix
            <= prefix by {
            assert(shorter[k] == entries[k]);
        }
        lemma_count_up_to_all(shorter, prefix);
        assert(entries.last() == entries[entries.len() - 1]);
    }
}

/// No more entries are counted than there are.
pub proof fn lemma_count_up_to_bound(entries: Seq<NumberedEntryView>, prefix: nat)
    ensures
        count_up_to(entries, prefix) <= entries.len(),
    decreases entries.len(),
{
    if entries.len() > 0 {
        lemma_count_up_to_bound(entries.drop_last(), prefix);
    }
}

/// Entries that were numbered anew read as one, two, three and so on, each
/// with the base name it had.
pub proof fn lemma_renumbered_in_order(slots: Seq<SlotView>, to: Place, width: nat)
    requires
        slots.len() <= u32::MAX,
    ensures
        new_names(renumber_spec(slots, to, width)).len() == slots.len(),
        reads_in_order(new_names(renumber_spec(slots, to, width))),
        forall|k: int|
            0 <= k < slots.len() ==> decode_spec(
                #[trigger] new_names(renumber_spec(slots, to, width))[k],
            ).base_name == slots[k].base_name,
{
    let names = new_names(renumber_spec(slots, to, width));
    assert forall|k: int| 0 <= k < names.len() implies decode_spec(#[trigger] names[k]).prefix
        == Some((k + 1) as u32) && decode_spec(names[k]).base_name == slots[k].base_name by {
        lemma_decode_encode((k + 1) as u32, slots[k].base_name, width);
    }
}

/// After a move that was made, the numbered entries of the destination and
/// those of the directory that held the moved entry read, in ascending
/// order, as one, two, three and so on, without a gap. This holds where the
/// numbers fit a prefix and the listing of the destination is sound. It
/// leaves out one move: behind the last entry of another directory whose
/// numbers do not start at one, where the entries keep their numbers.
pub proof fn lemma_move_keeps_order(
    source: SourceView,
    destination: DestinationView,
    siblings: Seq<EntryView>,
    index: nat,
    width: nat,
)
    requires
        mv_spec(source, destination, siblings, index, width) is Ok,
        lies_apart(source, destination),
        !appends_to_shifted(source, destination, index),
        destination.entries.len() < u32::MAX,
        siblings.len() <= u32::MAX,
    ensures
        mv_spec(source, destination, siblings, index, width) == Ok::<
            Seq<RenameView>,
            MoveErrorView,
        >(
            insert_spec(source, index, ordered(destination.entries), width) + renumber_spec(
                left_behind(source, destination, siblings, index, width),
                Place::SourceParent,
                width,
            ),
        ),
        reads_in_order(destination_after(source, destination, siblings, index, width)),
        reads_in_order(parent_after(source, destination, siblings, index, width)),
{
    let entries = ordered(destination.entries);
    let count = entries.len();
    let left = left_behind(source, destination, siblings, index, width);
    let others = without_path(entries, source.path);
    let placed = arrangement(source, index, entries);
    lemma_numbered_entries_len(destination.entries);
    lemma_numbered_entries_len(siblings);
    lemma_sorted_by_permutes(numbered_entries(destination.entries), by_prefix());
    lemma_sorted_by_permutes(numbered_entries(siblings), by_prefix());
    lemma_without_path_len(entries, source.path);
    lemma_without_path_len(ordered(siblings), source.path);
    lemma_count_up_to_bound(others, index);
    assert(1 <= index <= count + 1);
    assert(placed.len() == others.len() + 1);
    assert(left.len() <= u32::MAX);
    lemma_renumbered_in_order(left, Place::SourceParent, width);
    if source.parent != destination.path {
        let after = after_insert(source, index, entries, width);
        let names = slot_names(after);
        if index == count + 1 {
            assert forall|k: int| 0 <= k < count implies (#[trigger] entries[k]).entry.path
                != source.path by {
                lemma_ordered(destination.entries, k);
            }
            lemma_without_path_keeps(entries, source.path);
            assert forall|k: int| 0 <= k < count implies (#[trigger] entries[k]).prefix
                <= index by {
                lemma_counts_from_one(entries, k);
            }
            lemma_count_up_to_all(entries, index);
            assert forall|k: int| 0 <= k < names.len() implies decode_spec(
                #[trigger] names[k],
            ).prefix == Some((k + 1) as u32) by {
                if k < count {
                    lemma_ordered(destination.entries, k);
                    lemma_counts_from_one(entries, k);
                    assert(names[k] == entries[k].entry.name);
                } else {
                    lemma_decode_encode(index as u32, moved_slot(source).base_name, width);
                }
            }
        } else {
            assert forall|k: int| 0 <= k < names.len() implies decode_spec(
                #[trigger] names[k],
            ).prefix == Some((k + 1) as u32) by {
                lemma_decode_encode((k + 1) as u32, placed[k].base_name, width);
            }
        }
    }
}

} // verus!
