//! What a directory holds: entries, and among them the numbered ones.

use crate::name_codec::{decode_spec, has_prefix, NumberedNameView};
use vstd::prelude::*;

verus! {

/// What an entry is: a file, or a directory.
#[derive(Clone, Copy, Debug, PartialEq, Eq, Structural)]
pub enum EntryKind {
    File,
    Directory,
}

/// One entry of a directory: its name there, the path that leads to it, and
/// what it is.
#[derive(Debug, PartialEq, Eq)]
pub struct Entry {
    pub name: String,
    pub path: String,
    pub kind: EntryKind,
}

/// What an `Entry` stands for.
pub struct EntryView {
    pub name: Seq<char>,
    pub path: Seq<char>,
    pub kind: EntryKind,
}

impl View for Entry {
    type V = EntryView;

    open spec fn view(&self) -> EntryView {
        EntryView { name: self.name@, path: self.path@, kind: self.kind }
    }
}

/// An entry whose name carries a number, with the name taken apart.
#[derive(Debug, PartialEq, Eq)]
pub struct NumberedEntry {
    pub prefix: u32,
    pub base_name: String,
    pub entry: Entry,
}

/// What a `NumberedEntry` stands for.
pub struct NumberedEntryView {
    pub prefix: u32,
    pub base_name: Seq<char>,
    pub entry: EntryView,
}

impl View for NumberedEntry {
    type V = NumberedEntryView;

    open spec fn view(&self) -> NumberedEntryView {
        NumberedEntryView { prefix: self.prefix, base_name: self.base_name@, entry: self.entry@ }
    }
}

impl NumberedEntryView {
    /// The prefix and the base name are those that the name of the entry
    /// reads as.
    pub open spec fn well_formed(self) -> bool {
        decode_spec(self.entry.name) == (NumberedNameView {
            prefix: Some(self.prefix),
            base_name: self.base_name,
        })
    }
}

/// The entry with its name taken apart, for an entry whose name carries a
/// number.
pub open spec fn numbered(entry: EntryView) -> NumberedEntryView {
    NumberedEntryView {
        prefix: decode_spec(entry.name).prefix.unwrap(),
        base_name: decode_spec(entry.name).base_name,
        entry,
    }
}

/// Those entries of `listing` whose names carry a number, in the order of the
/// listing, each with its name taken apart.
pub open spec fn numbered_entries(listing: Seq<EntryView>) -> Seq<NumberedEntryView>
    decreases listing.len(),
{
    if listing.len() == 0 {
        Seq::empty()
    } else if has_prefix(listing.last().name) {
        numbered_entries(listing.drop_last()).push(numbered(listing.last()))
    } else {
        numbered_entries(listing.drop_last())
    }
}

} // verus!
