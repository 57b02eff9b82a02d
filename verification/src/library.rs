//! The library picker: the built-in presets followed by the user's bookmarks, with at most one
//! bookmark selected.

use vstd::prelude::*;
use crate::model::{spec_same_sim_state, GameDefinition};

verus! {

/// Number of built-in presets ([`GameDefinition::preset_catalog`]).
pub const PRESET_COUNT: usize = 30;

/// Saved bookmarks and the selected one, if any.
pub struct BookmarkStore<B> {
    pub bookmarks: Vec<B>,
    pub selected: Option<usize>,
}

impl<B> BookmarkStore<B> {
    /// The selection, when there is one, names a bookmark.
    pub open spec fn selection_valid(&self) -> bool {
        self.selected matches Some(i) ==> i < self.bookmarks@.len()
    }

    /// No bookmarks and nothing selected.
    pub fn new() -> (store: Self)
        ensures
            store.bookmarks@.len() == 0,
            store.selected is None,
            store.selection_valid(),
    {
        BookmarkStore { bookmarks: Vec::new(), selected: None }
    }

    /// Append `bookmark` and select it; returns its index.
    pub fn add(&mut self, bookmark: B) -> (idx: usize)
        requires
            old(self).bookmarks@.len() < usize::MAX,
        ensures
            final(self).bookmarks@ == old(self).bookmarks@.push(bookmark),
            idx == old(self).bookmarks@.len(),
            final(self).selected == Some(idx),
            final(self).selection_valid(),
    {
        self.bookmarks.push(bookmark);
        let idx = self.bookmarks.len() - 1;
        self.selected = Some(idx);
        idx
    }

    /// Remove the selected bookmark and select its successor (or the new last one). Returns
    /// whether a bookmark was removed; a selection past the list is dropped.
    pub fn remove_selected(&mut self) -> (removed: bool)
        ensures
            match old(self).selected {
                None => !removed && final(self).bookmarks@ == old(self).bookmarks@ && final(self).selected is None,
                Some(i) => if i >= old(self).bookmarks@.len() {
                    !removed && final(self).bookmarks@ == old(self).bookmarks@ && final(self).selected is None
                } else {
                    &&& removed
                    &&& final(self).bookmarks@ == old(self).bookmarks@.remove(i as int)
                    &&& final(self).selected == if final(self).bookmarks@.len() == 0 {
                        None::<usize>
                    } else if i < final(self).bookmarks@.len() {
                        Some(i)
                    } else {
                        Some((final(self).bookmarks@.len() - 1) as usize)
                    }
                },
            },
            final(self).selection_valid(),
    {
        let idx = match self.selected {
            Some(i) => i,
            None => {
                return false;
            },
        };
        if idx >= self.bookmarks.len() {
            self.selected = None;
            return false;
        }
        self.bookmarks.remove(idx);
        let n = self.bookmarks.len();
        self.selected = if n == 0 {
            None
        } else if idx < n {
            Some(idx)
        } else {
            Some(n - 1)
        };
        true
    }

    /// Take `bookmarks` as the list (as read back from storage), keeping the selection only if it
    /// still names a bookmark.
    pub fn replace_all(&mut self, bookmarks: Vec<B>)
        ensures
            final(self).bookmarks@ == bookmarks@,
            final(self).selected == match old(self).selected {
                Some(i) => if i < bookmarks@.len() { Some(i) } else { None::<usize> },
                None => None::<usize>,
            },
            final(self).selection_valid(),
    {
        self.bookmarks = bookmarks;
        self.selected = match self.selected {
            Some(i) => if i < self.bookmarks.len() { Some(i) } else { None },
            None => None,
        };
    }
}

impl<B> Default for BookmarkStore<B> {
    fn default() -> (store: Self)
        ensures
            store.bookmarks@.len() == 0,
            store.selected is None,
    {
        Self::new()
    }
}

/// Entries of the library: every preset and every bookmark.
pub fn library_entry_count(custom_bookmarks: usize) -> (n: usize)
    requires
        custom_bookmarks + PRESET_COUNT <= usize::MAX,
    ensures
        n == PRESET_COUNT + custom_bookmarks,
{
    PRESET_COUNT + custom_bookmarks
}

/// Library row of the current choice: the selected bookmark after the presets, or else the
/// preset `preset_index` (clamped to the last preset).
pub fn library_selected_index<B>(bookmarks: &BookmarkStore<B>, preset_index: usize) -> (index: usize)
    requires
        bookmarks.bookmarks@.len() + PRESET_COUNT <= usize::MAX,
    ensures
        index == match bookmarks.selected {
            Some(j) if j < bookmarks.bookmarks@.len() => PRESET_COUNT + j,
            _ => if preset_index < PRESET_COUNT { preset_index as int } else { PRESET_COUNT - 1 },
        },
{
    if let Some(j) = bookmarks.selected {
        if j < bookmarks.bookmarks.len() {
            return PRESET_COUNT + j;
        }
    }
    if preset_index < PRESET_COUNT {
        preset_index
    } else {
        PRESET_COUNT - 1
    }
}

/// What a row of the library picks.
#[derive(Clone, Copy, Debug, PartialEq, Eq, Structural)]
pub enum LibraryEntry {
    Preset(usize),
    Bookmark(usize),
}

/// The entry that picking row `index` loads: rows wrap around the library, presets first.
pub fn library_entry(index: usize, bookmark_count: usize) -> (entry: LibraryEntry)
    requires
        bookmark_count + PRESET_COUNT <= usize::MAX,
    ensures
        ({
            let i = index as int % (PRESET_COUNT + bookmark_count);
            entry == if i < PRESET_COUNT { LibraryEntry::Preset(i as usize) } else { LibraryEntry::Bookmark((i - PRESET_COUNT) as usize) }
        }),
{
    let total = library_entry_count(bookmark_count);
    let i = index % total;
    if i < PRESET_COUNT {
        LibraryEntry::Preset(i)
    } else {
        LibraryEntry::Bookmark(i - PRESET_COUNT)
    }
}

/// Position of the first entry of `catalog` that drives the same simulation as `def`, if any.
pub fn preset_index_in(catalog: &Vec<(&'static str, GameDefinition)>, def: &GameDefinition) -> (index: Option<usize>)
    ensures
        match index {
            Some(i) => i < catalog@.len() && spec_same_sim_state(catalog@[i as int].1, *def)
                && forall|k: int| 0 <= k < i ==> !spec_same_sim_state(#[trigger] catalog@[k].1, *def),
            None => forall|k: int| 0 <= k < catalog@.len() ==> !spec_same_sim_state(#[trigger] catalog@[k].1, *def),
        },
{
    let mut i: usize = 0;
    while i < catalog.len()
        invariant
            i <= catalog@.len(),
            forall|k: int| 0 <= k < i ==> !spec_same_sim_state(#[trigger] catalog@[k].1, *def),
        decreases catalog.len() - i,
    {
        if catalog[i].1.same_sim_state(def) {
            return Some(i);
        }
        i += 1;
    }
    None
}

} // verus!
