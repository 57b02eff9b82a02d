//! A bounded, linear history of simulation configurations, each with the camera view at the
//! time it was recorded. New edits append even when browsing an earlier entry.

use vstd::prelude::*;
use crate::model::{same_definition, spec_same_sim_state, GameDefinition};

verus! {

/// Most entries the history keeps; the oldest are dropped first.
pub const MAX_ENTRIES: usize = 256;

/// A recorded configuration and the camera view `C` at the time.
pub struct SimConfigSnapshot<C> {
    pub game: GameDefinition,
    pub camera: C,
}

/// Past simulation configurations and the entry being viewed.
pub struct SimConfigHistory<C> {
    entries: Vec<SimConfigSnapshot<C>>,
    index: usize,
}

/// `b` records the same configuration and camera as `a`.
pub open spec fn same_snapshot<C>(a: SimConfigSnapshot<C>, b: SimConfigSnapshot<C>) -> bool {
    same_definition(a.game, b.game) && a.camera == b.camera
}

impl<C: Copy> SimConfigHistory<C> {
    pub closed spec fn spec_entries(&self) -> Seq<SimConfigSnapshot<C>> {
        self.entries@
    }

    pub closed spec fn spec_index(&self) -> int {
        self.index as int
    }

    /// At most [`MAX_ENTRIES`] entries, and the position is an entry (or zero when empty).
    pub open spec fn wf(&self) -> bool {
        &&& self.spec_entries().len() <= MAX_ENTRIES
        &&& self.spec_entries().len() == 0 ==> self.spec_index() == 0
        &&& self.spec_entries().len() > 0 ==> 0 <= self.spec_index() < self.spec_entries().len()
    }

    pub fn new() -> (h: Self)
        ensures
            h.wf(),
            h.spec_entries().len() == 0,
            h.spec_index() == 0,
    {
        Self { entries: Vec::new(), index: 0 }
    }

    pub fn is_empty(&self) -> (empty: bool)
        ensures
            empty == (self.spec_entries().len() == 0),
    {
        self.entries.len() == 0
    }

    pub fn len(&self) -> (n: usize)
        ensures
            n == self.spec_entries().len(),
    {
        self.entries.len()
    }

    pub fn position(&self) -> (p: usize)
        ensures
            p == self.spec_index(),
    {
        self.index
    }

    pub fn can_step_back(&self) -> (can: bool)
        ensures
            can == (self.spec_entries().len() > 0 && self.spec_index() > 0),
    {
        self.entries.len() > 0 && self.index > 0
    }

    pub fn can_step_forward(&self) -> (can: bool)
        requires
            self.wf(),
        ensures
            can == (self.spec_entries().len() > 0 && self.spec_index() + 1 < self.spec_entries().len()),
    {
        self.entries.len() > 0 && self.index + 1 < self.entries.len()
    }

    /// The entry being viewed.
    pub fn current(&self) -> (snapshot: Option<&SimConfigSnapshot<C>>)
        ensures
            self.spec_index() < self.spec_entries().len() ==> snapshot == Some(&self.spec_entries()[self.spec_index()]),
            self.spec_index() >= self.spec_entries().len() ==> snapshot is None,
    {
        if self.index < self.entries.len() {
            Some(&self.entries[self.index])
        } else {
            None
        }
    }

    /// Replace the history with a single entry (session load / cold start).
    pub fn reset_to(&mut self, snapshot: SimConfigSnapshot<C>)
        ensures
            final(self).wf(),
            final(self).spec_entries() == seq![snapshot],
            final(self).spec_index() == 0,
    {
        let mut entries: Vec<SimConfigSnapshot<C>> = Vec::new();
        entries.push(snapshot);
        self.entries = entries;
        self.index = 0;
        assert(self.entries@ =~= seq![snapshot]);
    }

    /// Record a configuration after a user-driven change. Nothing is recorded when the entry
    /// being viewed already drives the same simulation; otherwise the new entry is appended
    /// (dropping the oldest beyond [`MAX_ENTRIES`]) and becomes the one viewed.
    pub fn commit(&mut self, game: GameDefinition, camera: C)
        requires
            old(self).wf(),
        ensures
            final(self).wf(),
            old(self).spec_entries().len() == 0 ==> final(self).spec_entries() == seq![SimConfigSnapshot { game, camera }]
                && final(self).spec_index() == 0,
            old(self).spec_entries().len() > 0 && spec_same_sim_state(old(self).spec_entries()[old(self).spec_index()].game, game)
                ==> final(self).spec_entries() == old(self).spec_entries() && final(self).spec_index() == old(self).spec_index(),
            old(self).spec_entries().len() > 0 && !spec_same_sim_state(old(self).spec_entries()[old(self).spec_index()].game, game) ==> {
                let grown = old(self).spec_entries().push(SimConfigSnapshot { game, camera });
                &&& final(self).spec_entries() == if grown.len() > MAX_ENTRIES { grown.skip(grown.len() - MAX_ENTRIES) } else { grown }
                &&& final(self).spec_index() == final(self).spec_entries().len() - 1
            },
    {
        if self.entries.len() == 0 {
            self.reset_to(SimConfigSnapshot { game, camera });
            return;
        }
        if self.entries[self.index].game.same_sim_state(&game) {
            return;
        }
        self.entries.push(SimConfigSnapshot { game, camera });
        let ghost grown = self.entries@;
        // At most one entry over the bound, since the history was within it before the push.
        if self.entries.len() > MAX_ENTRIES {
            self.entries.remove(0);
            assert(self.entries@ =~= grown.skip(1));
        }
        self.index = self.entries.len() - 1;
    }

    /// Move by `delta` entries; returns a copy of the entry reached, or `None` (staying put)
    /// when that would leave the history.
    pub fn step(&mut self, delta: i32) -> (snapshot: Option<SimConfigSnapshot<C>>)
        requires
            old(self).wf(),
            i32::MIN <= old(self).spec_index() + delta <= i32::MAX,
        ensures
            final(self).wf(),
            final(self).spec_entries() == old(self).spec_entries(),
            ({
                let target = old(self).spec_index() + delta;
                if old(self).spec_entries().len() == 0 || target < 0 || target >= old(self).spec_entries().len() {
                    snapshot is None && final(self).spec_index() == old(self).spec_index()
                } else {
                    final(self).spec_index() == target && (snapshot matches Some(s)
                        && same_snapshot(s, old(self).spec_entries()[target]))
                }
            }),
    {
        if self.entries.len() == 0 {
            return None;
        }
        let new_index = self.index as i32 + delta;
        if new_index < 0 || new_index as usize >= self.entries.len() {
            return None;
        }
        self.index = new_index as usize;
        let e = &self.entries[self.index];
        Some(SimConfigSnapshot { game: e.game.duplicate(), camera: e.camera })
    }
}

impl<C: Copy> Default for SimConfigHistory<C> {
    fn default() -> (h: Self)
        ensures
            h.wf(),
            h.spec_entries().len() == 0,
    {
        Self::new()
    }
}

} // verus!
