//! Counters and coarse timings for the placement step, gathered while profiling is enabled.
//! A [`PlaceProfiler`] holds what a profiling run accumulates; the clock is read by the caller,
//! which hands the elapsed nanoseconds in.

use vstd::prelude::*;

verus! {

#[derive(Clone, Copy, Debug, Default, PartialEq, Eq, Structural)]
pub struct PlaceWorkStats {
    pub placements: u64,
    pub scan_cells_examined: u64,
    pub valid_move_steps: u64,
    pub xy_to_index_calls: u64,
    pub forbidden_bit_inserts: u64,
    pub occupancy_grows: u64,
    pub forbidden_word_grows: u64,
    /// How often a combined forbidden word was computed during a scan.
    pub scan_forb_word_combines: u64,
    /// Full forbidden-word tail jumps.
    pub scan_forbidden_tail_skips: u64,
    /// Single-index advances after a rejection.
    pub scan_single_step_rejects: u64,
}

/// Per forbidden-set insert during a profiled run.
#[derive(Clone, Copy, Debug, Default, PartialEq, Eq, Structural)]
pub struct ForbiddenInsertStats {
    pub calls: u64,
    pub or_into_existing_word: u64,
    pub grow_new_word: u64,
    /// Bit was already set; the insert still ran (idempotent OR).
    pub bit_already_set: u64,
}

#[derive(Clone, Copy, Debug, Default, PartialEq, Eq, Structural)]
pub struct PlaceTimingStats {
    pub step_turn_ns: u64,
    pub place_total_ns: u64,
    pub occupancy_insert_ns: u64,
    pub record_forbidden_ns: u64,
    pub placements_push_ns: u64,
}

pub open spec fn zero_work() -> PlaceWorkStats {
    PlaceWorkStats {
        placements: 0,
        scan_cells_examined: 0,
        valid_move_steps: 0,
        xy_to_index_calls: 0,
        forbidden_bit_inserts: 0,
        occupancy_grows: 0,
        forbidden_word_grows: 0,
        scan_forb_word_combines: 0,
        scan_forbidden_tail_skips: 0,
        scan_single_step_rejects: 0,
    }
}

pub open spec fn zero_insert_stats() -> ForbiddenInsertStats {
    ForbiddenInsertStats { calls: 0, or_into_existing_word: 0, grow_new_word: 0, bit_already_set: 0 }
}

pub open spec fn zero_timing() -> PlaceTimingStats {
    PlaceTimingStats {
        step_turn_ns: 0,
        place_total_ns: 0,
        occupancy_insert_ns: 0,
        record_forbidden_ns: 0,
        placements_push_ns: 0,
    }
}

fn new_work() -> (w: PlaceWorkStats)
    ensures
        w == zero_work(),
{
    PlaceWorkStats {
        placements: 0,
        scan_cells_examined: 0,
        valid_move_steps: 0,
        xy_to_index_calls: 0,
        forbidden_bit_inserts: 0,
        occupancy_grows: 0,
        forbidden_word_grows: 0,
        scan_forb_word_combines: 0,
        scan_forbidden_tail_skips: 0,
        scan_single_step_rejects: 0,
    }
}

fn new_insert_stats() -> (s: ForbiddenInsertStats)
    ensures
        s == zero_insert_stats(),
{
    ForbiddenInsertStats { calls: 0, or_into_existing_word: 0, grow_new_word: 0, bit_already_set: 0 }
}

fn new_timing() -> (t: PlaceTimingStats)
    ensures
        t == zero_timing(),
{
    PlaceTimingStats {
        step_turn_ns: 0,
        place_total_ns: 0,
        occupancy_insert_ns: 0,
        record_forbidden_ns: 0,
        placements_push_ns: 0,
    }
}

/// What one profiling session accumulates. Work counters and forbidden records only move while
/// profiling is enabled; timings only while timing is enabled.
pub struct PlaceProfiler {
    pub work: PlaceWorkStats,
    pub forbidden_inserts: ForbiddenInsertStats,
    pub timing: PlaceTimingStats,
    pub timing_enabled: bool,
    pub profiling_enabled: bool,
    /// `(target piece, visit index)` for each recorded forbidden cell.
    pub forbidden_records: Vec<(usize, u32)>,
}

impl PlaceProfiler {
    /// Timing on, profiling off, every counter zero.
    pub fn new() -> (p: Self)
        ensures
            p.work == zero_work(),
            p.forbidden_inserts == zero_insert_stats(),
            p.timing == zero_timing(),
            p.timing_enabled,
            !p.profiling_enabled,
            p.forbidden_records@.len() == 0,
    {
        Self {
            work: new_work(),
            forbidden_inserts: new_insert_stats(),
            timing: new_timing(),
            timing_enabled: true,
            profiling_enabled: false,
            forbidden_records: Vec::new(),
        }
    }

    pub fn set_timing_enabled(&mut self, enabled: bool)
        ensures
            final(self).timing_enabled == enabled,
            final(self).profiling_enabled == old(self).profiling_enabled,
            final(self).work == old(self).work,
            final(self).forbidden_inserts == old(self).forbidden_inserts,
            final(self).timing == old(self).timing,
            final(self).forbidden_records@ == old(self).forbidden_records@,
    {
        self.timing_enabled = enabled;
    }

    pub fn set_profiling_enabled(&mut self, enabled: bool)
        ensures
            final(self).profiling_enabled == enabled,
            final(self).timing_enabled == old(self).timing_enabled,
            final(self).work == old(self).work,
            final(self).forbidden_inserts == old(self).forbidden_inserts,
            final(self).timing == old(self).timing,
            final(self).forbidden_records@ == old(self).forbidden_records@,
    {
        self.profiling_enabled = enabled;
    }

    pub fn profiling_active(&self) -> (active: bool)
        ensures
            active == self.profiling_enabled,
    {
        self.profiling_enabled
    }

    pub fn timing_enabled_for_place(&self) -> (enabled: bool)
        ensures
            enabled == self.timing_enabled,
    {
        self.timing_enabled
    }

    /// Zero the work, insert and timing counters (the switches and records are kept).
    pub fn reset(&mut self)
        ensures
            final(self).work == zero_work(),
            final(self).forbidden_inserts == zero_insert_stats(),
            final(self).timing == zero_timing(),
            final(self).timing_enabled == old(self).timing_enabled,
            final(self).profiling_enabled == old(self).profiling_enabled,
            final(self).forbidden_records@ == old(self).forbidden_records@,
    {
        self.work = new_work();
        self.forbidden_inserts = new_insert_stats();
        self.timing = new_timing();
    }

    /// Hand out the work counters and zero them.
    pub fn take_work(&mut self) -> (work: PlaceWorkStats)
        ensures
            work == old(self).work,
            final(self).work == zero_work(),
            final(self).forbidden_inserts == old(self).forbidden_inserts,
            final(self).timing == old(self).timing,
            final(self).timing_enabled == old(self).timing_enabled,
            final(self).profiling_enabled == old(self).profiling_enabled,
            final(self).forbidden_records@ == old(self).forbidden_records@,
    {
        let work = self.work;
        self.work = new_work();
        work
    }

    /// Hand out the timings and zero them.
    pub fn take_timing(&mut self) -> (timing: PlaceTimingStats)
        ensures
            timing == old(self).timing,
            final(self).timing == zero_timing(),
            final(self).work == old(self).work,
            final(self).forbidden_inserts == old(self).forbidden_inserts,
            final(self).timing_enabled == old(self).timing_enabled,
            final(self).profiling_enabled == old(self).profiling_enabled,
            final(self).forbidden_records@ == old(self).forbidden_records@,
    {
        let timing = self.timing;
        self.timing = new_timing();
        timing
    }

    /// Hand out the forbidden-insert counters and zero them.
    pub fn take_forbidden_insert_stats(&mut self) -> (stats: ForbiddenInsertStats)
        ensures
            stats == old(self).forbidden_inserts,
            final(self).forbidden_inserts == zero_insert_stats(),
            final(self).work == old(self).work,
            final(self).timing == old(self).timing,
            final(self).timing_enabled == old(self).timing_enabled,
            final(self).profiling_enabled == old(self).profiling_enabled,
            final(self).forbidden_records@ == old(self).forbidden_records@,
    {
        let stats = self.forbidden_inserts;
        self.forbidden_inserts = new_insert_stats();
        stats
    }

    /// Cells examined by a scan.
    pub fn add_scan_cells(&mut self, n: u64)
        requires
            old(self).profiling_enabled ==> old(self).work.scan_cells_examined + n <= u64::MAX,
        ensures
            final(self).work == if old(self).profiling_enabled {
                PlaceWorkStats { scan_cells_examined: (old(self).work.scan_cells_examined + n) as u64, ..old(self).work }
            } else {
                old(self).work
            },
            final(self).forbidden_inserts == old(self).forbidden_inserts,
            final(self).timing == old(self).timing,
            final(self).timing_enabled == old(self).timing_enabled,
            final(self).profiling_enabled == old(self).profiling_enabled,
            final(self).forbidden_records@ == old(self).forbidden_records@,
    {
        if !self.profiling_enabled {
            return;
        }
        self.work.scan_cells_examined = self.work.scan_cells_examined + n;
    }

    pub fn note_scan_forb_word_combine(&mut self)
        requires
            old(self).profiling_enabled ==> old(self).work.scan_forb_word_combines + 1 <= u64::MAX,
        ensures
            final(self).work == if old(self).profiling_enabled {
                PlaceWorkStats { scan_forb_word_combines: (old(self).work.scan_forb_word_combines + 1) as u64, ..old(self).work }
            } else {
                old(self).work
            },
            final(self).forbidden_inserts == old(self).forbidden_inserts,
            final(self).timing == old(self).timing,
            final(self).timing_enabled == old(self).timing_enabled,
            final(self).profiling_enabled == old(self).profiling_enabled,
            final(self).forbidden_records@ == old(self).forbidden_records@,
    {
        if !self.profiling_enabled {
            return;
        }
        self.work.scan_forb_word_combines = self.work.scan_forb_word_combines + 1;
    }

    pub fn note_scan_forbidden_tail_skip(&mut self)
        requires
            old(self).profiling_enabled ==> old(self).work.scan_forbidden_tail_skips + 1 <= u64::MAX,
        ensures
            final(self).work == if old(self).profiling_enabled {
                PlaceWorkStats { scan_forbidden_tail_skips: (old(self).work.scan_forbidden_tail_skips + 1) as u64, ..old(self).work }
            } else {
                old(self).work
            },
            final(self).forbidden_inserts == old(self).forbidden_inserts,
            final(self).timing == old(self).timing,
            final(self).timing_enabled == old(self).timing_enabled,
            final(self).profiling_enabled == old(self).profiling_enabled,
            final(self).forbidden_records@ == old(self).forbidden_records@,
    {
        if !self.profiling_enabled {
            return;
        }
        self.work.scan_forbidden_tail_skips = self.work.scan_forbidden_tail_skips + 1;
    }

    /// `n` single-index advances after rejections, counted at once.
    pub fn add_scan_single_step_rejects(&mut self, n: u64)
        requires
            old(self).profiling_enabled ==> old(self).work.scan_single_step_rejects + n <= u64::MAX,
        ensures
            final(self).work == if old(self).profiling_enabled {
                PlaceWorkStats { scan_single_step_rejects: (old(self).work.scan_single_step_rejects + n) as u64, ..old(self).work }
            } else {
                old(self).work
            },
            final(self).forbidden_inserts == old(self).forbidden_inserts,
            final(self).timing == old(self).timing,
            final(self).timing_enabled == old(self).timing_enabled,
            final(self).profiling_enabled == old(self).profiling_enabled,
            final(self).forbidden_records@ == old(self).forbidden_records@,
    {
        if !self.profiling_enabled {
            return;
        }
        self.work.scan_single_step_rejects = self.work.scan_single_step_rejects + n;
    }

    pub fn note_scan_single_step_reject(&mut self)
        requires
            old(self).profiling_enabled ==> old(self).work.scan_single_step_rejects + 1 <= u64::MAX,
        ensures
            final(self).work == if old(self).profiling_enabled {
                PlaceWorkStats { scan_single_step_rejects: (old(self).work.scan_single_step_rejects + 1) as u64, ..old(self).work }
            } else {
                old(self).work
            },
            final(self).forbidden_inserts == old(self).forbidden_inserts,
            final(self).timing == old(self).timing,
            final(self).timing_enabled == old(self).timing_enabled,
            final(self).profiling_enabled == old(self).profiling_enabled,
            final(self).forbidden_records@ == old(self).forbidden_records@,
    {
        if !self.profiling_enabled {
            return;
        }
        self.work.scan_single_step_rejects = self.work.scan_single_step_rejects + 1;
    }

    pub fn note_occupancy_grow(&mut self)
        requires
            old(self).profiling_enabled ==> old(self).work.occupancy_grows + 1 <= u64::MAX,
        ensures
            final(self).work == if old(self).profiling_enabled {
                PlaceWorkStats { occupancy_grows: (old(self).work.occupancy_grows + 1) as u64, ..old(self).work }
            } else {
                old(self).work
            },
            final(self).forbidden_inserts == old(self).forbidden_inserts,
            final(self).timing == old(self).timing,
            final(self).timing_enabled == old(self).timing_enabled,
            final(self).profiling_enabled == old(self).profiling_enabled,
            final(self).forbidden_records@ == old(self).forbidden_records@,
    {
        if !self.profiling_enabled {
            return;
        }
        self.work.occupancy_grows = self.work.occupancy_grows + 1;
    }

    pub fn note_forbidden_word_grow(&mut self)
        requires
            old(self).profiling_enabled ==> old(self).work.forbidden_word_grows + 1 <= u64::MAX,
        ensures
            final(self).work == if old(self).profiling_enabled {
                PlaceWorkStats { forbidden_word_grows: (old(self).work.forbidden_word_grows + 1) as u64, ..old(self).work }
            } else {
                old(self).work
            },
            final(self).forbidden_inserts == old(self).forbidden_inserts,
            final(self).timing == old(self).timing,
            final(self).timing_enabled == old(self).timing_enabled,
            final(self).profiling_enabled == old(self).profiling_enabled,
            final(self).forbidden_records@ == old(self).forbidden_records@,
    {
        if !self.profiling_enabled {
            return;
        }
        self.work.forbidden_word_grows = self.work.forbidden_word_grows + 1;
    }

    /// One placement that walked `valid_moves` moves, each forbidding a cell for `targets`
    /// pieces.
    pub fn note_placement_work(&mut self, valid_moves: u64, targets: u64)
        requires
            old(self).profiling_enabled ==> {
                let w = old(self).work;
                &&& w.placements + 1 <= u64::MAX
                &&& w.valid_move_steps + valid_moves <= u64::MAX
                &&& w.xy_to_index_calls + valid_moves <= u64::MAX
                &&& valid_moves * targets <= u64::MAX
                &&& w.forbidden_bit_inserts + valid_moves * targets <= u64::MAX
            },
        ensures
            final(self).work == if old(self).profiling_enabled {
                let w = old(self).work;
                PlaceWorkStats {
                    placements: (w.placements + 1) as u64,
                    valid_move_steps: (w.valid_move_steps + valid_moves) as u64,
                    xy_to_index_calls: (w.xy_to_index_calls + valid_moves) as u64,
                    forbidden_bit_inserts: (w.forbidden_bit_inserts + valid_moves * targets) as u64,
                    ..w
                }
            } else {
                old(self).work
            },
            final(self).forbidden_inserts == old(self).forbidden_inserts,
            final(self).timing == old(self).timing,
            final(self).timing_enabled == old(self).timing_enabled,
            final(self).profiling_enabled == old(self).profiling_enabled,
            final(self).forbidden_records@ == old(self).forbidden_records@,
    {
        if !self.profiling_enabled {
            return;
        }
        self.work.placements = self.work.placements + 1;
        self.work.valid_move_steps = self.work.valid_move_steps + valid_moves;
        self.work.xy_to_index_calls = self.work.xy_to_index_calls + valid_moves;
        self.work.forbidden_bit_inserts = self.work.forbidden_bit_inserts + valid_moves * targets;
    }

    /// A forbidden insert that OR-ed into an existing word.
    pub fn note_forbidden_or_existing_word(&mut self, already_set: bool)
        requires
            old(self).profiling_enabled ==> {
                let s = old(self).forbidden_inserts;
                &&& s.calls + 1 <= u64::MAX
                &&& s.or_into_existing_word + 1 <= u64::MAX
                &&& s.bit_already_set + 1 <= u64::MAX
            },
        ensures
            final(self).forbidden_inserts == if old(self).profiling_enabled {
                let s = old(self).forbidden_inserts;
                ForbiddenInsertStats {
                    calls: (s.calls + 1) as u64,
                    or_into_existing_word: (s.or_into_existing_word + 1) as u64,
                    bit_already_set: if already_set { (s.bit_already_set + 1) as u64 } else { s.bit_already_set },
                    ..s
                }
            } else {
                old(self).forbidden_inserts
            },
            final(self).work == old(self).work,
            final(self).timing == old(self).timing,
            final(self).timing_enabled == old(self).timing_enabled,
            final(self).profiling_enabled == old(self).profiling_enabled,
            final(self).forbidden_records@ == old(self).forbidden_records@,
    {
        if !self.profiling_enabled {
            return;
        }
        self.forbidden_inserts.calls = self.forbidden_inserts.calls + 1;
        self.forbidden_inserts.or_into_existing_word = self.forbidden_inserts.or_into_existing_word + 1;
        if already_set {
            self.forbidden_inserts.bit_already_set = self.forbidden_inserts.bit_already_set + 1;
        }
    }

    /// A forbidden insert that grew a new word (also counted as a word grow).
    pub fn note_forbidden_or_new_word(&mut self)
        requires
            old(self).profiling_enabled ==> {
                &&& old(self).forbidden_inserts.calls + 1 <= u64::MAX
                &&& old(self).forbidden_inserts.grow_new_word + 1 <= u64::MAX
                &&& old(self).work.forbidden_word_grows + 1 <= u64::MAX
            },
        ensures
            final(self).forbidden_inserts == if old(self).profiling_enabled {
                let s = old(self).forbidden_inserts;
                ForbiddenInsertStats { calls: (s.calls + 1) as u64, grow_new_word: (s.grow_new_word + 1) as u64, ..s }
            } else {
                old(self).forbidden_inserts
            },
            final(self).work == if old(self).profiling_enabled {
                PlaceWorkStats { forbidden_word_grows: (old(self).work.forbidden_word_grows + 1) as u64, ..old(self).work }
            } else {
                old(self).work
            },
            final(self).timing == old(self).timing,
            final(self).timing_enabled == old(self).timing_enabled,
            final(self).profiling_enabled == old(self).profiling_enabled,
            final(self).forbidden_records@ == old(self).forbidden_records@,
    {
        if !self.profiling_enabled {
            return;
        }
        self.forbidden_inserts.calls = self.forbidden_inserts.calls + 1;
        self.forbidden_inserts.grow_new_word = self.forbidden_inserts.grow_new_word + 1;
        self.note_forbidden_word_grow();
    }

    /// Time spent in one turn.
    pub fn add_step_turn_ns(&mut self, n: u64)
        requires
            old(self).timing_enabled ==> old(self).timing.step_turn_ns + n <= u64::MAX,
        ensures
            final(self).timing == if old(self).timing_enabled {
                PlaceTimingStats { step_turn_ns: (old(self).timing.step_turn_ns + n) as u64, ..old(self).timing }
            } else {
                old(self).timing
            },
            final(self).work == old(self).work,
            final(self).forbidden_inserts == old(self).forbidden_inserts,
            final(self).timing_enabled == old(self).timing_enabled,
            final(self).profiling_enabled == old(self).profiling_enabled,
            final(self).forbidden_records@ == old(self).forbidden_records@,
    {
        if !self.timing_enabled {
            return;
        }
        self.timing.step_turn_ns = self.timing.step_turn_ns + n;
    }

    /// Time spent committing one placement.
    pub fn add_place_total_ns(&mut self, n: u64)
        requires
            old(self).timing_enabled ==> old(self).timing.place_total_ns + n <= u64::MAX,
        ensures
            final(self).timing == if old(self).timing_enabled {
                PlaceTimingStats { place_total_ns: (old(self).timing.place_total_ns + n) as u64, ..old(self).timing }
            } else {
                old(self).timing
            },
            final(self).work == old(self).work,
            final(self).forbidden_inserts == old(self).forbidden_inserts,
            final(self).timing_enabled == old(self).timing_enabled,
            final(self).profiling_enabled == old(self).profiling_enabled,
            final(self).forbidden_records@ == old(self).forbidden_records@,
    {
        if !self.timing_enabled {
            return;
        }
        self.timing.place_total_ns = self.timing.place_total_ns + n;
    }

    /// Time spent growing and writing the occupancy grid.
    pub fn add_occupancy_insert_ns(&mut self, n: u64)
        requires
            old(self).timing_enabled ==> old(self).timing.occupancy_insert_ns + n <= u64::MAX,
        ensures
            final(self).timing == if old(self).timing_enabled {
                PlaceTimingStats { occupancy_insert_ns: (old(self).timing.occupancy_insert_ns + n) as u64, ..old(self).timing }
            } else {
                old(self).timing
            },
            final(self).work == old(self).work,
            final(self).forbidden_inserts == old(self).forbidden_inserts,
            final(self).timing_enabled == old(self).timing_enabled,
            final(self).profiling_enabled == old(self).profiling_enabled,
            final(self).forbidden_records@ == old(self).forbidden_records@,
    {
        if !self.timing_enabled {
            return;
        }
        self.timing.occupancy_insert_ns = self.timing.occupancy_insert_ns + n;
    }

    /// Time spent marking attacked cells.
    pub fn add_record_forbidden_ns(&mut self, n: u64)
        requires
            old(self).timing_enabled ==> old(self).timing.record_forbidden_ns + n <= u64::MAX,
        ensures
            final(self).timing == if old(self).timing_enabled {
                PlaceTimingStats { record_forbidden_ns: (old(self).timing.record_forbidden_ns + n) as u64, ..old(self).timing }
            } else {
                old(self).timing
            },
            final(self).work == old(self).work,
            final(self).forbidden_inserts == old(self).forbidden_inserts,
            final(self).timing_enabled == old(self).timing_enabled,
            final(self).profiling_enabled == old(self).profiling_enabled,
            final(self).forbidden_records@ == old(self).forbidden_records@,
    {
        if !self.timing_enabled {
            return;
        }
        self.timing.record_forbidden_ns = self.timing.record_forbidden_ns + n;
    }

    /// Time spent appending to the placement log.
    pub fn add_placements_push_ns(&mut self, n: u64)
        requires
            old(self).timing_enabled ==> old(self).timing.placements_push_ns + n <= u64::MAX,
        ensures
            final(self).timing == if old(self).timing_enabled {
                PlaceTimingStats { placements_push_ns: (old(self).timing.placements_push_ns + n) as u64, ..old(self).timing }
            } else {
                old(self).timing
            },
            final(self).work == old(self).work,
            final(self).forbidden_inserts == old(self).forbidden_inserts,
            final(self).timing_enabled == old(self).timing_enabled,
            final(self).profiling_enabled == old(self).profiling_enabled,
            final(self).forbidden_records@ == old(self).forbidden_records@,
    {
        if !self.timing_enabled {
            return;
        }
        self.timing.placements_push_ns = self.timing.placements_push_ns + n;
    }

    pub fn clear_forbidden_records(&mut self)
        ensures
            final(self).forbidden_records@.len() == 0,
            final(self).work == old(self).work,
            final(self).forbidden_inserts == old(self).forbidden_inserts,
            final(self).timing == old(self).timing,
            final(self).timing_enabled == old(self).timing_enabled,
            final(self).profiling_enabled == old(self).profiling_enabled,
    {
        self.forbidden_records.clear();
    }

    /// Record that `index` became forbidden for `target_piece`.
    pub fn push_forbidden_record(&mut self, target_piece: usize, index: u32)
        ensures
            final(self).forbidden_records@ == if old(self).profiling_enabled {
                old(self).forbidden_records@.push((target_piece, index))
            } else {
                old(self).forbidden_records@
            },
            final(self).work == old(self).work,
            final(self).forbidden_inserts == old(self).forbidden_inserts,
            final(self).timing == old(self).timing,
            final(self).timing_enabled == old(self).timing_enabled,
            final(self).profiling_enabled == old(self).profiling_enabled,
    {
        if !self.profiling_enabled {
            return;
        }
        self.forbidden_records.push((target_piece, index));
    }

    /// Hand out the forbidden records and clear them.
    pub fn take_forbidden_records(&mut self) -> (records: Vec<(usize, u32)>)
        ensures
            records@ == old(self).forbidden_records@,
            final(self).forbidden_records@.len() == 0,
            final(self).work == old(self).work,
            final(self).forbidden_inserts == old(self).forbidden_inserts,
            final(self).timing == old(self).timing,
            final(self).timing_enabled == old(self).timing_enabled,
            final(self).profiling_enabled == old(self).profiling_enabled,
    {
        let mut records: Vec<(usize, u32)> = Vec::new();
        std::mem::swap(&mut records, &mut self.forbidden_records);
        records
    }
}

/// A bitset of visit indices, 64 per word, for timing inserts in isolation.
#[derive(Default)]
pub struct ForbiddenInsertHarness {
    words: Vec<u64>,
}

impl ForbiddenInsertHarness {
    pub closed spec fn spec_words(&self) -> Seq<u64> {
        self.words@
    }

    /// Whether `index` is in the set.
    pub open spec fn spec_contains(&self, index: u32) -> bool {
        let wi = index as int / 64;
        wi < self.spec_words().len() && (self.spec_words()[wi] >> (index % 64) as u64) & 1 == 1
    }

    /// Set the bit of `index`, growing the word list with zero words as needed.
    pub fn insert(&mut self, index: u32)
        ensures
            final(self).spec_words().len() == if (index / 64) < old(self).spec_words().len() {
                old(self).spec_words().len()
            } else {
                ((index / 64) + 1) as nat
            },
            forall|j: int| 0 <= j < final(self).spec_words().len() ==> #[trigger] final(self).spec_words()[j] == {
                let prev = if j < old(self).spec_words().len() { old(self).spec_words()[j] } else { 0u64 };
                if j == index / 64 { prev | (1u64 << (index % 64) as u64) } else { prev }
            },
            final(self).spec_contains(index),
    {
        let word_index = (index >> 6) as usize;
        proof {
            assert(index >> 6 == index / 64) by (bit_vector);
            assert(index & 63 == index % 64) by (bit_vector);
        }
        let bit = 1u64 << ((index & 63) as u64);
        let ghost before = self.words@;
        while self.words.len() <= word_index
            invariant
                before.len() <= self.words@.len(),
                self.words@.len() <= if word_index < before.len() { before.len() } else { (word_index + 1) as nat },
                forall|j: int| 0 <= j < before.len() ==> #[trigger] self.words@[j] == before[j],
                forall|j: int| before.len() <= j < self.words@.len() ==> #[trigger] self.words@[j] == 0u64,
            decreases word_index + 1 - self.words.len(),
        {
            self.words.push(0);
        }
        let w = self.words[word_index];
        self.words.set(word_index, w | bit);
        proof {
            let s = (index % 64) as u64;
            let v = w | bit;
            assert(s < 64 ==> ((w | (1u64 << s)) >> s) & 1 == 1) by (bit_vector);
        }
    }
}

/// A dense occupancy vector, for timing inserts in isolation.
pub struct OccupancyInsertHarness {
    cells: Vec<usize>,
}

impl OccupancyInsertHarness {
    pub closed spec fn spec_cells(&self) -> Seq<usize> {
        self.cells@
    }

    pub fn new() -> (h: Self)
        ensures
            h.spec_cells().len() == 0,
    {
        Self { cells: Vec::new() }
    }

    /// Write `piece_id` at `index`, growing with empty cells (`usize::MAX`) as needed.
    pub fn insert(&mut self, index: u32, piece_id: usize)
        requires
            index < usize::MAX,
        ensures
            final(self).spec_cells().len() == if index < old(self).spec_cells().len() {
                old(self).spec_cells().len()
            } else {
                (index + 1) as nat
            },
            forall|j: int| 0 <= j < final(self).spec_cells().len() ==> #[trigger] final(self).spec_cells()[j] == if j == index {
                piece_id
            } else if j < old(self).spec_cells().len() {
                old(self).spec_cells()[j]
            } else {
                usize::MAX
            },
    {
        let index = index as usize;
        let ghost before = self.cells@;
        while self.cells.len() <= index
            invariant
                index < usize::MAX,
                before.len() <= self.cells@.len(),
                self.cells@.len() <= if index < before.len() { before.len() } else { (index + 1) as nat },
                forall|j: int| 0 <= j < before.len() ==> #[trigger] self.cells@[j] == before[j],
                forall|j: int| before.len() <= j < self.cells@.len() ==> #[trigger] self.cells@[j] == usize::MAX,
            decreases index + 1 - self.cells.len(),
        {
            self.cells.push(usize::MAX);
        }
        self.cells.set(index, piece_id);
    }

    pub fn len(&self) -> (n: usize)
        ensures
            n == self.spec_cells().len(),
    {
        self.cells.len()
    }
}

} // verus!
