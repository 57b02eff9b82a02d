//! What the display reads of a running simulation: a snapshot taken between batches of turns.

use vstd::prelude::*;
use crate::grid::OccupancyGrid;
use crate::model::PieceId;
use crate::model::GameDefinition;
use crate::sim::{cursor_pending, spec_needs_work, PieceTally, Simulation};

verus! {

/// Snapshot of a simulation for rendering.
#[derive(Clone, Debug)]
pub struct SimDisplay {
    pub occupancy: OccupancyGrid,
    pub cursors: Vec<u32>,
    /// Per-piece placement aggregates, indexed by piece id.
    pub piece_tally: Vec<PieceTally>,
    /// Turn-ordered log for hover placement paths.
    pub placements: std::sync::Arc<Vec<(u32, PieceId)>>,
    pub turn_step: usize,
    /// Mirrors the simulation's saturation, so the display stops asking for more work once the
    /// simulation has hit its memory ceiling.
    pub saturated: bool,
}

impl Default for SimDisplay {
    fn default() -> (d: Self)
        ensures
            forall|i: int| d.occupancy.spec_piece_at(i) is None,
            d.cursors@.len() == 0,
            d.piece_tally@.len() == 0,
            d.placements@.len() == 0,
            d.turn_step == 0,
            !d.saturated,
    {
        Self {
            occupancy: OccupancyGrid::new(),
            cursors: Vec::new(),
            piece_tally: Vec::new(),
            placements: std::sync::Arc::new(Vec::new()),
            turn_step: 0,
            saturated: false,
        }
    }
}

/// Snapshot `sim` for the display.
pub fn display_from_sim(sim: &Simulation) -> (d: SimDisplay)
    ensures
        forall|i: int| #[trigger] d.occupancy.spec_piece_at(i) == sim.spec_occupied(i),
        d.cursors@ == sim.spec_cursors(),
        d.piece_tally@ == sim.spec_tally(),
        d.placements@ == sim.spec_placements(),
        d.turn_step == sim.spec_turn_step(),
        d.saturated == sim.spec_saturated(),
{
    let cursors = sim.cursor_slice();
    let mut copy: Vec<u32> = Vec::new();
    let mut i: usize = 0;
    while i < cursors.len()
        invariant
            i <= cursors@.len(),
            copy@ == cursors@.subrange(0, i as int),
        decreases cursors.len() - i,
    {
        copy.push(cursors[i]);
        i += 1;
        assert(copy@ =~= cursors@.subrange(0, i as int));
    }
    assert(cursors@.subrange(0, cursors@.len() as int) == cursors@);
    let tally = sim.piece_tally();
    let mut tally_copy: Vec<PieceTally> = Vec::new();
    let mut k: usize = 0;
    while k < tally.len()
        invariant
            k <= tally@.len(),
            tally_copy@ == tally@.subrange(0, k as int),
        decreases tally.len() - k,
    {
        tally_copy.push(tally[k]);
        k += 1;
        assert(tally_copy@ =~= tally@.subrange(0, k as int));
    }
    assert(tally@.subrange(0, tally@.len() as int) == tally@);
    let grid = sim.occupancy_view();
    let occupancy = grid.snapshot();
    assert forall|i: int| #[trigger] occupancy.spec_piece_at(i) == sim.spec_occupied(i) by {
        assert(grid.spec_piece_at(i) == sim.spec_occupied(i));
    }
    SimDisplay {
        occupancy,
        cursors: copy,
        piece_tally: tally_copy,
        placements: sim.placements_snapshot(),
        turn_step: sim.steps_taken(),
        saturated: sim.is_saturated(),
    }
}

impl SimDisplay {
    /// Whether some enabled piece's cursor in the snapshot has not yet passed `target_index`.
    pub fn needs_work(&self, def: &GameDefinition, target_index: u32) -> (needed: bool)
        ensures
            needed == spec_needs_work(*def, self.cursors@, target_index),
    {
        let n = self.cursors.len();
        let mut id: usize = 0;
        while id < n
            invariant
                n == self.cursors@.len(),
                id <= n,
                forall|q: int| 0 <= q < id ==> !#[trigger] cursor_pending(*def, self.cursors@, target_index, q),
            decreases n - id,
        {
            if id < def.pieces.len() && def.pieces[id].enabled && self.cursors[id] <= target_index {
                assert(cursor_pending(*def, self.cursors@, target_index, id as int));
                return true;
            }
            id += 1;
        }
        false
    }
}

/// The display side's view of the simulation worker: whether an advance job is running, the
/// job whose results it waits for, and the last job id handed out. Job ids only grow, so the
/// worker can tell a newer request from a stale one.
#[derive(Clone, Copy, Debug, PartialEq, Eq, Structural)]
pub struct BridgeState {
    pub advance_in_flight: bool,
    pub active_job_id: u64,
    pub next_job_id: u64,
}

impl BridgeState {
    /// No job yet.
    pub fn new() -> (s: Self)
        ensures
            s == (BridgeState { advance_in_flight: false, active_job_id: 0, next_job_id: 0 }),
    {
        BridgeState { advance_in_flight: false, active_job_id: 0, next_job_id: 0 }
    }

    /// A reset is sent: it uses up a job id (so no earlier advance outranks it) and nothing is in
    /// flight any more.
    pub fn note_reset(&mut self)
        requires
            old(self).next_job_id < u64::MAX,
        ensures
            final(self).next_job_id == old(self).next_job_id + 1,
            final(self).active_job_id == old(self).active_job_id,
            !final(self).advance_in_flight,
    {
        self.next_job_id = self.next_job_id + 1;
        self.advance_in_flight = false;
    }

    /// An advance job is sent, superseding any running one; returns its id.
    pub fn start_advance(&mut self) -> (job_id: u64)
        requires
            old(self).next_job_id < u64::MAX,
        ensures
            job_id == old(self).next_job_id + 1,
            *final(self) == (BridgeState { advance_in_flight: true, active_job_id: job_id, next_job_id: job_id }),
    {
        self.next_job_id = self.next_job_id + 1;
        let job_id = self.next_job_id;
        self.active_job_id = job_id;
        self.advance_in_flight = true;
        job_id
    }

    /// An advance job is sent only when none is in flight; returns its id if one was sent.
    pub fn request_advance(&mut self) -> (job_id: Option<u64>)
        requires
            !old(self).advance_in_flight ==> old(self).next_job_id < u64::MAX,
        ensures
            old(self).advance_in_flight ==> job_id is None && *final(self) == *old(self),
            !old(self).advance_in_flight ==> job_id == Some((old(self).next_job_id + 1) as u64)
                && *final(self) == (BridgeState { advance_in_flight: true, active_job_id: (old(self).next_job_id + 1) as u64, next_job_id: (old(self).next_job_id + 1) as u64 }),
    {
        if self.advance_in_flight {
            return None;
        }
        Some(self.start_advance())
    }

    /// A snapshot arrived; one sent as the worker went idle ends the job in flight.
    pub fn note_update(&mut self, worker_idle: bool)
        ensures
            final(self).advance_in_flight == (old(self).advance_in_flight && !worker_idle),
            final(self).active_job_id == old(self).active_job_id,
            final(self).next_job_id == old(self).next_job_id,
    {
        if worker_idle {
            self.advance_in_flight = false;
        }
    }

    /// The worker is gone: nothing is in flight.
    pub fn note_disconnected(&mut self)
        ensures
            *final(self) == (BridgeState { advance_in_flight: false, ..*old(self) }),
    {
        self.advance_in_flight = false;
    }

    pub fn is_busy(&self) -> (busy: bool)
        ensures
            busy == self.advance_in_flight,
    {
        self.advance_in_flight
    }
}

/// While a job runs, an advance request received from the queue replaces the one chosen so far
/// (`best`) when it is newer than the running job and than that choice.
pub fn supersedes(job_id: u64, active_job_id: u64, best: Option<u64>) -> (replace: bool)
    ensures
        replace == (job_id > active_job_id && match best {
            Some(b) => job_id > b,
            None => true,
        }),
{
    if job_id <= active_job_id {
        return false;
    }
    match best {
        Some(b) => job_id > b,
        None => true,
    }
}

} // verus!
