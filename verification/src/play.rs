//! Playing a game: firing at a known board, and marking the results of a game
//! that is played elsewhere.

use crate::evidence::{
    connected, count_revealed, lemma_linked, lemma_revealed_bounded, lemma_revealed_one,
    lemma_revealed_same, remove_one, revealed, run, without,
};
use crate::fair::{lemma_fair_fired, lemma_solver_finishes};
use crate::game::{App, AppView, Mode};
use crate::geometry::lemma_placement_cells;
use crate::layout::{owner, ship_views, ShipView};
use crate::setup::lemma_playable;
use crate::solver::{solve, solved, within_limits, CellState, SolveResult};
use crate::status::Status;
use vstd::prelude::*;

verus! {

/// Every one of the cells is a hit or sunk.
pub open spec fn all_struck(states: Seq<CellState>, cells: Seq<usize>) -> bool {
    forall|i: int|
        #![trigger cells[i]]
        0 <= i < cells.len() ==> states[cells[i] as int] == CellState::Hit
            || states[cells[i] as int] == CellState::Sunk
}

/// The evidence with the state `s` for each of the cells.
pub open spec fn painted(states: Seq<CellState>, cells: Set<int>, s: CellState) -> Seq<CellState> {
    Seq::new(
        states.len(),
        |c: int|
            if cells.contains(c) {
                s
            } else {
                states[c]
            },
    )
}

/// The cells of a ship as a set.
pub open spec fn cell_set(cells: Seq<usize>) -> Set<int> {
    Set::new(|c: int| 0 <= c <= usize::MAX && cells.contains(c as usize))
}

/// What a click makes of a mark. Sunk cells are only changed with the sink tool.
pub open spec fn next_mark(s: CellState) -> CellState {
    match s {
        CellState::Unknown => CellState::Miss,
        CellState::Miss => CellState::Hit,
        CellState::Hit => CellState::Unknown,
        CellState::Sunk => CellState::Sunk,
    }
}

impl AppView {
    /// A shot at `cell` of the known board, resolved. Only a shot at an unknown
    /// cell counts.
    pub open spec fn fired(self, cell: int) -> AppView {
        if self.states[cell] != CellState::Unknown {
            self
        } else {
            match self.true_board {
                None => self,
                Some(ships) => {
                    let resolved = match owner(ships, cell) {
                        None => AppView {
                            states: self.states.update(cell, CellState::Miss),
                            status: Status::Miss,
                            ..self
                        },
                        Some(i) => {
                            let ship = ships[i as int];
                            let hit = self.states.update(cell, CellState::Hit);
                            if all_struck(hit, ship.cells) {
                                AppView {
                                    states: painted(hit, cell_set(ship.cells), CellState::Sunk),
                                    remaining: without(self.remaining, ship.len),
                                    status: Status::SunkShip { len: ship.len },
                                    ..self
                                }
                            } else {
                                AppView { states: hit, status: Status::Hit, ..self }
                            }
                        },
                    };
                    let counted = AppView {
                        shots: (self.shots + 1) as u32,
                        dirty: true,
                        ..resolved
                    };
                    if counted.remaining.len() == 0 {
                        AppView {
                            status: Status::Solved { shots: counted.shots },
                            auto: false,
                            ..counted
                        }
                    } else {
                        counted
                    }
                },
            }
        }
    }

    /// The game `v` with the evidence of this one, and what goes with it.
    pub open spec fn evidence_in(self, v: AppView) -> AppView {
        AppView {
            states: self.states,
            remaining: self.remaining,
            shots: self.shots,
            status: self.status,
            dirty: self.dirty,
            auto: self.auto,
            ..v
        }
    }

    /// The solver recommends the cell for the evidence.
    pub open spec fn recommends_shot(self, cell: Option<usize>) -> bool {
        exists|r: SolveResult| #[trigger]
            solved(&self.cfg, self.states, self.remaining, r) && r.best_cell == cell
    }

    /// The solver fires at a cell that it recommends, and `next` is what comes
    /// of it.
    pub open spec fn solver_fires(self, next: AppView) -> bool {
        exists|b: usize| #[trigger]
            self.recommends_shot(Some(b)) && next == self.fired(b as int)
    }

    /// The cell has the mark, and the shots are counted anew.
    pub open spec fn marked(self, cell: int, s: CellState) -> AppView {
        let states = self.states.update(cell, s);
        AppView { states, shots: revealed(states) as u32, dirty: true, ..self }
    }

    /// The mark of the cell moves on.
    pub open spec fn cycled(self, cell: int) -> AppView {
        self.marked(cell, next_mark(self.states[cell]))
    }

    /// The cell is marked as a hit, unless it is sunk.
    pub open spec fn hit_marked(self, cell: int) -> AppView {
        if self.states[cell] == CellState::Sunk {
            self
        } else {
            self.marked(cell, CellState::Hit)
        }
    }

    /// The run of hits through the cell is sunk, and a ship of its length taken
    /// from the fleet; or the sunk run is turned back into hits, and a ship of
    /// its length put back.
    pub open spec fn sink_toggled(self, cell: int) -> AppView {
        let toggled = match self.states[cell] {
            CellState::Hit => {
                let cells = run(&self.cfg, self.states, CellState::Hit, cell);
                let len = cells.len() as usize;
                AppView {
                    states: painted(self.states, cells, CellState::Sunk),
                    remaining: without(self.remaining, len),
                    status: if self.remaining.contains(len) {
                        Status::MarkedSunk { len }
                    } else {
                        Status::MarkedNoShip { len }
                    },
                    ..self
                }
            },
            CellState::Sunk => {
                let cells = run(&self.cfg, self.states, CellState::Sunk, cell);
                let len = cells.len() as usize;
                AppView {
                    states: painted(self.states, cells, CellState::Hit),
                    remaining: self.remaining.push(len),
                    status: Status::Unsunk { len },
                    ..self
                }
            },
            _ => self,
        };
        AppView { shots: revealed(toggled.states) as u32, dirty: true, ..toggled }
    }

    /// A click on the cell.
    pub open spec fn clicked(self, cell: int) -> AppView {
        if self.mode == Mode::Setup {
            self.ship_tried(cell)
        } else if self.known {
            self.fired(cell)
        } else if self.sink_mode {
            self.sink_toggled(cell)
        } else {
            self.cycled(cell)
        }
    }

    /// A click with the other button on the cell.
    pub open spec fn right_clicked(self, cell: int) -> AppView {
        if self.mode == Mode::Setup {
            self.rotated()
        } else if !self.known && !self.sink_mode {
            self.hit_marked(cell)
        } else {
            self
        }
    }

    /// The recommended cell of the heatmap that is shown, fired at.
    pub open spec fn best_fired(self) -> AppView {
        match self.solve {
            Some(r) => match r.best_cell {
                Some(b) => self.fired(b as int),
                None => self,
            },
            None => self,
        }
    }
}

/// Ships remain, and the solver fires.
pub open spec fn turn(trail: Seq<AppView>, i: int) -> bool {
    trail[i].remaining.len() > 0 && trail[i].solver_fires(trail[i + 1])
}

/// A game that the solver plays: it fires at the cell it recommends while ships
/// remain.
pub open spec fn played_by_solver(trail: Seq<AppView>) -> bool {
    &&& trail.len() > 0
    &&& forall|i: int| 0 <= i < trail.len() - 1 ==> #[trigger] turn(trail, i)
}

/// Marks the cells with the state `s`.
fn paint(states: &mut Vec<CellState>, cells: &Vec<usize>, s: CellState)
    requires
        forall|i: int| 0 <= i < cells@.len() ==> #[trigger] cells@[i] < old(states)@.len(),
    ensures
        final(states)@ == painted(old(states)@, cell_set(cells@), s),
{
    let ghost before = states@;
    let mut k: usize = 0;
    while k < cells.len()
        invariant
            forall|i: int| 0 <= i < cells@.len() ==> #[trigger] cells@[i] < before.len(),
            states@.len() == before.len(),
            k <= cells@.len(),
            forall|c: int|
                #![trigger states@[c]]
                0 <= c < before.len() ==> states@[c] == (if exists|i: int|
                    0 <= i < k && #[trigger] cells@[i] == c {
                    s
                } else {
                    before[c]
                }),
        decreases cells@.len() - k,
    {
        let c = cells[k];
        states[c] = s;
        k += 1;
    }
    proof {
        let want = painted(before, cell_set(cells@), s);
        assert forall|c: int| 0 <= c < before.len() implies states@[c] == want[c] by {
            if cell_set(cells@).contains(c) {
                let i = choose|i: int| 0 <= i < cells@.len() && cells@[i] == c as usize;
                assert(cells@[i] == c);
            }
            if exists|i: int| 0 <= i < k && #[trigger] cells@[i] == c {
                let i = choose|i: int| 0 <= i < k && #[trigger] cells@[i] == c;
                assert(cells@.contains(c as usize));
            }
        }
        assert(states@ =~= want);
    }
}

/// Tells whether every one of the cells is a hit or sunk.
fn struck(states: &Vec<CellState>, cells: &Vec<usize>) -> (r: bool)
    requires
        forall|i: int| 0 <= i < cells@.len() ==> #[trigger] cells@[i] < states@.len(),
    ensures
        r == all_struck(states@, cells@),
{
    let mut k: usize = 0;
    while k < cells.len()
        invariant
            forall|i: int| 0 <= i < cells@.len() ==> #[trigger] cells@[i] < states@.len(),
            k <= cells@.len(),
            forall|i: int|
                #![trigger cells@[i]]
                0 <= i < k ==> states@[cells@[i] as int] == CellState::Hit
                    || states@[cells@[i] as int] == CellState::Sunk,
        decreases cells@.len() - k,
    {
        match states[cells[k]] {
            CellState::Hit | CellState::Sunk => {},
            _ => {
                return false;
            },
        }
        k += 1;
    }
    true
}

impl App {
    /// Fire at `cell` against the known board and resolve the result.
    pub fn fire_known(&mut self, cell: usize)
        requires
            old(self).wf(),
            cell < old(self).cfg.size(),
        ensures
            final(self).wf(),
            final(self)@ == old(self)@.fired(cell as int),
    {
        if self.states[cell] != CellState::Unknown {
            return;
        }
        let board = match &self.true_board {
            Some(b) => b.clone(),
            None => {
                return;
            },
        };
        let ghost ships = ship_views(board.ships@);
        let ghost before = self.states@;
        proof {
            lemma_revealed_bounded(before);
            assert(board.cell_ship@[cell as int] == owner(ships, cell as int));
        }
        self.shots += 1;
        match board.cell_ship[cell] {
            Some(si) => {
                proof {
                    assert(board.ships@.len() == board.ships.len());
                    lemma_owner_bounds(ships, cell as int);
                    lemma_placement_cells(
                        &self.cfg,
                        ships[si as int].len as int,
                        ships[si as int].cells,
                    );
                    lemma_revealed_one(before, cell as int, CellState::Hit);
                }
                self.states[cell] = CellState::Hit;
                let ghost hit = self.states@;
                let ship = &board.ships[si];
                assert(ships[si as int] == ship@);
                if struck(&self.states, &ship.cells) {
                    paint(&mut self.states, &ship.cells, CellState::Sunk);
                    remove_one(&mut self.remaining, ship.len);
                    self.status = Status::SunkShip { len: ship.len };
                    proof {
                        lemma_sinking(hit, ship.cells@);
                    }
                } else {
                    self.status = Status::Hit;
                }
            },
            None => {
                proof {
                    lemma_revealed_one(before, cell as int, CellState::Miss);
                }
                self.states[cell] = CellState::Miss;
                self.status = Status::Miss;
            },
        }
        self.dirty = true;
        if self.remaining.len() == 0 {
            self.status = Status::Solved { shots: self.shots };
            self.auto = false;
        }
        proof {
            lemma_fired_keeps(old(self)@, cell as int);
            assert(self@ =~= old(self)@.fired(cell as int));
            if old(self)@.fair() {
                lemma_fair_fired(old(self)@, cell as int);
            }
        }
    }

    /// Play the whole game out immediately (known mode), no animation.
    pub fn solve_instantly(&mut self)
        requires
            old(self).wf(),
            within_limits(&old(self).cfg, old(self).remaining@.len()),
        ensures
            final(self).wf(),
            exists|trail: Seq<AppView>|
                {
                    &&& #[trigger] played_by_solver(trail)
                    &&& trail[0] == old(self)@
                    &&& final(self)@ == (AppView { dirty: true, ..trail.last() })
                    &&& {
                        ||| trail.last().remaining.len() == 0
                        ||| trail.last().recommends_shot(None)
                        ||| trail.len() == 2 * old(self).cfg.size() + 1
                    }
                },
            final(self)@ == final(self)@.evidence_in(old(self)@),
            final(self).dirty,
            old(self)@.fair() ==> final(self)@.fair() && final(self).remaining@.len() == 0,
            old(self).known && old(self).mode == Mode::Play ==> final(self).remaining@.len() == 0,
    {
        let ghost mut trail = seq![self@];
        let max_iters: usize = self.cfg.cells() * 2;
        let mut guard: usize = 0;
        while self.remaining.len() > 0 && guard < max_iters
            invariant
                self.wf(),
                old(self).wf(),
                self.cfg == old(self).cfg,
                within_limits(&self.cfg, self.remaining@.len()),
                max_iters == 2 * old(self).cfg.size(),
                guard <= max_iters,
                played_by_solver(trail),
                trail.len() == guard + 1,
                trail[0] == old(self)@,
                trail.last() == self@,
                self@ == self@.evidence_in(old(self)@),
            decreases max_iters - guard,
        {
            let r = solve(&self.cfg, self.states.as_slice(), self.remaining.as_slice());
            match r.best_cell {
                Some(bc) => {
                    let ghost before = self@;
                    self.fire_known(bc);
                    proof {
                        assert(before.recommends_shot(Some(bc)));
                        lemma_trail_push(trail, bc);
                        lemma_fired_keeps(before, bc as int);
                        trail = trail.push(self@);
                        let n = self.cfg.size();
                        let (k, m) = (self.remaining@.len(), before.remaining.len());
                        assert(n * k <= n * m) by (nonlinear_arith)
                            requires
                                0 <= n,
                                k <= m,
                        ;
                    }
                },
                None => {
                    proof {
                        assert(r.best_cell == None::<usize>);
                        assert(solved(&self@.cfg, self@.states, self@.remaining, r));
                        assert(self@.recommends_shot(None));
                        if old(self)@.fair() {
                            lemma_solver_finishes(trail);
                        }
                    }
                    self.dirty = true;
                    return;
                },
            }
            guard += 1;
        }
        proof {
            if old(self)@.fair() {
                lemma_solver_finishes(trail);
                lemma_playable(&self.cfg);
            }
        }
        self.dirty = true;
    }

    /// Moves the mark of the cell on.
    pub fn cycle_state(&mut self, cell: usize)
        requires
            old(self).coherent(),
            cell < old(self).cfg.size(),
        ensures
            final(self).coherent(),
            !old(self).known ==> final(self).wf(),
            final(self)@ == old(self)@.cycled(cell as int),
    {
        self.states[cell] = match self.states[cell] {
            CellState::Unknown => CellState::Miss,
            CellState::Miss => CellState::Hit,
            CellState::Hit => CellState::Unknown,
            // Sunk cells are only changed via the sink tool.
            CellState::Sunk => CellState::Sunk,
        };
        self.recount_assistant_shots();
        self.dirty = true;
    }

    /// Marks the cell as a hit, unless it is sunk.
    pub fn mark_hit(&mut self, cell: usize)
        requires
            old(self).coherent(),
            cell < old(self).cfg.size(),
        ensures
            final(self).coherent(),
            !old(self).known ==> final(self).wf(),
            final(self)@ == old(self)@.hit_marked(cell as int),
    {
        if self.states[cell] != CellState::Sunk {
            self.states[cell] = CellState::Hit;
            self.recount_assistant_shots();
            self.dirty = true;
        }
    }

    /// Sink (or un-sink) the contiguous run of hits/sunks through `cell`.
    pub fn toggle_sink(&mut self, cell: usize)
        requires
            old(self).coherent(),
            cell < old(self).cfg.size(),
        ensures
            final(self).coherent(),
            !old(self).known ==> final(self).wf(),
            final(self)@ == old(self)@.sink_toggled(cell as int),
    {
        match self.states[cell] {
            CellState::Hit => {
                let len = self.repaint_run(cell, CellState::Hit, CellState::Sunk);
                if remove_one(&mut self.remaining, len) {
                    self.status = Status::MarkedSunk { len };
                } else {
                    self.status = Status::MarkedNoShip { len };
                }
            },
            CellState::Sunk => {
                let len = self.repaint_run(cell, CellState::Sunk, CellState::Hit);
                self.remaining.push(len);
                self.status = Status::Unsunk { len };
            },
            _ => {},
        }
        self.recount_assistant_shots();
        self.dirty = true;
    }

    /// Gives the run of cells through `cell` another state; returns its length.
    fn repaint_run(&mut self, cell: usize, from: CellState, to: CellState) -> (len: usize)
        requires
            old(self).cfg.fits(),
            old(self).states@.len() == old(self).cfg.size(),
            cell < old(self).cfg.size(),
        ensures
            ({
                let cells = run(&old(self).cfg, old(self).states@, from, cell as int);
                &&& len == cells.len()
                &&& final(self).states@ == painted(old(self).states@, cells, to)
            }),
            *final(self) == (App { states: final(self).states, ..*old(self) }),
    {
        let ghost before = self.states@;
        let ghost found = run(&self.cfg, before, from, cell as int);
        let cells = connected(&self.cfg, self.states.as_slice(), cell, from);
        proof {
            assert forall|i: int| 0 <= i < cells@.len() implies #[trigger] cells@[i]
                < before.len() by {
                assert(cells@.contains(cells@[i]));
                lemma_linked(&self.cfg, before, from, cell as int, cells@[i] as int);
            }
        }
        paint(&mut self.states, &cells, to);
        proof {
            assert forall|c: int| 0 <= c < before.len() implies (cell_set(cells@).contains(c)
                <==> found.contains(c)) by {
                assert(cells@.contains(c as usize) <==> found.contains(c));
            }
            assert(self.states@ =~= painted(before, found, to));
        }
        cells.len()
    }

    /// Counts the marked cells as shots.
    fn recount_assistant_shots(&mut self)
        requires
            old(self).states@.len() <= u32::MAX,
        ensures
            *final(self) == (App { shots: final(self).shots, ..*old(self) }),
            final(self).shots == revealed(old(self).states@),
    {
        self.shots = count_revealed(self.states.as_slice());
    }

    /// A click on a cell: places a ship, fires, or marks.
    pub fn on_primary(&mut self, idx: usize)
        requires
            old(self).wf(),
            idx < old(self).cfg.size(),
        ensures
            final(self).wf(),
            final(self)@ == old(self)@.clicked(idx as int),
    {
        match self.mode {
            Mode::Setup => self.try_place_setup(idx),
            Mode::Play => {
                if self.known {
                    self.fire_known(idx);
                } else if self.sink_mode {
                    self.toggle_sink(idx);
                } else {
                    self.cycle_state(idx);
                }
            },
        }
    }

    /// A click with the other button on a cell: turns the ship, or marks a hit.
    pub fn on_secondary(&mut self, idx: usize)
        requires
            old(self).wf(),
            idx < old(self).cfg.size(),
        ensures
            final(self).wf(),
            final(self)@ == old(self)@.right_clicked(idx as int),
    {
        match self.mode {
            Mode::Setup => self.rotate(),
            Mode::Play => {
                if !self.known && !self.sink_mode {
                    self.mark_hit(idx);
                }
            },
        }
    }

    /// Chooses between a known board and assistant mode; a change starts a
    /// fresh game.
    pub fn set_known(&mut self, known: bool)
        requires
            old(self).wf(),
        ensures
            final(self).wf(),
            final(self)@ == (if known == old(self).known {
                old(self)@
            } else {
                (AppView { known, ..old(self)@ }).reset()
            }),
    {
        if self.known != known {
            self.known = known;
            self.reset_game();
        }
    }

    /// Tells whether the remaining fleet is within the solver's limits.
    pub fn solvable(&self) -> (r: bool)
        requires
            self.wf(),
        ensures
            r == within_limits(&self.cfg, self.remaining@.len()),
            self.known && self.mode == Mode::Play ==> r,
    {
        let n = self.cfg.cells();
        let k = self.remaining.len();
        proof {
            let p = n * k;
            assert(0 <= p) by (nonlinear_arith)
                requires
                    0 <= n,
                    0 <= k,
                    p == n * k,
            ;
            let m = self.cfg.ships@.len() as int;
            if k <= m {
                assert(n * k <= n * m) by (nonlinear_arith)
                    requires
                        0 <= n,
                        k <= m,
                ;
            }
        }
        match n.checked_mul(k) {
            None => false,
            Some(p) => p as u64 <= u64::MAX / 8,
        }
    }

    /// Recompute the heatmap whenever evidence changed (Play mode only).
    pub fn refresh(&mut self)
        requires
            old(self).wf(),
            within_limits(&old(self).cfg, old(self).remaining@.len()),
        ensures
            final(self).wf(),
            if old(self).dirty && old(self).mode == Mode::Play {
                &&& final(self)@ == (AppView {
                    solve: final(self).solve,
                    dirty: false,
                    ..old(self)@
                })
                &&& final(self).solve matches Some(r)
                &&& solved(&old(self).cfg, old(self).states@, old(self).remaining@, r)
            } else {
                final(self)@ == old(self)@
            },
    {
        if self.dirty && self.mode == Mode::Play {
            let r = solve(&self.cfg, self.states.as_slice(), self.remaining.as_slice());
            self.solve = Some(r);
            self.dirty = false;
        }
    }

    /// The cell that the heatmap recommends.
    pub fn best_cell(&self) -> (r: Option<usize>)
        ensures
            r == (match self.solve {
                Some(s) => s.best_cell,
                None => None,
            }),
    {
        match &self.solve {
            Some(s) => s.best_cell,
            None => None,
        }
    }

    /// Fires at the recommended cell, if there is one.
    pub fn fire_best(&mut self)
        requires
            old(self).wf(),
        ensures
            final(self).wf(),
            final(self)@ == old(self)@.best_fired(),
    {
        if let Some(bc) = self.best_cell() {
            self.fire_known(bc);
        }
    }

    /// The keys of the keyboard that were pressed.
    pub fn on_keys(&mut self, r_pressed: bool, space_pressed: bool)
        requires
            old(self).wf(),
        ensures
            final(self).wf(),
            final(self)@ == (if r_pressed && old(self).mode == Mode::Setup {
                old(self)@.rotated()
            } else if space_pressed && old(self).mode == Mode::Play && old(self).known {
                old(self)@.best_fired()
            } else {
                old(self)@
            }),
    {
        if r_pressed && self.mode == Mode::Setup {
            self.rotate();
        }
        if space_pressed && self.mode == Mode::Play && self.known {
            self.fire_best();
        }
    }

    /// Animated auto-play: fire one shot when it is due. Returns whether there
    /// is a shot to wait for; with no ship left auto-play ends.
    pub fn auto_step(&mut self, due: bool) -> (r: bool)
        requires
            old(self).wf(),
        ensures
            final(self).wf(),
            r == (old(self).auto && old(self).mode == Mode::Play && old(self).known
                && old(self).remaining@.len() > 0),
            final(self)@ == (if r && due {
                old(self)@.best_fired()
            } else if old(self).auto && old(self).mode == Mode::Play && old(self).known && !r {
                AppView { auto: false, ..old(self)@ }
            } else {
                old(self)@
            }),
    {
        if self.auto && self.mode == Mode::Play && self.known {
            if self.remaining.len() == 0 {
                self.auto = false;
                return false;
            }
            if due {
                self.fire_best();
            }
            return true;
        }
        false
    }
}

/// A shot changes nothing but the evidence, and no ship is added to the fleet.
pub proof fn lemma_fired_keeps(v: AppView, cell: int)
    requires
        0 <= cell < v.states.len(),
    ensures
        ({
            let w = v.fired(cell);
            &&& w == w.evidence_in(v)
            &&& w.states.len() == v.states.len()
            &&& w.remaining.len() <= v.remaining.len()
        }),
{
    assert forall|x: usize| (#[trigger] without(v.remaining, x)).len() <= v.remaining.len() by {
        v.remaining.index_of_first_ensures(x);
    }
}

proof fn lemma_trail_push(trail: Seq<AppView>, b: usize)
    requires
        played_by_solver(trail),
        trail.last().remaining.len() > 0,
        trail.last().recommends_shot(Some(b)),
    ensures
        played_by_solver(trail.push(trail.last().fired(b as int))),
{
    let longer = trail.push(trail.last().fired(b as int));
    assert forall|i: int| 0 <= i < longer.len() - 1 implies #[trigger] turn(longer, i) by {
        assert(longer[i] == trail[i]);
        if i < trail.len() - 1 {
            assert(turn(trail, i));
            assert(longer[i + 1] == trail[i + 1]);
        }
    }
}

/// Sinking a struck ship reveals no cell.
pub proof fn lemma_sinking(states: Seq<CellState>, cells: Seq<usize>)
    requires
        all_struck(states, cells),
    ensures
        revealed(painted(states, cell_set(cells), CellState::Sunk)) == revealed(states),
{
    let sunk = painted(states, cell_set(cells), CellState::Sunk);
    assert forall|c: int|
        #![trigger states[c]]
        #![trigger sunk[c]]
        0 <= c < states.len() implies (states[c] == CellState::Unknown <==> sunk[c]
        == CellState::Unknown) by {
        if cell_set(cells).contains(c) {
            let i = choose|i: int| 0 <= i < cells.len() && cells[i] == c as usize;
            assert(cells[i] == c);
        }
    }
    lemma_revealed_same(states, sunk);
}

/// The ship that owns a cell is one of the ships.
proof fn lemma_owner_bounds(ships: Seq<ShipView>, c: int)
    requires
        owner(ships, c) is Some,
        ships.len() <= usize::MAX,
    ensures
        owner(ships, c)->0 < ships.len(),
        ships[owner(ships, c)->0 as int].cells.contains(c as usize),
{
}

} // verus!
