//! Setting up a game: its rules, and the ships on a known board.

use crate::board::{can_place, GameConfig, TrueBoard};
use crate::config::{build_config, objection, ship_list, total_len};
use crate::evidence::{blank, blank_states, lemma_revealed_blank};
use crate::fair::lemma_fair_start;
use crate::game::{board_within_limits, lcg, no_marks, no_owners, App, AppView, Mode, Orient};
use crate::geometry::{
    across, compatible, down, lemma_cell, lemma_coords, lemma_placement_cells, lemma_placements_complete,
    lies_across, lies_down, placement_list,
};
use crate::laws::{lemma_hand_placed, lemma_rest_randomized};
use crate::layout::{
    at_peace, attempts, candidates, copy_owners, copy_ships, dead_end, fits_beside, laid_out, lemma_add_ship,
    lemma_placing_lens, lemma_room, occupied, owner, owners, place_ships, placing, put_ship, ship_cells, ship_lens, ship_views, Placing,
    ShipView, BOARD_ATTEMPTS,
};
use crate::order::descending;
use crate::outside::{seeded_rng, seeded_state};
use crate::solver::within_limits;
use crate::status::Status;
use vstd::prelude::*;
use vstd::slice::slice_subrange;

verus! {

/// The cells that a ship of `len` occupies from `anchor` on, unless it runs off
/// the board.
pub open spec fn anchored(cfg: &GameConfig, orient: Orient, anchor: int, len: int) -> Option<
    Seq<usize>,
> {
    let (x, y) = (cfg.col(anchor), cfg.row(anchor));
    match orient {
        Orient::Horizontal => if len == 0 || (x + len <= cfg.width && y < cfg.height) {
            Some(across(cfg, x, y, len))
        } else {
            None
        },
        Orient::Vertical => if len == 0 || y + len <= cfg.height {
            Some(down(cfg, x, y, len))
        } else {
            None
        },
    }
}

/// The board with the value `v` for each of the cells.
pub open spec fn at_cells<A>(board: Seq<A>, cells: Seq<usize>, v: A) -> Seq<A> {
    Seq::new(
        board.len(),
        |c: int|
            if cells.contains(c as usize) {
                v
            } else {
                board[c]
            },
    )
}

impl AppView {
    /// The ships on the board are the first ships of the fleet.
    pub open spec fn in_order(self) -> bool {
        ship_lens(self.setup_ships) == self.cfg.ships@.take(self.place_idx as int)
    }

    /// Some ship that is yet to be placed has no place among those on the board.
    pub open spec fn hopeless(self) -> bool {
        exists|i: int|
            self.place_idx <= i < self.cfg.ships@.len() && (#[trigger] candidates(
                &self.cfg,
                self.setup_ships,
                self.cfg.ships@[i] as int,
            )).len() == 0
    }

    /// The other direction.
    pub open spec fn rotated(self) -> AppView {
        AppView {
            orient: match self.orient {
                Orient::Horizontal => Orient::Vertical,
                Orient::Vertical => Orient::Horizontal,
            },
            ..self
        }
    }

    /// The fleet is placed: play begins.
    pub open spec fn started(self, board: Seq<ShipView>) -> AppView {
        AppView {
            true_board: Some(board),
            states: blank(self.cfg.size()),
            remaining: self.cfg.ships@,
            mode: Mode::Play,
            shots: 0,
            solve: None,
            dirty: true,
            status: Status::Playing,
            ..self
        }
    }

    /// The next ship of the fleet is placed from `anchor` on, if it may lie
    /// there; with the last ship play begins.
    pub open spec fn ship_tried(self, anchor: int) -> AppView {
        let fleet = self.cfg.ships@;
        if self.place_idx >= fleet.len() {
            self
        } else {
            let len = fleet[self.place_idx as int];
            match anchored(&self.cfg, self.orient, anchor, len as int) {
                None => AppView { status: Status::OffBoard, ..self },
                Some(cells) => {
                    if !fits_beside(&self.cfg, ship_cells(self.setup_ships), cells) {
                        AppView { status: Status::BadSpot, ..self }
                    } else {
                        let placed = AppView {
                            setup_occ: at_cells(self.setup_occ, cells, true),
                            setup_cell_ship: at_cells(
                                self.setup_cell_ship,
                                cells,
                                Some(self.setup_ships.len() as usize),
                            ),
                            setup_ships: self.setup_ships.push(ShipView { len, cells }),
                            place_idx: (self.place_idx + 1) as usize,
                            ..self
                        };
                        if placed.place_idx == fleet.len() {
                            placed.started(placed.setup_ships)
                        } else {
                            AppView {
                                status: Status::Placed {
                                    next: (placed.place_idx + 1) as usize,
                                    total: fleet.len() as usize,
                                    len: fleet[placed.place_idx as int],
                                },
                                ..placed
                            }
                        }
                    }
                },
            }
        }
    }

    /// The ships that are not placed yet are placed at random, and play begins;
    /// a ship that finds no place ends this, and the ships before it stay.
    pub open spec fn rest_randomized(self) -> AppView {
        let seed = lcg(self.seed_counter);
        let rest = self.cfg.ships@.skip(self.place_idx as int);
        let end = placing(
            &self.cfg,
            rest,
            rest.len(),
            Placing { ships: self.setup_ships, stuck: false, state: seeded_state(seed) },
        );
        let placed = AppView {
            setup_occ: occupied(&self.cfg, end.ships),
            setup_cell_ship: owners(&self.cfg, end.ships),
            setup_ships: end.ships,
            seed_counter: seed,
            ..self
        };
        if end.stuck {
            AppView { status: Status::CannotFitRest, ..placed }
        } else {
            AppView { place_idx: self.cfg.ships@.len() as usize, ..placed }.started(end.ships)
        }
    }

    /// All ships are taken off the board.
    pub open spec fn cleared(self) -> AppView {
        AppView {
            setup_occ: no_marks(self.cfg.size()),
            setup_cell_ship: no_owners(self.cfg.size()),
            setup_ships: Seq::empty(),
            place_idx: 0,
            status: Status::Cleared,
            ..self
        }
    }

    /// The whole fleet is placed at random, and play begins.
    pub open spec fn board_randomized(self) -> AppView {
        let seed = lcg(self.seed_counter);
        let end = attempts(
            &self.cfg,
            descending(self.cfg.ships@),
            BOARD_ATTEMPTS as nat,
            seeded_state(seed),
        );
        let seeded = AppView { seed_counter: seed, ..self };
        if end.stuck {
            AppView { status: Status::CannotRandomize, ..seeded }
        } else {
            seeded.started(end.ships)
        }
    }
}

/// A playable board has cells, and no more ships than cells.
pub proof fn lemma_playable(cfg: &GameConfig)
    requires
        cfg.playable(),
    ensures
        cfg.width > 0,
        cfg.height > 0,
        1 <= cfg.ships@.len() <= cfg.size(),
{
    let v = cfg.ships@;
    assert forall|i: int| 0 <= i < v.len() implies #[trigger] v[i] >= 1 by {
        assert(v.contains(v[i]));
    }
    lemma_fleet_len(v);
    assert(cfg.width > 0 && cfg.height > 0) by (nonlinear_arith)
        requires
            1 <= cfg.width * cfg.height,
    ;
}

proof fn lemma_fleet_len(v: Seq<usize>)
    requires
        forall|i: int| 0 <= i < v.len() ==> #[trigger] v[i] >= 1,
    ensures
        v.len() <= total_len(v),
    decreases v.len(),
{
    if v.len() > 0 {
        let w = v.drop_last();
        assert forall|i: int| 0 <= i < w.len() implies #[trigger] w[i] >= 1 by {
            assert(w[i] == v[i]);
        }
        lemma_fleet_len(w);
        assert(v[v.len() - 1] >= 1);
    }
}

impl App {
    /// Tells whether the sides that the player chose are within the limits of
    /// the solver, whatever the fleet.
    pub fn board_allowed(&self) -> (r: bool)
        ensures
            r == board_within_limits(self.ui_w as int, self.ui_h as int),
    {
        if self.ui_w < 0 || self.ui_h < 0 {
            return false;
        }
        let w: u64 = self.ui_w as u64;
        let h: u64 = self.ui_h as u64;
        proof {
            assert(0 <= w * h <= 0x7fff_ffff * 0x7fff_ffff) by (nonlinear_arith)
                requires
                    0 <= w <= 0x7fff_ffff,
                    0 <= h <= 0x7fff_ffff,
            ;
        }
        let n: u64 = w * h;
        if n > 0x7fff_ffff {
            return false;
        }
        proof {
            assert(0 <= n * n <= 0x7fff_ffff * 0x7fff_ffff) by (nonlinear_arith)
                requires
                    0 <= n <= 0x7fff_ffff,
            ;
        }
        n * n <= usize::MAX as u64 && n * n <= u64::MAX / 8
    }

    /// Build a `GameConfig` from the editable fields and start a fresh game.
    pub fn apply_config(&mut self)
        requires
            old(self).wf(),
            board_within_limits(old(self).ui_w as int, old(self).ui_h as int),
        ensures
            final(self).wf(),
            match objection(
                old(self).ui_w as int,
                old(self).ui_h as int,
                ship_list(old(self).ui_ships@),
            ) {
                Some(e) => final(self)@ == (AppView { cfg_error: Some(e), ..old(self)@ }),
                None => {
                    let cfg = final(self).cfg;
                    &&& cfg.width == old(self).ui_w
                    &&& cfg.height == old(self).ui_h
                    &&& ship_list(old(self).ui_ships@) == Some(cfg.ships@)
                    &&& cfg.gap_rule == old(self).ui_gap
                    &&& final(self)@ == (AppView { cfg, cfg_error: None, ..old(self)@ }).reset()
                },
            },
    {
        let w: usize = self.ui_w as usize;
        let h: usize = self.ui_h as usize;
        proof {
            let n = w * h;
            assert(0 <= n) by (nonlinear_arith)
                requires
                    0 <= w,
                    0 <= h,
                    n == w * h,
            ;
            assert(n <= n * n) by (nonlinear_arith)
                requires
                    0 <= n,
            ;
        }
        match build_config(w, h, self.ui_ships.as_str(), self.ui_gap) {
            Err(e) => {
                self.cfg_error = Some(e);
            },
            Ok(cfg) => {
                proof {
                    lemma_playable(&cfg);
                    let n = cfg.size();
                    let k = cfg.ships@.len() as int;
                    assert(8 * (n * k) <= 8 * (n * n)) by (nonlinear_arith)
                        requires
                            0 <= k <= n,
                    ;
                }
                self.cfg_error = None;
                self.cfg = cfg;
                self.reset_game();
            },
        }
    }

    /// Turns the ship that is placed next.
    pub fn rotate(&mut self)
        requires
            old(self).wf(),
        ensures
            final(self).wf(),
            final(self)@ == old(self)@.rotated(),
    {
        self.orient = match self.orient {
            Orient::Horizontal => Orient::Vertical,
            Orient::Vertical => Orient::Horizontal,
        };
    }

    /// Cells a ship of the given length would occupy if anchored at `anchor`.
    pub fn ship_cells_at(&self, anchor: usize, len: usize) -> (r: Option<Vec<usize>>)
        requires
            self.cfg.fits(),
            self.cfg.width > 0,
        ensures
            match (r, anchored(&self.cfg, self.orient, anchor as int, len as int)) {
                (Some(v), Some(cells)) => v@ == cells,
                (None, None) => true,
                _ => false,
            },
    {
        let (x, y) = self.cfg.xy(anchor);
        proof {
            lemma_coords(&self.cfg, anchor as int);
        }
        let mut cells: Vec<usize> = Vec::new();
        let mut i: usize = 0;
        while i < len
            invariant
                self.cfg.fits(),
                self.cfg.width > 0,
                x < self.cfg.width,
                x == self.cfg.col(anchor as int),
                y == self.cfg.row(anchor as int),
                i <= len,
                i > 0 ==> y < self.cfg.height,
                match self.orient {
                    Orient::Horizontal => x + i <= self.cfg.width && cells@ == across(
                        &self.cfg,
                        x as int,
                        y as int,
                        i as int,
                    ),
                    Orient::Vertical => (i > 0 ==> y + i <= self.cfg.height) && cells@ == down(
                        &self.cfg,
                        x as int,
                        y as int,
                        i as int,
                    ),
                },
            decreases len - i,
        {
            let (cx, cy): (usize, usize) = match self.orient {
                Orient::Horizontal => (x + i, y),
                Orient::Vertical => (x, y + i),
            };
            if cx >= self.cfg.width || cy >= self.cfg.height {
                return None;
            }
            proof {
                lemma_cell(&self.cfg, cx as int, cy as int);
            }
            cells.push(self.cfg.idx(cx, cy));
            i += 1;
        }
        Some(cells)
    }

    /// Places the next ship from `anchor` on, if it may lie there.
    pub fn try_place_setup(&mut self, anchor: usize)
        requires
            old(self).wf(),
            old(self).mode == Mode::Setup,
        ensures
            final(self).wf(),
            final(self)@ == old(self)@.ship_tried(anchor as int),
            old(self)@.in_order() ==> final(self)@.in_order(),
            final(self).mode == Mode::Play ==> final(self)@.fair(),
    {
        proof {
            assert(self.cfg.ships@.len() == self.cfg.ships.len());
            if self@.in_order() {
                lemma_hand_placed(self@, anchor as int);
            }
        }
        if self.place_idx >= self.cfg.ships.len() {
            return;
        }
        let len = self.cfg.ships[self.place_idx];
        proof {
            lemma_playable(&self.cfg);
            assert(self.cfg.ships@.contains(len));
        }
        let cells = match self.ship_cells_at(anchor, len) {
            Some(cells) => cells,
            None => {
                self.status = Status::OffBoard;
                return;
            },
        };
        proof {
            lemma_anchored(&self.cfg, self.orient, anchor as int, len as int);
            lemma_placement_cells(&self.cfg, len as int, cells@);
            assert(self.setup_ships@.len() == self.setup_ships.len());
            lemma_room(&self.cfg, ship_views(self.setup_ships@), cells@);
        }
        if !can_place(&self.cfg, self.setup_occ.as_slice(), cells.as_slice()) {
            self.status = Status::BadSpot;
            return;
        }
        let ghost ships = ship_views(self.setup_ships@);
        let ghost ship = ShipView { len, cells: cells@ };
        let ghost occ = self.setup_occ@;
        let ghost cell_ship = self.setup_cell_ship@;
        put_ship(
            &self.cfg,
            &mut self.setup_occ,
            &mut self.setup_cell_ship,
            &mut self.setup_ships,
            len,
            cells,
        );
        proof {
            assert(self.setup_ships@.len() == self.setup_ships.len());
            assert(ship_views(self.setup_ships@).len() == ships.len() + 1);
            lemma_add_ship(&self.cfg, ships, ship);
            assert forall|c: int| 0 <= c < self.cfg.size() implies owners(
                &self.cfg,
                ships.push(ship),
            )[c] == #[trigger] owner(ships.push(ship), c) by {}
            assert(self.setup_cell_ship@ =~= at_cells(
                cell_ship,
                ship.cells,
                Some(ships.len() as usize),
            ));
            assert(self.setup_occ@ =~= at_cells(occ, ship.cells, true));
            if old(self)@.hopeless() {
                lemma_still_hopeless(old(self)@, ship);
            }
        }
        self.place_idx += 1;
        if self.place_idx == self.cfg.ships.len() {
            proof {
                assert(old(self)@.in_order());
                let w = old(self)@.ship_tried(anchor as int);
                assert(w.true_board == Some(ship_views(self.setup_ships@)));
            }
            self.commit_setup();
        } else {
            let next = self.cfg.ships[self.place_idx];
            self.status = Status::Placed {
                next: self.place_idx + 1,
                total: self.cfg.ships.len(),
                len: next,
            };
        }
        assert(self@ =~= old(self)@.ship_tried(anchor as int));
    }

    /// Randomly place any ships not yet placed in Setup, then commit.
    pub fn randomize_rest(&mut self)
        requires
            old(self).wf(),
            old(self).mode == Mode::Setup,
        ensures
            final(self).wf(),
            final(self)@ == old(self)@.rest_randomized(),
            final(self).mode == Mode::Setup ==> ({
                let placed = final(self)@.setup_ships.len() - old(self)@.setup_ships.len();
                let rest = old(self).cfg.ships@.skip(old(self).place_idx as int);
                &&& 0 <= placed < rest.len()
                &&& ship_lens(final(self)@.setup_ships) == ship_lens(old(self)@.setup_ships)
                    + rest.take(placed)
                &&& candidates(
                    &old(self).cfg,
                    final(self)@.setup_ships,
                    rest[placed] as int,
                ).len() == 0
            }),
            final(self).mode == Mode::Play ==> final(self)@.fair(),
    {
        proof {
            assert(self.cfg.ships@.len() == self.cfg.ships.len());
            if self@.in_order() {
                lemma_rest_randomized(self@);
            }
        }
        let seed = self.next_seed();
        let mut rng = seeded_rng(seed);
        let n = self.cfg.ships.len();
        let rest = slice_subrange(self.cfg.ships.as_slice(), self.place_idx, n);
        assert(rest@ =~= self.cfg.ships@.skip(self.place_idx as int));
        let ok = place_ships(
            &self.cfg,
            rest,
            &mut self.setup_occ,
            &mut self.setup_cell_ship,
            &mut self.setup_ships,
            &mut rng,
        );
        proof {
            let start = Placing {
                ships: old(self)@.setup_ships,
                stuck: false,
                state: seeded_state(seed),
            };
            lemma_placing_lens(&self.cfg, rest@, rest@.len(), start);
            assert(rest@.take(rest@.len() as int) =~= rest@);
        }
        if !ok {
            proof {
                let placed = self@.setup_ships.len() - old(self)@.setup_ships.len();
                let i = self.place_idx + placed;
                assert(rest@[placed] == self.cfg.ships@[i]);
                assert(candidates(
                    &self.cfg,
                    self@.setup_ships,
                    self.cfg.ships@[i] as int,
                ).len() == 0);
                assert(self@.hopeless());
            }
            self.status = Status::CannotFitRest;
            return;
        }
        proof {
            if old(self)@.hopeless() {
                lemma_not_hopeless(old(self)@, self@.setup_ships);
            }
        }
        self.place_idx = n;
        self.commit_setup();
    }

    /// Takes all ships off the board.
    pub fn clear_setup(&mut self)
        requires
            old(self).wf(),
        ensures
            final(self).wf(),
            final(self)@ == old(self)@.cleared(),
            final(self)@.in_order(),
    {
        self.lift_ships();
        self.status = Status::Cleared;
        assert(ship_views(self.setup_ships@) =~= Seq::empty());
        assert(ship_lens(self@.setup_ships) =~= self.cfg.ships@.take(0));
    }

    /// The ships that were placed become the board, and play begins.
    fn commit_setup(&mut self)
        requires
            old(self).cfg.playable(),
            within_limits(&old(self).cfg, old(self).cfg.ships@.len()),
            laid_out(
                &old(self).cfg,
                old(self).setup_cell_ship@,
                ship_views(old(self).setup_ships@),
            ),
            ship_lens(ship_views(old(self).setup_ships@)) == old(self).cfg.ships@,
        ensures
            final(self).wf(),
            final(self)@ == old(self)@.started(ship_views(old(self).setup_ships@)),
    {
        let board = TrueBoard {
            cell_ship: copy_owners(&self.setup_cell_ship),
            ships: copy_ships(&self.setup_ships),
        };
        self.start_play(board);
    }

    /// Generate a full random board and jump straight to play (known mode).
    pub fn randomize_board(&mut self)
        requires
            old(self).wf(),
        ensures
            final(self).wf(),
            final(self)@ == old(self)@.board_randomized(),
            final(self).status == Status::CannotRandomize ==> exists|ships: Seq<ShipView>| #[trigger]
                dead_end(&old(self).cfg, descending(old(self).cfg.ships@), ships),
            final(self).status == Status::Playing ==> final(self)@.fair(),
    {
        let seed = self.next_seed();
        let mut rng = seeded_rng(seed);
        match TrueBoard::random(&self.cfg, &mut rng) {
            Some(board) => {
                self.start_play(board);
            },
            None => {
                self.status = Status::CannotRandomize;
            },
        }
    }

    /// Play begins on the given board.
    fn start_play(&mut self, board: TrueBoard)
        requires
            old(self).cfg.playable(),
            within_limits(&old(self).cfg, old(self).cfg.ships@.len()),
            board.valid(&old(self).cfg),
        ensures
            final(self).wf(),
            final(self)@.fair(),
            final(self)@ == old(self)@.started(ship_views(board.ships@)),
    {
        let n = self.cfg.cells();
        proof {
            assert(board.ships@.len() == board.ships.len());
            lemma_fair_start(self@, ship_views(board.ships@));
        }
        self.true_board = Some(board);
        self.states = blank_states(n);
        self.remaining = self.cfg.ships.clone();
        self.mode = Mode::Play;
        self.shots = 0;
        self.solve = None;
        self.dirty = true;
        self.status = Status::Playing;
        proof {
            lemma_revealed_blank(n as int);
            assert(self.remaining@ =~= self.cfg.ships@);
        }
    }
}

/// A ship that has no place gets none by placing another, and so it is not the
/// one that was placed.
proof fn lemma_still_hopeless(v: AppView, s: ShipView)
    requires
        v.hopeless(),
        v.place_idx < v.cfg.ships@.len() <= usize::MAX,
        s.len == v.cfg.ships@[v.place_idx as int],
        placement_list(&v.cfg, s.len as int).contains(s.cells),
        fits_beside(&v.cfg, ship_cells(v.setup_ships), s.cells),
    ensures
        v.place_idx + 1 < v.cfg.ships@.len(),
        (AppView {
            setup_ships: v.setup_ships.push(s),
            place_idx: (v.place_idx + 1) as usize,
            ..v
        }).hopeless(),
{
    let cfg = &v.cfg;
    let fleet = v.cfg.ships@;
    let i = choose|i: int|
        v.place_idx <= i < fleet.len() && (#[trigger] candidates(
            cfg,
            v.setup_ships,
            fleet[i] as int,
        )).len() == 0;
    if i == v.place_idx {
        lemma_candidate(cfg, v.setup_ships, fleet[i] as int, s.cells);
    }
    let more = v.setup_ships.push(s);
    let left = candidates(cfg, more, fleet[i] as int);
    if left.len() > 0 {
        let p = left[0];
        assert(left.contains(p));
        lemma_candidate(cfg, more, fleet[i] as int, p);
        assert forall|k: int| 0 <= k < ship_cells(v.setup_ships).len() implies compatible(
            cfg,
            #[trigger] ship_cells(v.setup_ships)[k],
            p,
        ) by {
            assert(ship_cells(more)[k] == ship_cells(v.setup_ships)[k]);
        }
        lemma_candidate(cfg, v.setup_ships, fleet[i] as int, p);
    }
    let w = AppView { setup_ships: more, place_idx: (v.place_idx + 1) as usize, ..v };
    assert(candidates(&w.cfg, w.setup_ships, w.cfg.ships@[i] as int).len() == 0);
    assert(w.hopeless());
}

/// Where all ships that were yet to be placed lie at peace beside those on the
/// board, each of them had a place.
proof fn lemma_not_hopeless(v: AppView, ships: Seq<ShipView>)
    requires
        v.cfg.fits(),
        v.place_idx <= v.cfg.ships@.len(),
        at_peace(&v.cfg, ships),
        ships.len() == v.setup_ships.len() + v.cfg.ships@.len() - v.place_idx,
        forall|k: int|
            #![trigger v.setup_ships[k]]
            0 <= k < v.setup_ships.len() ==> ships[k] == v.setup_ships[k],
        ship_lens(ships) == ship_lens(v.setup_ships) + v.cfg.ships@.skip(v.place_idx as int),
    ensures
        !v.hopeless(),
{
    let cfg = &v.cfg;
    let fleet = v.cfg.ships@;
    if v.hopeless() {
        let i = choose|i: int|
            v.place_idx <= i < fleet.len() && (#[trigger] candidates(
                cfg,
                v.setup_ships,
                fleet[i] as int,
            )).len() == 0;
        let k = v.setup_ships.len() + i - v.place_idx;
        assert(ship_lens(ships)[k] == fleet[i]);
        assert(ships[k].len == fleet[i]);
        let p = ships[k].cells;
        assert forall|j: int| 0 <= j < ship_cells(v.setup_ships).len() implies compatible(
            cfg,
            #[trigger] ship_cells(v.setup_ships)[j],
            p,
        ) by {
            assert(ships[j] == v.setup_ships[j]);
            assert(compatible(cfg, ships[j].cells, ships[k].cells));
        }
        lemma_candidate(cfg, v.setup_ships, fleet[i] as int, p);
    }
}

/// The candidates are the placements that are in no ship's way.
proof fn lemma_candidate(cfg: &GameConfig, ships: Seq<ShipView>, len: int, p: Seq<usize>)
    ensures
        candidates(cfg, ships, len).contains(p) <==> placement_list(cfg, len).contains(p)
            && fits_beside(cfg, ship_cells(ships), p),
{
    let list = placement_list(cfg, len);
    let pred = |p: Seq<usize>| fits_beside(cfg, ship_cells(ships), p);
    if list.filter(pred).contains(p) {
        list.lemma_filter_contains_rev(pred, p);
    }
    if list.contains(p) && pred(p) {
        let k = choose|k: int| 0 <= k < list.len() && list[k] == p;
        list.lemma_filter_contains(pred, k);
    }
}

/// A ship that does not run off the board lies on one of its placements.
proof fn lemma_anchored(cfg: &GameConfig, orient: Orient, anchor: int, len: int)
    requires
        cfg.fits(),
        cfg.width > 0,
        0 <= anchor,
        1 <= len,
    ensures
        anchored(cfg, orient, anchor, len) matches Some(p) ==> placement_list(cfg, len).contains(p),
{
    if let Some(p) = anchored(cfg, orient, anchor, len) {
        lemma_coords(cfg, anchor);
        lemma_placements_complete(cfg, len, p);
        let (x, y) = (cfg.col(anchor), cfg.row(anchor));
        match orient {
            Orient::Horizontal => {
                assert(p == across(cfg, x, y, len));
                assert(lies_across(cfg, p, len));
            },
            Orient::Vertical => {
                assert(p == down(cfg, x, y, len));
                if len == 1 {
                    assert(p =~= across(cfg, x, y, 1));
                    assert(lies_across(cfg, p, len));
                } else {
                    assert(lies_down(cfg, p, len));
                }
            },
        }
    }
}

} // verus!
