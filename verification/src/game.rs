//! A game: setting up a board, firing at it, and marking the results of a game
//! that is played elsewhere.

use crate::board::{GameConfig, Ship, TrueBoard};
use crate::config::{objection, total_len, ConfigError};
use crate::evidence::{blank, blank_states, lemma_revealed_blank, revealed};
use crate::layout::{
    laid_out, lemma_empty_board, no_ships, occupied, owners, ship_lens, ship_views, ShipView,
};
use crate::solver::{solved, within_limits, CellState, SolveResult};
use crate::status::Status;
use crate::text::{join_numbers, joined};
use vstd::arithmetic::div_mod::lemma_add_mod_noop;
use vstd::prelude::*;

verus! {

/// The two phases of a game.
#[derive(Clone, Copy, PartialEq, Eq, Debug, Structural)]
pub enum Mode {
    /// Manually placing your fleet before play (known-board mode only).
    Setup,
    /// Firing at the board / marking results.
    Play,
}

/// The direction of the ship that is placed next.
#[derive(Clone, Copy, PartialEq, Eq, Debug, Structural)]
pub enum Orient {
    Horizontal,
    Vertical,
}

/// A game and what the player is editing.
pub struct App {
    pub cfg: GameConfig,
    // Editable config (committed by `apply_config`).
    pub ui_w: i32,
    pub ui_h: i32,
    pub ui_ships: String,
    pub ui_gap: bool,
    pub cfg_error: Option<ConfigError>,
    pub mode: Mode,
    /// true: solver plays against a concrete board (placed or random) and shots
    /// auto-resolve. false: assistant, you mark hit/miss/sunk from a real game.
    pub known: bool,
    pub true_board: Option<TrueBoard>,
    pub states: Vec<CellState>,
    pub remaining: Vec<usize>,
    // Manual-placement scratch state (Setup).
    pub setup_occ: Vec<bool>,
    pub setup_cell_ship: Vec<Option<usize>>,
    pub setup_ships: Vec<Ship>,
    pub place_idx: usize,
    pub orient: Orient,
    // Assistant tool.
    pub sink_mode: bool,
    pub solve: Option<SolveResult>,
    pub dirty: bool,
    pub shots: u32,
    pub auto: bool,
    pub status: Status,
    pub seed_counter: u64,
}

/// A game as mathematics. The ships of the true board say which of its cells
/// belong to which ship.
#[verifier::ext_equal]
pub struct AppView {
    pub cfg: GameConfig,
    pub ui_w: i32,
    pub ui_h: i32,
    pub ui_ships: Seq<char>,
    pub ui_gap: bool,
    pub cfg_error: Option<ConfigError>,
    pub mode: Mode,
    pub known: bool,
    pub true_board: Option<Seq<ShipView>>,
    pub states: Seq<CellState>,
    pub remaining: Seq<usize>,
    pub setup_occ: Seq<bool>,
    pub setup_cell_ship: Seq<Option<usize>>,
    pub setup_ships: Seq<ShipView>,
    pub place_idx: usize,
    pub orient: Orient,
    pub sink_mode: bool,
    pub solve: Option<SolveResult>,
    pub dirty: bool,
    pub shots: u32,
    pub auto: bool,
    pub status: Status,
    pub seed_counter: u64,
}

impl View for App {
    type V = AppView;

    open spec fn view(&self) -> AppView {
        AppView {
            cfg: self.cfg,
            ui_w: self.ui_w,
            ui_h: self.ui_h,
            ui_ships: self.ui_ships@,
            ui_gap: self.ui_gap,
            cfg_error: self.cfg_error,
            mode: self.mode,
            known: self.known,
            true_board: match self.true_board {
                Some(b) => Some(ship_views(b.ships@)),
                None => None,
            },
            states: self.states@,
            remaining: self.remaining@,
            setup_occ: self.setup_occ@,
            setup_cell_ship: self.setup_cell_ship@,
            setup_ships: ship_views(self.setup_ships@),
            place_idx: self.place_idx,
            orient: self.orient,
            sink_mode: self.sink_mode,
            solve: self.solve,
            dirty: self.dirty,
            shots: self.shots,
            auto: self.auto,
            status: self.status,
            seed_counter: self.seed_counter,
        }
    }
}

/// A board with no cell marked.
pub open spec fn no_marks(n: int) -> Seq<bool> {
    Seq::new(n as nat, |c: int| false)
}

/// A board with no cell that belongs to a ship.
pub open spec fn no_owners(n: int) -> Seq<Option<usize>> {
    Seq::new(n as nat, |c: int| None)
}

/// The seed that follows a seed.
pub open spec fn lcg(seed: u64) -> u64 {
    ((seed * 6364136223846793005 + 1442695040888963407) % 0x1_0000_0000_0000_0000) as u64
}

/// Boards whose every fleet is within the solver's limits.
pub open spec fn board_within_limits(width: int, height: int) -> bool {
    &&& 0 <= width
    &&& 0 <= height
    &&& 2 * (width * height) <= u32::MAX
    &&& (width * height) * (width * height) <= usize::MAX
    &&& 8 * ((width * height) * (width * height)) <= u64::MAX
}

impl AppView {
    /// A fresh game under the same rules.
    pub open spec fn reset(self) -> AppView {
        AppView {
            states: blank(self.cfg.size()),
            remaining: self.cfg.ships@,
            solve: None,
            shots: 0,
            auto: false,
            sink_mode: false,
            dirty: true,
            true_board: None,
            mode: if self.known {
                Mode::Setup
            } else {
                Mode::Play
            },
            setup_occ: if self.known {
                no_marks(self.cfg.size())
            } else {
                self.setup_occ
            },
            setup_cell_ship: if self.known {
                no_owners(self.cfg.size())
            } else {
                self.setup_cell_ship
            },
            setup_ships: if self.known {
                Seq::empty()
            } else {
                self.setup_ships
            },
            place_idx: if self.known {
                0
            } else {
                self.place_idx
            },
            status: if self.known {
                Status::SetupHelp
            } else {
                Status::AssistantHelp
            },
            ..self
        }
    }
}

impl App {
    /// What holds of every game between two actions. On a known board the
    /// evidence tells the truth.
    pub open spec fn wf(&self) -> bool {
        &&& self.coherent()
        &&& self.known && self.mode == Mode::Play ==> {
            &&& self@.fair()
            &&& self.remaining@.len() <= self.cfg.ships@.len()
        }
    }

    /// What holds of a game whatever was marked by hand.
    pub open spec fn coherent(&self) -> bool {
        &&& self.cfg.playable()
        &&& within_limits(&self.cfg, self.cfg.ships@.len())
        &&& self.states@.len() == self.cfg.size()
        &&& self.shots == revealed(self.states@)
        &&& self.mode == Mode::Setup ==> {
            &&& self.known
            &&& self.place_idx < self.cfg.ships@.len()
            &&& laid_out(&self.cfg, self.setup_cell_ship@, ship_views(self.setup_ships@))
            &&& self.setup_occ@ == occupied(&self.cfg, ship_views(self.setup_ships@))
            // The ships are the first of the fleet, or play cannot begin.
            &&& self@.in_order() || self@.hopeless()
        }
        &&& self.true_board matches Some(b) ==> b.valid(&self.cfg)
        &&& self.known && self.mode == Mode::Play ==> self.true_board is Some
        // The heatmap is that of the evidence, unless it is marked as stale.
        &&& self.mode == Mode::Play && !self.dirty ==> {
            self.solve matches Some(r) && solved(&self.cfg, self.states@, self.remaining@, r)
        }
        &&& self.solve matches Some(r) ==> {
            &&& r.counts@.len() == self.cfg.size()
            &&& r.best_cell matches Some(b) ==> b < self.cfg.size()
        }
    }

    /// A game with the default rules, its fleet to be placed.
    pub fn new() -> (r: App)
        ensures
            r.wf(),
            r@.in_order(),
            r.cfg.width == 10,
            r.cfg.height == 10,
            r.cfg.ships@ == seq![5usize, 4, 3, 3, 2],
            r.cfg.gap_rule,
            r@ == (AppView {
                cfg: r.cfg,
                ui_w: 10,
                ui_h: 10,
                ui_ships: joined(r.cfg.ships@, ","@),
                ui_gap: true,
                cfg_error: None,
                mode: Mode::Setup,
                known: true,
                true_board: None,
                states: blank(100),
                remaining: r.cfg.ships@,
                setup_occ: no_marks(100),
                setup_cell_ship: no_owners(100),
                setup_ships: Seq::empty(),
                place_idx: 0,
                orient: Orient::Horizontal,
                sink_mode: false,
                solve: None,
                dirty: true,
                shots: 0,
                auto: false,
                status: Status::SetupHelp,
                seed_counter: 0x1234_5678,
            }),
    {
        let cfg = GameConfig::default();
        let ui_ships = join_numbers(cfg.ships.as_slice(), ",");
        proof {
            lemma_default_fleet();
            assert(cfg.ships@.len() == 5);
        }
        let mut app = App {
            ui_w: cfg.width as i32,
            ui_h: cfg.height as i32,
            ui_ships,
            ui_gap: cfg.gap_rule,
            cfg,
            cfg_error: None,
            mode: Mode::Setup,
            known: true,
            true_board: None,
            states: Vec::new(),
            remaining: Vec::new(),
            setup_occ: Vec::new(),
            setup_cell_ship: Vec::new(),
            setup_ships: Vec::new(),
            place_idx: 0,
            orient: Orient::Horizontal,
            sink_mode: false,
            solve: None,
            dirty: false,
            shots: 0,
            auto: false,
            status: Status::SetupHelp,
            seed_counter: 0x1234_5678,
        };
        app.reset_game();
        app
    }

    /// Simple LCG step: deterministic, no wall-clock needed.
    pub(crate) fn next_seed(&mut self) -> (r: u64)
        ensures
            r == lcg(old(self).seed_counter),
            *final(self) == (App { seed_counter: r, ..*old(self) }),
    {
        proof {
            lemma_lcg(self.seed_counter);
        }
        self.seed_counter =
        self.seed_counter.wrapping_mul(6364136223846793005).wrapping_add(1442695040888963407);
        self.seed_counter
    }

    /// Starts a fresh game under the same rules.
    pub fn reset_game(&mut self)
        requires
            old(self).cfg.playable(),
            within_limits(&old(self).cfg, old(self).cfg.ships@.len()),
        ensures
            final(self).wf(),
            final(self)@ == old(self)@.reset(),
            final(self).known ==> final(self)@.in_order(),
    {
        let n = self.cfg.cells();
        self.states = blank_states(n);
        self.remaining = self.cfg.ships.clone();
        self.solve = None;
        self.shots = 0;
        self.auto = false;
        self.sink_mode = false;
        self.dirty = true;
        proof {
            lemma_revealed_blank(n as int);
            assert(self.remaining@ =~= self.cfg.ships@);
        }
        if self.known {
            self.mode = Mode::Setup;
            self.lift_ships();
            self.true_board = None;
            self.status = Status::SetupHelp;
        } else {
            self.mode = Mode::Play;
            self.true_board = None;
            self.status = Status::AssistantHelp;
        }
        assert(self@ =~= old(self)@.reset());
        assert(ship_lens(Seq::empty()) =~= self.cfg.ships@.take(0));
    }

    /// Takes all ships off the board.
    pub(crate) fn lift_ships(&mut self)
        requires
            old(self).cfg.fits(),
        ensures
            laid_out(&final(self).cfg, final(self).setup_cell_ship@, Seq::empty()),
            final(self).setup_occ@ == occupied(&final(self).cfg, Seq::empty()),
            final(self).setup_occ@ == no_marks(final(self).cfg.size()),
            final(self).setup_cell_ship@ == no_owners(final(self).cfg.size()),
            final(self).setup_ships@.len() == 0,
            *final(self) == (App {
                setup_occ: final(self).setup_occ,
                setup_cell_ship: final(self).setup_cell_ship,
                setup_ships: final(self).setup_ships,
                place_idx: 0,
                ..*old(self)
            }),
    {
        let n = self.cfg.cells();
        self.setup_occ = vec![false; n];
        self.setup_cell_ship = no_ships(n);
        self.setup_ships = Vec::new();
        self.place_idx = 0;
        proof {
            lemma_empty_board(&self.cfg);
            assert(self.setup_cell_ship@ =~= owners(&self.cfg, Seq::empty()));
            assert(self.setup_occ@ =~= occupied(&self.cfg, Seq::empty()));
            assert(self.setup_occ@ =~= no_marks(self.cfg.size()));
            assert(self.setup_cell_ship@ =~= no_owners(self.cfg.size()));
        }
    }
}

proof fn lemma_lcg(seed: u64)
    ensures
        seed.wrapping_mul(6364136223846793005).wrapping_add(1442695040888963407) == lcg(seed),
{
    let m = 0x1_0000_0000_0000_0000int;
    let p = seed * 6364136223846793005;
    lemma_add_mod_noop(p, 1442695040888963407, m);
}

proof fn lemma_default_fleet()
    ensures
        objection(10, 10, Some(seq![5usize, 4, 3, 3, 2])) is None,
{
    let v = seq![5usize, 4, 3, 3, 2];
    reveal_with_fuel(total_len, 6);
    assert(v.drop_last() =~= seq![5usize, 4, 3, 3]);
    assert(v.drop_last().drop_last() =~= seq![5usize, 4, 3]);
    assert(v.drop_last().drop_last().drop_last() =~= seq![5usize, 4]);
    assert(v.drop_last().drop_last().drop_last().drop_last() =~= seq![5usize]);
    assert(total_len(v) == 17);
}

} // verus!
