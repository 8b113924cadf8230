//! What a shot, a mark and a click do to a game, in terms of the ships and the
//! cells they concern.

use crate::board::{GameConfig, Ship};
use crate::evidence::{
    blank, is_path, lemma_closed, lemma_link_start, lemma_link_step, lemma_linked,
    lemma_revealed_bounded, linked, revealed, run, without,
};
use crate::fair::{afloat, afloat_ships, unfinished};
use crate::game::{no_marks, no_owners, App, AppView, Mode, Orient};
use crate::layout::{laid_out, occupied, owner, ship_lens, ShipView};
use crate::placed::lies_on;
use crate::plain::{lemma_valid_plainly, near, plainly_valid};
use crate::play::{all_struck, played_by_solver, turn};
use crate::solver::{solved, CellState, SolveResult};
use crate::status::Status;
use vstd::prelude::*;
use vstd::seq_lib::group_to_multiset_ensures;
use vstd::set_lib::{lemma_int_range, lemma_len_subset, lemma_set_subset_finite, set_int_range};

verus! {

/// The cells of which something is known.
pub open spec fn known_cells(states: Seq<CellState>) -> Set<int> {
    Set::new(|c: int| 0 <= c < states.len() && states[c] != CellState::Unknown)
}

/// The cells revealed are those of which something is known.
pub proof fn lemma_revealed_cells(states: Seq<CellState>)
    ensures
        known_cells(states).finite(),
        revealed(states) == known_cells(states).len(),
    decreases states.len(),
{
    let now = known_cells(states);
    if states.len() == 0 {
        assert(now =~= Set::empty());
    } else {
        let rest = states.drop_last();
        let n = rest.len() as int;
        lemma_revealed_cells(rest);
        assert forall|c: int| 0 <= c < n implies rest[c] == states[c] by {}
        if states.last() == CellState::Unknown {
            assert(now =~= known_cells(rest));
        } else {
            assert(now =~= known_cells(rest).insert(n));
        }
    }
}

/// The first `x` of a list is taken out, and the others stay in their order; a
/// list without one stays as it is.
pub open spec fn taken_out(list: Seq<usize>, x: usize, rest: Seq<usize>) -> bool {
    if list.contains(x) {
        exists|i: int|
            {
                &&& 0 <= i < list.len()
                &&& #[trigger] list[i] == x
                &&& forall|j: int| 0 <= j < i ==> list[j] != x
                &&& rest == list.take(i) + list.skip(i + 1)
            }
    } else {
        rest == list
    }
}

/// Taking a ship out of the fleet takes out one of its length.
pub proof fn lemma_taken_out(list: Seq<usize>, x: usize)
    ensures
        taken_out(list, x, without(list, x)),
{
    list.index_of_first_ensures(x);
    if list.contains(x) {
        let i = list.index_of_first(x)->0;
        assert(list[i] == x);
        assert(without(list, x) =~= list.take(i) + list.skip(i + 1));
    }
}

/// Nothing differs but the evidence, the shots and what is said of them.
pub open spec fn only_evidence(v: AppView, after: AppView) -> bool {
    after == (AppView {
        states: after.states,
        remaining: after.remaining,
        shots: after.shots,
        status: after.status,
        dirty: after.dirty,
        auto: after.auto,
        ..v
    })
}

/// The evidence differs at the cell alone, where it is now `s`.
pub open spec fn set_at(
    before: Seq<CellState>,
    cell: int,
    s: CellState,
    after: Seq<CellState>,
) -> bool {
    &&& after.len() == before.len()
    &&& after[cell] == s
    &&& forall|c: int| 0 <= c < before.len() && c != cell ==> #[trigger] after[c] == before[c]
}

/// The evidence differs at the given cells alone, where it is now `s`.
pub open spec fn set_on(
    before: Seq<CellState>,
    cells: Set<int>,
    s: CellState,
    after: Seq<CellState>,
) -> bool {
    &&& after.len() == before.len()
    &&& forall|c: int|
        #![trigger after[c]]
        0 <= c < before.len() ==> after[c] == (if cells.contains(c) {
            s
        } else {
            before[c]
        })
}

/// Some other cell of the ship was not hit yet.
pub open spec fn holds_out(states: Seq<CellState>, ship: Seq<usize>, cell: int) -> bool {
    exists|m: int|
        #![trigger ship[m]]
        0 <= m < ship.len() && ship[m] != cell && (states[ship[m] as int] == CellState::Unknown
            || states[ship[m] as int] == CellState::Miss)
}

/// What is said after a shot: the end of the game when no ship is left, else what
/// the shot did.
pub open spec fn told(v: AppView, after: AppView, news: Status) -> bool {
    if after.remaining.len() == 0 {
        after.status == (Status::Solved { shots: after.shots }) && !after.auto
    } else {
        after.status == news && after.auto == v.auto
    }
}

/// A shot at an unknown cell on which ship `k` lies: it sinks the ship when it was
/// the last of its cells, and hits it otherwise.
pub proof fn lemma_shot_at_ship(v: AppView, ships: Seq<ShipView>, cell: int, k: int)
    requires
        v.true_board == Some(ships),
        0 <= cell < v.states.len() <= usize::MAX,
        v.states[cell] == CellState::Unknown,
        v.shots < u32::MAX,
        ships.len() <= usize::MAX,
        lies_on(ships, k, cell),
        forall|i: int| #[trigger] lies_on(ships, i, cell) ==> i == k,
        forall|m: int|
            0 <= m < ships[k].cells.len() ==> (#[trigger] ships[k].cells[m]) < v.states.len(),
    ensures
        ({
            let after = v.fired(cell);
            let ship = ships[k];
            &&& only_evidence(v, after)
            &&& after.shots == v.shots + 1
            &&& after.dirty
            &&& if holds_out(v.states, ship.cells, cell) {
                &&& set_at(v.states, cell, CellState::Hit, after.states)
                &&& after.remaining == v.remaining
                &&& told(v, after, Status::Hit)
            } else {
                &&& set_on(
                    v.states,
                    Set::new(|c: int| 0 <= c <= usize::MAX && ship.cells.contains(c as usize)),
                    CellState::Sunk,
                    after.states,
                )
                &&& taken_out(v.remaining, ship.len, after.remaining)
                &&& told(v, after, Status::SunkShip { len: ship.len })
            }
        }),
{
    let after = v.fired(cell);
    let ship = ships[k];
    assert(owner(ships, cell) == Some(k as usize)) by {
        assert(ships[k].cells.contains(cell as usize));
        let i = choose|i: int|
            0 <= i < ships.len() && (#[trigger] ships[i]).cells.contains(cell as usize);
        assert(lies_on(ships, i, cell));
    }
    let hit = v.states.update(cell, CellState::Hit);
    assert(all_struck(hit, ship.cells) <==> !holds_out(v.states, ship.cells, cell)) by {
        if holds_out(v.states, ship.cells, cell) {
            let m = choose|m: int|
                #![trigger ship.cells[m]]
                0 <= m < ship.cells.len() && ship.cells[m] != cell && (
                v.states[ship.cells[m] as int] == CellState::Unknown
                    || v.states[ship.cells[m] as int] == CellState::Miss);
            assert(hit[ship.cells[m] as int] == v.states[ship.cells[m] as int]);
        } else {
            assert forall|i: int|
                #![trigger ship.cells[i]]
                0 <= i < ship.cells.len() implies hit[ship.cells[i] as int] == CellState::Hit
                || hit[ship.cells[i] as int] == CellState::Sunk by {}
        }
    }
    lemma_taken_out(v.remaining, ship.len);
}

/// A shot at an unknown cell on which no ship lies is a miss.
pub proof fn lemma_shot_at_water(v: AppView, ships: Seq<ShipView>, cell: int)
    requires
        v.true_board == Some(ships),
        0 <= cell < v.states.len(),
        v.states[cell] == CellState::Unknown,
        v.shots < u32::MAX,
        forall|k: int| !#[trigger] lies_on(ships, k, cell),
    ensures
        ({
            let after = v.fired(cell);
            &&& only_evidence(v, after)
            &&& after.shots == v.shots + 1
            &&& after.dirty
            &&& set_at(v.states, cell, CellState::Miss, after.states)
            &&& after.remaining == v.remaining
            &&& told(v, after, Status::Miss)
        }),
{
    assert(owner(ships, cell) is None) by {
        if owner(ships, cell) is Some {
            let i = choose|i: int|
                0 <= i < ships.len() && (#[trigger] ships[i]).cells.contains(cell as usize);
            assert(lies_on(ships, i, cell));
        }
    }
}

/// A shot at a cell of which something is known, or without a board, does nothing.
pub proof fn lemma_shot_in_vain(v: AppView, cell: int)
    ensures
        v.states[cell] != CellState::Unknown ==> v.fired(cell) == v,
        v.true_board is None ==> v.fired(cell) == v,
{
}

/// The marks after an action by hand: the shots are the cells of which something
/// is known, and the heatmap is stale.
pub open spec fn recounted(after: AppView) -> bool {
    after.shots == known_cells(after.states).len() && after.dirty
}

/// Clicks on an unknown cell mark it as a miss, then as a hit, then not at all;
/// the mark of a sunk cell stays. No other cell changes.
pub proof fn lemma_marks_in_turn(v: AppView, cell: int)
    requires
        0 <= cell < v.states.len() <= u32::MAX,
    ensures
        only_evidence(v, v.cycled(cell)),
        recounted(v.cycled(cell)),
        v.cycled(cell).remaining == v.remaining,
        v.cycled(cell).status == v.status,
        v.cycled(cell).auto == v.auto,
        set_at(v.states, cell, v.cycled(cell).states[cell], v.cycled(cell).states),
        v.states[cell] == CellState::Unknown ==> {
            &&& v.cycled(cell).states[cell] == CellState::Miss
            &&& v.cycled(cell).cycled(cell).states[cell] == CellState::Hit
        },
        v.states[cell] == CellState::Sunk ==> v.cycled(cell).states == v.states,
        v.cycled(cell).cycled(cell).cycled(cell).states == v.states,
{
    let after = v.cycled(cell);
    lemma_revealed_cells(after.states);
    lemma_revealed_bounded(after.states);
    assert(v.cycled(cell).cycled(cell).cycled(cell).states =~= v.states);
    if v.states[cell] == CellState::Sunk {
        assert(after.states =~= v.states);
    }
}

/// The other button marks a cell as a hit, whatever its mark but sunk.
pub proof fn lemma_marked_hit(v: AppView, cell: int)
    requires
        0 <= cell < v.states.len() <= u32::MAX,
    ensures
        v.states[cell] == CellState::Sunk ==> v.hit_marked(cell) == v,
        v.states[cell] != CellState::Sunk ==> {
            let after = v.hit_marked(cell);
            &&& only_evidence(v, after)
            &&& recounted(after)
            &&& set_at(v.states, cell, CellState::Hit, after.states)
            &&& after.remaining == v.remaining
            &&& after.status == v.status
            &&& after.auto == v.auto
        },
{
    lemma_revealed_cells(v.hit_marked(cell).states);
    lemma_revealed_bounded(v.hit_marked(cell).states);
}

/// Two cells that share an edge.
pub open spec fn beside(w: int, a: int, b: int) -> bool {
    near(w, a, b) && (a % w == b % w || a / w == b / w)
}

/// The set holds, with a cell, the cells beside it that look the same.
pub open spec fn closed_under(
    cfg: &GameConfig,
    states: Seq<CellState>,
    look: CellState,
    cells: Set<int>,
) -> bool {
    forall|a: int, b: int|
        #![trigger cells.contains(a), cells.contains(b)]
        cells.contains(a) && 0 <= b < states.len() && states[b] == look && beside(
            cfg.width as int,
            a,
            b,
        ) ==> cells.contains(b)
}

/// The cells that look like the cell and hang together with it: the smallest set
/// that holds it and, with a cell, those beside it that look the same.
pub open spec fn hang_together(
    cfg: &GameConfig,
    states: Seq<CellState>,
    cell: int,
    cells: Set<int>,
) -> bool {
    &&& cells.finite()
    &&& cells.contains(cell)
    &&& closed_under(cfg, states, states[cell], cells)
    &&& forall|c: int| #[trigger]
        cells.contains(c) ==> 0 <= c < states.len() && states[c] == states[cell]
    &&& forall|other: Set<int>| #[trigger]
        closed_under(cfg, states, states[cell], other) && other.contains(cell) ==> cells.subset_of(
            other,
        )
}

/// A run is made of the cells that hang together.
pub proof fn lemma_run_hangs_together(cfg: &GameConfig, states: Seq<CellState>, cell: int)
    requires
        0 <= cell < states.len(),
    ensures
        hang_together(cfg, states, cell, run(cfg, states, states[cell], cell)),
        run(cfg, states, states[cell], cell).len() <= states.len(),
{
    let look = states[cell];
    let cells = run(cfg, states, look, cell);
    assert forall|c: int| #[trigger] cells.contains(c) implies 0 <= c < states.len() && states[c]
        == look by {
        lemma_linked(cfg, states, look, cell, c);
    }
    lemma_int_range(0, states.len() as int);
    assert(cells.subset_of(set_int_range(0, states.len() as int)));
    lemma_len_subset(cells, set_int_range(0, states.len() as int));
    lemma_set_subset_finite(set_int_range(0, states.len() as int), cells);
    lemma_link_start(cfg, states, look, cell);
    assert forall|a: int, b: int|
        #![trigger cells.contains(a), cells.contains(b)]
        cells.contains(a) && 0 <= b < states.len() && states[b] == look && beside(
            cfg.width as int,
            a,
            b,
        ) implies cells.contains(b) by {
        lemma_link_step(cfg, states, look, cell, a, b);
    }
    assert forall|other: Set<int>| #[trigger]
        closed_under(cfg, states, look, other) && other.contains(cell) implies cells.subset_of(
        other,
    ) by {
        assert forall|c: int| cells.contains(c) implies other.contains(c) by {
            assert(linked(cfg, states, look, cell, c));
            let path = choose|path: Seq<int>| #[trigger]
                is_path(cfg, states, look, path) && path[0] == cell && path.last() == c;
            assert forall|a: int, b: int|
                #![trigger other.contains(a), other.contains(b)]
                other.contains(a) && 0 <= b < states.len() && states[b] == look
                    && cfg.edge_touching(a, b) implies other.contains(b) by {
                assert(beside(cfg.width as int, a, b));
            }
            lemma_closed(cfg, states, look, path, other);
        }
    }
}

/// What the sink tool does with the cells that hang together.
pub open spec fn sinks(v: AppView, cells: Set<int>, after: AppView) -> bool {
    let len = cells.len() as usize;
    &&& set_on(v.states, cells, CellState::Sunk, after.states)
    &&& taken_out(v.remaining, len, after.remaining)
    &&& after.status == (if v.remaining.contains(len) {
        Status::MarkedSunk { len }
    } else {
        Status::MarkedNoShip { len }
    })
}

/// What the sink tool does with sunk cells that hang together.
pub open spec fn raises(v: AppView, cells: Set<int>, after: AppView) -> bool {
    let len = cells.len() as usize;
    &&& set_on(v.states, cells, CellState::Hit, after.states)
    &&& after.remaining.len() == v.remaining.len() + 1
    &&& after.remaining.last() == len
    &&& after.remaining.drop_last() == v.remaining
    &&& after.status == (Status::Unsunk { len })
}

/// The sink tool sinks the hits that hang together with a hit, and takes a ship of
/// so many cells from the fleet if it has one. It turns sunk cells that hang
/// together back into hits, and adds a ship of so many cells. Elsewhere it marks
/// nothing.
pub proof fn lemma_sink_tool(v: AppView, cell: int)
    requires
        0 <= cell < v.states.len() <= u32::MAX,
        v.states.len() <= usize::MAX,
    ensures
        only_evidence(v, v.sink_toggled(cell)),
        recounted(v.sink_toggled(cell)),
        v.sink_toggled(cell).auto == v.auto,
        v.states[cell] == CellState::Hit ==> exists|cells: Set<int>| #[trigger]
            hang_together(&v.cfg, v.states, cell, cells) && sinks(v, cells, v.sink_toggled(cell)),
        v.states[cell] == CellState::Sunk ==> exists|cells: Set<int>| #[trigger]
            hang_together(&v.cfg, v.states, cell, cells) && raises(v, cells, v.sink_toggled(cell)),
        v.states[cell] == CellState::Unknown || v.states[cell] == CellState::Miss ==> {
            let after = v.sink_toggled(cell);
            after.states == v.states && after.remaining == v.remaining && after.status == v.status
        },
{
    let after = v.sink_toggled(cell);
    lemma_revealed_cells(after.states);
    lemma_revealed_bounded(after.states);
    lemma_run_hangs_together(&v.cfg, v.states, cell);
    let cells = run(&v.cfg, v.states, v.states[cell], cell);
    let len = cells.len() as usize;
    lemma_taken_out(v.remaining, len);
    if v.states[cell] == CellState::Hit {
        assert(hang_together(&v.cfg, v.states, cell, cells) && sinks(v, cells, after));
    }
    if v.states[cell] == CellState::Sunk {
        assert(after.remaining.drop_last() =~= v.remaining);
        assert(hang_together(&v.cfg, v.states, cell, cells) && raises(v, cells, after));
    }
}

/// Which action a click is: in the setup it places a ship; on a known board it
/// fires; in assistant mode it marks, with the sink tool or without. The other
/// button turns the ship in the setup and marks a hit without the sink tool.
pub proof fn lemma_clicks(v: AppView, cell: int)
    ensures
        v.mode == Mode::Setup ==> v.clicked(cell) == v.ship_tried(cell) && v.right_clicked(cell)
            == v.rotated(),
        v.mode == Mode::Play && v.known ==> v.clicked(cell) == v.fired(cell) && v.right_clicked(
            cell,
        ) == v,
        v.mode == Mode::Play && !v.known && v.sink_mode ==> v.clicked(cell) == v.sink_toggled(cell)
            && v.right_clicked(cell) == v,
        v.mode == Mode::Play && !v.known && !v.sink_mode ==> v.clicked(cell) == v.cycled(cell)
            && v.right_clicked(cell) == v.hit_marked(cell),
{
}

/// Turning a ship changes its direction, and nothing else.
pub proof fn lemma_turned(v: AppView)
    ensures
        v.rotated() == (AppView { orient: v.rotated().orient, ..v }),
        v.orient == Orient::Horizontal <==> v.rotated().orient == Orient::Vertical,
        v.orient == Orient::Vertical <==> v.rotated().orient == Orient::Horizontal,
{
}

/// Firing at the recommended cell is a shot at it; without one nothing happens.
pub proof fn lemma_best_shot_fired(v: AppView)
    ensures
        forall|b: usize|
            v.solve is Some && v.solve->0.best_cell == Some(b) ==> v.best_fired() == #[trigger] v.fired(
                b as int,
            ),
        v.solve is None || v.solve->0.best_cell is None ==> v.best_fired() == v,
{
}

/// Boards with nothing on them: no cell is known, marked or owned.
pub proof fn lemma_blank_boards(n: nat)
    ensures
        blank(n as int).len() == n,
        forall|c: int| 0 <= c < n ==> #[trigger] blank(n as int)[c] == CellState::Unknown,
        no_marks(n as int).len() == n,
        forall|c: int| 0 <= c < n ==> !#[trigger] no_marks(n as int)[c],
        no_owners(n as int).len() == n,
        forall|c: int| 0 <= c < n ==> #[trigger] no_owners(n as int)[c] is None,
{
}

/// No ship lies on the board of the setup, and the first ship is placed next.
pub open spec fn empty_setup(v: AppView, after: AppView) -> bool {
    &&& after.setup_ships.len() == 0
    &&& after.place_idx == 0
    &&& after.setup_occ.len() == v.cfg.width * v.cfg.height
    &&& after.setup_cell_ship.len() == v.cfg.width * v.cfg.height
    &&& forall|c: int| 0 <= c < after.setup_occ.len() ==> !#[trigger] after.setup_occ[c]
    &&& forall|c: int|
        0 <= c < after.setup_cell_ship.len() ==> #[trigger] after.setup_cell_ship[c] is None
}

/// Clearing takes all ships off the board, and changes nothing else.
pub proof fn lemma_cleared(v: AppView)
    ensures
        empty_setup(v, v.cleared()),
        v.cleared().status == Status::Cleared,
        v.cleared() == (AppView {
            setup_occ: v.cleared().setup_occ,
            setup_cell_ship: v.cleared().setup_cell_ship,
            setup_ships: v.cleared().setup_ships,
            place_idx: v.cleared().place_idx,
            status: v.cleared().status,
            ..v
        }),
{
    assert(v.cfg.width * v.cfg.height >= 0) by (nonlinear_arith)
        requires
            0 <= v.cfg.width,
            0 <= v.cfg.height,
    ;
}

/// A fresh game: nothing is known of any cell, the whole fleet remains, no shot was
/// fired and no tool is chosen. On a known board the fleet is to be placed anew; in
/// assistant mode play begins.
pub proof fn lemma_fresh_game(v: AppView)
    ensures
        ({
            let after = v.reset();
            &&& after.states.len() == v.cfg.width * v.cfg.height
            &&& forall|c: int|
                0 <= c < after.states.len() ==> #[trigger] after.states[c] == CellState::Unknown
            &&& after.remaining == v.cfg.ships@
            &&& after.solve is None
            &&& after.shots == 0
            &&& !after.auto
            &&& !after.sink_mode
            &&& after.dirty
            &&& after.true_board is None
            &&& after.cfg == v.cfg
            &&& after.ui_w == v.ui_w && after.ui_h == v.ui_h
            &&& after.ui_ships == v.ui_ships
            &&& after.ui_gap == v.ui_gap
            &&& after.cfg_error == v.cfg_error
            &&& after.known == v.known
            &&& after.orient == v.orient
            &&& after.seed_counter == v.seed_counter
            &&& v.known ==> {
                &&& after.mode == Mode::Setup
                &&& after.status == Status::SetupHelp
                &&& empty_setup(v, after)
            }
            &&& !v.known ==> {
                &&& after.mode == Mode::Play
                &&& after.status == Status::AssistantHelp
                &&& after.setup_occ == v.setup_occ
                &&& after.setup_cell_ship == v.setup_cell_ship
                &&& after.setup_ships == v.setup_ships
                &&& after.place_idx == v.place_idx
            }
        }),
{
    assert(v.cfg.width * v.cfg.height >= 0) by (nonlinear_arith)
        requires
            0 <= v.cfg.width,
            0 <= v.cfg.height,
    ;
}

/// What the mathematics of a game and of a ship show of them: every field.
pub proof fn lemma_views_show_all(app: App, ship: Ship)
    ensures
        app@.cfg == app.cfg,
        app@.ui_w == app.ui_w,
        app@.ui_h == app.ui_h,
        app@.ui_ships == app.ui_ships@,
        app@.ui_gap == app.ui_gap,
        app@.cfg_error == app.cfg_error,
        app@.mode == app.mode,
        app@.known == app.known,
        app@.true_board is Some <==> app.true_board is Some,
        app.true_board matches Some(board) ==> app@.true_board->0.len() == board.ships@.len()
            && forall|i: int|
            0 <= i < board.ships@.len() ==> (#[trigger] app@.true_board->0[i]).len
                == board.ships@[i].len && app@.true_board->0[i].cells == board.ships@[i].cells@,
        app@.states == app.states@,
        app@.remaining == app.remaining@,
        app@.setup_occ == app.setup_occ@,
        app@.setup_cell_ship == app.setup_cell_ship@,
        app@.setup_ships.len() == app.setup_ships@.len(),
        forall|i: int|
            0 <= i < app.setup_ships@.len() ==> (#[trigger] app@.setup_ships[i]).len
                == app.setup_ships@[i].len && app@.setup_ships[i].cells
                == app.setup_ships@[i].cells@,
        app@.place_idx == app.place_idx,
        app@.orient == app.orient,
        app@.sink_mode == app.sink_mode,
        app@.solve == app.solve,
        app@.dirty == app.dirty,
        app@.shots == app.shots,
        app@.auto == app.auto,
        app@.status == app.status,
        app@.seed_counter == app.seed_counter,
        ship@.len == ship.len,
        ship@.cells == ship.cells@,
{
}

/// A game with the evidence of another differs from it in the evidence alone.
pub proof fn lemma_evidence_alone(v: AppView, after: AppView)
    ensures
        after == after.evidence_in(v) <==> only_evidence(v, after),
{
}

/// The solver recommends what some heatmap of the evidence does: a cell, or none.
pub proof fn lemma_recommends(v: AppView, cell: Option<usize>)
    ensures
        v.recommends_shot(cell) <==> exists|r: SolveResult| #[trigger]
            solved(&v.cfg, v.states, v.remaining, r) && r.best_cell == cell,
{
}

/// Each turn of a game that the solver plays is a shot at the cell that its heatmap
/// for the evidence at hand recommends, while ships remain.
pub proof fn lemma_solver_turn(trail: Seq<AppView>, i: int)
    requires
        played_by_solver(trail),
        0 <= i < trail.len() - 1,
    ensures
        trail[i].remaining.len() > 0,
        exists|r: SolveResult|
            {
                &&& #[trigger] solved(&trail[i].cfg, trail[i].states, trail[i].remaining, r)
                &&& r.best_cell is Some
                &&& trail[i + 1] == trail[i].fired(r.best_cell->0 as int)
            },
{
    assert(turn(trail, i));
    let b = choose|b: usize| #[trigger]
        trail[i].recommends_shot(Some(b)) && trail[i + 1] == trail[i].fired(b as int);
    let r = choose|r: SolveResult| #[trigger]
        solved(&trail[i].cfg, trail[i].states, trail[i].remaining, r) && r.best_cell == Some(b);
    assert(solved(&trail[i].cfg, trail[i].states, trail[i].remaining, r));
}

/// Some cell of the ship is not sunk.
pub open spec fn swims(states: Seq<CellState>, ship: ShipView) -> bool {
    exists|m: int|
        #![trigger ship.cells[m]]
        0 <= m < ship.cells.len() && states[ship.cells[m] as int] != CellState::Sunk
}

/// The ships of the given length that are not sunk.
pub open spec fn swimming(ships: Seq<ShipView>, states: Seq<CellState>, len: usize) -> Set<int> {
    Set::new(|k: int| 0 <= k < ships.len() && ships[k].len == len && swims(states, ships[k]))
}

proof fn lemma_swimming(ships: Seq<ShipView>, states: Seq<CellState>, len: usize)
    ensures
        swimming(ships, states, len).finite(),
        ship_lens(afloat_ships(ships, states)).to_multiset().count(len) == swimming(
            ships,
            states,
            len,
        ).len(),
    decreases ships.len(),
{
    broadcast use group_to_multiset_ensures;

    let now = swimming(ships, states, len);
    let lens = ship_lens(afloat_ships(ships, states));
    if ships.len() == 0 {
        assert(now =~= Set::empty());
        assert(lens =~= Seq::empty());
        assert(lens.to_multiset().len() == 0);
    } else {
        let rest = ships.drop_last();
        let n = rest.len() as int;
        lemma_swimming(rest, states, len);
        let before = swimming(rest, states, len);
        assert forall|k: int| 0 <= k < n implies rest[k] == ships[k] by {}
        if ships.last().len == len && swims(states, ships.last()) {
            assert(now =~= before.insert(n));
        } else {
            assert(now =~= before);
        }
        if afloat(states, ships.last()) {
            let fewer = ship_lens(afloat_ships(rest, states));
            assert(lens =~= fewer.push(ships.last().len));
        }
    }
}

/// Fair evidence: nothing lies on a miss, a ship lies on every hit and every sunk
/// cell, a ship with a cell that is not sunk has no sunk cell and an unknown one,
/// and as many ships of each length remain as are not sunk.
pub proof fn lemma_fair_plainly(v: AppView, ships: Seq<ShipView>)
    requires
        v.true_board == Some(ships),
        v.fair(),
    ensures
        v.states.len() == v.cfg.width * v.cfg.height,
        forall|c: int, k: int|
            #![trigger v.states[c], lies_on(ships, k, c)]
            0 <= c < v.states.len() && v.states[c] == CellState::Miss ==> !lies_on(ships, k, c),
        forall|c: int|
            #![trigger v.states[c]]
            0 <= c < v.states.len() && (v.states[c] == CellState::Hit || v.states[c]
                == CellState::Sunk) ==> exists|k: int| lies_on(ships, k, c),
        forall|k: int, m: int|
            #![trigger ships[k].cells[m]]
            0 <= k < ships.len() && swims(v.states, ships[k]) && 0 <= m < ships[k].cells.len()
                ==> v.states[ships[k].cells[m] as int] != CellState::Sunk,
        forall|k: int|
            #![trigger ships[k]]
            0 <= k < ships.len() && swims(v.states, ships[k]) ==> exists|m: int|
                #![trigger ships[k].cells[m]]
                0 <= m < ships[k].cells.len() && v.states[ships[k].cells[m] as int]
                    == CellState::Unknown,
        forall|len: usize| #[trigger]
            v.remaining.to_multiset().count(len) == swimming(ships, v.states, len).len(),
{
    assert forall|len: usize| #[trigger]
        v.remaining.to_multiset().count(len) == swimming(ships, v.states, len).len() by {
        lemma_swimming(ships, v.states, len);
    }
    assert forall|c: int, k: int|
        #![trigger v.states[c], lies_on(ships, k, c)]
        0 <= c < v.states.len() && v.states[c] == CellState::Miss implies !lies_on(
        ships,
        k,
        c,
    ) by {
        assert(owner(ships, c) is None);
    }
    assert forall|c: int|
        #![trigger v.states[c]]
        0 <= c < v.states.len() && (v.states[c] == CellState::Hit || v.states[c]
            == CellState::Sunk) implies exists|k: int| lies_on(ships, k, c) by {
        assert(owner(ships, c) is Some);
        let k = choose|k: int|
            0 <= k < ships.len() && (#[trigger] ships[k]).cells.contains(c as usize);
        assert(lies_on(ships, k, c));
    }
    assert forall|k: int| 0 <= k < ships.len() && swims(v.states, #[trigger] ships[k]) implies
        unfinished(v.states, ships[k]) by {
        assert(afloat(v.states, ships[k]));
    }
}

/// What holds of every game between two actions: the rules can be played, the
/// shots are the cells of which something is known, and a heatmap that is not stale
/// is that of the evidence. In the setup the ships on the board are straight, separate
/// and marked. On a known board the true ships are a valid fleet, and in play the
/// evidence is fair to them.
pub proof fn lemma_every_game(app: App)
    requires
        app.wf(),
    ensures
        app.cfg.playable(),
        app.states@.len() == app.cfg.width * app.cfg.height,
        app.shots == known_cells(app.states@).len(),
        app.mode == Mode::Setup ==> {
            &&& app.known
            &&& app.place_idx < app.cfg.ships@.len()
            &&& laid_out(&app.cfg, app.setup_cell_ship@, app@.setup_ships)
            &&& app.setup_occ@ == occupied(&app.cfg, app@.setup_ships)
        },
        app.true_board matches Some(board) ==> plainly_valid(&app.cfg, board),
        app.mode == Mode::Play && app.known ==> app.true_board is Some && app@.fair(),
        app.mode == Mode::Play && !app.dirty ==> (app.solve matches Some(r) && solved(
            &app.cfg,
            app.states@,
            app.remaining@,
            r,
        )),
        app.solve matches Some(r) ==> r.counts@.len() == app.states@.len() && (
        r.best_cell matches Some(b) ==> b < app.states@.len()),
{
    lemma_revealed_cells(app.states@);
    if let Some(board) = app.true_board {
        assert(board.ships@.len() == board.ships.len());
        lemma_valid_plainly(&app.cfg, board);
    }
}

} // verus!
