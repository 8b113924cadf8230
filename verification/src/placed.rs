//! Ships put on the board, by hand and at random: where a ship may lie, which of
//! its places it takes, and when play begins.

use crate::board::GameConfig;
use crate::game::{lcg, AppView, Mode, Orient};
use crate::geometry::{across, compatible, down, lemma_cell, lemma_coords, placement_list};
use crate::heatmaps::longest_first_of;
use crate::layout::{
    attempts, candidates, dead_end, fits_beside, fresh, laid_out, lemma_placing_lens, occupied, owner,
    owners, placing, ship_cells, ship_lens, Placing, ShipView, BOARD_ATTEMPTS,
};
use crate::order::lemma_descending;
use crate::outside::{pick, seeded_state};
use crate::plain::{
    in_order, lemma_compatible_separate, lemma_filter_in_order, lemma_placement_order,
    lemma_placements_straight, runs_down, runs_right, separate, straight,
};
use crate::setup::{anchored, at_cells};
use crate::solver::CellState;
use crate::status::Status;
use vstd::arithmetic::div_mod::lemma_fundamental_div_mod;
use vstd::prelude::*;

verus! {

/// The cells are those of a ship that starts at the anchor and lies in the given
/// direction.
pub open spec fn runs_from(
    cfg: &GameConfig,
    orient: Orient,
    anchor: int,
    p: Seq<usize>,
) -> bool {
    let (w, h) = (cfg.width as int, cfg.height as int);
    match orient {
        Orient::Horizontal => runs_right(w, h, anchor % w, anchor / w, p),
        Orient::Vertical => runs_down(w, h, anchor % w, anchor / w, p),
    }
}

/// The cells are separate from every one of the ships.
pub open spec fn separate_from_all(
    cfg: &GameConfig,
    ships: Seq<ShipView>,
    p: Seq<usize>,
) -> bool {
    forall|k: int|
        0 <= k < ships.len() ==> separate(
            cfg.width as int,
            cfg.gap_rule,
            (#[trigger] ships[k]).cells,
            p,
        )
}

/// A ship of `len` may be put on the cells, beside the ships on the board.
pub open spec fn legal(cfg: &GameConfig, ships: Seq<ShipView>, len: int, p: Seq<usize>) -> bool {
    straight(cfg.width as int, cfg.height as int, len, p) && separate_from_all(cfg, ships, p)
}

proof fn lemma_beside(cfg: &GameConfig, ships: Seq<ShipView>, p: Seq<usize>)
    ensures
        fits_beside(cfg, ship_cells(ships), p) <==> separate_from_all(cfg, ships, p),
{
    let chosen = ship_cells(ships);
    assert forall|k: int| 0 <= k < ships.len() implies #[trigger] chosen[k] == ships[k].cells by {}
    if fits_beside(cfg, chosen, p) {
        assert forall|k: int| 0 <= k < ships.len() implies separate(
            cfg.width as int,
            cfg.gap_rule,
            (#[trigger] ships[k]).cells,
            p,
        ) by {
            assert(chosen[k] == ships[k].cells);
            lemma_compatible_separate(cfg, ships[k].cells, p);
        }
    }
    if separate_from_all(cfg, ships, p) {
        assert forall|k: int| 0 <= k < chosen.len() implies compatible(
            cfg,
            #[trigger] chosen[k],
            p,
        ) by {
            assert(chosen[k] == ships[k].cells);
            lemma_compatible_separate(cfg, ships[k].cells, p);
        }
    }
}

/// A ship that is anchored at a cell lies on the run from there in its direction,
/// exactly when that run stays on the board.
pub proof fn lemma_anchored_run(
    cfg: &GameConfig,
    orient: Orient,
    anchor: int,
    len: int,
    p: Seq<usize>,
)
    requires
        cfg.fits(),
        cfg.width > 0,
        0 <= anchor,
        1 <= len,
    ensures
        anchored(cfg, orient, anchor, len) == Some(p) <==> p.len() == len && runs_from(
            cfg,
            orient,
            anchor,
            p,
        ),
        anchored(cfg, orient, anchor, len) is None <==> match orient {
            Orient::Horizontal => anchor % (cfg.width as int) + len > cfg.width || anchor / (
            cfg.width as int) >= cfg.height,
            Orient::Vertical => anchor / (cfg.width as int) + len > cfg.height,
        },
{
    let (w, h) = (cfg.width as int, cfg.height as int);
    let (x, y) = (anchor % w, anchor / w);
    lemma_coords(cfg, anchor);
    match orient {
        Orient::Horizontal => {
            let q = across(cfg, x, y, len);
            if x + len <= w && y < h {
                assert forall|i: int| 0 <= i < len implies #[trigger] q[i] == y * w + x + i by {
                    lemma_cell(cfg, x + i, y);
                }
            }
            if p.len() == len && runs_from(cfg, orient, anchor, p) {
                assert(p =~= q);
            }
        },
        Orient::Vertical => {
            let q = down(cfg, x, y, len);
            if y + len <= h {
                assert forall|i: int| 0 <= i < len implies #[trigger] q[i] == (y + i) * w + x by {
                    lemma_cell(cfg, x, y + i);
                }
            }
            if p.len() == len && runs_from(cfg, orient, anchor, p) {
                assert(p =~= q);
            }
        },
    }
}

/// A ship without cells lies on none, wherever it is anchored.
pub proof fn lemma_anchored_nothing(cfg: &GameConfig, orient: Orient, anchor: int)
    ensures
        anchored(cfg, orient, anchor, 0) == Some(Seq::<usize>::empty()),
{
    let cells = anchored(cfg, orient, anchor, 0)->0;
    assert(cells =~= Seq::empty());
}

/// Play begins with the given ships: nothing is known of any cell, the whole fleet
/// remains and no shot was fired.
pub open spec fn begins(v: AppView, board: Seq<ShipView>, after: AppView) -> bool {
    &&& after.mode == Mode::Play
    &&& after.true_board == Some(board)
    &&& after.states.len() == v.cfg.width * v.cfg.height
    &&& forall|c: int|
        0 <= c < after.states.len() ==> #[trigger] after.states[c] == CellState::Unknown
    &&& after.remaining == v.cfg.ships@
    &&& after.shots == 0
    &&& after.solve is None
    &&& after.dirty
    &&& after.status == Status::Playing
}

/// Nothing differs but what setting up changes: the ships on the board, and the
/// game that begins.
pub open spec fn kept_in_setup(v: AppView, after: AppView) -> bool {
    &&& after.cfg == v.cfg
    &&& after.ui_w == v.ui_w && after.ui_h == v.ui_h
    &&& after.ui_ships == v.ui_ships
    &&& after.ui_gap == v.ui_gap
    &&& after.cfg_error == v.cfg_error
    &&& after.known == v.known
    &&& after.orient == v.orient
    &&& after.sink_mode == v.sink_mode
    &&& after.auto == v.auto
    &&& after.mode == Mode::Setup ==> {
        &&& after.true_board == v.true_board
        &&& after.states == v.states
        &&& after.remaining == v.remaining
        &&& after.solve == v.solve
        &&& after.dirty == v.dirty
        &&& after.shots == v.shots
    }
}

/// The next ship of the fleet was put on the cells.
pub open spec fn put_on(v: AppView, p: Seq<usize>, after: AppView) -> bool {
    let n = v.setup_ships.len();
    let fleet = v.cfg.ships@;
    &&& after.setup_ships.len() == n + 1
    &&& forall|k: int| 0 <= k < n ==> #[trigger] after.setup_ships[k] == v.setup_ships[k]
    &&& after.setup_ships[n as int].cells == p
    &&& after.setup_ships[n as int].len == p.len()
    &&& after.place_idx == v.place_idx + 1
    &&& after.seed_counter == v.seed_counter
    &&& after.setup_occ.len() == v.setup_occ.len()
    &&& after.setup_cell_ship.len() == v.setup_cell_ship.len()
    &&& forall|c: int|
        0 <= c < v.setup_occ.len() ==> #[trigger] after.setup_occ[c] == (p.contains(c as usize)
            || v.setup_occ[c])
    &&& forall|c: int|
        0 <= c < v.setup_cell_ship.len() ==> #[trigger] after.setup_cell_ship[c] == (
        if p.contains(c as usize) {
            Some(n as usize)
        } else {
            v.setup_cell_ship[c]
        })
    &&& kept_in_setup(v, after)
    &&& if v.place_idx + 1 == fleet.len() {
        begins(v, after.setup_ships, after)
    } else {
        &&& after.mode == Mode::Setup
        &&& after.status == (Status::Placed {
            next: (v.place_idx + 2) as usize,
            total: fleet.len() as usize,
            len: fleet[v.place_idx + 1],
        })
    }
}

/// The next ship of the fleet is put on the run of its length from the anchor in
/// the current direction, if that run stays on the board, shares no cell with a
/// ship there and, only under the gap rule, comes near none. Otherwise nothing
/// changes but the message. With the last ship play begins.
pub proof fn lemma_next_ship_by_hand(v: AppView, anchor: int, p: Seq<usize>)
    requires
        v.cfg.fits(),
        v.cfg.width > 0,
        v.mode == Mode::Setup,
        v.place_idx < v.cfg.ships@.len() < usize::MAX,
        1 <= v.cfg.ships@[v.place_idx as int] == p.len(),
        0 <= anchor,
    ensures
        runs_from(&v.cfg, v.orient, anchor, p) && separate_from_all(&v.cfg, v.setup_ships, p)
            ==> put_on(v, p, v.ship_tried(anchor)),
        runs_from(&v.cfg, v.orient, anchor, p) && !separate_from_all(&v.cfg, v.setup_ships, p)
            ==> v.ship_tried(anchor) == (AppView { status: Status::BadSpot, ..v }),
        (match v.orient {
            Orient::Horizontal => anchor % (v.cfg.width as int) + p.len() > v.cfg.width || anchor
                / (v.cfg.width as int) >= v.cfg.height,
            Orient::Vertical => anchor / (v.cfg.width as int) + p.len() > v.cfg.height,
        }) ==> v.ship_tried(anchor) == (AppView { status: Status::OffBoard, ..v }),
{
    lemma_anchored_run(&v.cfg, v.orient, anchor, p.len() as int, p);
    lemma_beside(&v.cfg, v.setup_ships, p);
    let after = v.ship_tried(anchor);
    if runs_from(&v.cfg, v.orient, anchor, p) && separate_from_all(&v.cfg, v.setup_ships, p) {
        assert(after.setup_occ == at_cells(v.setup_occ, p, true));
        assert(put_on(v, p, after));
    }
}

/// The candidates are the legal places of the ship, along the rows first and then
/// along the columns.
pub proof fn lemma_candidates_legal(cfg: &GameConfig, ships: Seq<ShipView>, len: int)
    requires
        cfg.fits(),
    ensures
        in_order(cfg.width as int, candidates(cfg, ships, len)),
        forall|p: Seq<usize>| #[trigger]
            candidates(cfg, ships, len).contains(p) <==> legal(cfg, ships, len, p),
{
    let list = placement_list(cfg, len);
    let pred = |p: Seq<usize>| fits_beside(cfg, ship_cells(ships), p);
    lemma_placement_order(cfg, len);
    lemma_filter_in_order(cfg.width as int, list, pred);
    assert forall|p: Seq<usize>| #[trigger]
        candidates(cfg, ships, len).contains(p) <==> legal(cfg, ships, len, p) by {
        lemma_placements_straight(cfg, len, p);
        lemma_beside(cfg, ships, p);
        if list.filter(pred).contains(p) {
            list.lemma_filter_contains_rev(pred, p);
        }
        if list.contains(p) && pred(p) {
            let k = choose|k: int| 0 <= k < list.len() && list[k] == p;
            list.lemma_filter_contains(pred, k);
        }
    }
}

/// A ship of `len` takes one of its legal places, all of which are listed: the one
/// at the index that the generator picks among so many. Without a legal place the
/// attempt is stuck, and nothing more is placed.
pub open spec fn takes_a_place(
    cfg: &GameConfig,
    len: usize,
    now: Placing,
    next: Placing,
    places: Seq<Seq<usize>>,
) -> bool {
    &&& in_order(cfg.width as int, places)
    &&& forall|p: Seq<usize>| #[trigger]
        places.contains(p) <==> legal(cfg, now.ships, len as int, p)
    &&& if now.stuck {
        next == now
    } else if places.len() == 0 {
        next.stuck && next.ships == now.ships && next.state == now.state
    } else {
        &&& !next.stuck
        &&& next.ships == now.ships.push(
            ShipView { len, cells: places[pick(now.state, places.len()).0 as int] },
        )
        &&& next.state == pick(now.state, places.len()).1
    }
}

/// Each step of placing ships at random takes one of the legal places.
pub proof fn lemma_random_step(cfg: &GameConfig, lens: Seq<usize>, k: nat, start: Placing)
    requires
        cfg.fits(),
        k < lens.len(),
    ensures
        placing(cfg, lens, 0, start) == start,
        exists|places: Seq<Seq<usize>>| #[trigger]
            takes_a_place(
                cfg,
                lens[k as int],
                placing(cfg, lens, k, start),
                placing(cfg, lens, k + 1, start),
                places,
            ),
{
    let now = placing(cfg, lens, k, start);
    let next = placing(cfg, lens, k + 1, start);
    let places = candidates(cfg, now.ships, lens[k as int] as int);
    lemma_candidates_legal(cfg, now.ships, lens[k as int] as int);
    assert(takes_a_place(cfg, lens[k as int], now, next, places));
}

/// Whatever legal place there is for a ship, some outcome of the pick among the
/// legal places puts the ship there.
pub proof fn lemma_every_place_can_be_taken(
    cfg: &GameConfig,
    lens: Seq<usize>,
    k: nat,
    start: Placing,
    p: Seq<usize>,
)
    requires
        cfg.fits(),
        k < lens.len(),
        !placing(cfg, lens, k, start).stuck,
        legal(cfg, placing(cfg, lens, k, start).ships, lens[k as int] as int, p),
    ensures
        exists|places: Seq<Seq<usize>>, i: int|
            #![trigger takes_a_place(
                cfg,
                lens[k as int],
                placing(cfg, lens, k, start),
                placing(cfg, lens, k + 1, start),
                places,
            ), places[i]]
            {
                &&& takes_a_place(
                    cfg,
                    lens[k as int],
                    placing(cfg, lens, k, start),
                    placing(cfg, lens, k + 1, start),
                    places,
                )
                &&& 0 <= i < places.len()
                &&& places[i] == p
                &&& pick(placing(cfg, lens, k, start).state, places.len()).0 == i
                    ==> placing(cfg, lens, k + 1, start).ships.last().cells == p
            },
{
    let now = placing(cfg, lens, k, start);
    let next = placing(cfg, lens, k + 1, start);
    lemma_random_step(cfg, lens, k, start);
    let places = choose|places: Seq<Seq<usize>>| #[trigger]
        takes_a_place(cfg, lens[k as int], now, next, places);
    assert(places.contains(p));
    let i = choose|i: int| 0 <= i < places.len() && places[i] == p;
    assert(takes_a_place(cfg, lens[k as int], now, next, places) && places[i] == p);
}

/// Step `i` of placing the ships: one of them takes a place.
pub open spec fn step_at(
    cfg: &GameConfig,
    lens: Seq<usize>,
    steps: Seq<Placing>,
    i: int,
) -> bool {
    exists|places: Seq<Seq<usize>>| #[trigger]
        takes_a_place(cfg, lens[i], steps[i], steps[i + 1], places)
}

/// The ships of the given lengths are placed one after another.
pub open spec fn placed_in_turn(
    cfg: &GameConfig,
    lens: Seq<usize>,
    steps: Seq<Placing>,
) -> bool {
    &&& steps.len() == lens.len() + 1
    &&& forall|i: int| 0 <= i < lens.len() ==> #[trigger] step_at(cfg, lens, steps, i)
}

proof fn lemma_placed_in_turn(cfg: &GameConfig, lens: Seq<usize>, start: Placing)
    requires
        cfg.fits(),
    ensures
        exists|steps: Seq<Placing>| #[trigger]
            placed_in_turn(cfg, lens, steps) && steps[0] == start && steps.last() == placing(
                cfg,
                lens,
                lens.len(),
                start,
            ),
{
    let steps = Seq::new(lens.len() + 1, |i: int| placing(cfg, lens, i as nat, start));
    assert forall|i: int| 0 <= i < lens.len() implies #[trigger] step_at(cfg, lens, steps, i) by {
        lemma_random_step(cfg, lens, i as nat, start);
        assert(steps[i] == placing(cfg, lens, i as nat, start));
        assert(steps[i + 1] == placing(cfg, lens, (i + 1) as nat, start));
    }
    assert(placed_in_turn(cfg, lens, steps));
}

/// A round of placing the whole fleet: it starts on an empty board.
pub open spec fn round_at(
    cfg: &GameConfig,
    lens: Seq<usize>,
    rounds: Seq<Seq<Placing>>,
    i: int,
) -> bool {
    &&& placed_in_turn(cfg, lens, rounds[i])
    &&& rounds[i][0].ships.len() == 0
    &&& !rounds[i][0].stuck
    &&& i > 0 ==> rounds[i - 1].last().stuck && rounds[i][0].state == rounds[i - 1].last().state
}

/// Rounds of placing the whole fleet until one is not stuck, at most so many.
pub open spec fn rounds_in_turn(
    cfg: &GameConfig,
    lens: Seq<usize>,
    most: int,
    rounds: Seq<Seq<Placing>>,
) -> bool {
    &&& 1 <= rounds.len() <= most
    &&& rounds.last().last().stuck ==> rounds.len() == most
    &&& forall|i: int| 0 <= i < rounds.len() ==> #[trigger] round_at(cfg, lens, rounds, i)
}

/// Attempts to place the fleet are rounds: what comes of them is what comes of the
/// last, which is the first that is not stuck.
pub proof fn lemma_rounds(cfg: &GameConfig, lens: Seq<usize>, tries: nat, state: Seq<u8>)
    requires
        cfg.fits(),
        tries >= 1,
    ensures
        exists|rounds: Seq<Seq<Placing>>| #[trigger]
            rounds_in_turn(cfg, lens, tries as int, rounds) && rounds[0][0].state == state && ({
                let end = attempts(cfg, lens, tries, state);
                &&& end.stuck == rounds.last().last().stuck
                &&& end.state == rounds.last().last().state
                &&& !end.stuck ==> end.ships == rounds.last().last().ships
            }),
    decreases tries,
{
    lemma_placed_in_turn(cfg, lens, fresh(state));
    let end = placing(cfg, lens, lens.len(), fresh(state));
    let steps = choose|steps: Seq<Placing>| #[trigger]
        placed_in_turn(cfg, lens, steps) && steps[0] == fresh(state) && steps.last() == end;
    if end.stuck && tries > 1 {
        lemma_rounds(cfg, lens, (tries - 1) as nat, end.state);
        let final_end = attempts(cfg, lens, (tries - 1) as nat, end.state);
        let later = choose|rounds: Seq<Seq<Placing>>| #[trigger]
            rounds_in_turn(cfg, lens, tries - 1, rounds) && rounds[0][0].state == end.state && ({
                &&& final_end.stuck == rounds.last().last().stuck
                &&& final_end.state == rounds.last().last().state
                &&& !final_end.stuck ==> final_end.ships == rounds.last().last().ships
            });
        let rounds = seq![steps] + later;
        assert forall|i: int| 0 <= i < rounds.len() implies #[trigger] round_at(
            cfg,
            lens,
            rounds,
            i,
        ) by {
            if i > 0 {
                assert(round_at(cfg, lens, later, i - 1));
                assert(rounds[i] == later[i - 1]);
                if i > 1 {
                    assert(rounds[i - 1] == later[i - 2]);
                } else {
                    assert(rounds[0] == steps);
                }
            }
        }
        assert(rounds.last() == later.last());
        assert(rounds_in_turn(cfg, lens, tries as int, rounds));
    } else {
        let rounds = seq![steps];
        assert(rounds.last() == steps);
        assert(round_at(cfg, lens, rounds, 0));
        assert(rounds_in_turn(cfg, lens, tries as int, rounds));
        if end.stuck {
            assert(attempts(cfg, lens, 0, end.state).state == end.state);
        }
    }
}

/// There is such a ship, and it lies on the cell.
pub open spec fn lies_on(ships: Seq<ShipView>, k: int, c: int) -> bool {
    0 <= k < ships.len() && ships[k].cells.contains(c as usize)
}

/// The marks of the cells say which of them a ship lies on, and which ship.
pub open spec fn marks_tell(
    cfg: &GameConfig,
    ships: Seq<ShipView>,
    occ: Seq<bool>,
    cell_ship: Seq<Option<usize>>,
) -> bool {
    &&& occ.len() == cfg.width * cfg.height
    &&& cell_ship.len() == cfg.width * cfg.height
    &&& forall|c: int|
        #![trigger occ[c]]
        #![trigger cell_ship[c]]
        0 <= c < occ.len() ==> occ[c] == (cell_ship[c] is Some) && (cell_ship[c] is Some
            ==> lies_on(ships, cell_ship[c]->0 as int, c)) && (cell_ship[c] is None ==> forall|k: int|
            !#[trigger] lies_on(ships, k, c))
}

/// The next seed is one step of a linear congruence modulo two to the power 64.
pub open spec fn follows(seed: u64, next: u64) -> bool {
    exists|turns: int| #[trigger]
        (turns * 0x1_0000_0000_0000_0000) + next == seed * 6364136223846793005
            + 1442695040888963407
}

/// Seeds follow one another.
pub proof fn lemma_seed_follows(seed: u64)
    ensures
        follows(seed, lcg(seed)),
{
    let n = seed * 6364136223846793005 + 1442695040888963407;
    let m = 0x1_0000_0000_0000_0000int;
    lemma_fundamental_div_mod(n, m);
    let turns = n / m;
    assert(turns * m == m * turns) by (nonlinear_arith);
    assert((turns * 0x1_0000_0000_0000_0000) + lcg(seed) == n);
}

/// The ships that are yet to be placed take places at random beside those on the
/// board, in the order of the fleet. Then play begins, unless one has no place: then
/// those before it stay.
pub proof fn lemma_rest_at_random(v: AppView)
    requires
        v.cfg.fits(),
        v.mode == Mode::Setup,
        v.place_idx <= v.cfg.ships@.len() <= usize::MAX,
        v.setup_ships.len() + v.cfg.ships@.len() - v.place_idx <= usize::MAX,
    ensures
        exists|steps: Seq<Placing>, seed: u64|
            #![trigger placed_in_turn(&v.cfg, v.cfg.ships@.skip(v.place_idx as int), steps), follows(
                v.seed_counter,
                seed,
            )]
            {
                let after = v.rest_randomized();
                &&& placed_in_turn(&v.cfg, v.cfg.ships@.skip(v.place_idx as int), steps)
                &&& follows(v.seed_counter, seed)
                &&& steps[0].ships == v.setup_ships
                &&& !steps[0].stuck
                &&& steps[0].state == seeded_state(seed)
                &&& after.seed_counter == seed
                &&& after.setup_ships == steps.last().ships
                &&& marks_tell(
                    &v.cfg,
                    after.setup_ships,
                    after.setup_occ,
                    after.setup_cell_ship,
                )
                &&& kept_in_setup(v, after)
                &&& if steps.last().stuck {
                    &&& after.mode == Mode::Setup
                    &&& after.place_idx == v.place_idx
                    &&& after.status == Status::CannotFitRest
                } else {
                    &&& after.place_idx == v.cfg.ships@.len()
                    &&& begins(v, after.setup_ships, after)
                }
            },
{
    let seed = lcg(v.seed_counter);
    let rest = v.cfg.ships@.skip(v.place_idx as int);
    let start = Placing { ships: v.setup_ships, stuck: false, state: seeded_state(seed) };
    lemma_seed_follows(v.seed_counter);
    lemma_placed_in_turn(&v.cfg, rest, start);
    let end = placing(&v.cfg, rest, rest.len(), start);
    let steps = choose|steps: Seq<Placing>| #[trigger]
        placed_in_turn(&v.cfg, rest, steps) && steps[0] == start && steps.last() == end;
    lemma_placing_lens(&v.cfg, rest, rest.len(), start);
    lemma_marks_tell(&v.cfg, end.ships);
    assert(placed_in_turn(&v.cfg, rest, steps) && follows(v.seed_counter, seed));
}

/// The marks that go with ships tell where they lie.
pub proof fn lemma_marks_tell(cfg: &GameConfig, ships: Seq<ShipView>)
    requires
        ships.len() <= usize::MAX,
    ensures
        marks_tell(cfg, ships, occupied(cfg, ships), owners(cfg, ships)),
{
    let occ = occupied(cfg, ships);
    let cell_ship = owners(cfg, ships);
    assert(cfg.size() >= 0) by (nonlinear_arith)
        requires
            cfg.size() == cfg.width * cfg.height,
            0 <= cfg.width,
            0 <= cfg.height,
    ;
    assert forall|c: int|
        #![trigger occ[c]]
        #![trigger cell_ship[c]]
        0 <= c < occ.len() implies occ[c] == (cell_ship[c] is Some) && (cell_ship[c] is Some
        ==> lies_on(ships, cell_ship[c]->0 as int, c)) && (cell_ship[c] is None ==> forall|k: int|
        !#[trigger] lies_on(ships, k, c)) by {
        assert(cell_ship[c] == owner(ships, c));
        assert(occ[c] == (owner(ships, c) is Some));
    }
}

/// Ships that are laid out: each is a straight run of its length on the board, any
/// two are separate, and the marks tell where they lie.
pub proof fn lemma_laid_out_plainly(
    cfg: &GameConfig,
    cell_ship: Seq<Option<usize>>,
    ships: Seq<ShipView>,
)
    requires
        cfg.fits(),
        ships.len() <= usize::MAX,
        laid_out(cfg, cell_ship, ships),
    ensures
        marks_tell(cfg, ships, occupied(cfg, ships), cell_ship),
        forall|i: int|
            #![trigger ships[i]]
            0 <= i < ships.len() ==> straight(
                cfg.width as int,
                cfg.height as int,
                ships[i].len as int,
                ships[i].cells,
            ),
        forall|i: int, j: int|
            #![trigger ships[i], ships[j]]
            0 <= i < j < ships.len() ==> separate(
                cfg.width as int,
                cfg.gap_rule,
                ships[i].cells,
                ships[j].cells,
            ),
{
    lemma_marks_tell(cfg, ships);
    assert forall|i: int|
        #![trigger ships[i]]
        0 <= i < ships.len() implies straight(
        cfg.width as int,
        cfg.height as int,
        ships[i].len as int,
        ships[i].cells,
    ) by {
        lemma_placements_straight(cfg, ships[i].len as int, ships[i].cells);
    }
    assert forall|i: int, j: int|
        #![trigger ships[i], ships[j]]
        0 <= i < j < ships.len() implies separate(
        cfg.width as int,
        cfg.gap_rule,
        ships[i].cells,
        ships[j].cells,
    ) by {
        lemma_compatible_separate(cfg, ships[i].cells, ships[j].cells);
    }
}

/// The whole fleet takes places at random on an empty board, the longest ship
/// first, in the first of at most three thousand rounds that is not stuck; then
/// play begins. When all are stuck nothing changes but the seed and the message.
pub proof fn lemma_board_at_random(v: AppView, lens: Seq<usize>)
    requires
        v.cfg.fits(),
        longest_first_of(lens, v.cfg.ships@),
    ensures
        exists|rounds: Seq<Seq<Placing>>, seed: u64|
            #![trigger rounds_in_turn(&v.cfg, lens, 3000, rounds), follows(v.seed_counter, seed)]
            {
                let after = v.board_randomized();
                &&& rounds_in_turn(&v.cfg, lens, 3000, rounds)
                &&& follows(v.seed_counter, seed)
                &&& rounds[0][0].state == seeded_state(seed)
                &&& if rounds.last().last().stuck {
                    after == (AppView {
                        seed_counter: seed,
                        status: Status::CannotRandomize,
                        ..v
                    })
                } else {
                    &&& begins(v, rounds.last().last().ships, after)
                    &&& kept_in_setup(v, after)
                    &&& after.seed_counter == seed
                    &&& after.setup_ships == v.setup_ships
                    &&& after.setup_occ == v.setup_occ
                    &&& after.setup_cell_ship == v.setup_cell_ship
                    &&& after.place_idx == v.place_idx
                }
            },
{
    let seed = lcg(v.seed_counter);
    lemma_seed_follows(v.seed_counter);
    lemma_descending(v.cfg.ships@, lens);
    lemma_rounds(&v.cfg, lens, 3000, seeded_state(seed));
    let end = attempts(&v.cfg, lens, 3000, seeded_state(seed));
    let rounds = choose|rounds: Seq<Seq<Placing>>| #[trigger]
        rounds_in_turn(&v.cfg, lens, 3000, rounds) && rounds[0][0].state == seeded_state(seed) && ({
            &&& end.stuck == rounds.last().last().stuck
            &&& end.state == rounds.last().last().state
            &&& !end.stuck ==> end.ships == rounds.last().last().ships
        });
    assert(BOARD_ATTEMPTS == 3000);
    assert(rounds_in_turn(&v.cfg, lens, 3000, rounds) && follows(v.seed_counter, seed));
}

/// A dead end: the ships on the board are the first of the fleet in its order, each
/// has its place, and the next has no legal one.
pub proof fn lemma_dead_end_plainly(cfg: &GameConfig, lens: Seq<usize>, ships: Seq<ShipView>)
    requires
        cfg.fits(),
        dead_end(cfg, lens, ships),
    ensures
        ships.len() < lens.len(),
        forall|i: int|
            #![trigger ships[i]]
            0 <= i < ships.len() ==> ships[i].len == lens[i] && straight(
                cfg.width as int,
                cfg.height as int,
                ships[i].len as int,
                ships[i].cells,
            ),
        forall|i: int, j: int|
            #![trigger ships[i], ships[j]]
            0 <= i < j < ships.len() ==> separate(
                cfg.width as int,
                cfg.gap_rule,
                ships[i].cells,
                ships[j].cells,
            ),
        forall|p: Seq<usize>| !#[trigger] legal(cfg, ships, lens[ships.len() as int] as int, p),
{
    let free = candidates(cfg, ships, lens[ships.len() as int] as int);
    lemma_candidates_legal(cfg, ships, lens[ships.len() as int] as int);
    assert forall|p: Seq<usize>| !#[trigger]
        legal(cfg, ships, lens[ships.len() as int] as int, p) by {
        assert(!free.contains(p));
    }
    assert forall|i: int|
        #![trigger ships[i]]
        0 <= i < ships.len() implies ships[i].len == lens[i] && straight(
        cfg.width as int,
        cfg.height as int,
        ships[i].len as int,
        ships[i].cells,
    ) by {
        assert(ship_lens(ships)[i] == lens.take(ships.len() as int)[i]);
        lemma_placements_straight(cfg, ships[i].len as int, ships[i].cells);
    }
    assert forall|i: int, j: int|
        #![trigger ships[i], ships[j]]
        0 <= i < j < ships.len() implies separate(
        cfg.width as int,
        cfg.gap_rule,
        ships[i].cells,
        ships[j].cells,
    ) by {
        lemma_compatible_separate(cfg, ships[i].cells, ships[j].cells);
    }
}

/// The ships of the setup are the first of the fleet, as many as were placed.
pub proof fn lemma_setup_in_order(v: AppView)
    requires
        v.place_idx <= v.cfg.ships@.len(),
    ensures
        v.in_order() <==> v.setup_ships.len() == v.place_idx && forall|i: int|
            0 <= i < v.setup_ships.len() ==> (#[trigger] v.setup_ships[i]).len == v.cfg.ships@[i],
{
    let lens = ship_lens(v.setup_ships);
    let first = v.cfg.ships@.take(v.place_idx as int);
    if v.in_order() {
        assert forall|i: int| 0 <= i < v.setup_ships.len() implies (#[trigger] v.setup_ships[i]).len
            == v.cfg.ships@[i] by {
            assert(lens[i] == first[i]);
        }
        assert(lens.len() == first.len());
    }
    if v.setup_ships.len() == v.place_idx && forall|i: int|
        0 <= i < v.setup_ships.len() ==> (#[trigger] v.setup_ships[i]).len == v.cfg.ships@[i] {
        assert(lens =~= first);
    }
}

/// No place on the board is left for ship `i` of the fleet.
pub open spec fn left_out(v: AppView, i: int) -> bool {
    &&& v.place_idx <= i < v.cfg.ships@.len()
    &&& forall|p: Seq<usize>| !#[trigger]
        legal(&v.cfg, v.setup_ships, v.cfg.ships@[i] as int, p)
}

/// A setup is hopeless when a ship that is yet to be placed has no legal place.
pub proof fn lemma_hopeless_plainly(v: AppView)
    requires
        v.cfg.fits(),
    ensures
        v.hopeless() <==> exists|i: int| left_out(v, i),
{
    assert forall|i: int| v.place_idx <= i < v.cfg.ships@.len() implies (candidates(
        &v.cfg,
        v.setup_ships,
        v.cfg.ships@[i] as int,
    ).len() == 0 <==> #[trigger] left_out(v, i)) by {
        let free = candidates(&v.cfg, v.setup_ships, v.cfg.ships@[i] as int);
        lemma_candidates_legal(&v.cfg, v.setup_ships, v.cfg.ships@[i] as int);
        if free.len() == 0 {
            assert forall|p: Seq<usize>| !#[trigger]
                legal(&v.cfg, v.setup_ships, v.cfg.ships@[i] as int, p) by {
                assert(!free.contains(p));
            }
        } else {
            assert(free.contains(free[0]));
        }
    }
    if v.hopeless() {
        let i = choose|i: int|
            v.place_idx <= i < v.cfg.ships@.len() && (#[trigger] candidates(
                &v.cfg,
                v.setup_ships,
                v.cfg.ships@[i] as int,
            )).len() == 0;
        assert(left_out(v, i));
    }
    if exists|i: int| left_out(v, i) {
        let i = choose|i: int| left_out(v, i);
        assert(candidates(&v.cfg, v.setup_ships, v.cfg.ships@[i] as int).len() == 0);
    }
}

} // verus!
