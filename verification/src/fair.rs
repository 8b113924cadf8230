//! Evidence that tells the truth about a board, and what the solver owes to it:
//! it always has a shot to recommend, and so it sinks every ship.

use crate::board::GameConfig;
use crate::evidence::{blank, lemma_revealed_bounded, lemma_revealed_one, revealed};
use crate::fleet::{
    count_at, covers, fleets, is_fleet, lemma_standing_cells, lemma_tail_cells, occupies, stands,
    tail_cells,
};
use crate::game::AppView;
use crate::geometry::{
    compatible, lemma_placement_cells, lemma_touching_symmetric, on_board, placement_list,
};
use crate::laws::{lemma_fleets_finite, lemma_without};
use crate::layout::{at_peace, lemma_disjoint_ships, lemma_owner, owner, ship_lens, ShipView};
use crate::order::{descending, lemma_descending};
use crate::play::{all_struck, cell_set, lemma_fired_keeps, lemma_sinking, played_by_solver, turn};
use crate::sampling::{
    attempts_per_batch, count_in, estimates, fleet_weight_at, lemma_samples, samples,
    ship_weight_at,
};
use crate::solver::{
    blocked, clear, hit_cells, lemma_hit_cells, lemma_open_ships, open_placements, open_ships,
    shows, solved, solved_in, stranded, CellState, Method, SolveResult, MC_ATTEMPTS,
};
use vstd::prelude::*;
use vstd::seq_lib::group_to_multiset_ensures;
use vstd::set_lib::{lemma_len_subset, lemma_set_subset_finite};

verus! {

/// The ship is not sunk.
pub open spec fn afloat(states: Seq<CellState>, s: ShipView) -> bool {
    exists|i: int|
        #![trigger s.cells[i]]
        0 <= i < s.cells.len() && states[s.cells[i] as int] != CellState::Sunk
}

/// The ships that are not sunk.
pub open spec fn afloat_ships(ships: Seq<ShipView>, states: Seq<CellState>) -> Seq<ShipView>
    decreases ships.len(),
{
    if ships.len() == 0 {
        Seq::empty()
    } else {
        let before = afloat_ships(ships.drop_last(), states);
        if afloat(states, ships.last()) {
            before.push(ships.last())
        } else {
            before
        }
    }
}

/// Of a ship that is not sunk no cell is, and some cell is unknown.
pub open spec fn unfinished(states: Seq<CellState>, s: ShipView) -> bool {
    &&& forall|i: int|
        #![trigger s.cells[i]]
        0 <= i < s.cells.len() ==> states[s.cells[i] as int] != CellState::Sunk
    &&& exists|i: int|
        #![trigger s.cells[i]]
        0 <= i < s.cells.len() && states[s.cells[i] as int] == CellState::Unknown
}

/// The evidence tells the truth about the ships: misses are water, hits and
/// sunk cells belong to ships, a ship is sunk when all its cells were hit and
/// not before, and the remaining ships are those not sunk.
pub open spec fn fair(
    cfg: &GameConfig,
    ships: Seq<ShipView>,
    states: Seq<CellState>,
    remaining: Seq<usize>,
) -> bool {
    &&& at_peace(cfg, ships)
    &&& states.len() == cfg.size()
    &&& forall|c: int|
        #![trigger states[c]]
        0 <= c < states.len() ==> (states[c] == CellState::Miss ==> owner(ships, c) is None) && ((
        states[c] == CellState::Hit || states[c] == CellState::Sunk) ==> owner(ships, c) is Some)
    &&& forall|i: int|
        #![trigger ships[i]]
        0 <= i < ships.len() && afloat(states, ships[i]) ==> unfinished(states, ships[i])
    &&& remaining.to_multiset() == ship_lens(afloat_ships(ships, states)).to_multiset()
}

impl AppView {
    /// The evidence tells the truth about the known board.
    pub open spec fn fair(self) -> bool {
        self.true_board matches Some(ships) && ships.len() <= usize::MAX && fair(
            &self.cfg,
            ships,
            self.states,
            self.remaining,
        )
    }
}

/// The ships not sunk are some of the ships, in their order.
proof fn lemma_afloat_ships(ships: Seq<ShipView>, states: Seq<CellState>)
    ensures
        forall|s: ShipView| #[trigger]
            afloat_ships(ships, states).contains(s) <==> ships.contains(s) && afloat(states, s),
        ships.no_duplicates() ==> afloat_ships(ships, states).no_duplicates(),
    decreases ships.len(),
{
    let all = afloat_ships(ships, states);
    if ships.len() > 0 {
        let rest = ships.drop_last();
        let last = ships.last();
        let before = afloat_ships(rest, states);
        lemma_afloat_ships(rest, states);
        assert(ships =~= rest.push(last));
        assert forall|s: ShipView| #[trigger] all.contains(s) <==> ships.contains(s) && afloat(
            states,
            s,
        ) by {
            if all.contains(s) {
                let i = choose|i: int| 0 <= i < all.len() && all[i] == s;
                if i < before.len() {
                    assert(before[i] == s);
                    assert(before.contains(s));
                    let k = choose|k: int| 0 <= k < rest.len() && rest[k] == s;
                    assert(ships[k] == s);
                } else {
                    assert(ships[ships.len() - 1] == s);
                }
            }
            if ships.contains(s) && afloat(states, s) {
                let k = choose|k: int| 0 <= k < ships.len() && ships[k] == s;
                if k < rest.len() {
                    assert(rest[k] == s);
                    assert(before.contains(s));
                    let i = choose|i: int| 0 <= i < before.len() && before[i] == s;
                    assert(all[i] == s);
                } else {
                    assert(all[before.len() as int] == s);
                }
            }
        }
        if ships.no_duplicates() {
            assert forall|i: int, j: int| 0 <= i < rest.len() && 0 <= j < rest.len() && i
                != j implies rest[i] != rest[j] by {
                assert(rest[i] == ships[i] && rest[j] == ships[j]);
            }
            if afloat(states, last) {
                assert(!before.contains(last)) by {
                    if before.contains(last) {
                        let k = choose|k: int| 0 <= k < rest.len() && rest[k] == last;
                        assert(ships[k] == last && ships[ships.len() - 1] == last);
                    }
                }
                assert forall|i: int, j: int| 0 <= i < all.len() && 0 <= j < all.len() && i
                    != j implies all[i] != all[j] by {
                    if i < before.len() {
                        assert(before[i] == all[i]);
                        assert(before.contains(all[i]));
                    }
                    if j < before.len() {
                        assert(before[j] == all[j]);
                        assert(before.contains(all[j]));
                    }
                }
            }
        }
    }
}

/// Ships at peace are different ships.
proof fn lemma_ships_distinct(cfg: &GameConfig, ships: Seq<ShipView>)
    requires
        cfg.fits(),
        at_peace(cfg, ships),
    ensures
        ships.no_duplicates(),
{
    assert forall|i: int, j: int| 0 <= i < ships.len() && 0 <= j < ships.len() && i != j implies ships[i]
        != ships[j] by {
        lemma_placement_cells(cfg, ships[i].len as int, ships[i].cells);
        let c = ships[i].cells[0];
        assert(ships[i].cells.contains(c));
        lemma_disjoint_ships(cfg, ships, i, j, c);
    }
}

/// Ships can be put in the order of any list of their lengths.
proof fn lemma_matching(ships: Seq<ShipView>, lens: Seq<usize>) -> (order: Seq<ShipView>)
    requires
        ships.no_duplicates(),
        lens.to_multiset() == ship_lens(ships).to_multiset(),
    ensures
        ship_lens(order) == lens,
        order.no_duplicates(),
        forall|s: ShipView| #[trigger] order.contains(s) <==> ships.contains(s),
    decreases lens.len(),
{
    broadcast use group_to_multiset_ensures;

    let all = ship_lens(ships);
    assert(lens.to_multiset().len() == lens.len() && all.to_multiset().len() == all.len());
    if lens.len() == 0 {
        assert(ships =~= Seq::empty());
        assert(ship_lens(ships) =~= lens);
        ships
    } else {
        let len = lens.last();
        let rest = lens.drop_last();
        assert(lens =~= rest.push(len));
        assert(lens.to_multiset().count(len) > 0);
        assert(all.to_multiset().contains(len));
        assert(all.contains(len));
        let j = choose|j: int| 0 <= j < all.len() && all[j] == len;
        let s = ships[j];
        let others = ships.remove(j);
        assert(ship_lens(others) =~= all.remove(j));
        assert(all.remove(j).to_multiset() == all.to_multiset().remove(len));
        assert(rest.to_multiset().insert(len) == lens.to_multiset());
        assert(rest.to_multiset() =~= lens.to_multiset().remove(len));
        assert forall|a: int, b: int| 0 <= a < others.len() && 0 <= b < others.len() && a
            != b implies others[a] != others[b] by {
            let a0 = if a < j {
                a
            } else {
                a + 1
            };
            let b0 = if b < j {
                b
            } else {
                b + 1
            };
            assert(others[a] == ships[a0] && others[b] == ships[b0]);
        }
        let before = lemma_matching(others, rest);
        let order = before.push(s);
        assert(ship_lens(order) =~= lens);
        assert(!others.contains(s)) by {
            if others.contains(s) {
                let a = choose|a: int| 0 <= a < others.len() && others[a] == s;
                let a0 = if a < j {
                    a
                } else {
                    a + 1
                };
                assert(others[a] == ships[a0]);
            }
        }
        assert(!before.contains(s));
        assert forall|x: ShipView| #[trigger] order.contains(x) <==> ships.contains(x) by {
            if order.contains(x) {
                let i = choose|i: int| 0 <= i < order.len() && order[i] == x;
                if i < before.len() {
                    assert(before[i] == x);
                    assert(before.contains(x));
                    let a = choose|a: int| 0 <= a < others.len() && others[a] == x;
                    let a0 = if a < j {
                        a
                    } else {
                        a + 1
                    };
                    assert(ships[a0] == x);
                } else {
                    assert(ships[j] == x);
                }
            }
            if ships.contains(x) {
                let k = choose|k: int| 0 <= k < ships.len() && ships[k] == x;
                if k == j {
                    assert(order[before.len() as int] == x);
                } else {
                    let a = if k < j {
                        k
                    } else {
                        k - 1
                    };
                    assert(others[a] == x);
                    assert(others.contains(x));
                    assert(before.contains(x));
                    let i = choose|i: int| 0 <= i < before.len() && before[i] == x;
                    assert(order[i] == x);
                }
            }
        }
        assert forall|a: int, b: int| 0 <= a < order.len() && 0 <= b < order.len() && a
            != b implies order[a] != order[b] by {
            if a < before.len() {
                assert(before[a] == order[a]);
                assert(before.contains(order[a]));
            }
            if b < before.len() {
                assert(before[b] == order[b]);
                assert(before.contains(order[b]));
            }
        }
        order
    }
}

/// A ship that is not sunk lies on the cells.
pub open spec fn lies_as_afloat(
    ships: Seq<ShipView>,
    states: Seq<CellState>,
    cells: Seq<usize>,
) -> bool {
    exists|k: int|
        0 <= k < ships.len() && afloat(states, #[trigger] ships[k]) && cells == ships[k].cells
}

/// A ship that is not sunk lies on one of its open placements.
proof fn lemma_afloat_open(
    cfg: &GameConfig,
    ships: Seq<ShipView>,
    states: Seq<CellState>,
    remaining: Seq<usize>,
    i: int,
)
    requires
        cfg.fits(),
        ships.len() <= usize::MAX,
        fair(cfg, ships, states, remaining),
        0 <= i < ships.len(),
        afloat(states, ships[i]),
    ensures
        open_placements(cfg, states, ships[i].len as int).contains(ships[i].cells),
{
    let s = ships[i];
    let list = placement_list(cfg, s.len as int);
    let pred = |p: Seq<usize>| clear(cfg, states, p);
    lemma_placement_cells(cfg, s.len as int, s.cells);
    assert(unfinished(states, s));
    assert forall|k: int| 0 <= k < s.cells.len() implies !blocked(
        cfg,
        states,
        #[trigger] s.cells[k] as int,
    ) by {
        let c = s.cells[k] as int;
        assert(s.cells.contains(s.cells[k]));
        lemma_owner(cfg, ships, c, i);
        assert(states[c] != CellState::Miss && states[c] != CellState::Sunk);
        if cfg.gap_rule {
            assert forall|b: int|
                0 <= b < states.len() && #[trigger] states[b]
                    == CellState::Sunk implies !cfg.touching(b, c) by {
                lemma_owner(cfg, ships, b, i);
                let j = owner(ships, b)->0 as int;
                assert(ships[j].cells.contains(b as usize));
                let m = choose|m: int| 0 <= m < ships[j].cells.len() && ships[j].cells[m] == b as usize;
                assert(states[ships[j].cells[m] as int] == CellState::Sunk);
                assert(j != i);
                lemma_touching_symmetric(cfg, b, c);
                if i < j {
                    assert(compatible(cfg, ships[i].cells, ships[j].cells));
                    assert(cfg.apart(s.cells[k] as int, ships[j].cells[m] as int));
                } else {
                    assert(compatible(cfg, ships[j].cells, ships[i].cells));
                    assert(cfg.apart(ships[j].cells[m] as int, s.cells[k] as int));
                }
            }
        }
    }
    assert(pred(s.cells));
    let k = choose|k: int| 0 <= k < list.len() && list[k] == s.cells;
    list.lemma_filter_contains(pred, k);
}

/// Fair evidence is explained by the ships themselves: there is a fleet that
/// consists of those not sunk.
pub proof fn lemma_truth_is_a_fleet(
    cfg: &GameConfig,
    ships: Seq<ShipView>,
    states: Seq<CellState>,
    remaining: Seq<usize>,
) -> (f: Seq<int>)
    requires
        cfg.fits(),
        ships.len() <= usize::MAX,
        fair(cfg, ships, states, remaining),
    ensures
        ({
            let open = open_ships(cfg, states, descending(remaining));
            &&& is_fleet(cfg, open, hit_cells(states), f)
            &&& f.len() == remaining.len()
            &&& forall|i: int|
                0 <= i < f.len() ==> #[trigger] lies_as_afloat(ships, states, open[i][f[i]])
        }),
{
    let lens = descending(remaining);
    let open = open_ships(cfg, states, lens);
    let floating = afloat_ships(ships, states);
    let hits = hit_cells(states);
    lemma_ships_distinct(cfg, ships);
    lemma_afloat_ships(ships, states);
    lemma_descending(remaining, lens);
    assert(lens.len() == remaining.len()) by {
        broadcast use group_to_multiset_ensures;

        assert(lens.to_multiset().len() == lens.len() && remaining.to_multiset().len()
            == remaining.len());
    }
    let order = lemma_matching(floating, lens);
    assert(order.len() == lens.len()) by {
        assert(ship_lens(order).len() == order.len());
    }
    let f = Seq::new(
        order.len(),
        |i: int| choose|j: int| 0 <= j < open[i].len() && open[i][j] == order[i].cells,
    );
    assert forall|i: int| 0 <= i < f.len() implies 0 <= #[trigger] f[i] < open[i].len()
        && open[i][f[i]] == order[i].cells by {
        assert(order.contains(order[i]));
        assert(floating.contains(order[i]));
        let k = choose|k: int| 0 <= k < ships.len() && ships[k] == order[i];
        lemma_afloat_open(cfg, ships, states, remaining, k);
        assert(ship_lens(order)[i] == order[i].len);
        assert(open[i] == open_placements(cfg, states, lens[i] as int));
        assert(open[i].contains(order[i].cells));
        let j = choose|j: int| 0 <= j < open[i].len() && open[i][j] == order[i].cells;
        assert(0 <= j < open[i].len() && open[i][j] == order[i].cells);
    }
    assert forall|i: int| 0 <= i < f.len() implies #[trigger] lies_as_afloat(
        ships,
        states,
        open[i][f[i]],
    ) by {
        assert(0 <= f[i] < open[i].len());
        assert(order.contains(order[i]));
        assert(floating.contains(order[i]));
        let k = choose|k: int| 0 <= k < ships.len() && ships[k] == order[i];
        assert(afloat(states, ships[k]));
    }
    assert(stands(cfg, open, f)) by {
        assert forall|i: int, j: int|
            #![trigger f[i], f[j]]
            0 <= i < j < f.len() implies compatible(cfg, open[i][f[i]], open[j][f[j]]) by {
            assert(order.contains(order[i]) && order.contains(order[j]));
            assert(floating.contains(order[i]) && floating.contains(order[j]));
            let a = choose|a: int| 0 <= a < ships.len() && ships[a] == order[i];
            let b = choose|b: int| 0 <= b < ships.len() && ships[b] == order[j];
            assert(order[i] != order[j]);
            lemma_compatible_ships(cfg, ships, a, b);
        }
    }
    assert(covers(open, f, hits)) by {
        lemma_hit_cells(states);
        assert forall|k: int| 0 <= k < hits.len() implies occupies(open, f, #[trigger] hits[k]) by {
            let h = hits[k];
            assert(hits.contains(h));
            assert(states[h as int] == CellState::Hit);
            let i = owner(ships, h as int)->0 as int;
            lemma_owner(cfg, ships, h as int, 0);
            assert(ships[i].cells.contains(h));
            let m = choose|m: int| 0 <= m < ships[i].cells.len() && ships[i].cells[m] == h;
            assert(states[ships[i].cells[m] as int] != CellState::Sunk);
            assert(afloat(states, ships[i]));
            assert(ships.contains(ships[i]));
            assert(floating.contains(ships[i]));
            assert(order.contains(ships[i]));
            let o = choose|o: int| 0 <= o < order.len() && order[o] == ships[i];
            assert(open[o][f[o]] == order[o].cells);
        }
    }
    f
}

/// Two different ships at peace are compatible, in either order.
proof fn lemma_compatible_ships(cfg: &GameConfig, ships: Seq<ShipView>, a: int, b: int)
    requires
        at_peace(cfg, ships),
        0 <= a < ships.len(),
        0 <= b < ships.len(),
        a != b,
    ensures
        compatible(cfg, ships[a].cells, ships[b].cells),
{
    let (p, q) = (ships[a].cells, ships[b].cells);
    if b < a {
        assert(compatible(cfg, q, p));
        assert forall|i: int, j: int|
            #![trigger p[i], q[j]]
            0 <= i < p.len() && 0 <= j < q.len() implies cfg.apart(p[i] as int, q[j] as int) by {
            assert(cfg.apart(q[j] as int, p[i] as int));
            lemma_touching_symmetric(cfg, p[i] as int, q[j] as int);
        }
    }
}

/// An open placement avoids the blocked cells.
proof fn lemma_open_is_clear(
    cfg: &GameConfig,
    states: Seq<CellState>,
    lens: Seq<usize>,
    i: int,
    j: int,
)
    requires
        0 <= i < lens.len(),
        0 <= j < open_ships(cfg, states, lens)[i].len(),
    ensures
        clear(cfg, states, open_ships(cfg, states, lens)[i][j]),
{
    let pred = |p: Seq<usize>| clear(cfg, states, p);
    let list = placement_list(cfg, lens[i] as int);
    let open = open_ships(cfg, states, lens)[i];
    assert(open == list.filter(pred));
    assert(list.filter(pred).contains(open[j]));
    list.lemma_filter_contains_rev(pred, open[j]);
}

/// Every fleet that explains fair evidence lies on some unknown cell: it has as
/// many cells as the ships not sunk, and not all of those were hit.
pub proof fn lemma_fleet_finds_unknown(
    cfg: &GameConfig,
    ships: Seq<ShipView>,
    states: Seq<CellState>,
    remaining: Seq<usize>,
    g: Seq<int>,
) -> (c: usize)
    requires
        cfg.fits(),
        ships.len() <= usize::MAX,
        fair(cfg, ships, states, remaining),
        remaining.len() > 0,
        is_fleet(
            cfg,
            open_ships(cfg, states, descending(remaining)),
            hit_cells(states),
            g,
        ),
    ensures
        c < states.len(),
        states[c as int] == CellState::Unknown,
        occupies(open_ships(cfg, states, descending(remaining)), g, c),
{
    let lens = descending(remaining);
    let open = open_ships(cfg, states, lens);
    let hits = hit_cells(states);
    let f = lemma_truth_is_a_fleet(cfg, ships, states, remaining);
    let u = lemma_afloat_unknown(cfg, ships, states, remaining, open[0][f[0]]);
    lemma_open_ships(cfg, states, lens);
    lemma_hit_cells(states);
    lemma_standing_cells(cfg, open, lens, f, 0);
    lemma_standing_cells(cfg, open, lens, g, 0);
    lemma_tail_cells(open, lens, f, 0);
    let mine = tail_cells(open, f, 0);
    let theirs = tail_cells(open, g, 0);
    assert(mine.contains(u));
    if forall|c: usize| #[trigger] theirs.contains(c) ==> states[c as int] != CellState::Unknown {
        assert forall|c: usize| #[trigger] theirs.contains(c) implies mine.remove(u).contains(c) by {
            let k = choose|k: int| 0 <= k < g.len() && open[k][#[trigger] g[k]].contains(c);
            lemma_open_is_clear(cfg, states, lens, k, g[k]);
            let p = open[k][g[k]];
            let a = choose|a: int| 0 <= a < p.len() && p[a] == c;
            assert(on_board(cfg, p));
            assert(!blocked(cfg, states, p[a] as int));
            assert(states[c as int] == CellState::Hit);
            assert(hits.contains(c));
            let h = choose|h: int| 0 <= h < hits.len() && hits[h] == c;
            assert(occupies(open, f, hits[h]));
            let i = choose|i: int| 0 <= i < f.len() && open[i][#[trigger] f[i]].contains(c);
            assert(mine.contains(c));
        }
        lemma_len_subset(theirs, mine.remove(u));
        assert(false);
        0
    } else {
        let c = choose|c: usize| #[trigger]
            theirs.contains(c) && states[c as int] == CellState::Unknown;
        let k = choose|k: int| 0 <= k < g.len() && open[k][#[trigger] g[k]].contains(c);
        let p = open[k][g[k]];
        assert(on_board(cfg, p));
        let a = choose|a: int| 0 <= a < p.len() && p[a] == c;
        c
    }
}

/// A ship that is not sunk has an unknown cell.
proof fn lemma_afloat_unknown(
    cfg: &GameConfig,
    ships: Seq<ShipView>,
    states: Seq<CellState>,
    remaining: Seq<usize>,
    cells: Seq<usize>,
) -> (c: usize)
    requires
        cfg.fits(),
        fair(cfg, ships, states, remaining),
        lies_as_afloat(ships, states, cells),
    ensures
        c < states.len(),
        states[c as int] == CellState::Unknown,
        cells.contains(c),
{
    let k = choose|k: int|
        0 <= k < ships.len() && afloat(states, #[trigger] ships[k]) && cells == ships[k].cells;
    let s = ships[k];
    assert(unfinished(states, s));
    lemma_placement_cells(cfg, s.len as int, s.cells);
    let i = choose|i: int|
        #![trigger s.cells[i]]
        0 <= i < s.cells.len() && states[s.cells[i] as int] == CellState::Unknown;
    s.cells[i]
}

proof fn lemma_count_in_positive(
    ships: Seq<Seq<Seq<usize>>>,
    s: Seq<Seq<int>>,
    i: int,
    c: usize,
)
    requires
        0 <= i < s.len(),
        occupies(ships, s[i], c),
    ensures
        count_in(ships, s, c) > 0,
    decreases s.len(),
{
    if i < s.len() - 1 {
        lemma_count_in_positive(ships, s.drop_last(), i, c);
    }
}

proof fn lemma_weight_positive(
    ships: Seq<Seq<Seq<usize>>>,
    hits: Seq<usize>,
    m: nat,
    i: int,
    j: int,
    c: usize,
)
    requires
        0 <= i < m <= ships.len(),
        0 <= j < ships[i].len(),
        ships[i][j].contains(c),
    ensures
        fleet_weight_at(ships, hits, m, c) > 0,
    decreases m,
{
    if i < m - 1 {
        lemma_weight_positive(ships, hits, (m - 1) as nat, i, j, c);
    } else {
        lemma_ship_weight_positive(ships[i], hits, ships[i].len(), j, c);
    }
}

proof fn lemma_ship_weight_positive(
    ship: Seq<Seq<usize>>,
    hits: Seq<usize>,
    k: nat,
    j: int,
    c: usize,
)
    requires
        0 <= j < k <= ship.len(),
        ship[j].contains(c),
    ensures
        ship_weight_at(ship, hits, k, c) > 0,
    decreases k,
{
    if j < k - 1 {
        lemma_ship_weight_positive(ship, hits, (k - 1) as nat, j, c);
    }
}

/// On fair evidence the solver always has a shot to recommend while ships
/// remain, however it computes its heatmap.
pub proof fn lemma_fair_shot(
    cfg: &GameConfig,
    ships: Seq<ShipView>,
    states: Seq<CellState>,
    remaining: Seq<usize>,
    r: SolveResult,
)
    requires
        cfg.fits(),
        ships.len() <= usize::MAX,
        fair(cfg, ships, states, remaining),
        remaining.len() > 0,
        solved(cfg, states, remaining, r),
    ensures
        r.best_cell is Some,
{
    let lens = descending(remaining);
    let open = open_ships(cfg, states, lens);
    let hits = hit_cells(states);
    let f = lemma_truth_is_a_fleet(cfg, ships, states, remaining);
    let u = lemma_afloat_unknown(cfg, ships, states, remaining, open[0][f[0]]);
    assert(!stranded(open)) by {
        assert forall|i: int| 0 <= i < open.len() implies (#[trigger] open[i]).len() > 0 by {
            assert(0 <= f[i] < open[i].len());
        }
    }
    let found = fleets(cfg, open, hits);
    lemma_fleets_finite(cfg, open, hits);
    assert(found.contains(f));
    assert(found.len() > 0);
    let batches = choose|batches: nat|
        1 <= batches && #[trigger] solved_in(cfg, states, remaining, batches, r);
    let c = if r.method == Method::Exact {
        let p = |f: Seq<int>| occupies(open, f, u);
        assert(open[0][f[0]].contains(u));
        assert(p(f));
        let on = found.filter(p);
        lemma_set_subset_finite(found, on);
        assert(on.contains(f));
        assert(on.len() > 0);
        assert(r.counts@[u as int] == count_at(open, found, u));
        u
    } else {
        let grid = choose|grid: Seq<u64>| #[trigger]
            estimates(
                cfg,
                open,
                hits,
                MC_ATTEMPTS,
                batches,
                grid,
                r.configs,
                r.total,
            ) && shows(states, grid, r.counts@);
        let per = attempts_per_batch(MC_ATTEMPTS, batches);
        let s = samples(cfg, open, hits, per, batches);
        if s.len() > 0 {
            lemma_samples(cfg, open, hits, per, batches, 0);
            let c = lemma_fleet_finds_unknown(cfg, ships, states, remaining, s[0]);
            lemma_count_in_positive(open, s, 0, c);
            assert(grid[c as int] > 0);
            c
        } else {
            lemma_weight_positive(open, hits, open.len(), 0, f[0], u);
            assert(grid[u as int] > 0);
            u
        }
    };
    assert(r.counts@[c as int] > 0);
}

/// The ships not sunk are the same under evidence that sinks the same ships.
proof fn lemma_afloat_same(ships: Seq<ShipView>, a: Seq<CellState>, b: Seq<CellState>)
    requires
        forall|i: int|
            #![trigger ships[i]]
            0 <= i < ships.len() ==> afloat(a, ships[i]) == afloat(b, ships[i]),
    ensures
        afloat_ships(ships, a) == afloat_ships(ships, b),
    decreases ships.len(),
{
    if ships.len() > 0 {
        let rest = ships.drop_last();
        assert forall|i: int|
            #![trigger rest[i]]
            0 <= i < rest.len() implies afloat(a, rest[i]) == afloat(b, rest[i]) by {
            assert(rest[i] == ships[i]);
        }
        lemma_afloat_same(rest, a, b);
        assert(ships[ships.len() - 1] == ships.last());
    }
}

/// Sinking one ship takes its length from those not sunk.
proof fn lemma_afloat_minus(
    ships: Seq<ShipView>,
    a: Seq<CellState>,
    b: Seq<CellState>,
    k: int,
)
    requires
        0 <= k < ships.len(),
        afloat(a, ships[k]),
        !afloat(b, ships[k]),
        forall|i: int|
            #![trigger ships[i]]
            0 <= i < ships.len() && i != k ==> afloat(a, ships[i]) == afloat(b, ships[i]),
    ensures
        ship_lens(afloat_ships(ships, a)).to_multiset() == ship_lens(
            afloat_ships(ships, b),
        ).to_multiset().insert(ships[k].len),
    decreases ships.len(),
{
    broadcast use group_to_multiset_ensures;

    let rest = ships.drop_last();
    let last = ships.last();
    let (x, y) = (afloat_ships(rest, a), afloat_ships(rest, b));
    assert forall|i: int|
        #![trigger rest[i]]
        0 <= i < rest.len() && i != k implies afloat(a, rest[i]) == afloat(b, rest[i]) by {
        assert(rest[i] == ships[i]);
    }
    assert(ship_lens(x.push(last)) =~= ship_lens(x).push(last.len));
    assert(ship_lens(y.push(last)) =~= ship_lens(y).push(last.len));
    if k == ships.len() - 1 {
        lemma_afloat_same(rest, a, b);
    } else {
        assert(rest[k] == ships[k]);
        lemma_afloat_minus(rest, a, b, k);
        assert(ships[ships.len() - 1] == last);
        if afloat(a, last) {
            assert(ship_lens(y).to_multiset().insert(ships[k].len).insert(last.len)
                =~= ship_lens(y).to_multiset().insert(last.len).insert(ships[k].len));
        }
    }
}

/// A change of one cell changes nothing for a ship that does not lie on it.
proof fn lemma_afloat_elsewhere(
    a: Seq<CellState>,
    b: Seq<CellState>,
    s: ShipView,
)
    requires
        forall|i: int|
            #![trigger s.cells[i]]
            0 <= i < s.cells.len() ==> a[s.cells[i] as int] == b[s.cells[i] as int],
    ensures
        afloat(a, s) == afloat(b, s),
        unfinished(a, s) == unfinished(b, s),
{
    if afloat(a, s) {
        let i = choose|i: int|
            #![trigger s.cells[i]]
            0 <= i < s.cells.len() && a[s.cells[i] as int] != CellState::Sunk;
        assert(b[s.cells[i] as int] != CellState::Sunk);
    }
    if afloat(b, s) {
        let i = choose|i: int|
            #![trigger s.cells[i]]
            0 <= i < s.cells.len() && b[s.cells[i] as int] != CellState::Sunk;
        assert(a[s.cells[i] as int] != CellState::Sunk);
    }
    if unfinished(a, s) {
        let i = choose|i: int|
            #![trigger s.cells[i]]
            0 <= i < s.cells.len() && a[s.cells[i] as int] == CellState::Unknown;
        assert(b[s.cells[i] as int] == CellState::Unknown);
    }
    if unfinished(b, s) {
        let i = choose|i: int|
            #![trigger s.cells[i]]
            0 <= i < s.cells.len() && b[s.cells[i] as int] == CellState::Unknown;
        assert(a[s.cells[i] as int] == CellState::Unknown);
    }
}

/// A shot at a known board keeps the evidence fair.
pub proof fn lemma_fair_fired(v: AppView, cell: int)
    requires
        v.cfg.fits(),
        v.fair(),
        0 <= cell < v.states.len(),
    ensures
        v.fired(cell).fair(),
{
    let w = v.fired(cell);
    if v.states[cell] == CellState::Unknown {
        let ships = v.true_board->0;
        let cfg = &v.cfg;
        match owner(ships, cell) {
            None => {
                assert forall|i: int|
                    #![trigger ships[i]]
                    0 <= i < ships.len() implies afloat(v.states, ships[i]) == afloat(
                    w.states,
                    ships[i],
                ) && unfinished(v.states, ships[i]) == unfinished(w.states, ships[i]) by {
                    let s = ships[i];
                    assert forall|m: int|
                        #![trigger s.cells[m]]
                        0 <= m < s.cells.len() implies v.states[s.cells[m] as int]
                        == w.states[s.cells[m] as int] by {
                        lemma_placement_cells(cfg, s.len as int, s.cells);
                        assert(s.cells.contains(s.cells[m]));
                        lemma_owner(cfg, ships, s.cells[m] as int, i);
                    }
                    lemma_afloat_elsewhere(v.states, w.states, s);
                }
                lemma_afloat_same(ships, v.states, w.states);
            },
            Some(o) => {
                lemma_owner(cfg, ships, cell, 0);
                lemma_fair_hit(v, cell, o as int);
            },
        }
    }
}

/// A hit keeps the evidence fair, whether it sinks the ship or not.
proof fn lemma_fair_hit(v: AppView, cell: int, o: int)
    requires
        v.cfg.fits(),
        v.fair(),
        0 <= cell < v.states.len(),
        v.states[cell] == CellState::Unknown,
        owner(v.true_board->0, cell) == Some(o as usize),
        0 <= o < v.true_board->0.len(),
        v.true_board->0[o].cells.contains(cell as usize),
    ensures
        v.fired(cell).fair(),
{
    let w = v.fired(cell);
    let ships = v.true_board->0;
    let cfg = &v.cfg;
    let ship = ships[o];
    let hit = v.states.update(cell, CellState::Hit);
    let at = choose|m: int| 0 <= m < ship.cells.len() && ship.cells[m] == cell as usize;
    lemma_placement_cells(cfg, ship.len as int, ship.cells);
    assert(v.states[ship.cells[at] as int] != CellState::Sunk);
    assert(afloat(v.states, ship));
    assert(unfinished(v.states, ship));
    // The other ships are as they were.
    assert forall|i: int|
        #![trigger ships[i]]
        0 <= i < ships.len() && i != o implies afloat(v.states, ships[i]) == afloat(
        w.states,
        ships[i],
    ) && unfinished(v.states, ships[i]) == unfinished(w.states, ships[i]) by {
        let s = ships[i];
        lemma_placement_cells(cfg, s.len as int, s.cells);
        assert forall|m: int|
            #![trigger s.cells[m]]
            0 <= m < s.cells.len() implies v.states[s.cells[m] as int] == w.states[s.cells[m] as int] by {
            assert(s.cells.contains(s.cells[m]));
            lemma_disjoint_ships(cfg, ships, i, o, s.cells[m]);
            assert(!cell_set(ship.cells).contains(s.cells[m] as int));
        }
        lemma_afloat_elsewhere(v.states, w.states, s);
    }
    if all_struck(hit, ship.cells) {
        assert(!afloat(w.states, ship)) by {
            assert forall|m: int|
                #![trigger ship.cells[m]]
                0 <= m < ship.cells.len() implies w.states[ship.cells[m] as int]
                == CellState::Sunk by {
                assert(ship.cells.contains(ship.cells[m]));
                assert(cell_set(ship.cells).contains(ship.cells[m] as int));
            }
        }
        lemma_afloat_minus(ships, v.states, w.states, o);
        let before = ship_lens(afloat_ships(ships, v.states));
        lemma_without(v.remaining, ship.len);
        assert(v.remaining.contains(ship.len)) by {
            broadcast use group_to_multiset_ensures;

            assert(before.to_multiset().count(ship.len) > 0);
            assert(v.remaining.to_multiset().contains(ship.len));
        }
        let after = ship_lens(afloat_ships(ships, w.states));
        assert(after.to_multiset() =~= v.remaining.to_multiset().remove(ship.len));
        assert forall|c: int|
            #![trigger w.states[c]]
            0 <= c < w.states.len() implies (w.states[c] == CellState::Miss ==> owner(
            ships,
            c,
        ) is None) && ((w.states[c] == CellState::Hit || w.states[c] == CellState::Sunk) ==> owner(
            ships,
            c,
        ) is Some) by {
            if cell_set(ship.cells).contains(c) {
                lemma_owner(cfg, ships, c, o);
            } else {
                assert(w.states[c] == hit[c]);
            }
        }
    } else {
        assert(w.states == hit);
        assert(unfinished(hit, ship)) by {
            let m = choose|m: int|
                #![trigger ship.cells[m]]
                0 <= m < ship.cells.len() && hit[ship.cells[m] as int] != CellState::Hit
                    && hit[ship.cells[m] as int] != CellState::Sunk;
            let c = ship.cells[m] as int;
            assert(ship.cells.contains(ship.cells[m]));
            lemma_owner(cfg, ships, c, o);
            assert(v.states[c] == hit[c]);
            assert(hit[c] == CellState::Unknown);
            assert forall|k: int|
                #![trigger ship.cells[k]]
                0 <= k < ship.cells.len() implies hit[ship.cells[k] as int]
                != CellState::Sunk by {}
        }
        assert(afloat(hit, ship)) by {
            assert(hit[ship.cells[at] as int] == CellState::Hit);
        }
        lemma_afloat_same(ships, v.states, hit);
    }
}

/// When play begins on a board that holds the fleet, the evidence is fair.
pub proof fn lemma_fair_start(v: AppView, ships: Seq<ShipView>)
    requires
        v.cfg.fits(),
        ships.len() <= usize::MAX,
        at_peace(&v.cfg, ships),
        ship_lens(ships).to_multiset() == v.cfg.ships@.to_multiset(),
    ensures
        v.started(ships).fair(),
{
    let states = blank(v.cfg.size());
    assert(0 <= v.cfg.size()) by (nonlinear_arith)
        requires
            v.cfg.size() == v.cfg.width * v.cfg.height,
    ;
    assert forall|i: int|
        #![trigger ships[i]]
        0 <= i < ships.len() implies afloat(states, ships[i]) && unfinished(states, ships[i]) by {
        let s = ships[i];
        lemma_placement_cells(&v.cfg, s.len as int, s.cells);
        assert(states[s.cells[0] as int] == CellState::Unknown);
        assert forall|m: int|
            #![trigger s.cells[m]]
            0 <= m < s.cells.len() implies states[s.cells[m] as int] == CellState::Unknown by {}
    }
    lemma_all_afloat(ships, states);
}

proof fn lemma_all_afloat(ships: Seq<ShipView>, states: Seq<CellState>)
    requires
        forall|i: int| #![trigger ships[i]] 0 <= i < ships.len() ==> afloat(states, ships[i]),
    ensures
        afloat_ships(ships, states) == ships,
    decreases ships.len(),
{
    if ships.len() > 0 {
        let rest = ships.drop_last();
        assert forall|i: int| #![trigger rest[i]] 0 <= i < rest.len() implies afloat(
            states,
            rest[i],
        ) by {
            assert(rest[i] == ships[i]);
        }
        lemma_all_afloat(rest, states);
        assert(ships[ships.len() - 1] == ships.last());
        assert(rest.push(ships.last()) =~= ships);
    } else {
        assert(ships =~= Seq::empty());
    }
}

/// Every shot that the solver recommends on fair evidence reveals one more cell.
pub proof fn lemma_fair_progress(v: AppView, b: usize)
    requires
        v.cfg.fits(),
        v.fair(),
        v.recommends_shot(Some(b)),
    ensures
        b < v.states.len(),
        v.fired(b as int).fair(),
        v.fired(b as int).cfg == v.cfg,
        revealed(v.fired(b as int).states) == revealed(v.states) + 1,
{
    let ships = v.true_board->0;
    let c = b as int;
    let r = choose|r: SolveResult| #[trigger]
        solved(&v.cfg, v.states, v.remaining, r) && r.best_cell == Some(b);
    assert(v.states[c] == CellState::Unknown);
    lemma_fair_fired(v, c);
    lemma_fired_keeps(v, c);
    match owner(ships, c) {
        None => {
            lemma_revealed_one(v.states, c, CellState::Miss);
        },
        Some(o) => {
            let hit = v.states.update(c, CellState::Hit);
            let cells = ships[o as int].cells;
            lemma_revealed_one(v.states, c, CellState::Hit);
            if all_struck(hit, cells) {
                lemma_sinking(hit, cells);
            }
        },
    }
}

/// The solver plays a known board to the end: from fair evidence on, every
/// shot reveals a cell, so the game is over after at most as many shots as the
/// board has cells, and until then there is a shot to recommend.
pub proof fn lemma_solver_finishes(trail: Seq<AppView>)
    requires
        played_by_solver(trail),
        trail[0].cfg.fits(),
        trail[0].fair(),
    ensures
        trail.last().cfg == trail[0].cfg,
        trail.last().fair(),
        trail.len() - 1 == revealed(trail.last().states) - revealed(trail[0].states),
        trail.len() - 1 <= trail[0].cfg.size(),
        trail.last().remaining.len() > 0 ==> !trail.last().recommends_shot(None),
    decreases trail.len(),
{
    let end = trail.last();
    if trail.len() > 1 {
        let before = trail.drop_last();
        assert forall|i: int| 0 <= i < before.len() - 1 implies #[trigger] turn(before, i) by {
            assert(turn(trail, i));
            assert(before[i] == trail[i] && before[i + 1] == trail[i + 1]);
        }
        lemma_solver_finishes(before);
        let n = trail.len() - 2;
        assert(turn(trail, n));
        let v = before.last();
        assert(v == trail[n] && end == trail[n + 1]);
        let b = choose|b: usize| #[trigger]
            v.recommends_shot(Some(b)) && end == v.fired(b as int);
        lemma_fair_progress(v, b);
    }
    lemma_revealed_bounded(end.states);
    if end.remaining.len() > 0 && end.recommends_shot(None) {
        let r = choose|r: SolveResult| #[trigger]
            solved(&end.cfg, end.states, end.remaining, r) && r.best_cell == None::<usize>;
        lemma_fair_shot(&end.cfg, end.true_board->0, end.states, end.remaining, r);
    }
}

} // verus!
