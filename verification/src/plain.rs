//! The rules of the game in plain words, on columns and rows, and what the
//! library makes of them.
//!
//! A cell with the number `c` stands in column `c % w` and row `c / w` of a board
//! of width `w`. Everything here is said of such numbers and of what is known of
//! the cells.

use crate::board::{views, GameConfig, TrueBoard};
use crate::fleet::ships_view;
use crate::game::board_within_limits;
use crate::geometry::{
    across, across_row, across_rows, ascending, compatible, down, down_row, down_rows,
    edge_neighbors, lemma_cell, lemma_coords, lemma_edge_neighbors, lemma_placement_cells,
    lemma_placements_complete, lies_across, lies_down, placeable, placement_list,
};
use crate::layout::{at_peace, lemma_owner, owner, owners, ship_lens, ship_views};
use crate::setup::lemma_playable;
use crate::solver::{blocked, lemma_placed_len, within_limits, CellState};
use vstd::prelude::*;

verus! {

/// Two different cells at most one column and at most one row from each other.
pub open spec fn near(w: int, a: int, b: int) -> bool {
    a != b && -1 <= a % w - b % w <= 1 && -1 <= a / w - b / w <= 1
}

/// Cells side by side along a row, from column `x` of row `y` on.
pub open spec fn runs_right(w: int, h: int, x: int, y: int, p: Seq<usize>) -> bool {
    &&& 0 <= x && x + p.len() <= w && 0 <= y < h
    &&& forall|i: int| 0 <= i < p.len() ==> #[trigger] p[i] == y * w + x + i
}

/// Cells one below the other along a column, from column `x` of row `y` on.
pub open spec fn runs_down(w: int, h: int, x: int, y: int, p: Seq<usize>) -> bool {
    &&& 0 <= x < w && 0 <= y && y + p.len() <= h
    &&& forall|i: int| 0 <= i < p.len() ==> #[trigger] p[i] == (y + i) * w + x
}

/// A straight run of `len` cells of the board.
pub open spec fn straight(w: int, h: int, len: int, p: Seq<usize>) -> bool {
    &&& 1 <= len == p.len()
    &&& {
        ||| exists|x: int, y: int| runs_right(w, h, x, y, p)
        ||| exists|x: int, y: int| runs_down(w, h, x, y, p)
    }
}

/// Two ships that share no cell and, under the gap rule, do not come near each
/// other.
pub open spec fn separate(w: int, gap: bool, p: Seq<usize>, q: Seq<usize>) -> bool {
    forall|i: int, j: int|
        #![trigger p[i], q[j]]
        0 <= i < p.len() && 0 <= j < q.len() ==> p[i] != q[j] && (gap ==> !near(
            w,
            p[i] as int,
            q[j] as int,
        ))
}

/// A remaining ship may lie on the cell: it is an open hit, or it is unknown and,
/// under the gap rule, near no sunk cell.
pub open spec fn may_hold(w: int, gap: bool, states: Seq<CellState>, c: int) -> bool {
    ||| states[c] == CellState::Hit
    ||| states[c] == CellState::Unknown && (gap ==> forall|s: int|
        0 <= s < states.len() && #[trigger] states[s] == CellState::Sunk ==> !near(w, s, c))
}

/// A remaining ship may lie on each of the cells.
pub open spec fn all_may_hold(
    w: int,
    gap: bool,
    states: Seq<CellState>,
    p: Seq<usize>,
) -> bool {
    forall|k: int| 0 <= k < p.len() ==> may_hold(w, gap, states, #[trigger] p[k] as int)
}

/// The cells of the library's geometry are those of columns and rows: a step to
/// the right is one cell on, a step down is one row on, and two cells touch when
/// they are near each other, along an edge when they share the column or the row.
pub proof fn lemma_geometry(cfg: &GameConfig, x: int, y: int, a: int, b: int)
    requires
        0 <= x < cfg.width,
        0 <= y,
    ensures
        cfg.size() == cfg.width * cfg.height,
        cfg.cell(x, y) == y * cfg.width + x,
        cfg.col(cfg.cell(x, y)) == x,
        cfg.row(cfg.cell(x, y)) == y,
        cfg.cell(x + 1, y) == cfg.cell(x, y) + 1,
        cfg.cell(x, y + 1) == cfg.cell(x, y) + cfg.width,
        cfg.touching(a, b) <==> near(cfg.width as int, a, b),
        cfg.edge_touching(a, b) <==> near(cfg.width as int, a, b) && (a % (cfg.width as int) == b
            % (cfg.width as int) || a / (cfg.width as int) == b / (cfg.width as int)),
{
    lemma_cell(cfg, x, y);
    let w = cfg.width as int;
    assert((y + 1) * w == y * w + w) by (nonlinear_arith);
}

/// Where a neighbour of a cell is looked for: above it first, then below, to the
/// left and to the right.
pub open spec fn turn_of(w: int, c: int, b: int) -> int {
    if b / w < c / w {
        0
    } else if b / w > c / w {
        1
    } else if b % w < c % w {
        2
    } else {
        3
    }
}

/// The edge neighbours of a cell are the cells of the board near it in its column
/// or its row: the one above, the one below, the left and the right one.
pub proof fn lemma_neighbours(cfg: &GameConfig, c: int)
    requires
        cfg.fits(),
        cfg.width > 0,
        0 <= c,
    ensures
        forall|b: usize| #[trigger]
            edge_neighbors(cfg, c).contains(b) <==> b < cfg.width * cfg.height && near(
                cfg.width as int,
                c,
                b as int,
            ) && (c % (cfg.width as int) == b as int % (cfg.width as int) || c / (
            cfg.width as int) == b as int / (cfg.width as int)),
        forall|i: int, j: int|
            #![trigger edge_neighbors(cfg, c)[i], edge_neighbors(cfg, c)[j]]
            0 <= i < j < edge_neighbors(cfg, c).len() ==> turn_of(
                cfg.width as int,
                c,
                edge_neighbors(cfg, c)[i] as int,
            ) < turn_of(cfg.width as int, c, edge_neighbors(cfg, c)[j] as int),
{
    let (x, y) = (cfg.col(c), cfg.row(c));
    lemma_coords(cfg, c);
    assert forall|b: usize| #[trigger]
        edge_neighbors(cfg, c).contains(b) <==> b < cfg.width * cfg.height && near(
            cfg.width as int,
            c,
            b as int,
        ) && (c % (cfg.width as int) == b as int % (cfg.width as int) || c / (cfg.width as int)
            == b as int / (cfg.width as int)) by {
        lemma_edge_neighbors(cfg, c, b);
    }
    if 0 < y <= cfg.height {
        lemma_cell(cfg, x, y - 1);
    }
    if y + 1 < cfg.height {
        lemma_cell(cfg, x, y + 1);
    }
    if 0 < x && y < cfg.height {
        lemma_cell(cfg, x - 1, y);
    }
    if x + 1 < cfg.width && y < cfg.height {
        lemma_cell(cfg, x + 1, y);
    }
}

/// In ascending lists of cells each number is smaller than the next.
pub proof fn lemma_ascending(s: Seq<usize>)
    ensures
        ascending(s) <==> forall|i: int| #![trigger s[i]] 1 <= i < s.len() ==> s[i - 1] < s[i],
{
    if forall|i: int| #![trigger s[i]] 1 <= i < s.len() ==> s[i - 1] < s[i] {
        assert forall|i: int, j: int| 0 <= i < j < s.len() implies s[i] < s[j] by {
            lemma_climbs(s, i, j);
        }
    }
}

proof fn lemma_climbs(s: Seq<usize>, i: int, j: int)
    requires
        0 <= i < j < s.len(),
        forall|k: int| #![trigger s[k]] 1 <= k < s.len() ==> s[k - 1] < s[k],
    ensures
        s[i] < s[j],
    decreases j - i,
{
    assert(s[j - 1] < s[j]);
    if i < j - 1 {
        lemma_climbs(s, i, j - 1);
    }
}

/// What lists of placements show as mathematics: each placement, cell by cell.
pub proof fn lemma_placements_shown(list: Seq<Vec<usize>>, fleet: Seq<Vec<Vec<usize>>>)
    ensures
        views(list).len() == list.len(),
        forall|i: int| 0 <= i < list.len() ==> #[trigger] views(list)[i] == list[i]@,
        ships_view(fleet).len() == fleet.len(),
        forall|i: int|
            0 <= i < fleet.len() ==> (#[trigger] ships_view(fleet)[i]).len() == fleet[i]@.len(),
        forall|i: int, j: int|
            #![trigger ships_view(fleet)[i][j]]
            0 <= i < fleet.len() && 0 <= j < fleet[i]@.len() ==> ships_view(fleet)[i][j]
                == fleet[i]@[j]@,
{
}

/// The larger side is one of the two and no smaller than the other.
pub proof fn lemma_larger_side(cfg: &GameConfig)
    ensures
        cfg.longest() >= cfg.width,
        cfg.longest() >= cfg.height,
        cfg.longest() == cfg.width || cfg.longest() == cfg.height,
{
}

/// Boards of up to 65535 cells are within the limits, whatever their fleet.
pub proof fn lemma_small_boards_allowed(cfg: &GameConfig)
    requires
        cfg.width * cfg.height <= 65535,
    ensures
        cfg.fits(),
        board_within_limits(cfg.width as int, cfg.height as int),
        cfg.playable() ==> within_limits(cfg, cfg.ships@.len()),
{
    let n = cfg.width * cfg.height;
    assert(0 <= n) by (nonlinear_arith)
        requires
            n == cfg.width * cfg.height,
            0 <= cfg.width,
            0 <= cfg.height,
    ;
    assert(n * n <= 65535 * 65535) by (nonlinear_arith)
        requires
            0 <= n,
            n <= 65535,
    ;
    if cfg.playable() {
        lemma_playable(cfg);
        let k = cfg.ships@.len() as int;
        assert(n * k <= 65535 * 65535) by (nonlinear_arith)
            requires
                0 <= k,
                k <= n,
                n <= 65535,
        ;
    }
}

/// The placements of a ship are the straight runs of its length, whatever the
/// fleet.
pub proof fn lemma_placements_straight(cfg: &GameConfig, len: int, p: Seq<usize>)
    requires
        cfg.fits(),
    ensures
        placement_list(cfg, len).contains(p) <==> straight(
            cfg.width as int,
            cfg.height as int,
            len,
            p,
        ),
{
    let (w, h) = (cfg.width as int, cfg.height as int);
    if placement_list(cfg, len).contains(p) {
        lemma_placed_len(cfg, len);
        lemma_placements_complete(cfg, len, p);
        lemma_placement_cells(cfg, len, p);
        if lies_across(cfg, p, len) {
            let (x, y) = choose|x: int, y: int|
                #![trigger across(cfg, x, y, len)]
                0 <= x <= cfg.width - len && 0 <= y < cfg.height && p == across(cfg, x, y, len);
            assert forall|i: int| 0 <= i < p.len() implies #[trigger] p[i] == y * w + x + i by {
                lemma_cell(cfg, x + i, y);
            }
            assert(runs_right(w, h, x, y, p));
        } else {
            let (x, y) = choose|x: int, y: int|
                #![trigger down(cfg, x, y, len)]
                0 <= x < cfg.width && 0 <= y <= cfg.height - len && p == down(cfg, x, y, len);
            assert forall|i: int| 0 <= i < p.len() implies #[trigger] p[i] == (y + i) * w + x by {
                lemma_cell(cfg, x, y + i);
            }
            assert(runs_down(w, h, x, y, p));
        }
    }
    if straight(w, h, len, p) {
        lemma_placements_complete(cfg, len, p);
        if exists|x: int, y: int| runs_right(w, h, x, y, p) {
            let (x, y) = choose|x: int, y: int| runs_right(w, h, x, y, p);
            assert(p =~= across(cfg, x, y, len));
            assert(lies_across(cfg, p, len));
        } else {
            let (x, y) = choose|x: int, y: int| runs_down(w, h, x, y, p);
            assert(p =~= down(cfg, x, y, len));
            assert(lies_down(cfg, p, len));
        }
    }
}

/// The run goes down a column. A single cell has no direction.
pub open spec fn upright(w: int, p: Seq<usize>) -> bool {
    p.len() >= 2 && p[0] as int % w == p[1] as int % w
}

/// The order in which runs are listed: those along the rows before those along
/// the columns, and by their first cells.
pub open spec fn before(w: int, p: Seq<usize>, q: Seq<usize>) -> bool {
    if upright(w, p) == upright(w, q) {
        p[0] < q[0]
    } else {
        upright(w, q)
    }
}

/// Each run comes before those that stand after it in the list.
pub open spec fn in_order(w: int, list: Seq<Seq<usize>>) -> bool {
    forall|i: int, j: int|
        #![trigger list[i], list[j]]
        0 <= i < j < list.len() ==> before(w, list[i], list[j])
}

/// A list in order keeps it when items are left out.
pub proof fn lemma_filter_in_order(
    w: int,
    list: Seq<Seq<usize>>,
    pred: spec_fn(Seq<usize>) -> bool,
)
    requires
        in_order(w, list),
    ensures
        in_order(w, list.filter(pred)),
    decreases list.len(),
{
    if list.len() == 0 {
        list.lemma_filter_len(pred);
    } else {
        let t = list.drop_last();
        let kept = t.filter(pred);
        assert(list =~= t.push(list.last()));
        t.lemma_filter_push(list.last(), pred);
        lemma_filter_in_order(w, t, pred);
        assert forall|i: int, j: int|
            #![trigger list.filter(pred)[i], list.filter(pred)[j]]
            0 <= i < j < list.filter(pred).len() implies before(
            w,
            list.filter(pred)[i],
            list.filter(pred)[j],
        ) by {
            assert(kept[i] == list.filter(pred)[i]);
            if j == kept.len() {
                assert(kept.contains(kept[i]));
                t.lemma_filter_contains_rev(pred, kept[i]);
                let k = choose|k: int| 0 <= k < t.len() && t[k] == kept[i];
                assert(list[k] == kept[i]);
                assert(list[list.len() - 1] == list.last());
            } else {
                assert(kept[j] == list.filter(pred)[j]);
            }
        }
    }
}

proof fn lemma_across_order(cfg: &GameConfig, len: int, rows: nat)
    requires
        cfg.fits(),
        1 <= len <= cfg.width,
        rows <= cfg.height,
    ensures
        in_order(cfg.width as int, across_rows(cfg, len, rows)),
        forall|i: int|
            #![trigger across_rows(cfg, len, rows)[i]]
            0 <= i < across_rows(cfg, len, rows).len() ==> {
                let p = across_rows(cfg, len, rows)[i];
                p.len() == len && !upright(cfg.width as int, p) && p[0] < rows * cfg.width
            },
    decreases rows,
{
    let w = cfg.width as int;
    if rows > 0 {
        let y = rows - 1;
        lemma_across_order(cfg, len, y as nat);
        let prev = across_rows(cfg, len, y as nat);
        let row = across_row(cfg, len, y);
        let all = across_rows(cfg, len, rows);
        assert(rows * w == y * w + w) by (nonlinear_arith)
            requires
                rows == y + 1,
        ;
        assert forall|x: int| 0 <= x < row.len() implies (#[trigger] row[x]).len() == len
            && row[x][0] == y * w + x && !upright(w, row[x]) by {
            lemma_cell(cfg, x, y);
            if len >= 2 {
                lemma_cell(cfg, x + 1, y);
            }
        }
        assert forall|i: int| 0 <= i < all.len() implies #[trigger] all[i] == (if i < prev.len() {
            prev[i]
        } else {
            row[i - prev.len()]
        }) by {}
    }
}

proof fn lemma_down_order(cfg: &GameConfig, len: int, rows: nat)
    requires
        cfg.fits(),
        2 <= len,
        rows + len - 1 <= cfg.height,
    ensures
        in_order(cfg.width as int, down_rows(cfg, len, rows)),
        forall|i: int|
            #![trigger down_rows(cfg, len, rows)[i]]
            0 <= i < down_rows(cfg, len, rows).len() ==> {
                let p = down_rows(cfg, len, rows)[i];
                p.len() == len && upright(cfg.width as int, p) && p[0] < rows * cfg.width
            },
    decreases rows,
{
    let w = cfg.width as int;
    if rows > 0 {
        let y = rows - 1;
        lemma_down_order(cfg, len, y as nat);
        let prev = down_rows(cfg, len, y as nat);
        let row = down_row(cfg, len, y);
        let all = down_rows(cfg, len, rows);
        assert(rows * w == y * w + w) by (nonlinear_arith)
            requires
                rows == y + 1,
        ;
        assert forall|x: int| 0 <= x < row.len() implies (#[trigger] row[x]).len() == len
            && row[x][0] == y * w + x && upright(w, row[x]) by {
            lemma_cell(cfg, x, y);
            lemma_cell(cfg, x, y + 1);
        }
        assert forall|i: int| 0 <= i < all.len() implies #[trigger] all[i] == (if i < prev.len() {
            prev[i]
        } else {
            row[i - prev.len()]
        }) by {}
    }
}

/// The placements of a ship are listed along the rows first, each direction by
/// the first cell.
pub proof fn lemma_placement_order(cfg: &GameConfig, len: int)
    requires
        cfg.fits(),
    ensures
        in_order(cfg.width as int, placement_list(cfg, len)),
{
    let first: Seq<Seq<usize>> = if 1 <= len <= cfg.width {
        across_rows(cfg, len, cfg.height as nat)
    } else {
        Seq::empty()
    };
    let second: Seq<Seq<usize>> = if 1 < len <= cfg.height {
        down_rows(cfg, len, (cfg.height - len + 1) as nat)
    } else {
        Seq::empty()
    };
    let list = placement_list(cfg, len);
    if 1 <= len <= cfg.width {
        lemma_across_order(cfg, len, cfg.height as nat);
    }
    if 1 < len <= cfg.height {
        lemma_down_order(cfg, len, (cfg.height - len + 1) as nat);
    }
    assert forall|i: int| 0 <= i < list.len() implies #[trigger] list[i] == (if i < first.len() {
        first[i]
    } else {
        second[i - first.len()]
    }) by {}
}

/// Compatible placements are separate ships.
pub proof fn lemma_compatible_separate(cfg: &GameConfig, p: Seq<usize>, q: Seq<usize>)
    ensures
        compatible(cfg, p, q) <==> separate(cfg.width as int, cfg.gap_rule, p, q),
{
    let w = cfg.width as int;
    if compatible(cfg, p, q) {
        assert forall|i: int, j: int|
            #![trigger p[i], q[j]]
            0 <= i < p.len() && 0 <= j < q.len() implies p[i] != q[j] && (cfg.gap_rule ==> !near(
            w,
            p[i] as int,
            q[j] as int,
        )) by {
            assert(cfg.apart(p[i] as int, q[j] as int));
        }
    }
    if separate(w, cfg.gap_rule, p, q) {
        assert forall|i: int, j: int|
            #![trigger p[i], q[j]]
            0 <= i < p.len() && 0 <= j < q.len() implies cfg.apart(p[i] as int, q[j] as int) by {
            assert(p[i] != q[j]);
        }
    }
}

/// A placement may be added to the occupied cells when none of its cells is
/// occupied and, under the gap rule, none is near an occupied one.
pub proof fn lemma_room_plainly(cfg: &GameConfig, occ: Seq<bool>, p: Seq<usize>)
    requires
        occ.len() == cfg.size(),
        forall|i: int| 0 <= i < p.len() ==> #[trigger] p[i] < occ.len(),
    ensures
        placeable(cfg, occ, p) <==> forall|i: int|
            #![trigger p[i]]
            0 <= i < p.len() ==> !occ[p[i] as int] && (cfg.gap_rule ==> forall|o: int|
                0 <= o < occ.len() && #[trigger] occ[o] ==> !near(
                    cfg.width as int,
                    p[i] as int,
                    o,
                )),
{
    let w = cfg.width as int;
    if placeable(cfg, occ, p) {
        assert forall|i: int|
            #![trigger p[i]]
            0 <= i < p.len() implies !occ[p[i] as int] && (cfg.gap_rule ==> forall|o: int|
            0 <= o < occ.len() && #[trigger] occ[o] ==> !near(w, p[i] as int, o)) by {
            if occ[p[i] as int] {
                assert(cfg.apart(p[i] as int, p[i] as int));
            }
            assert forall|o: int|
                cfg.gap_rule && 0 <= o < occ.len() && #[trigger] occ[o] implies !near(
                w,
                p[i] as int,
                o,
            ) by {
                assert(cfg.apart(p[i] as int, o));
            }
        }
    }
    if forall|i: int|
        #![trigger p[i]]
        0 <= i < p.len() ==> !occ[p[i] as int] && (cfg.gap_rule ==> forall|o: int|
            0 <= o < occ.len() && #[trigger] occ[o] ==> !near(w, p[i] as int, o)) {
        assert forall|i: int, o: int|
            #![trigger p[i], occ[o]]
            0 <= i < p.len() && 0 <= o < occ.len() && occ[o] implies cfg.apart(p[i] as int, o) by {
            assert(!occ[p[i] as int]);
        }
    }
}

/// A cell is blocked exactly when no remaining ship may lie on it.
pub proof fn lemma_blocked_plainly(cfg: &GameConfig, states: Seq<CellState>, c: int)
    ensures
        blocked(cfg, states, c) <==> !may_hold(cfg.width as int, cfg.gap_rule, states, c),
{
    let w = cfg.width as int;
    assert forall|s: int| #[trigger] cfg.touching(s, c) == near(w, s, c) by {}
    if blocked(cfg, states, c) && may_hold(w, cfg.gap_rule, states, c) {
        let s = choose|s: int|
            0 <= s < states.len() && #[trigger] states[s] == CellState::Sunk && cfg.touching(s, c);
        assert(near(w, s, c));
    }
    if !blocked(cfg, states, c) && states[c] == CellState::Unknown && cfg.gap_rule {
        assert forall|s: int|
            0 <= s < states.len() && #[trigger] states[s] == CellState::Sunk implies !near(
            w,
            s,
            c,
        ) by {
            assert(!cfg.touching(s, c));
        }
    }
}

/// A valid board in plain words: its ships have the lengths of the fleet, each
/// is a straight run of cells of the board, any two are separate, and a cell
/// belongs to the ship that lies on it.
pub open spec fn plainly_valid(cfg: &GameConfig, board: TrueBoard) -> bool {
    let (w, h) = (cfg.width as int, cfg.height as int);
    let ships = board.ships@;
    &&& Seq::new(ships.len(), |i: int| ships[i].len).to_multiset() == cfg.ships@.to_multiset()
    &&& forall|i: int|
        0 <= i < ships.len() ==> straight(w, h, (#[trigger] ships[i]).len as int, ships[i].cells@)
    &&& forall|i: int, j: int|
        #![trigger ships[i], ships[j]]
        0 <= i < j < ships.len() ==> separate(w, cfg.gap_rule, ships[i].cells@, ships[j].cells@)
    &&& board.cell_ship@.len() == w * h
    &&& forall|c: int, i: int|
        #![trigger board.cell_ship@[c], ships[i]]
        0 <= c < w * h && 0 <= i < ships.len() ==> (board.cell_ship@[c] == Some(i as usize)
            <==> ships[i].cells@.contains(c as usize))
    &&& forall|c: int|
        0 <= c < w * h && #[trigger] board.cell_ship@[c] is Some ==> board.cell_ship@[c]->0
            < ships.len()
}

/// The boards that the library calls valid are the valid boards.
pub proof fn lemma_valid_plainly(cfg: &GameConfig, board: TrueBoard)
    requires
        cfg.fits(),
        board.ships@.len() <= usize::MAX,
    ensures
        board.valid(cfg) <==> plainly_valid(cfg, board),
{
    let (w, h) = (cfg.width as int, cfg.height as int);
    let ships = board.ships@;
    let sv = ship_views(ships);
    assert(ship_lens(sv) =~= Seq::new(ships.len(), |i: int| ships[i].len));
    assert forall|i: int| 0 <= i < ships.len() implies #[trigger] sv[i] == ships[i]@ by {}
    assert(at_peace(cfg, sv) <==> (forall|i: int|
        0 <= i < ships.len() ==> straight(w, h, (#[trigger] ships[i]).len as int, ships[i].cells@))
        && (forall|i: int, j: int|
        #![trigger ships[i], ships[j]]
        0 <= i < j < ships.len() ==> separate(
            w,
            cfg.gap_rule,
            ships[i].cells@,
            ships[j].cells@,
        ))) by {
        assert forall|i: int| 0 <= i < ships.len() implies (1 <= (#[trigger] ships[i]).len
            && placement_list(cfg, ships[i].len as int).contains(ships[i].cells@) <==> straight(
            w,
            h,
            ships[i].len as int,
            ships[i].cells@,
        )) by {
            lemma_placements_straight(cfg, ships[i].len as int, ships[i].cells@);
        }
        assert forall|i: int, j: int|
            #![trigger ships[i], ships[j]]
            0 <= i < j < ships.len() implies (compatible(cfg, ships[i].cells@, ships[j].cells@)
            <==> separate(w, cfg.gap_rule, ships[i].cells@, ships[j].cells@)) by {
            lemma_compatible_separate(cfg, ships[i].cells@, ships[j].cells@);
        }
        if at_peace(cfg, sv) {
            assert forall|i: int| 0 <= i < ships.len() implies straight(
                w,
                h,
                (#[trigger] ships[i]).len as int,
                ships[i].cells@,
            ) by {
                assert(sv[i] == ships[i]@);
            }
            assert forall|i: int, j: int|
                #![trigger ships[i], ships[j]]
                0 <= i < j < ships.len() implies separate(
                w,
                cfg.gap_rule,
                ships[i].cells@,
                ships[j].cells@,
            ) by {
                assert(sv[i] == ships[i]@ && sv[j] == ships[j]@);
            }
        }
    }
    if board.valid(cfg) {
        assert forall|c: int, i: int|
            #![trigger board.cell_ship@[c], ships[i]]
            0 <= c < w * h && 0 <= i < ships.len() implies (board.cell_ship@[c] == Some(i as usize)
            <==> ships[i].cells@.contains(c as usize)) by {
            lemma_owner(cfg, sv, c, i);
            assert(sv[i].cells == ships[i].cells@);
            assert(board.cell_ship@[c] == owner(sv, c));
        }
        assert forall|c: int|
            0 <= c < w * h && #[trigger] board.cell_ship@[c] is Some implies board.cell_ship@[c]->0
            < ships.len() by {
            assert(board.cell_ship@[c] == owner(sv, c));
        }
    }
    if plainly_valid(cfg, board) {
        assert(at_peace(cfg, sv));
        assert forall|c: int| 0 <= c < cfg.size() implies #[trigger] board.cell_ship@[c] == owner(
            sv,
            c,
        ) by {
            match owner(sv, c) {
                Some(k) => {
                    lemma_owner(cfg, sv, c, k as int);
                    assert(sv[k as int].cells == ships[k as int].cells@);
                    assert(board.cell_ship@[c] == Some(k) <==> ships[k as int].cells@.contains(
                        c as usize,
                    ));
                },
                None => {
                    if let Some(k) = board.cell_ship@[c] {
                        assert(ships[k as int].cells@.contains(c as usize));
                        assert(sv[k as int].cells == ships[k as int].cells@);
                    }
                },
            }
        }
        assert(board.cell_ship@ =~= owners(cfg, sv));
    }
}

} // verus!
