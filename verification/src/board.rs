//! Core game geometry: the board configuration, ship placement enumeration,
//! and the placement-validity check that enforces the (optional) "no-touching"
//! gap rule.

use crate::geometry::{
    across, across_row, across_rows, ascending, down, down_row, down_rows, edge_neighbors,
    lemma_cell, lemma_coords, lemma_reading_order, placeable, placement_list, stands_before,
};
use vstd::prelude::*;

verus! {

/// Rules of the game.
#[derive(Debug)]
pub struct GameConfig {
    pub width: usize,
    pub height: usize,
    /// Ship lengths in the fleet, e.g. the classic `[5, 4, 3, 3, 2]`.
    pub ships: Vec<usize>,
    /// When true, ships may not touch, not even diagonally (a moat of one cell
    /// around every ship). When false, ships may be placed edge to edge.
    pub gap_rule: bool,
}

impl Default for GameConfig {
    fn default() -> (r: Self)
        ensures
            r.width == 10,
            r.height == 10,
            r.ships@ == seq![5usize, 4, 3, 3, 2],
            r.gap_rule,
    {
        GameConfig { width: 10, height: 10, ships: vec![5, 4, 3, 3, 2], gap_rule: true }
    }
}

impl GameConfig {
    /// The number of cells of the board.
    pub fn cells(&self) -> (r: usize)
        requires
            self.fits(),
        ensures
            r == self.size(),
    {
        self.width * self.height
    }

    /// The number of the cell in column `x` and row `y`.
    pub fn idx(&self, x: usize, y: usize) -> (r: usize)
        requires
            self.cell(x as int, y as int) <= usize::MAX,
        ensures
            r == self.cell(x as int, y as int),
    {
        proof {
            let w = self.width as int;
            assert(0 <= y * w) by (nonlinear_arith)
                requires
                    0 <= w,
            ;
        }
        y * self.width + x
    }

    /// The column and the row of a cell.
    pub fn xy(&self, idx: usize) -> (r: (usize, usize))
        requires
            self.width > 0,
        ensures
            r.0 == self.col(idx as int),
            r.1 == self.row(idx as int),
    {
        (idx % self.width, idx / self.width)
    }

    /// Largest dimension: the longest ship that could ever fit.
    pub fn max_dim(&self) -> (r: usize)
        ensures
            r == self.longest(),
    {
        if self.width >= self.height {
            self.width
        } else {
            self.height
        }
    }
}

/// A concrete ship: its length and the cells it occupies.
#[derive(Debug)]
pub struct Ship {
    pub len: usize,
    pub cells: Vec<usize>,
}

/// A fully-known board (the "answer").
#[derive(Debug)]
pub struct TrueBoard {
    /// `cell_ship[c] == Some(i)` when cell `c` belongs to `ships[i]`.
    pub cell_ship: Vec<Option<usize>>,
    pub ships: Vec<Ship>,
}

impl Clone for GameConfig {
    fn clone(&self) -> (r: Self)
        ensures
            r.width == self.width,
            r.height == self.height,
            r.ships@ == self.ships@,
            r.gap_rule == self.gap_rule,
    {
        GameConfig {
            width: self.width,
            height: self.height,
            ships: self.ships.clone(),
            gap_rule: self.gap_rule,
        }
    }
}

impl Clone for Ship {
    fn clone(&self) -> (r: Self)
        ensures
            r.len == self.len,
            r.cells@ == self.cells@,
    {
        Ship { len: self.len, cells: self.cells.clone() }
    }
}

/// The cell lists behind a list of vectors.
pub open spec fn views(v: Seq<Vec<usize>>) -> Seq<Seq<usize>> {
    v.map_values(|p: Vec<usize>| p@)
}

/// Adding a vector to a list adds its cells to the list's views.
pub proof fn lemma_views_push(v: Seq<Vec<usize>>, p: Vec<usize>)
    ensures
        views(v.push(p)) == views(v).push(p@),
{
    assert(views(v.push(p)) =~= views(v).push(p@));
}

/// The cells `idx(x + i, y)` for each `i` below `len`, in this order.
fn run_across(cfg: &GameConfig, x: usize, y: usize, len: usize) -> (r: Vec<usize>)
    requires
        cfg.fits(),
        x + len <= cfg.width,
        y < cfg.height,
    ensures
        r@ == across(cfg, x as int, y as int, len as int),
{
    let mut cells: Vec<usize> = Vec::with_capacity(len);
    let mut i: usize = 0;
    while i < len
        invariant
            cfg.fits(),
            x + len <= cfg.width,
            y < cfg.height,
            i <= len,
            cells@ == across(cfg, x as int, y as int, i as int),
        decreases len - i,
    {
        proof {
            lemma_cell(cfg, x + i, y as int);
        }
        cells.push(cfg.idx(x + i, y));
        i += 1;
        assert(cells@ =~= across(cfg, x as int, y as int, i as int));
    }
    cells
}

/// The cells `idx(x, y + i)` for each `i` below `len`, in this order.
fn run_down(cfg: &GameConfig, x: usize, y: usize, len: usize) -> (r: Vec<usize>)
    requires
        cfg.fits(),
        x < cfg.width,
        y + len <= cfg.height,
    ensures
        r@ == down(cfg, x as int, y as int, len as int),
{
    let mut cells: Vec<usize> = Vec::with_capacity(len);
    let mut i: usize = 0;
    while i < len
        invariant
            cfg.fits(),
            x < cfg.width,
            y + len <= cfg.height,
            i <= len,
            cells@ == down(cfg, x as int, y as int, i as int),
        decreases len - i,
    {
        proof {
            lemma_cell(cfg, x as int, y + i);
        }
        cells.push(cfg.idx(x, y + i));
        i += 1;
        assert(cells@ =~= down(cfg, x as int, y as int, i as int));
    }
    cells
}

/// Every in-bounds placement of a ship of `len`, in both orientations, as a
/// list of occupied cell indices. (Length-1 ships are emitted once.)
pub fn ship_placements(cfg: &GameConfig, len: usize) -> (r: Vec<Vec<usize>>)
    requires
        cfg.fits(),
    ensures
        views(r@) == placement_list(cfg, len as int),
{
    let mut out: Vec<Vec<usize>> = Vec::new();
    if len == 0 || len > cfg.max_dim() {
        assert(views(out@) =~= placement_list(cfg, len as int));
        return out;
    }
    assert(views(out@) =~= across_rows(cfg, len as int, 0));
    // Horizontal placements.
    if len <= cfg.width {
        let mut y: usize = 0;
        while y < cfg.height
            invariant
                cfg.fits(),
                1 <= len <= cfg.width,
                y <= cfg.height,
                views(out@) == across_rows(cfg, len as int, y as nat),
            decreases cfg.height - y,
        {
            let ghost before = across_rows(cfg, len as int, y as nat);
            let ghost row = across_row(cfg, len as int, y as int);
            let last: usize = cfg.width - len;
            let mut x: usize = 0;
            assert(before + row.take(0) =~= before);
            while x <= last
                invariant
                    cfg.fits(),
                    1 <= len <= cfg.width,
                    y < cfg.height,
                    last == cfg.width - len,
                    x <= last + 1,
                    row == across_row(cfg, len as int, y as int),
                    views(out@) == before + row.take(x as int),
                decreases last + 1 - x,
            {
                let p = run_across(cfg, x, y, len);
                proof {
                    lemma_views_push(out@, p);
                    assert(row.take(x + 1) =~= row.take(x as int).push(p@));
                }
                out.push(p);
                x += 1;
                assert(views(out@) =~= before + row.take(x as int));
            }
            assert(row.take(x as int) =~= row);
            y += 1;
        }
    }
    let ghost first = views(out@);
    assert(first + down_rows(cfg, len as int, 0) =~= first);
    // Vertical placements (skip for len == 1: identical to horizontal).
    if len > 1 && len <= cfg.height {
        let last: usize = cfg.height - len;
        let mut y: usize = 0;
        while y <= last
            invariant
                cfg.fits(),
                1 < len <= cfg.height,
                last == cfg.height - len,
                y <= last + 1,
                views(out@) == first + down_rows(cfg, len as int, y as nat),
            decreases last + 1 - y,
        {
            let ghost before = down_rows(cfg, len as int, y as nat);
            let ghost row = down_row(cfg, len as int, y as int);
            let mut x: usize = 0;
            assert(before + row.take(0) =~= before);
            while x < cfg.width
                invariant
                    cfg.fits(),
                    y + len <= cfg.height,
                    x <= cfg.width,
                    row == down_row(cfg, len as int, y as int),
                    views(out@) == first + (before + row.take(x as int)),
                decreases cfg.width - x,
            {
                let p = run_down(cfg, x, y, len);
                proof {
                    lemma_views_push(out@, p);
                    assert(row.take(x + 1) =~= row.take(x as int).push(p@));
                }
                out.push(p);
                x += 1;
                assert(views(out@) =~= first + (before + row.take(x as int)));
            }
            assert(row.take(x as int) =~= row);
            y += 1;
        }
    }
    assert(views(out@) =~= placement_list(cfg, len as int));
    out
}

/// Does an occupied cell share an edge or a corner with the cell `c`?
fn touches_occupied(cfg: &GameConfig, occ: &[bool], c: usize) -> (r: bool)
    requires
        cfg.fits(),
        occ@.len() == cfg.size(),
        c < cfg.size(),
    ensures
        r <==> exists|o: int| 0 <= o < occ@.len() && #[trigger] occ@[o] && cfg.touching(c as int, o),
{
    proof {
        let w = cfg.width as int;
        let h = cfg.height as int;
        assert(w > 0) by (nonlinear_arith)
            requires
                w * h > 0,
                w >= 0,
        ;
        lemma_coords(cfg, c as int);
    }
    let (x, y) = cfg.xy(c);
    let x0: usize = if x > 0 { x - 1 } else { 0 };
    let x1: usize = if x + 1 < cfg.width { x + 2 } else { cfg.width };
    let y1: usize = if y + 1 < cfg.height { y + 2 } else { cfg.height };
    let mut ny: usize = if y > 0 { y - 1 } else { 0 };
    while ny < y1
        invariant
            cfg.fits(),
            occ@.len() == cfg.size(),
            c < cfg.size(),
            cfg.width > 0,
            x == cfg.col(c as int),
            y == cfg.row(c as int),
            x < cfg.width,
            y < cfg.height,
            x0 == (if x > 0 { x - 1 } else { 0 }),
            x1 == (if x + 1 < cfg.width { x + 2 } else { cfg.width as int }),
            y1 == (if y + 1 < cfg.height { y + 2 } else { cfg.height as int }),
            ny <= y1,
            ny >= y - 1,
            forall|o: int|
                0 <= o < occ@.len() && #[trigger] occ@[o] && cfg.touching(c as int, o)
                    ==> !stands_before(cfg, o, 0, ny as int),
        decreases y1 - ny,
    {
        let mut nx: usize = x0;
        assert forall|o: int|
            0 <= o < occ@.len() && #[trigger] occ@[o] && cfg.touching(
                c as int,
                o,
            ) implies !stands_before(cfg, o, nx as int, ny as int) by {
            lemma_coords(cfg, o);
        }
        while nx < x1
            invariant
                cfg.fits(),
                occ@.len() == cfg.size(),
                c < cfg.size(),
                cfg.width > 0,
                x == cfg.col(c as int),
                y == cfg.row(c as int),
                x < cfg.width,
                y < cfg.height,
                x0 == (if x > 0 { x - 1 } else { 0 }),
                x1 == (if x + 1 < cfg.width { x + 2 } else { cfg.width as int }),
                y1 == (if y + 1 < cfg.height { y + 2 } else { cfg.height as int }),
                y - 1 <= ny < y1,
                x0 <= nx <= x1,
                forall|o: int|
                    0 <= o < occ@.len() && #[trigger] occ@[o] && cfg.touching(c as int, o)
                        ==> !stands_before(cfg, o, nx as int, ny as int),
            decreases x1 - nx,
        {
            proof {
                lemma_cell(cfg, nx as int, ny as int);
            }
            let nb = cfg.idx(nx, ny);
            if nb != c && occ[nb] {
                assert(occ@[nb as int] && cfg.touching(c as int, nb as int));
                return true;
            }
            assert forall|o: int|
                0 <= o < occ@.len() && #[trigger] occ@[o] && cfg.touching(
                    c as int,
                    o,
                ) implies !stands_before(cfg, o, nx + 1, ny as int) by {
                lemma_coords(cfg, o);
            }
            nx += 1;
        }
        assert forall|o: int|
            0 <= o < occ@.len() && #[trigger] occ@[o] && cfg.touching(
                c as int,
                o,
            ) implies !stands_before(cfg, o, 0, ny + 1) by {
            lemma_coords(cfg, o);
        }
        ny += 1;
    }
    assert forall|o: int| 0 <= o < occ@.len() && #[trigger] occ@[o] implies !cfg.touching(
        c as int,
        o,
    ) by {
        lemma_coords(cfg, o);
    }
    false
}

/// Can these cells host a ship given what's already occupied?
///
/// `cells` is assumed not yet applied to `occ`, so any occupied neighbour is
/// necessarily a *different* ship, which is exactly what the gap rule forbids.
pub fn can_place(cfg: &GameConfig, occ: &[bool], cells: &[usize]) -> (r: bool)
    requires
        cfg.fits(),
        occ@.len() == cfg.size(),
        forall|i: int| 0 <= i < cells@.len() ==> #[trigger] cells@[i] < cfg.size(),
    ensures
        r == placeable(cfg, occ@, cells@),
{
    let mut k: usize = 0;
    while k < cells.len()
        invariant
            cfg.fits(),
            occ@.len() == cfg.size(),
            forall|i: int| 0 <= i < cells@.len() ==> #[trigger] cells@[i] < cfg.size(),
            k <= cells@.len(),
            forall|i: int| 0 <= i < k ==> !occ@[#[trigger] cells@[i] as int],
        decreases cells@.len() - k,
    {
        if occ[cells[k]] {
            assert(!cfg.apart(cells@[k as int] as int, cells@[k as int] as int));
            return false;
        }
        k += 1;
    }
    if cfg.gap_rule {
        let mut k: usize = 0;
        while k < cells.len()
            invariant
                cfg.fits(),
                cfg.gap_rule,
                occ@.len() == cfg.size(),
                forall|i: int| 0 <= i < cells@.len() ==> #[trigger] cells@[i] < cfg.size(),
                k <= cells@.len(),
                forall|i: int, o: int|
                    #![trigger cells@[i], occ@[o]]
                    0 <= i < k && 0 <= o < occ@.len() && occ@[o] ==> !cfg.touching(
                        cells@[i] as int,
                        o,
                    ),
            decreases cells@.len() - k,
        {
            if touches_occupied(cfg, occ, cells[k]) {
                let ghost o = choose|o: int|
                    0 <= o < occ@.len() && #[trigger] occ@[o] && cfg.touching(
                        cells@[k as int] as int,
                        o,
                    );
                assert(!cfg.apart(cells@[k as int] as int, o));
                return false;
            }
            k += 1;
        }
    }
    true
}

/// The up-to-8 cells surrounding `cell` (orthogonal + diagonal), in ascending
/// order.
pub fn neighbors8(cfg: &GameConfig, cell: usize) -> (r: Vec<usize>)
    requires
        cfg.fits(),
        cfg.width > 0,
    ensures
        ascending(r@),
        forall|b: usize| #[trigger]
            r@.contains(b) <==> b < cfg.size() && cfg.touching(cell as int, b as int),
{
    proof {
        lemma_coords(cfg, cell as int);
    }
    let (x, y) = cfg.xy(cell);
    let x0: usize = if x > 0 { x - 1 } else { 0 };
    let x1: usize = if x + 1 < cfg.width { x + 2 } else { cfg.width };
    let y1: usize = if cfg.height > 1 && y < cfg.height - 1 { y + 2 } else { cfg.height };
    let mut ny: usize = if y > 0 { y - 1 } else { 0 };
    let mut v: Vec<usize> = Vec::with_capacity(8);
    while ny < y1
        invariant
            cfg.fits(),
            cfg.width > 0,
            x == cfg.col(cell as int),
            y == cfg.row(cell as int),
            x < cfg.width,
            x0 == (if x > 0 { x - 1 } else { 0 }),
            x1 == (if x + 1 < cfg.width { x + 2 } else { cfg.width as int }),
            y1 == (if y + 1 < cfg.height { y + 2 } else { cfg.height as int }),
            ny >= y - 1,
            ny <= y1 || ny == y - 1,
            ascending(v@),
            forall|b: usize| #[trigger]
                v@.contains(b) <==> b < cfg.size() && cfg.touching(cell as int, b as int)
                    && stands_before(cfg, b as int, 0, ny as int),
        decreases y1 - ny,
    {
        let mut nx: usize = x0;
        assert forall|b: usize| #[trigger]
            v@.contains(b) <==> b < cfg.size() && cfg.touching(cell as int, b as int)
                && stands_before(cfg, b as int, nx as int, ny as int) by {
            lemma_coords(cfg, b as int);
        }
        while nx < x1
            invariant
                cfg.fits(),
                cfg.width > 0,
                x == cfg.col(cell as int),
                y == cfg.row(cell as int),
                x < cfg.width,
                x0 == (if x > 0 { x - 1 } else { 0 }),
                x1 == (if x + 1 < cfg.width { x + 2 } else { cfg.width as int }),
                y1 == (if y + 1 < cfg.height { y + 2 } else { cfg.height as int }),
                y - 1 <= ny < y1,
                x0 <= nx <= x1,
                ascending(v@),
                forall|b: usize| #[trigger]
                    v@.contains(b) <==> b < cfg.size() && cfg.touching(cell as int, b as int)
                        && stands_before(cfg, b as int, nx as int, ny as int),
            decreases x1 - nx,
        {
            let ghost prev = v@;
            proof {
                lemma_cell(cfg, nx as int, ny as int);
            }
            let nb = cfg.idx(nx, ny);
            if nb != cell {
                assert forall|i: int| 0 <= i < prev.len() implies prev[i] < nb by {
                    assert(prev.contains(prev[i]));
                    lemma_reading_order(cfg, prev[i] as int, nx as int, ny as int);
                }
                v.push(nb);
                assert(v@[prev.len() as int] == nb);
            }
            assert forall|b: usize| #[trigger]
                v@.contains(b) <==> b < cfg.size() && cfg.touching(cell as int, b as int)
                    && stands_before(cfg, b as int, nx + 1, ny as int) by {
                lemma_coords(cfg, b as int);
                if nb != cell {
                    assert(v@ == prev.push(nb));
                    if prev.contains(b) {
                        let i = choose|i: int| 0 <= i < prev.len() && prev[i] == b;
                        assert(v@[i] == b);
                    }
                }
                assert(v@.contains(b) <==> prev.contains(b) || (nb != cell && b == nb));
            }
            nx += 1;
        }
        assert forall|b: usize| #[trigger]
            v@.contains(b) <==> b < cfg.size() && cfg.touching(cell as int, b as int)
                && stands_before(cfg, b as int, 0, ny + 1) by {
            lemma_coords(cfg, b as int);
        }
        ny += 1;
    }
    assert forall|b: usize| #[trigger]
        v@.contains(b) <==> b < cfg.size() && cfg.touching(cell as int, b as int) by {
        lemma_coords(cfg, b as int);
    }
    v
}

/// The up-to-4 orthogonally-adjacent cells: above, below, left, right.
pub fn neighbors4(cfg: &GameConfig, cell: usize) -> (r: Vec<usize>)
    requires
        cfg.fits(),
        cfg.width > 0,
    ensures
        r@ == edge_neighbors(cfg, cell as int),
{
    proof {
        lemma_coords(cfg, cell as int);
    }
    let (x, y) = cfg.xy(cell);
    let mut v: Vec<usize> = Vec::with_capacity(4);
    if y > 0 && y <= cfg.height {
        proof {
            lemma_cell(cfg, x as int, y - 1);
        }
        v.push(cfg.idx(x, y - 1));
    }
    if cfg.height > 1 && y < cfg.height - 1 {
        proof {
            lemma_cell(cfg, x as int, y + 1);
        }
        v.push(cfg.idx(x, y + 1));
    }
    if x > 0 && y < cfg.height {
        proof {
            lemma_cell(cfg, x - 1, y as int);
        }
        v.push(cfg.idx(x - 1, y));
    }
    if x + 1 < cfg.width && y < cfg.height {
        proof {
            lemma_cell(cfg, x + 1, y as int);
        }
        v.push(cfg.idx(x + 1, y));
    }
    assert(v@ =~= edge_neighbors(cfg, cell as int));
    v
}

} // verus!
