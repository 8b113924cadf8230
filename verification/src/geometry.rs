//! Coordinates, adjacency and straight runs of cells, as mathematics.
//!
//! A cell is numbered row by row from the top left corner, so the cell in
//! column `x` and row `y` has the number `y * width + x`.

use crate::board::GameConfig;
use vstd::arithmetic::div_mod::{lemma_fundamental_div_mod, lemma_fundamental_div_mod_converse};
use vstd::prelude::*;

verus! {

impl GameConfig {
    /// The number of cells of the board.
    pub open spec fn size(&self) -> int {
        self.width * self.height
    }

    /// The larger side of the board.
    pub open spec fn longest(&self) -> int {
        if self.width >= self.height {
            self.width as int
        } else {
            self.height as int
        }
    }

    /// Every cell number of the board is a `usize`.
    pub open spec fn fits(&self) -> bool {
        self.size() <= usize::MAX
    }

    /// The number of the cell in column `x` and row `y`.
    pub open spec fn cell(&self, x: int, y: int) -> int {
        y * self.width + x
    }

    /// The column of a cell.
    pub open spec fn col(&self, c: int) -> int {
        c % (self.width as int)
    }

    /// The row of a cell.
    pub open spec fn row(&self, c: int) -> int {
        c / (self.width as int)
    }

    /// Two different cells that share an edge or a corner.
    pub open spec fn touching(&self, a: int, b: int) -> bool {
        &&& a != b
        &&& -1 <= self.col(a) - self.col(b) <= 1
        &&& -1 <= self.row(a) - self.row(b) <= 1
    }

    /// Two different cells that share an edge.
    pub open spec fn edge_touching(&self, a: int, b: int) -> bool {
        &&& self.touching(a, b)
        &&& self.col(a) == self.col(b) || self.row(a) == self.row(b)
    }

    /// Two cells that may belong to different ships.
    pub open spec fn apart(&self, a: int, b: int) -> bool {
        a != b && (self.gap_rule ==> !self.touching(a, b))
    }
}

/// A cell lies in the column and the row that its number is made of.
pub proof fn lemma_cell(cfg: &GameConfig, x: int, y: int)
    requires
        0 <= x < cfg.width,
        0 <= y,
    ensures
        cfg.col(cfg.cell(x, y)) == x,
        cfg.row(cfg.cell(x, y)) == y,
        0 <= cfg.cell(x, y),
        y < cfg.height ==> cfg.cell(x, y) < cfg.size(),
{
    let w = cfg.width as int;
    let h = cfg.height as int;
    lemma_fundamental_div_mod_converse(y * w + x, w, y, x);
    assert(0 <= y * w) by (nonlinear_arith)
        requires
            0 <= y,
            0 <= w,
    ;
    if y < h {
        assert(y * w + w <= w * h) by (nonlinear_arith)
            requires
                y + 1 <= h,
                0 <= w,
        ;
    }
}

/// A cell's number is made of its column and its row, and both lie on the
/// board when the cell does.
pub proof fn lemma_coords(cfg: &GameConfig, c: int)
    requires
        0 <= c,
        0 < cfg.width,
    ensures
        cfg.cell(cfg.col(c), cfg.row(c)) == c,
        0 <= cfg.col(c) < cfg.width,
        0 <= cfg.row(c) <= c,
        c < cfg.size() <==> cfg.row(c) < cfg.height,
{
    let w = cfg.width as int;
    let h = cfg.height as int;
    let y = c / w;
    lemma_fundamental_div_mod(c, w);
    assert(w * y == y * w) by (nonlinear_arith);
    assert(0 <= y <= c) by (nonlinear_arith)
        requires
            c == y * w + c % w,
            0 <= c % w < w,
            0 <= c,
            0 < w,
    ;
    if y < h {
        assert(y * w + w <= w * h) by (nonlinear_arith)
            requires
                y + 1 <= h,
                0 < w,
        ;
    } else {
        assert(w * h <= y * w) by (nonlinear_arith)
            requires
                h <= y,
                0 < w,
        ;
    }
}

/// Adjacency goes both ways.
pub proof fn lemma_touching_symmetric(cfg: &GameConfig, a: int, b: int)
    ensures
        cfg.touching(a, b) == cfg.touching(b, a),
        cfg.edge_touching(a, b) == cfg.edge_touching(b, a),
        cfg.apart(a, b) == cfg.apart(b, a),
{
}

/// The cells of a ship of `len` that lies along a row, from column `x`.
pub open spec fn across(cfg: &GameConfig, x: int, y: int, len: int) -> Seq<usize> {
    Seq::new(len as nat, |i: int| cfg.cell(x + i, y) as usize)
}

/// The cells of a ship of `len` that lies along a column, from row `y`.
pub open spec fn down(cfg: &GameConfig, x: int, y: int, len: int) -> Seq<usize> {
    Seq::new(len as nat, |i: int| cfg.cell(x, y + i) as usize)
}

/// All the ships of `len` that lie along row `y`, left to right.
pub open spec fn across_row(cfg: &GameConfig, len: int, y: int) -> Seq<Seq<usize>> {
    Seq::new((cfg.width - len + 1) as nat, |x: int| across(cfg, x, y, len))
}

/// All the ships of `len` that lie along one of the first `rows` rows.
pub open spec fn across_rows(cfg: &GameConfig, len: int, rows: nat) -> Seq<Seq<usize>>
    decreases rows,
{
    if rows == 0 {
        Seq::empty()
    } else {
        across_rows(cfg, len, (rows - 1) as nat) + across_row(cfg, len, rows - 1)
    }
}

/// All the ships of `len` that start in row `y` and lie along a column.
pub open spec fn down_row(cfg: &GameConfig, len: int, y: int) -> Seq<Seq<usize>> {
    Seq::new(cfg.width as nat, |x: int| down(cfg, x, y, len))
}

/// All the ships of `len` along a column that start in the first `rows` rows.
pub open spec fn down_rows(cfg: &GameConfig, len: int, rows: nat) -> Seq<Seq<usize>>
    decreases rows,
{
    if rows == 0 {
        Seq::empty()
    } else {
        down_rows(cfg, len, (rows - 1) as nat) + down_row(cfg, len, rows - 1)
    }
}

/// Every placement of a ship of `len`: first those along the rows, then those
/// along the columns. A ship of one cell has no direction and is listed once.
pub open spec fn placement_list(cfg: &GameConfig, len: int) -> Seq<Seq<usize>> {
    (if 1 <= len <= cfg.width {
        across_rows(cfg, len, cfg.height as nat)
    } else {
        Seq::empty()
    }) + (if 1 < len <= cfg.height {
        down_rows(cfg, len, (cfg.height - len + 1) as nat)
    } else {
        Seq::empty()
    })
}

/// The cells are those of a ship of `len` along a row of the board.
pub open spec fn lies_across(cfg: &GameConfig, p: Seq<usize>, len: int) -> bool {
    exists|x: int, y: int|
        #![trigger across(cfg, x, y, len)]
        0 <= x <= cfg.width - len && 0 <= y < cfg.height && p == across(cfg, x, y, len)
}

/// The cells are those of a ship of `len` along a column of the board.
pub open spec fn lies_down(cfg: &GameConfig, p: Seq<usize>, len: int) -> bool {
    exists|x: int, y: int|
        #![trigger down(cfg, x, y, len)]
        0 <= x < cfg.width && 0 <= y <= cfg.height - len && p == down(cfg, x, y, len)
}

/// Distinct cells of the board.
pub open spec fn on_board(cfg: &GameConfig, p: Seq<usize>) -> bool {
    &&& forall|i: int| 0 <= i < p.len() ==> #[trigger] p[i] < cfg.size()
    &&& p.no_duplicates()
}

proof fn lemma_across_rows_member(cfg: &GameConfig, len: int, rows: nat, p: Seq<usize>)
    requires
        1 <= len <= cfg.width,
    ensures
        across_rows(cfg, len, rows).contains(p) <==> exists|x: int, y: int|
            #![trigger across(cfg, x, y, len)]
            0 <= x <= cfg.width - len && 0 <= y < rows && p == across(cfg, x, y, len),
    decreases rows,
{
    if rows > 0 {
        let prev = across_rows(cfg, len, (rows - 1) as nat);
        let row = across_row(cfg, len, rows - 1);
        let all = across_rows(cfg, len, rows);
        lemma_across_rows_member(cfg, len, (rows - 1) as nat, p);
        if all.contains(p) {
            let k = choose|k: int| 0 <= k < all.len() && all[k] == p;
            if k < prev.len() {
                assert(prev[k] == p);
            } else {
                assert(row[k - prev.len()] == p);
                assert(p == across(cfg, k - prev.len(), rows - 1, len));
            }
        }
        if exists|x: int, y: int|
            #![trigger across(cfg, x, y, len)]
            0 <= x <= cfg.width - len && 0 <= y < rows && p == across(cfg, x, y, len) {
            let (x, y) = choose|x: int, y: int|
                #![trigger across(cfg, x, y, len)]
                0 <= x <= cfg.width - len && 0 <= y < rows && p == across(cfg, x, y, len);
            if y == rows - 1 {
                assert(row[x] == p);
                assert(all[prev.len() + x] == p);
            } else {
                assert(prev.contains(p));
                let k = choose|k: int| 0 <= k < prev.len() && prev[k] == p;
                assert(all[k] == p);
            }
        }
    }
}

proof fn lemma_down_rows_member(cfg: &GameConfig, len: int, rows: nat, p: Seq<usize>)
    ensures
        down_rows(cfg, len, rows).contains(p) <==> exists|x: int, y: int|
            #![trigger down(cfg, x, y, len)]
            0 <= x < cfg.width && 0 <= y < rows && p == down(cfg, x, y, len),
    decreases rows,
{
    if rows > 0 {
        let prev = down_rows(cfg, len, (rows - 1) as nat);
        let row = down_row(cfg, len, rows - 1);
        let all = down_rows(cfg, len, rows);
        lemma_down_rows_member(cfg, len, (rows - 1) as nat, p);
        if all.contains(p) {
            let k = choose|k: int| 0 <= k < all.len() && all[k] == p;
            if k < prev.len() {
                assert(prev[k] == p);
            } else {
                assert(row[k - prev.len()] == p);
                assert(p == down(cfg, k - prev.len(), rows - 1, len));
            }
        }
        if exists|x: int, y: int|
            #![trigger down(cfg, x, y, len)]
            0 <= x < cfg.width && 0 <= y < rows && p == down(cfg, x, y, len) {
            let (x, y) = choose|x: int, y: int|
                #![trigger down(cfg, x, y, len)]
                0 <= x < cfg.width && 0 <= y < rows && p == down(cfg, x, y, len);
            if y == rows - 1 {
                assert(row[x] == p);
                assert(all[prev.len() + x] == p);
            } else {
                assert(prev.contains(p));
                let k = choose|k: int| 0 <= k < prev.len() && prev[k] == p;
                assert(all[k] == p);
            }
        }
    }
}

/// The list of placements holds every straight run of `len` cells that lies on
/// the board, and nothing else.
pub proof fn lemma_placements_complete(cfg: &GameConfig, len: int, p: Seq<usize>)
    requires
        1 <= len,
    ensures
        placement_list(cfg, len).contains(p) <==> lies_across(cfg, p, len) || lies_down(
            cfg,
            p,
            len,
        ),
{
    let list = placement_list(cfg, len);
    let first = if 1 <= len <= cfg.width {
        across_rows(cfg, len, cfg.height as nat)
    } else {
        Seq::empty()
    };
    let second = if 1 < len <= cfg.height {
        down_rows(cfg, len, (cfg.height - len + 1) as nat)
    } else {
        Seq::empty()
    };
    if len <= cfg.width {
        lemma_across_rows_member(cfg, len, cfg.height as nat, p);
    }
    if 1 < len <= cfg.height {
        lemma_down_rows_member(cfg, len, (cfg.height - len + 1) as nat, p);
    }
    assert(first.contains(p) <==> lies_across(cfg, p, len));
    assert(len > 1 ==> (second.contains(p) <==> lies_down(cfg, p, len)));
    if len == 1 && lies_down(cfg, p, len) {
        let (x, y) = choose|x: int, y: int|
            #![trigger down(cfg, x, y, len)]
            0 <= x < cfg.width && 0 <= y <= cfg.height - len && p == down(cfg, x, y, len);
        assert(down(cfg, x, y, len) =~= across(cfg, x, y, len));
        assert(lies_across(cfg, p, len));
    }
    if list.contains(p) {
        let k = choose|k: int| 0 <= k < list.len() && list[k] == p;
        if k < first.len() {
            assert(first[k] == p);
        } else {
            assert(second[k - first.len()] == p);
        }
    }
    if first.contains(p) {
        let k = choose|k: int| 0 <= k < first.len() && first[k] == p;
        assert(list[k] == p);
    }
    if second.contains(p) {
        let k = choose|k: int| 0 <= k < second.len() && second[k] == p;
        assert(list[first.len() + k] == p);
    }
}

proof fn lemma_across_cells(cfg: &GameConfig, x: int, y: int, len: int)
    requires
        cfg.fits(),
        0 <= x <= cfg.width - len,
        0 <= y < cfg.height,
        1 <= len,
    ensures
        on_board(cfg, across(cfg, x, y, len)),
        forall|i: int|
            #![trigger across(cfg, x, y, len)[i]]
            0 <= i < len ==> across(cfg, x, y, len)[i] == cfg.cell(x + i, y),
{
    let p = across(cfg, x, y, len);
    assert forall|i: int| 0 <= i < len implies #[trigger] p[i] == cfg.cell(x + i, y) && p[i]
        < cfg.size() by {
        lemma_cell(cfg, x + i, y);
    }
}

proof fn lemma_down_cells(cfg: &GameConfig, x: int, y: int, len: int)
    requires
        cfg.fits(),
        0 <= x < cfg.width,
        0 <= y <= cfg.height - len,
        1 <= len,
    ensures
        on_board(cfg, down(cfg, x, y, len)),
        forall|i: int|
            #![trigger down(cfg, x, y, len)[i]]
            0 <= i < len ==> down(cfg, x, y, len)[i] == cfg.cell(x, y + i),
{
    let p = down(cfg, x, y, len);
    assert forall|i: int| 0 <= i < len implies #[trigger] p[i] == cfg.cell(x, y + i) && p[i]
        < cfg.size() by {
        lemma_cell(cfg, x, y + i);
    }
    assert forall|i: int, j: int| 0 <= i < len && 0 <= j < len && i != j implies p[i] != p[j] by {
        lemma_cell(cfg, x, y + i);
        lemma_cell(cfg, x, y + j);
    }
}

/// A listed placement has `len` distinct cells, all of them on the board.
pub proof fn lemma_placement_cells(cfg: &GameConfig, len: int, p: Seq<usize>)
    requires
        cfg.fits(),
        1 <= len,
        placement_list(cfg, len).contains(p),
    ensures
        p.len() == len,
        on_board(cfg, p),
{
    lemma_placements_complete(cfg, len, p);
    if lies_across(cfg, p, len) {
        let (x, y) = choose|x: int, y: int|
            #![trigger across(cfg, x, y, len)]
            0 <= x <= cfg.width - len && 0 <= y < cfg.height && p == across(cfg, x, y, len);
        lemma_across_cells(cfg, x, y, len);
    } else {
        let (x, y) = choose|x: int, y: int|
            #![trigger down(cfg, x, y, len)]
            0 <= x < cfg.width && 0 <= y <= cfg.height - len && p == down(cfg, x, y, len);
        lemma_down_cells(cfg, x, y, len);
    }
}

proof fn lemma_across_rows_distinct(cfg: &GameConfig, len: int, rows: nat)
    requires
        cfg.fits(),
        1 <= len <= cfg.width,
        rows <= cfg.height,
    ensures
        across_rows(cfg, len, rows).no_duplicates(),
    decreases rows,
{
    if rows > 0 {
        let prev = across_rows(cfg, len, (rows - 1) as nat);
        let row = across_row(cfg, len, rows - 1);
        let all = across_rows(cfg, len, rows);
        lemma_across_rows_distinct(cfg, len, (rows - 1) as nat);
        assert forall|i: int, j: int| 0 <= i < j < all.len() implies all[i] != all[j] by {
            if i >= prev.len() {
                let (a, b) = (i - prev.len(), j - prev.len());
                lemma_across_cells(cfg, a, rows - 1, len);
                lemma_across_cells(cfg, b, rows - 1, len);
                assert(across(cfg, a, rows - 1, len)[0] != across(cfg, b, rows - 1, len)[0]);
            } else if j >= prev.len() {
                let b = j - prev.len();
                lemma_across_rows_member(cfg, len, (rows - 1) as nat, prev[i]);
                assert(prev.contains(prev[i]));
                let (x, y) = choose|x: int, y: int|
                    #![trigger across(cfg, x, y, len)]
                    0 <= x <= cfg.width - len && 0 <= y < rows - 1 && prev[i] == across(
                        cfg,
                        x,
                        y,
                        len,
                    );
                lemma_across_cells(cfg, x, y, len);
                lemma_across_cells(cfg, b, rows - 1, len);
                lemma_cell(cfg, x, y);
                lemma_cell(cfg, b, rows - 1);
                assert(across(cfg, x, y, len)[0] != across(cfg, b, rows - 1, len)[0]);
            }
        }
    }
}

proof fn lemma_down_rows_distinct(cfg: &GameConfig, len: int, rows: nat)
    requires
        cfg.fits(),
        1 <= len,
        rows + len <= cfg.height + 1,
    ensures
        down_rows(cfg, len, rows).no_duplicates(),
    decreases rows,
{
    if rows > 0 {
        let prev = down_rows(cfg, len, (rows - 1) as nat);
        let row = down_row(cfg, len, rows - 1);
        let all = down_rows(cfg, len, rows);
        lemma_down_rows_distinct(cfg, len, (rows - 1) as nat);
        assert forall|i: int, j: int| 0 <= i < j < all.len() implies all[i] != all[j] by {
            if i >= prev.len() {
                let (a, b) = (i - prev.len(), j - prev.len());
                lemma_down_cells(cfg, a, rows - 1, len);
                lemma_down_cells(cfg, b, rows - 1, len);
                assert(down(cfg, a, rows - 1, len)[0] != down(cfg, b, rows - 1, len)[0]);
            } else if j >= prev.len() {
                let b = j - prev.len();
                lemma_down_rows_member(cfg, len, (rows - 1) as nat, prev[i]);
                assert(prev.contains(prev[i]));
                let (x, y) = choose|x: int, y: int|
                    #![trigger down(cfg, x, y, len)]
                    0 <= x < cfg.width && 0 <= y < rows - 1 && prev[i] == down(cfg, x, y, len);
                lemma_down_cells(cfg, x, y, len);
                lemma_down_cells(cfg, b, rows - 1, len);
                lemma_cell(cfg, x, y);
                lemma_cell(cfg, b, rows - 1);
                assert(down(cfg, x, y, len)[0] != down(cfg, b, rows - 1, len)[0]);
            }
        }
    }
}

/// No placement is listed twice.
pub proof fn lemma_placements_distinct(cfg: &GameConfig, len: int)
    requires
        cfg.fits(),
    ensures
        placement_list(cfg, len).no_duplicates(),
{
    let list = placement_list(cfg, len);
    let first = if 1 <= len <= cfg.width {
        across_rows(cfg, len, cfg.height as nat)
    } else {
        Seq::empty()
    };
    if 1 <= len <= cfg.width {
        lemma_across_rows_distinct(cfg, len, cfg.height as nat);
    }
    if 1 < len <= cfg.height {
        lemma_down_rows_distinct(cfg, len, (cfg.height - len + 1) as nat);
        let second = down_rows(cfg, len, (cfg.height - len + 1) as nat);
        assert forall|i: int, j: int| 0 <= i < j < list.len() implies list[i] != list[j] by {
            if i < first.len() <= j {
                let p = first[i];
                let q = second[j - first.len()];
                lemma_across_rows_member(cfg, len, cfg.height as nat, p);
                lemma_down_rows_member(cfg, len, (cfg.height - len + 1) as nat, q);
                assert(first.contains(p) && second.contains(q));
                let (x, y) = choose|x: int, y: int|
                    #![trigger across(cfg, x, y, len)]
                    0 <= x <= cfg.width - len && 0 <= y < cfg.height && p == across(cfg, x, y, len);
                let (u, v) = choose|x: int, y: int|
                    #![trigger down(cfg, x, y, len)]
                    0 <= x < cfg.width && 0 <= y < cfg.height - len + 1 && q == down(
                        cfg,
                        x,
                        y,
                        len,
                    );
                lemma_across_cells(cfg, x, y, len);
                lemma_down_cells(cfg, u, v, len);
                lemma_cell(cfg, x, y);
                lemma_cell(cfg, x + 1, y);
                lemma_cell(cfg, u, v);
                lemma_cell(cfg, u, v + 1);
                assert(p[0] == cfg.cell(x + 0, y) && p[1] == cfg.cell(x + 1, y));
                assert(q[0] == cfg.cell(u, v + 0) && q[1] == cfg.cell(u, v + 1));
            }
        }
    }
}

/// Two placements that may stand on one board together.
pub open spec fn compatible(cfg: &GameConfig, p: Seq<usize>, q: Seq<usize>) -> bool {
    forall|i: int, j: int|
        #![trigger p[i], q[j]]
        0 <= i < p.len() && 0 <= j < q.len() ==> cfg.apart(p[i] as int, q[j] as int)
}

/// A placement may be added to what occupies the board already.
pub open spec fn placeable(cfg: &GameConfig, occ: Seq<bool>, p: Seq<usize>) -> bool {
    forall|i: int, o: int|
        #![trigger p[i], occ[o]]
        0 <= i < p.len() && 0 <= o < occ.len() && occ[o] ==> cfg.apart(p[i] as int, o)
}

/// Strictly growing cell numbers.
pub open spec fn ascending(s: Seq<usize>) -> bool {
    forall|i: int, j: int| 0 <= i < j < s.len() ==> s[i] < s[j]
}

/// The list holds one cell, or none.
pub open spec fn at_most_one(present: bool, c: int) -> Seq<usize> {
    if present {
        seq![c as usize]
    } else {
        Seq::empty()
    }
}

/// The cells of the board that share an edge with `c`: above, below, left and
/// right of it, in this order.
pub open spec fn edge_neighbors(cfg: &GameConfig, c: int) -> Seq<usize> {
    let (x, y) = (cfg.col(c), cfg.row(c));
    at_most_one(0 < y <= cfg.height, cfg.cell(x, y - 1)) + at_most_one(
        y + 1 < cfg.height,
        cfg.cell(x, y + 1),
    ) + at_most_one(0 < x && y < cfg.height, cfg.cell(x - 1, y)) + at_most_one(
        x + 1 < cfg.width && y < cfg.height,
        cfg.cell(x + 1, y),
    )
}

/// The cell `b` stands before column `x` of row `y` in reading order.
pub open spec fn stands_before(cfg: &GameConfig, b: int, x: int, y: int) -> bool {
    cfg.row(b) < y || (cfg.row(b) == y && cfg.col(b) < x)
}

/// Reading order is the order of the cell numbers.
pub proof fn lemma_reading_order(cfg: &GameConfig, b: int, x: int, y: int)
    requires
        0 <= b,
        0 <= x < cfg.width,
        0 <= y,
    ensures
        stands_before(cfg, b, x, y) <==> b < cfg.cell(x, y),
{
    lemma_coords(cfg, b);
    let w = cfg.width as int;
    let (bx, by) = (cfg.col(b), cfg.row(b));
    if by < y {
        assert(by * w + w <= y * w) by (nonlinear_arith)
            requires
                by + 1 <= y,
                0 < w,
        ;
    } else if by > y {
        assert(y * w + w <= by * w) by (nonlinear_arith)
            requires
                y + 1 <= by,
                0 < w,
        ;
    }
}

/// The edge neighbours of a cell are the cells of the board that share an edge
/// with it.
pub proof fn lemma_edge_neighbors(cfg: &GameConfig, c: int, b: usize)
    requires
        0 <= c,
        0 < cfg.width,
        cfg.fits(),
    ensures
        edge_neighbors(cfg, c).contains(b) <==> b < cfg.size() && cfg.edge_touching(c, b as int),
{
    let (x, y) = (cfg.col(c), cfg.row(c));
    lemma_coords(cfg, c);
    lemma_coords(cfg, b as int);
    let n1 = at_most_one(0 < y <= cfg.height, cfg.cell(x, y - 1));
    let n2 = at_most_one(y + 1 < cfg.height, cfg.cell(x, y + 1));
    let n3 = at_most_one(0 < x && y < cfg.height, cfg.cell(x - 1, y));
    let n4 = at_most_one(x + 1 < cfg.width && y < cfg.height, cfg.cell(x + 1, y));
    let all = edge_neighbors(cfg, c);
    if 0 < y <= cfg.height {
        lemma_cell(cfg, x, y - 1);
        assert(all[0] == cfg.cell(x, y - 1));
    }
    if y + 1 < cfg.height {
        lemma_cell(cfg, x, y + 1);
        assert(all[n1.len() as int] == cfg.cell(x, y + 1));
    }
    if 0 < x && y < cfg.height {
        lemma_cell(cfg, x - 1, y);
        assert(all[(n1.len() + n2.len()) as int] == cfg.cell(x - 1, y));
    }
    if x + 1 < cfg.width && y < cfg.height {
        lemma_cell(cfg, x + 1, y);
        assert(all[(n1.len() + n2.len() + n3.len()) as int] == cfg.cell(x + 1, y));
    }
    if all.contains(b) {
        let k = choose|k: int| 0 <= k < all.len() && all[k] == b;
        assert(k < n1.len() || k < n1.len() + n2.len() || k < n1.len() + n2.len() + n3.len() || k
            < n1.len() + n2.len() + n3.len() + n4.len());
    }
}

} // verus!
