//! What a front-end shows of a game: lines of text, and the look of the cells.

use crate::game::{App, Mode, Orient};
use crate::geometry::lemma_cell;
use crate::order::descending;
use crate::solver::{CellState, Method, SolveResult};
use crate::status::placing_line;
use crate::text::{
    column_letter, coord_name, decimal, fleet_str, group_digits, grouped, joined, push_decimal,
};
use vstd::prelude::*;

verus! {

/// What the solver has to say.
#[derive(Clone, Copy, PartialEq, Eq, Debug, Structural)]
pub enum Note {
    /// Play has not begun.
    NotYet,
    /// There is a heatmap.
    Heatmap,
    /// No ship is left.
    AllSunk,
    /// No configuration is consistent with the marks.
    Contradiction,
}

/// How a cell looks.
#[derive(Clone, Copy, PartialEq, Eq, Debug, Structural)]
pub enum Look {
    Water,
    Ship,
    Miss,
    Hit,
    Sunk,
    /// An unknown cell in the heat of its count.
    Heat { count: u64 },
}

impl SolveResult {
    /// The highest count of the heatmap.
    pub fn peak(&self) -> (r: u64)
        ensures
            forall|c: int| 0 <= c < self.counts@.len() ==> #[trigger] self.counts@[c] <= r,
            r == 0 || self.counts@.contains(r),
    {
        let mut top: u64 = 0;
        let mut i: usize = 0;
        while i < self.counts.len()
            invariant
                i <= self.counts@.len(),
                forall|c: int| 0 <= c < i ==> #[trigger] self.counts@[c] <= top,
                top == 0 || self.counts@.contains(top),
            decreases self.counts@.len() - i,
        {
            if self.counts[i] > top {
                top = self.counts[i];
                assert(self.counts@[i as int] == top);
            }
            i += 1;
        }
        top
    }

    /// What was counted, and how much of it.
    pub fn count_line(&self) -> (r: String)
        ensures
            r@ == (match self.method {
                Method::Exact => "configurations"@,
                Method::MonteCarlo => "samples accepted"@,
                Method::Trivial => ""@,
            }) + ": "@ + grouped(decimal(self.configs as nat)),
    {
        let mut s = String::from_str(
            match self.method {
                Method::Exact => "configurations",
                Method::MonteCarlo => "samples accepted",
                Method::Trivial => "",
            },
        );
        s.append(": ");
        let digits = group_digits(self.configs);
        s.append(digits.as_str());
        s
    }
}

impl App {
    /// Which ship is placed next.
    pub fn setup_line(&self) -> (r: String)
        ensures
            ({
                let fleet = self.cfg.ships@;
                let next = if self.place_idx + 1 <= fleet.len() {
                    (self.place_idx + 1) as nat
                } else {
                    fleet.len()
                };
                let len = if self.place_idx < fleet.len() {
                    fleet[self.place_idx as int] as nat
                } else {
                    0
                };
                r@ == "Placing ship "@ + decimal(next) + "/"@ + decimal(fleet.len()) + " (length "@
                    + decimal(len) + ")."@
            }),
    {
        let n = self.cfg.ships.len();
        if self.place_idx < n {
            placing_line(self.place_idx + 1, n, self.cfg.ships[self.place_idx])
        } else {
            placing_line(n, n, 0)
        }
    }

    /// The caption of the button that turns the ship.
    pub fn rotate_line(&self) -> (r: String)
        ensures
            r@ == "Rotate (now "@ + (match self.orient {
                Orient::Horizontal => "Horizontal"@,
                Orient::Vertical => "Vertical"@,
            }) + ")"@,
    {
        let mut s = String::from_str("Rotate (now ");
        s.append(
            match self.orient {
                Orient::Horizontal => "Horizontal",
                Orient::Vertical => "Vertical",
            },
        );
        s.append(")");
        s
    }

    /// How many shots were fired.
    pub fn shots_line(&self) -> (r: String)
        ensures
            r@ == "Shots fired: "@ + decimal(self.shots as nat),
    {
        let mut s = String::from_str("Shots fired: ");
        push_decimal(&mut s, self.shots as u64);
        s
    }

    /// Which ships are left.
    pub fn fleet_line(&self) -> (r: String)
        ensures
            r@ == "Ships left: "@ + (if self.remaining@.len() == 0 {
                "none"@
            } else {
                joined(descending(self.remaining@), ", "@)
            }),
    {
        let mut s = String::from_str("Ships left: ");
        let fleet = fleet_str(self.remaining.as_slice());
        s.append(fleet.as_str());
        s
    }

    /// The recommended cell by its name and its coordinates.
    pub fn best_line(&self, cell: usize) -> (r: String)
        requires
            self.cfg.width > 0,
            self.cfg.row(cell as int) < usize::MAX,
        ensures
            ({
                let (x, y) = (self.cfg.col(cell as int), self.cfg.row(cell as int));
                r@ == "Best shot: "@ + (seq![column_letter(x)] + decimal((y + 1) as nat)) + " ("@
                    + decimal(x as nat) + ", "@ + decimal(y as nat) + ")"@
            }),
    {
        let (x, y) = self.cfg.xy(cell);
        let mut s = String::from_str("Best shot: ");
        let name = coord_name(x, y);
        s.append(name.as_str());
        s.append(" (");
        push_decimal(&mut s, x as u64);
        s.append(", ");
        push_decimal(&mut s, y as u64);
        s.append(")");
        s
    }

    /// The cell in column `x` and row `y`, if the board has it.
    pub fn cell_at(&self, x: usize, y: usize) -> (r: Option<usize>)
        requires
            self.wf(),
        ensures
            match r {
                Some(c) => {
                    &&& x < self.cfg.width
                    &&& y < self.cfg.height
                    &&& c == self.cfg.cell(x as int, y as int)
                    &&& c < self.cfg.size()
                },
                None => x >= self.cfg.width || y >= self.cfg.height,
            },
    {
        if x < self.cfg.width && y < self.cfg.height {
            proof {
                lemma_cell(&self.cfg, x as int, y as int);
            }
            Some(self.cfg.idx(x, y))
        } else {
            None
        }
    }

    /// What the solver has to say.
    pub fn note(&self) -> (r: Note)
        ensures
            r == (if self.mode != Mode::Play {
                Note::NotYet
            } else if self.solve is Some && self.solve->0.method != Method::Trivial {
                Note::Heatmap
            } else if self.remaining@.len() == 0 {
                Note::AllSunk
            } else {
                Note::Contradiction
            }),
    {
        if self.mode != Mode::Play {
            return Note::NotYet;
        }
        if let Some(s) = &self.solve {
            if s.method != Method::Trivial {
                return Note::Heatmap;
            }
        }
        if self.remaining.len() == 0 {
            Note::AllSunk
        } else {
            Note::Contradiction
        }
    }

    /// How a cell looks. Without a heatmap, or where it is all zero, unknown
    /// cells look like water.
    pub fn look(&self, cell: usize) -> (r: Look)
        requires
            self.wf(),
            cell < self.cfg.size(),
        ensures
            r == (if self.mode == Mode::Setup {
                if self.setup_occ@[cell as int] {
                    Look::Ship
                } else {
                    Look::Water
                }
            } else {
                match self.states@[cell as int] {
                    CellState::Miss => Look::Miss,
                    CellState::Hit => Look::Hit,
                    CellState::Sunk => Look::Sunk,
                    CellState::Unknown => match self.solve {
                        Some(s) => if forall|c: int|
                            0 <= c < s.counts@.len() ==> #[trigger] s.counts@[c] == 0 {
                            Look::Water
                        } else {
                            Look::Heat { count: s.counts@[cell as int] }
                        },
                        None => Look::Water,
                    },
                }
            }),
    {
        if self.mode == Mode::Setup {
            return if self.setup_occ[cell] {
                Look::Ship
            } else {
                Look::Water
            };
        }
        match self.states[cell] {
            CellState::Miss => Look::Miss,
            CellState::Hit => Look::Hit,
            CellState::Sunk => Look::Sunk,
            CellState::Unknown => match &self.solve {
                Some(s) => {
                    if s.peak() == 0 {
                        Look::Water
                    } else {
                        Look::Heat { count: s.counts[cell] }
                    }
                },
                None => Look::Water,
            },
        }
    }
}

} // verus!
