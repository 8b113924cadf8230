//! The probability engine.
//!
//! Given the evidence so far (misses, open hits, and sunk ships) the solver
//! computes, for every unknown cell, how often it hides part of a remaining
//! ship. The recommended shot is the unknown cell that does so most often.
//!
//! Two strategies, picked automatically (the "hybrid"):
//!
//! * **Exact**: enumerate *every* placement of the remaining fleet that is
//!   consistent with the evidence, counting how often each cell is occupied.
//!   `probability(cell) = occupied_count(cell) / total_consistent_configs`.
//!
//! * **Monte-Carlo**: when the consistent-configuration space is too large,
//!   sample valid fleets at random and accumulate occupancy instead.
//!
//! Exact is used whenever it is feasible (small search space, or once hits
//! constrain things); Monte-Carlo covers the wide-open early game.

use crate::board::{neighbors8, ship_placements, views, GameConfig};
use crate::fleet::{all_on_board, cells_from, count_at, fleets, ships_view, sized};
use crate::geometry::{
    across_rows, down_rows, lemma_placement_cells, lemma_placements_complete, lies_across, on_board,
    placement_list,
};
use crate::order::{descending, longest_first};
use crate::sampling::{estimates, fleet_weight, monte_carlo, samples, ship_weight};
use crate::search::exact;
use vstd::prelude::*;

verus! {

/// What is known of a cell.
#[derive(Clone, Copy, PartialEq, Eq, Debug, Structural)]
pub enum CellState {
    Unknown,
    Miss,
    /// A confirmed ship hit whose ship is not yet fully sunk.
    Hit,
    /// Part of a ship that has been completely sunk (fully known).
    Sunk,
}

/// How a result was computed.
#[derive(Clone, Copy, PartialEq, Eq, Debug, Structural)]
pub enum Method {
    Exact,
    MonteCarlo,
    /// Nothing to compute (no ships left, or contradictory evidence).
    Trivial,
}

impl Method {
    pub fn label(self) -> (r: &'static str)
        ensures
            r@ == (match self {
                Method::Exact => "exact (full enumeration)"@,
                Method::MonteCarlo => "Monte-Carlo sampling"@,
                Method::Trivial => "n/a"@,
            }),
    {
        match self {
            Method::Exact => "exact (full enumeration)",
            Method::MonteCarlo => "Monte-Carlo sampling",
            Method::Trivial => "n/a",
        }
    }
}

/// A heatmap. The probability that a cell contains a ship is its count divided
/// by `total`.
pub struct SolveResult {
    /// Per-cell count of the configs with a ship there (0 for non-unknown cells).
    /// When no sample was accepted, the weight of the placements there.
    pub counts: Vec<u64>,
    /// Configs enumerated (exact) or samples accepted (Monte-Carlo).
    pub configs: u64,
    /// What the counts are to be divided by: the configs, or, when no sample was
    /// accepted, the weight of all placements.
    pub total: u64,
    pub method: Method,
    /// Highest-probability unknown cell: the recommended shot.
    pub best_cell: Option<usize>,
    /// The count at the recommended cell; divided by `total`, the "confidence
    /// score".
    pub best_count: u64,
}

/// If the number of combinations of placements is at or below this, run the
/// exact engine straight away.
pub const EXACT_ESTIMATE_GATE: u64 = 2_000_000;

/// Hard ceiling on configs the exact engine will enumerate before bailing to
/// Monte-Carlo. Bounds worst-case latency.
pub const EXACT_HARD_CAP: u64 = 4_000_000;

/// Monte-Carlo attempt budget (across all batches).
pub const MC_ATTEMPTS: u64 = 40_000;

/// A cell that no remaining ship may occupy: a miss, a sunk cell, or (under the
/// gap rule) a cell in the moat around a sunk ship. Open hits must remain
/// coverable even if the evidence looks contradictory.
pub open spec fn blocked(cfg: &GameConfig, states: Seq<CellState>, c: int) -> bool {
    &&& states[c] != CellState::Hit
    &&& {
        ||| states[c] == CellState::Miss
        ||| states[c] == CellState::Sunk
        ||| cfg.gap_rule && exists|s: int|
            0 <= s < states.len() && #[trigger] states[s] == CellState::Sunk && cfg.touching(s, c)
    }
}

/// None of the cells is blocked.
pub open spec fn clear(cfg: &GameConfig, states: Seq<CellState>, p: Seq<usize>) -> bool {
    forall|i: int| 0 <= i < p.len() ==> !blocked(cfg, states, #[trigger] p[i] as int)
}

/// The placements of a ship of `len` that avoid the blocked cells.
pub open spec fn open_placements(
    cfg: &GameConfig,
    states: Seq<CellState>,
    len: int,
) -> Seq<Seq<usize>> {
    placement_list(cfg, len).filter(|p: Seq<usize>| clear(cfg, states, p))
}

/// The open placements of each ship.
pub open spec fn open_ships(
    cfg: &GameConfig,
    states: Seq<CellState>,
    lens: Seq<usize>,
) -> Seq<Seq<Seq<usize>>> {
    lens.map_values(|len: usize| open_placements(cfg, states, len as int))
}

/// The open hits, in ascending order.
pub open spec fn hit_cells(states: Seq<CellState>) -> Seq<usize> {
    Seq::new(states.len(), |c: int| c as usize).filter(
        |c: usize| states[c as int] == CellState::Hit,
    )
}

/// The number of ways to give each of the first `k` ships one of its
/// placements, overlapping or not.
pub open spec fn combinations(ships: Seq<Seq<Seq<usize>>>, k: nat) -> nat
    decreases k,
{
    if k == 0 {
        1
    } else {
        combinations(ships, (k - 1) as nat) * ships[k - 1].len()
    }
}

/// Some ship has nowhere to go.
pub open spec fn stranded(ships: Seq<Seq<Seq<usize>>>) -> bool {
    exists|i: int| 0 <= i < ships.len() && (#[trigger] ships[i]).len() == 0
}

/// The search space is small, or hits constrain it.
pub open spec fn prefers_exact(ships: Seq<Seq<Seq<usize>>>, hits: Seq<usize>) -> bool {
    combinations(ships, ships.len()) <= EXACT_ESTIMATE_GATE || hits.len() > 0
}

/// `counts` shows the grid at the unknown cells and zero elsewhere.
pub open spec fn shows(states: Seq<CellState>, grid: Seq<u64>, counts: Seq<u64>) -> bool {
    &&& counts.len() == states.len()
    &&& forall|c: int|
        #![trigger counts[c]]
        0 <= c < states.len() ==> counts[c] == (if states[c] == CellState::Unknown {
            grid[c]
        } else {
            0
        })
}

/// The first of the unknown cells with the highest count, unless all counts
/// are zero.
pub open spec fn best_shot(
    states: Seq<CellState>,
    counts: Seq<u64>,
    best_cell: Option<usize>,
    best_count: u64,
) -> bool {
    &&& forall|c: int|
        #![trigger counts[c]]
        0 <= c < states.len() && states[c] == CellState::Unknown ==> counts[c] <= best_count
    &&& match best_cell {
        None => best_count == 0,
        Some(b) => {
            &&& b < states.len()
            &&& states[b as int] == CellState::Unknown
            &&& counts[b as int] == best_count
            &&& best_count > 0
            &&& forall|c: int|
                #![trigger counts[c]]
                0 <= c < b && states[c] == CellState::Unknown ==> counts[c] < best_count
        },
    }
}

/// Boards and fleets whose counts fit the machine's integers.
pub open spec fn within_limits(cfg: &GameConfig, ships: nat) -> bool {
    &&& cfg.fits()
    &&& 2 * cfg.size() <= u32::MAX
    &&& cfg.size() * ships <= usize::MAX
    &&& 8 * (cfg.size() * ships) <= u64::MAX
}

/// The exact heatmap of the evidence.
pub open spec fn exact_heatmap(
    cfg: &GameConfig,
    ships: Seq<Seq<Seq<usize>>>,
    states: Seq<CellState>,
    r: SolveResult,
) -> bool {
    let found = fleets(cfg, ships, hit_cells(states));
    &&& r.method == Method::Exact
    &&& r.configs == found.len()
    &&& r.total == found.len()
    &&& forall|c: usize|
        #![trigger r.counts@[c as int]]
        c < states.len() ==> r.counts@[c as int] == (if states[c as int] == CellState::Unknown {
            count_at(ships, found, c)
        } else {
            0
        })
}

/// The heatmap of the evidence that is sampled in the given number of batches.
pub open spec fn sampled_heatmap(
    cfg: &GameConfig,
    ships: Seq<Seq<Seq<usize>>>,
    states: Seq<CellState>,
    batches: nat,
    r: SolveResult,
) -> bool {
    &&& r.method == Method::MonteCarlo
    &&& exists|grid: Seq<u64>| #[trigger]
        estimates(
            cfg,
            ships,
            hit_cells(states),
            MC_ATTEMPTS,
            batches,
            grid,
            r.configs,
            r.total,
        ) && shows(states, grid, r.counts@)
}

/// The empty heatmap.
pub open spec fn empty_heatmap(states: Seq<CellState>, r: SolveResult) -> bool {
    &&& r.method == Method::Trivial
    &&& r.configs == 0
    &&& r.total == 0
    &&& forall|c: int| 0 <= c < states.len() ==> #[trigger] r.counts@[c] == 0
}

/// What `solve` computes where samples are drawn in the given number of batches.
/// The heatmap is empty when there are no ships left, and when the evidence is
/// contradictory: a ship has nowhere to go, or the enumeration finds no fleet.
pub open spec fn solved_in(
    cfg: &GameConfig,
    states: Seq<CellState>,
    remaining: Seq<usize>,
    batches: nat,
    r: SolveResult,
) -> bool {
    let ships = open_ships(cfg, states, descending(remaining));
    let hits = hit_cells(states);
    &&& r.counts@.len() == states.len()
    &&& if remaining.len() == 0 || stranded(ships) {
        empty_heatmap(states, r)
    } else if prefers_exact(ships, hits) && fleets(cfg, ships, hits).len() == 0 {
        empty_heatmap(states, r)
    } else if prefers_exact(ships, hits) && fleets(cfg, ships, hits).len() <= EXACT_HARD_CAP {
        exact_heatmap(cfg, ships, states, r)
    } else {
        sampled_heatmap(cfg, ships, states, batches, r)
    }
    &&& best_shot(states, r.counts@, r.best_cell, r.best_count)
}

/// What `solve` computes. The number of batches is the machine's.
pub open spec fn solved(
    cfg: &GameConfig,
    states: Seq<CellState>,
    remaining: Seq<usize>,
    r: SolveResult,
) -> bool {
    exists|batches: nat|
        1 <= batches && #[trigger] solved_in(cfg, states, remaining, batches, r)
}

proof fn lemma_across_rows_len(cfg: &GameConfig, len: int, rows: nat)
    requires
        1 <= len <= cfg.width,
    ensures
        across_rows(cfg, len, rows).len() <= cfg.width * rows,
    decreases rows,
{
    if rows > 0 {
        lemma_across_rows_len(cfg, len, (rows - 1) as nat);
        assert(cfg.width * rows == cfg.width * (rows - 1) + cfg.width) by (nonlinear_arith);
    }
}

proof fn lemma_down_rows_len(cfg: &GameConfig, len: int, rows: nat)
    ensures
        down_rows(cfg, len, rows).len() == cfg.width * rows,
    decreases rows,
{
    if rows > 0 {
        lemma_down_rows_len(cfg, len, (rows - 1) as nat);
        assert(cfg.width * rows == cfg.width * (rows - 1) + cfg.width) by (nonlinear_arith);
    } else {
        assert(cfg.width * rows == 0) by (nonlinear_arith)
            requires
                rows == 0,
        ;
    }
}

/// A ship has at most two placements per cell of the board.
pub proof fn lemma_placement_count(cfg: &GameConfig, len: int)
    ensures
        placement_list(cfg, len).len() <= 2 * cfg.size(),
{
    let w = cfg.width as int;
    let h = cfg.height as int;
    assert(0 <= w * h) by (nonlinear_arith)
        requires
            0 <= w,
            0 <= h,
    ;
    if 1 <= len <= w {
        lemma_across_rows_len(cfg, len, h as nat);
    }
    if 1 < len <= h {
        lemma_down_rows_len(cfg, len, (h - len + 1) as nat);
        assert(w * (h - len + 1) <= w * h) by (nonlinear_arith)
            requires
                0 <= w,
                1 <= len,
        ;
    }
}

/// A ship that has a placement is no longer than the board has cells.
pub proof fn lemma_placed_len(cfg: &GameConfig, len: int)
    requires
        placement_list(cfg, len).len() > 0,
    ensures
        1 <= len <= cfg.size(),
{
    let w = cfg.width as int;
    let h = cfg.height as int;
    let p = placement_list(cfg, len)[0];
    assert(placement_list(cfg, len).contains(p));
    lemma_placements_complete(cfg, len, p);
    if lies_across(cfg, p, len) {
        assert(len <= w * h) by (nonlinear_arith)
            requires
                1 <= len <= w,
                1 <= h,
        ;
    } else {
        assert(len <= w * h) by (nonlinear_arith)
            requires
                1 <= len <= h,
                1 <= w,
        ;
    }
}

/// The open placements of the ships have the ships' lengths, lie on the board,
/// and are not too many.
pub proof fn lemma_open_ships(cfg: &GameConfig, states: Seq<CellState>, lens: Seq<usize>)
    requires
        cfg.fits(),
    ensures
        open_ships(cfg, states, lens).len() == lens.len(),
        all_on_board(cfg, open_ships(cfg, states, lens)),
        sized(open_ships(cfg, states, lens), lens),
        forall|i: int|
            0 <= i < lens.len() ==> (#[trigger] open_ships(cfg, states, lens)[i]).len() <= 2
                * cfg.size(),
{
    let ships = open_ships(cfg, states, lens);
    let pred = |p: Seq<usize>| clear(cfg, states, p);
    assert forall|i: int, j: int|
        #![trigger ships[i][j]]
        0 <= i < ships.len() && 0 <= j < ships[i].len() implies on_board(cfg, ships[i][j])
        && ships[i][j].len() == lens[i] by {
        let list = placement_list(cfg, lens[i] as int);
        assert(ships[i] == list.filter(pred));
        assert(list.filter(pred).contains(ships[i][j]));
        list.lemma_filter_contains_rev(pred, ships[i][j]);
        lemma_placed_len(cfg, lens[i] as int);
        lemma_placement_cells(cfg, lens[i] as int, ships[i][j]);
    }
    assert forall|i: int| 0 <= i < lens.len() implies (#[trigger] ships[i]).len() <= 2
        * cfg.size() by {
        let list = placement_list(cfg, lens[i] as int);
        list.lemma_filter_len(pred);
        lemma_placement_count(cfg, lens[i] as int);
    }
}

proof fn lemma_cells_bounded(cfg: &GameConfig, lens: Seq<usize>, i: int)
    requires
        0 <= i <= lens.len(),
        forall|k: int| 0 <= k < lens.len() ==> #[trigger] lens[k] <= cfg.size(),
    ensures
        cells_from(lens, i) <= cfg.size() * (lens.len() - i),
    decreases lens.len() - i,
{
    let n = cfg.size();
    let m = lens.len() - i;
    if i < lens.len() {
        lemma_cells_bounded(cfg, lens, i + 1);
        assert(n * m == n * (m - 1) + n) by (nonlinear_arith);
    } else {
        assert(n * m == 0) by (nonlinear_arith)
            requires
                m == 0,
        ;
    }
}

proof fn lemma_ship_weight_bounded(ship: Seq<Seq<usize>>, hits: Seq<usize>, k: nat)
    ensures
        k <= ship_weight(ship, hits, k) <= 4 * k,
    decreases k,
{
    if k > 0 {
        lemma_ship_weight_bounded(ship, hits, (k - 1) as nat);
    }
}

proof fn lemma_fleet_weight_bounded(
    cfg: &GameConfig,
    ships: Seq<Seq<Seq<usize>>>,
    hits: Seq<usize>,
    m: nat,
)
    requires
        m <= ships.len(),
        forall|i: int| 0 <= i < ships.len() ==> (#[trigger] ships[i]).len() <= 2 * cfg.size(),
    ensures
        fleet_weight(ships, hits, m) <= 8 * (cfg.size() * m),
    decreases m,
{
    let n = cfg.size();
    if m > 0 {
        lemma_fleet_weight_bounded(cfg, ships, hits, (m - 1) as nat);
        lemma_ship_weight_bounded(ships[m - 1], hits, ships[m - 1].len());
        assert(n * m == n * (m - 1) + n) by (nonlinear_arith);
    } else {
        assert(n * m == 0) by (nonlinear_arith)
            requires
                m == 0,
        ;
    }
}

/// Marks the cells that no remaining ship may occupy.
fn blocked_cells(cfg: &GameConfig, states: &[CellState]) -> (r: Vec<bool>)
    requires
        cfg.fits(),
        states@.len() == cfg.size(),
    ensures
        r@.len() == cfg.size(),
        forall|c: int| 0 <= c < cfg.size() ==> #[trigger] r@[c] == blocked(cfg, states@, c),
{
    let n = states.len();
    let mut marked: Vec<bool> = vec![false; n];
    let mut c: usize = 0;
    while c < n
        invariant
            c <= n,
            n == states@.len(),
            marked@.len() == n,
            forall|i: int|
                0 <= i < c ==> #[trigger] marked@[i] == (states@[i] == CellState::Miss || states@[i]
                    == CellState::Sunk),
        decreases n - c,
    {
        if states[c] == CellState::Miss || states[c] == CellState::Sunk {
            marked[c] = true;
        } else {
            marked[c] = false;
        }
        c += 1;
    }
    if cfg.gap_rule {
        let mut s: usize = 0;
        while s < n
            invariant
                s <= n,
                n == states@.len(),
                n == cfg.size(),
                cfg.fits(),
                cfg.gap_rule,
                marked@.len() == n,
                forall|i: int|
                    #![trigger marked@[i]]
                    0 <= i < n ==> (marked@[i] <==> (states@[i] == CellState::Miss || states@[i]
                        == CellState::Sunk || exists|t: int|
                        0 <= t < s && #[trigger] states@[t] == CellState::Sunk && cfg.touching(
                            t,
                            i,
                        ))),
            decreases n - s,
        {
            if states[s] == CellState::Sunk {
                proof {
                    let w = cfg.width as int;
                    let h = cfg.height as int;
                    assert(w > 0) by (nonlinear_arith)
                        requires
                            w * h > 0,
                            w >= 0,
                    ;
                }
                let around = neighbors8(cfg, s);
                let ghost before = marked@;
                let mut k: usize = 0;
                while k < around.len()
                    invariant
                        k <= around@.len(),
                        n == cfg.size(),
                        marked@.len() == n,
                        before.len() == n,
                        forall|b: usize| #[trigger]
                            around@.contains(b) <==> b < cfg.size() && cfg.touching(
                                s as int,
                                b as int,
                            ),
                        forall|i: int|
                            #![trigger marked@[i]]
                            0 <= i < n ==> (marked@[i] <==> before[i] || around@.take(
                                k as int,
                            ).contains(i as usize)),
                    decreases around@.len() - k,
                {
                    let b = around[k];
                    let ghost prev = marked@;
                    let ghost first = around@.take(k as int);
                    let ghost next = around@.take(k + 1);
                    assert(around@.contains(b));
                    marked[b] = true;
                    assert forall|i: int|
                        #![trigger marked@[i]]
                        0 <= i < n implies (marked@[i] <==> before[i] || next.contains(
                        i as usize,
                    )) by {
                        assert(next =~= first.push(b));
                        assert(next[k as int] == b);
                        if first.contains(i as usize) {
                            let j = choose|j: int| 0 <= j < first.len() && first[j] == i as usize;
                            assert(next[j] == i as usize);
                        }
                        assert(i == b || marked@[i] == prev[i]);
                    }
                    k += 1;
                }
                assert(around@.take(k as int) =~= around@);
                assert forall|i: int|
                    #![trigger marked@[i]]
                    0 <= i < n implies (marked@[i] <==> (states@[i] == CellState::Miss || states@[i]
                    == CellState::Sunk || exists|t: int|
                    0 <= t < s + 1 && #[trigger] states@[t] == CellState::Sunk && cfg.touching(
                        t,
                        i,
                    ))) by {
                    assert(marked@[i] <==> before[i] || around@.contains(i as usize));
                    if around@.contains(i as usize) {
                        assert(states@[s as int] == CellState::Sunk && cfg.touching(s as int, i));
                    }
                }
            }
            s += 1;
        }
    }
    let mut c: usize = 0;
    let ghost before = marked@;
    while c < n
        invariant
            c <= n,
            n == states@.len(),
            marked@.len() == n,
            before.len() == n,
            forall|i: int|
                #![trigger marked@[i]]
                0 <= i < n ==> marked@[i] == (before[i] && !(i < c && states@[i]
                    == CellState::Hit)),
        decreases n - c,
    {
        if states[c] == CellState::Hit {
            marked[c] = false;
        }
        c += 1;
    }
    marked
}

/// The placements of a ship of `len` that avoid the marked cells.
fn placements_avoiding(
    cfg: &GameConfig,
    states: &[CellState],
    marked: &Vec<bool>,
    len: usize,
) -> (r: Vec<Vec<usize>>)
    requires
        cfg.fits(),
        marked@.len() == cfg.size(),
        forall|c: int|
            0 <= c < cfg.size() ==> #[trigger] marked@[c] == blocked(cfg, states@, c),
    ensures
        views(r@) == open_placements(cfg, states@, len as int),
{
    let all = ship_placements(cfg, len);
    let ghost list = placement_list(cfg, len as int);
    let ghost pred = |p: Seq<usize>| clear(cfg, states@, p);
    let mut out: Vec<Vec<usize>> = Vec::new();
    let mut k: usize = 0;
    proof {
        assert(list.take(0).filter(pred) =~= Seq::empty()) by {
            list.take(0).lemma_filter_len(pred);
        }
        assert(views(out@) =~= list.take(0).filter(pred));
    }
    while k < all.len()
        invariant
            cfg.fits(),
            marked@.len() == cfg.size(),
            forall|c: int|
                0 <= c < cfg.size() ==> #[trigger] marked@[c] == blocked(cfg, states@, c),
            k <= all@.len(),
            list == placement_list(cfg, len as int),
            views(all@) == list,
            pred == (|p: Seq<usize>| clear(cfg, states@, p)),
            views(out@) == list.take(k as int).filter(pred),
        decreases all@.len() - k,
    {
        let p = &all[k];
        proof {
            assert(list[k as int] == p@);
            assert(list.contains(p@));
            lemma_placed_len(cfg, len as int);
            lemma_placement_cells(cfg, len as int, p@);
            assert(list.take(k + 1) =~= list.take(k as int).push(p@));
            list.take(k as int).lemma_filter_push(p@, pred);
        }
        let mut free = true;
        let mut i: usize = 0;
        while i < p.len()
            invariant
                i <= p@.len(),
                on_board(cfg, p@),
                marked@.len() == cfg.size(),
                forall|c: int|
                    0 <= c < cfg.size() ==> #[trigger] marked@[c] == blocked(cfg, states@, c),
                free <==> forall|j: int|
                    0 <= j < i ==> !blocked(cfg, states@, #[trigger] p@[j] as int),
            decreases p@.len() - i,
        {
            if marked[p[i]] {
                free = false;
            }
            i += 1;
        }
        assert(free == pred(p@));
        if free {
            let q = p.clone();
            proof {
                assert(q@ =~= p@);
                crate::board::lemma_views_push(out@, q);
            }
            out.push(q);
        }
        k += 1;
    }
    assert(list.take(k as int) =~= list);
    out
}

/// The open hits, in ascending order.
fn find_hits(states: &[CellState]) -> (r: Vec<usize>)
    ensures
        r@ == hit_cells(states@),
{
    let ghost cells = Seq::new(states@.len(), |c: int| c as usize);
    let ghost pred = |c: usize| states@[c as int] == CellState::Hit;
    let mut out: Vec<usize> = Vec::new();
    let mut c: usize = 0;
    proof {
        cells.take(0).lemma_filter_len(pred);
        assert(out@ =~= cells.take(0).filter(pred));
    }
    while c < states.len()
        invariant
            c <= states@.len(),
            cells == Seq::new(states@.len(), |c: int| c as usize),
            pred == (|c: usize| states@[c as int] == CellState::Hit),
            out@ == cells.take(c as int).filter(pred),
        decreases states@.len() - c,
    {
        proof {
            assert(cells.take(c + 1) =~= cells.take(c as int).push(c));
            cells.take(c as int).lemma_filter_push(c, pred);
        }
        if states[c] == CellState::Hit {
            out.push(c);
        }
        c += 1;
    }
    assert(cells.take(c as int) =~= cells);
    out
}

/// The open hits are distinct cells of the board, namely those in state `Hit`.
pub proof fn lemma_hit_cells(states: Seq<CellState>)
    requires
        states.len() <= usize::MAX,
    ensures
        hit_cells(states).no_duplicates(),
        forall|k: int| 0 <= k < hit_cells(states).len() ==> #[trigger] hit_cells(states)[k] < states.len(),
        forall|c: usize| #[trigger]
            hit_cells(states).contains(c) <==> c < states.len() && states[c as int]
                == CellState::Hit,
{
    let cells = Seq::new(states.len(), |c: int| c as usize);
    let pred = |c: usize| states[c as int] == CellState::Hit;
    lemma_filter_no_duplicates(cells, pred);
    assert forall|c: usize| #[trigger] hit_cells(states).contains(c) <==> c < states.len()
        && states[c as int] == CellState::Hit by {
        if hit_cells(states).contains(c) {
            cells.lemma_filter_contains_rev(pred, c);
        }
        if c < states.len() && states[c as int] == CellState::Hit {
            assert(cells[c as int] == c);
            cells.lemma_filter_contains(pred, c as int);
        }
    }
    assert forall|k: int| 0 <= k < hit_cells(states).len() implies #[trigger] hit_cells(states)[k]
        < states.len() by {
        assert(hit_cells(states).contains(hit_cells(states)[k]));
    }
}

/// Picking out items of different items leaves them different.
pub proof fn lemma_filter_no_duplicates<A>(s: Seq<A>, pred: spec_fn(A) -> bool)
    requires
        s.no_duplicates(),
    ensures
        s.filter(pred).no_duplicates(),
    decreases s.len(),
{
    if s.len() > 0 {
        let t = s.drop_last();
        lemma_filter_no_duplicates(t, pred);
        assert(s =~= t.push(s.last()));
        t.lemma_filter_push(s.last(), pred);
        if pred(s.last()) {
            assert forall|i: int| 0 <= i < t.filter(pred).len() implies t.filter(pred)[i]
                != s.last() by {
                assert(t.filter(pred).contains(t.filter(pred)[i]));
                t.lemma_filter_contains_rev(pred, t.filter(pred)[i]);
                let k = choose|k: int| 0 <= k < t.len() && t[k] == t.filter(pred)[i];
                assert(s[k] == t[k]);
            }
        }
    } else {
        s.lemma_filter_len(pred);
    }
}

proof fn lemma_combinations_positive(ships: Seq<Seq<Seq<usize>>>, k: nat)
    requires
        k <= ships.len(),
        !stranded(ships),
    ensures
        combinations(ships, k) >= 1,
    decreases k,
{
    if k > 0 {
        lemma_combinations_positive(ships, (k - 1) as nat);
        let a = combinations(ships, (k - 1) as nat) as int;
        let b = ships[k - 1].len() as int;
        assert(a * b >= 1) by (nonlinear_arith)
            requires
                a >= 1,
                b >= 1,
        ;
    }
}

/// The number of combinations of placements, or the largest `u64` when there
/// are more.
fn estimate_combinations(placements: &Vec<Vec<Vec<usize>>>) -> (r: u64)
    requires
        !stranded(ships_view(placements@)),
    ensures
        r == (if combinations(ships_view(placements@), placements@.len()) <= u64::MAX {
            combinations(ships_view(placements@), placements@.len())
        } else {
            u64::MAX as nat
        }),
{
    let ghost ships = ships_view(placements@);
    let mut estimate: u64 = 1;
    let mut i: usize = 0;
    while i < placements.len()
        invariant
            i <= placements@.len(),
            ships == ships_view(placements@),
            !stranded(ships),
            estimate == (if combinations(ships, i as nat) <= u64::MAX {
                combinations(ships, i as nat)
            } else {
                u64::MAX as nat
            }),
        decreases placements@.len() - i,
    {
        let ghost so_far = combinations(ships, i as nat);
        let count: usize = placements[i].len();
        proof {
            lemma_combinations_positive(ships, i as nat);
            assert(ships[i as int].len() == count);
            assert(count >= 1);
            assert(combinations(ships, (i + 1) as nat) == so_far * count);
            assert(so_far <= so_far * count) by (nonlinear_arith)
                requires
                    count >= 1,
            ;
            assert(so_far > u64::MAX ==> (u64::MAX * count) as int >= u64::MAX) by (nonlinear_arith)
                requires
                    count >= 1,
            ;
        }
        estimate = match estimate.checked_mul(count as u64) {
            Some(product) => product,
            None => u64::MAX,
        };
        i += 1;
    }
    estimate
}

/// Shows the grid at the unknown cells only.
fn show_unknown(states: &[CellState], grid: &Vec<u64>) -> (r: Vec<u64>)
    requires
        grid@.len() == states@.len(),
    ensures
        shows(states@, grid@, r@),
{
    let n = states.len();
    let mut counts: Vec<u64> = vec![0u64; n];
    let mut c: usize = 0;
    while c < n
        invariant
            c <= n,
            n == states@.len(),
            grid@.len() == n,
            counts@.len() == n,
            forall|i: int|
                #![trigger counts@[i]]
                0 <= i < n ==> counts@[i] == (if i < c && states@[i] == CellState::Unknown {
                    grid@[i]
                } else {
                    0
                }),
        decreases n - c,
    {
        if states[c] == CellState::Unknown {
            counts[c] = grid[c];
        }
        c += 1;
    }
    counts
}

/// Finds the first of the unknown cells with the highest count, unless all
/// counts are zero.
pub fn find_best(states: &[CellState], counts: &Vec<u64>) -> (r: (Option<usize>, u64))
    requires
        counts@.len() == states@.len(),
    ensures
        best_shot(states@, counts@, r.0, r.1),
{
    let n = states.len();
    let mut best_cell: Option<usize> = None;
    let mut best_count: u64 = 0;
    let mut c: usize = 0;
    while c < n
        invariant
            c <= n,
            n == states@.len(),
            counts@.len() == n,
            forall|i: int|
                #![trigger counts@[i]]
                0 <= i < c && states@[i] == CellState::Unknown ==> counts@[i] <= best_count,
            match best_cell {
                None => best_count == 0,
                Some(b) => {
                    &&& b < c
                    &&& states@[b as int] == CellState::Unknown
                    &&& counts@[b as int] == best_count
                    &&& best_count > 0
                    &&& forall|i: int|
                        #![trigger counts@[i]]
                        0 <= i < b && states@[i] == CellState::Unknown ==> counts@[i] < best_count
                },
            },
        decreases n - c,
    {
        if states[c] == CellState::Unknown && counts[c] > best_count {
            best_count = counts[c];
            best_cell = Some(c);
        }
        c += 1;
    }
    (best_cell, best_count)
}

/// The result when there is nothing to compute.
fn nothing_to_show(states: &[CellState]) -> (r: SolveResult)
    ensures
        r.counts@.len() == states@.len(),
        empty_heatmap(states@, r),
        best_shot(states@, r.counts@, r.best_cell, r.best_count),
{
    SolveResult {
        counts: vec![0u64; states.len()],
        configs: 0,
        total: 0,
        method: Method::Trivial,
        best_cell: None,
        best_count: 0,
    }
}

/// Shows a grid of counts as a heatmap with its recommended shot.
fn heatmap(
    states: &[CellState],
    grid: &Vec<u64>,
    configs: u64,
    total: u64,
    method: Method,
) -> (r: SolveResult)
    requires
        grid@.len() == states@.len(),
    ensures
        r.counts@.len() == states@.len(),
        shows(states@, grid@, r.counts@),
        r.configs == configs,
        r.total == total,
        r.method == method,
        best_shot(states@, r.counts@, r.best_cell, r.best_count),
{
    let counts = show_unknown(states, grid);
    let (best_cell, best_count) = find_best(states, &counts);
    SolveResult { counts, configs, total, method, best_cell, best_count }
}

/// The sampled heatmap of the evidence.
fn solve_by_sampling(
    cfg: &GameConfig,
    states: &[CellState],
    placements: &Vec<Vec<Vec<usize>>>,
    hits: &Vec<usize>,
) -> (r: SolveResult)
    requires
        cfg.fits(),
        states@.len() == cfg.size(),
        hits@ == hit_cells(states@),
        crate::sampling::sampleable(cfg, ships_view(placements@), hits@),
        fleet_weight(ships_view(placements@), hits@, placements@.len()) <= u64::MAX,
    ensures
        r.counts@.len() == states@.len(),
        exists|batches: nat|
            1 <= batches && #[trigger] sampled_heatmap(
                cfg,
                ships_view(placements@),
                states@,
                batches,
                r,
            ),
        best_shot(states@, r.counts@, r.best_cell, r.best_count),
{
    let e = monte_carlo(cfg, placements.as_slice(), hits.as_slice(), MC_ATTEMPTS);
    let r = heatmap(states, &e.grid, e.accepted, e.total, Method::MonteCarlo);
    proof {
        let ships = ships_view(placements@);
        let batches = choose|batches: nat|
            1 <= batches && #[trigger] estimates(
                cfg,
                ships,
                hits@,
                MC_ATTEMPTS,
                batches,
                e.grid@,
                e.accepted,
                e.total,
            );
        assert(sampled_heatmap(cfg, ships, states@, batches, r));
    }
    r
}

/// Compute the probability heatmap for the current evidence.
pub fn solve(cfg: &GameConfig, states: &[CellState], remaining: &[usize]) -> (r: SolveResult)
    requires
        within_limits(cfg, remaining@.len()),
        states@.len() == cfg.size(),
    ensures
        solved(cfg, states@, remaining@, r),
{
    if remaining.len() == 0 {
        let r = nothing_to_show(states);
        assert(solved_in(cfg, states@, remaining@, 1, r));
        return r;
    }
    let marked = blocked_cells(cfg, states);
    // Remaining ships, longest first (better pruning and coarser fan-out).
    let lens = longest_first(remaining);
    let ghost ships = open_ships(cfg, states@, lens@);
    proof {
        lemma_open_ships(cfg, states@, lens@);
        lemma_hit_cells(states@);
    }
    // Static placements per ship: in-bounds and clear of blocked cells. The
    // dynamic overlap/gap checks happen during the search.
    let mut placements: Vec<Vec<Vec<usize>>> = Vec::with_capacity(lens.len());
    let mut i: usize = 0;
    while i < lens.len()
        invariant
            cfg.fits(),
            states@.len() == cfg.size(),
            marked@.len() == cfg.size(),
            forall|c: int|
                0 <= c < cfg.size() ==> #[trigger] marked@[c] == blocked(cfg, states@, c),
            i <= lens@.len(),
            placements@.len() == i,
            ships == open_ships(cfg, states@, lens@),
            forall|k: int| 0 <= k < i ==> (#[trigger] ships[k]).len() > 0,
            forall|k: int| 0 <= k < i ==> views((#[trigger] placements@[k])@) == ships[k],
            lens@ == descending(remaining@),
            remaining@.len() > 0,
        decreases lens@.len() - i,
    {
        let ship = placements_avoiding(cfg, states, &marked, lens[i]);
        assert(views(ship@) == ships[i as int]);
        // Any ship with nowhere to go: the evidence is unsatisfiable.
        if ship.len() == 0 {
            assert(ships[i as int].len() == 0);
            let r = nothing_to_show(states);
            assert(solved_in(cfg, states@, remaining@, 1, r));
            return r;
        }
        assert(ships[i as int].len() > 0);
        placements.push(ship);
        i += 1;
    }
    let hits = find_hits(states);
    proof {
        assert(ships_view(placements@) =~= ships) by {
            assert forall|k: int| 0 <= k < ships.len() implies ships_view(placements@)[k] == ships[k] by {
                assert(views(placements@[k]@) == ships[k]);
            }
        }
        assert(!stranded(ships));
        assert forall|k: int| 0 <= k < lens@.len() implies #[trigger] lens@[k] <= cfg.size() by {
            let pred = |p: Seq<usize>| clear(cfg, states@, p);
            assert(ships[k].len() > 0);
            placement_list(cfg, lens@[k] as int).lemma_filter_len(pred);
            lemma_placed_len(cfg, lens@[k] as int);
        }
        lemma_cells_bounded(cfg, lens@, 0);
        lemma_fleet_weight_bounded(cfg, ships, hits@, ships.len());
    }
    // Upper bound on the search size (ignores mutual exclusion).
    let estimate = estimate_combinations(&placements);
    // Use exact when the space is small, or whenever hits constrain it (then the
    // consistent set is usually tiny). Otherwise sample.
    if estimate <= EXACT_ESTIMATE_GATE || hits.len() > 0 {
        assert(prefers_exact(ships, hits@));
        match exact(cfg, placements.as_slice(), hits.as_slice(), lens.as_slice(), EXACT_HARD_CAP) {
            Some((grid, total)) => {
                // No arrangement at all: the evidence is contradictory.
                let r = if total == 0 {
                    nothing_to_show(states)
                } else {
                    heatmap(states, &grid, total, total, Method::Exact)
                };
                assert(solved_in(cfg, states@, remaining@, 1, r));
                return r;
            },
            None => {},
        }
    }
    let r = solve_by_sampling(cfg, states, &placements, &hits);
    proof {
        let batches = choose|batches: nat|
            1 <= batches && #[trigger] sampled_heatmap(cfg, ships, states@, batches, r);
        assert(solved_in(cfg, states@, remaining@, batches, r));
    }
    r
}

} // verus!
