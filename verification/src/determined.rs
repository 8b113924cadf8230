//! What a heatmap depends on: the board and its gap rule, the evidence, and the
//! remaining ships in any order.

use crate::board::GameConfig;
use crate::fleet::{fleets, is_fleet, stands};
use crate::geometry::{
    across, across_row, across_rows, compatible, down, down_row, down_rows, placement_list,
};
use crate::layout::lemma_filter_congruent;
use crate::order::{descending, lemma_descending};
use crate::outside::seeded_state;
use crate::sampling::{
    accepted, attempts_per_batch, batch_samples, drawn_fleet, estimates, reservoir, samples,
    seed_of_batch,
};
use crate::solver::{
    best_shot, blocked, clear, hit_cells, open_placements, open_ships, shows, solved_in, CellState,
    Method, SolveResult, MC_ATTEMPTS,
};
use vstd::prelude::*;
use vstd::seq_lib::group_to_multiset_ensures;

verus! {

/// Boards of the same sides under the same gap rule.
pub open spec fn same_board(a: &GameConfig, b: &GameConfig) -> bool {
    &&& a.width == b.width
    &&& a.height == b.height
    &&& a.gap_rule == b.gap_rule
}

proof fn lemma_same_runs(a: &GameConfig, b: &GameConfig, x: int, y: int, len: int)
    requires
        same_board(a, b),
    ensures
        across(a, x, y, len) == across(b, x, y, len),
        down(a, x, y, len) == down(b, x, y, len),
{
    assert(across(a, x, y, len) =~= across(b, x, y, len));
    assert(down(a, x, y, len) =~= down(b, x, y, len));
}

proof fn lemma_same_rows(a: &GameConfig, b: &GameConfig, len: int, rows: nat)
    requires
        same_board(a, b),
    ensures
        across_rows(a, len, rows) == across_rows(b, len, rows),
        down_rows(a, len, rows) == down_rows(b, len, rows),
    decreases rows,
{
    if rows > 0 {
        lemma_same_rows(a, b, len, (rows - 1) as nat);
        let y = rows - 1;
        assert forall|x: int| #[trigger] across(a, x, y, len) == across(b, x, y, len) by {
            lemma_same_runs(a, b, x, y, len);
        }
        assert forall|x: int| #[trigger] down(a, x, y, len) == down(b, x, y, len) by {
            lemma_same_runs(a, b, x, y, len);
        }
        assert(across_row(a, len, y) =~= across_row(b, len, y));
        assert(down_row(a, len, y) =~= down_row(b, len, y));
    }
}

/// The placements of a ship depend on the sides of the board alone.
pub proof fn lemma_same_placements(a: &GameConfig, b: &GameConfig, len: int)
    requires
        same_board(a, b),
    ensures
        placement_list(a, len) == placement_list(b, len),
{
    lemma_same_rows(a, b, len, a.height as nat);
    if 1 < len <= a.height {
        lemma_same_rows(a, b, len, (a.height - len + 1) as nat);
    }
}

proof fn lemma_same_clear(
    a: &GameConfig,
    b: &GameConfig,
    states: Seq<CellState>,
    p: Seq<usize>,
)
    requires
        same_board(a, b),
    ensures
        clear(a, states, p) == clear(b, states, p),
{
    assert forall|c: int| #[trigger] blocked(a, states, c) == blocked(b, states, c) by {
        assert forall|s: int| #[trigger] a.touching(s, c) == b.touching(s, c) by {}
    }
}

proof fn lemma_same_open(a: &GameConfig, b: &GameConfig, states: Seq<CellState>, lens: Seq<usize>)
    requires
        same_board(a, b),
    ensures
        open_ships(a, states, lens) == open_ships(b, states, lens),
{
    let p = |q: Seq<usize>| clear(a, states, q);
    let q = |q: Seq<usize>| clear(b, states, q);
    assert forall|i: int| 0 <= i < lens.len() implies #[trigger] open_ships(a, states, lens)[i]
        == open_ships(b, states, lens)[i] by {
        let len = lens[i] as int;
        lemma_same_placements(a, b, len);
        assert forall|x: Seq<usize>| #[trigger] placement_list(a, len).contains(x) implies p(x)
            == q(x) by {
            lemma_same_clear(a, b, states, x);
        }
        lemma_filter_congruent(placement_list(a, len), p, q);
        assert(open_placements(a, states, len) == open_placements(b, states, len));
    }
    assert(open_ships(a, states, lens) =~= open_ships(b, states, lens));
}

proof fn lemma_stands_there(
    a: &GameConfig,
    b: &GameConfig,
    ships: Seq<Seq<Seq<usize>>>,
    f: Seq<int>,
)
    requires
        same_board(a, b),
        stands(a, ships, f),
    ensures
        stands(b, ships, f),
{
    assert forall|i: int, j: int|
        #![trigger f[i], f[j]]
        0 <= i < j < f.len() implies compatible(b, ships[i][f[i]], ships[j][f[j]]) by {
        let (p, q) = (ships[i][f[i]], ships[j][f[j]]);
        assert(compatible(a, p, q));
        assert forall|x: int, y: int|
            #![trigger p[x], q[y]]
            0 <= x < p.len() && 0 <= y < q.len() implies b.apart(p[x] as int, q[y] as int) by {
            assert(a.apart(p[x] as int, q[y] as int));
        }
    }
}

proof fn lemma_same_stands(
    a: &GameConfig,
    b: &GameConfig,
    ships: Seq<Seq<Seq<usize>>>,
    f: Seq<int>,
)
    requires
        same_board(a, b),
    ensures
        stands(a, ships, f) == stands(b, ships, f),
{
    if stands(a, ships, f) {
        lemma_stands_there(a, b, ships, f);
    }
    if stands(b, ships, f) {
        lemma_stands_there(b, a, ships, f);
    }
}

proof fn lemma_same_fleets(
    a: &GameConfig,
    b: &GameConfig,
    ships: Seq<Seq<Seq<usize>>>,
    hits: Seq<usize>,
)
    requires
        same_board(a, b),
    ensures
        fleets(a, ships, hits) == fleets(b, ships, hits),
{
    assert forall|f: Seq<int>| #[trigger] is_fleet(a, ships, hits, f) == is_fleet(
        b,
        ships,
        hits,
        f,
    ) by {
        lemma_same_stands(a, b, ships, f);
    }
    assert(fleets(a, ships, hits) =~= fleets(b, ships, hits));
}

proof fn lemma_same_reservoir(
    a: &GameConfig,
    b: &GameConfig,
    ships: Seq<Seq<Seq<usize>>>,
    f: Seq<int>,
    k: nat,
    state: Seq<u8>,
)
    requires
        same_board(a, b),
    ensures
        reservoir(a, ships, f, k, state) == reservoir(b, ships, f, k, state),
    decreases k,
{
    if k > 0 {
        lemma_same_reservoir(a, b, ships, f, (k - 1) as nat, state);
        lemma_same_stands(a, b, ships, f.push(k - 1));
    }
}

proof fn lemma_same_drawn(
    a: &GameConfig,
    b: &GameConfig,
    ships: Seq<Seq<Seq<usize>>>,
    k: nat,
    state: Seq<u8>,
)
    requires
        same_board(a, b),
    ensures
        drawn_fleet(a, ships, k, state) == drawn_fleet(b, ships, k, state),
    decreases k,
{
    if k > 0 {
        lemma_same_drawn(a, b, ships, (k - 1) as nat, state);
        let prev = drawn_fleet(a, ships, (k - 1) as nat, state);
        if let Some(f) = prev.0 {
            lemma_same_reservoir(a, b, ships, f, ships[k - 1].len(), prev.1);
        }
    }
}

proof fn lemma_same_accepted(
    a: &GameConfig,
    b: &GameConfig,
    ships: Seq<Seq<Seq<usize>>>,
    hits: Seq<usize>,
    attempts: nat,
    state: Seq<u8>,
)
    requires
        same_board(a, b),
    ensures
        accepted(a, ships, hits, attempts, state) == accepted(b, ships, hits, attempts, state),
    decreases attempts,
{
    if attempts > 0 {
        lemma_same_accepted(a, b, ships, hits, (attempts - 1) as nat, state);
        let prev = accepted(a, ships, hits, (attempts - 1) as nat, state);
        lemma_same_drawn(a, b, ships, ships.len(), prev.1);
    }
}

/// The samples of a run depend on the board, the placements, the hits, the
/// attempts and the number of batches alone.
pub proof fn lemma_same_samples(
    a: &GameConfig,
    b: &GameConfig,
    ships: Seq<Seq<Seq<usize>>>,
    hits: Seq<usize>,
    per: nat,
    batches: nat,
)
    requires
        same_board(a, b),
    ensures
        samples(a, ships, hits, per, batches) == samples(b, ships, hits, per, batches),
    decreases batches,
{
    if batches > 0 {
        lemma_same_samples(a, b, ships, hits, per, (batches - 1) as nat);
        let k = (batches - 1) as u64;
        lemma_same_accepted(
            a,
            b,
            ships,
            hits,
            per,
            seeded_state(seed_of_batch(k, hits.len() as u64, ships.len() as u64)),
        );
        assert(batch_samples(a, ships, hits, per, k) == batch_samples(b, ships, hits, per, k));
    }
}

/// There is one best shot.
pub proof fn lemma_best_shot_unique(
    states: Seq<CellState>,
    counts: Seq<u64>,
    cell1: Option<usize>,
    count1: u64,
    cell2: Option<usize>,
    count2: u64,
)
    requires
        best_shot(states, counts, cell1, count1),
        best_shot(states, counts, cell2, count2),
    ensures
        cell1 == cell2,
        count1 == count2,
{
    if let Some(b) = cell1 {
        assert(counts[b as int] <= count2);
    }
    if let Some(b) = cell2 {
        assert(counts[b as int] <= count1);
    }
}

/// Heatmaps of the same evidence agree: neither the order of the remaining ships
/// nor the fleet that the rules list matters, and samples drawn in as many
/// batches are the same samples. Without sampling the number of batches does not
/// matter either.
pub proof fn lemma_solve_determined(
    cfg1: &GameConfig,
    cfg2: &GameConfig,
    states: Seq<CellState>,
    remaining1: Seq<usize>,
    remaining2: Seq<usize>,
    batches1: nat,
    batches2: nat,
    r1: SolveResult,
    r2: SolveResult,
)
    requires
        same_board(cfg1, cfg2),
        cfg1.fits(),
        states.len() == cfg1.size(),
        remaining1.to_multiset() == remaining2.to_multiset(),
        solved_in(cfg1, states, remaining1, batches1, r1),
        solved_in(cfg2, states, remaining2, batches2, r2),
        r1.method == Method::MonteCarlo ==> batches1 == batches2,
    ensures
        r1.counts@ == r2.counts@,
        r1.configs == r2.configs,
        r1.total == r2.total,
        r1.method == r2.method,
        r1.best_cell == r2.best_cell,
        r1.best_count == r2.best_count,
{
    let lens = descending(remaining1);
    lemma_descending(remaining1, lens);
    lemma_descending(remaining2, lens);
    assert(lens == descending(remaining2));
    assert(remaining1.len() == remaining2.len()) by {
        broadcast use group_to_multiset_ensures;

        assert(remaining1.to_multiset().len() == remaining1.len());
        assert(remaining2.to_multiset().len() == remaining2.len());
    }
    let ships = open_ships(cfg1, states, lens);
    let hits = hit_cells(states);
    lemma_same_open(cfg1, cfg2, states, lens);
    lemma_same_fleets(cfg1, cfg2, ships, hits);
    if r1.method == Method::MonteCarlo {
        let per = attempts_per_batch(MC_ATTEMPTS, batches1);
        lemma_same_samples(cfg1, cfg2, ships, hits, per, batches1);
        let grid1 = choose|grid: Seq<u64>| #[trigger]
            estimates(
                cfg1,
                ships,
                hits,
                MC_ATTEMPTS,
                batches1,
                grid,
                r1.configs,
                r1.total,
            ) && shows(states, grid, r1.counts@);
        let grid2 = choose|grid: Seq<u64>| #[trigger]
            estimates(
                cfg2,
                ships,
                hits,
                MC_ATTEMPTS,
                batches1,
                grid,
                r2.configs,
                r2.total,
            ) && shows(states, grid, r2.counts@);
        assert forall|c: int| 0 <= c < states.len() implies r1.counts@[c] == r2.counts@[c] by {
            let k = c as usize;
            assert(grid1[k as int] == grid2[k as int]);
        }
    } else {
        assert forall|c: int| 0 <= c < states.len() implies r1.counts@[c] == r2.counts@[c] by {
            let k = c as usize;
            assert(r1.counts@[k as int] == r2.counts@[k as int]);
        }
    }
    assert(r1.counts@ =~= r2.counts@);
    lemma_best_shot_unique(
        states,
        r1.counts@,
        r1.best_cell,
        r1.best_count,
        r2.best_cell,
        r2.best_count,
    );
}

} // verus!
