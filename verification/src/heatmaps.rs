//! What a heatmap shows, in terms of the arrangements of the remaining ships.

use crate::board::GameConfig;
use crate::fleet::{count_at, fleets, occupies};
use crate::geometry::{compatible, lemma_placements_distinct, placement_list};
use crate::laws::{
    arrangement, consistent, counted, covered, lemma_arrangements, lemma_arrangements_distinct,
    lemma_fleets_finite, lemma_known_cells, lemma_open_placement,
};
use crate::order::lemma_descending;
use crate::plain::{
    all_may_hold, in_order, lemma_compatible_separate, lemma_filter_in_order, lemma_placement_order,
    may_hold, near, separate, straight,
};
use crate::sampling::{
    attempts_per_batch, count_in, estimates, fleet_weight_at, lemma_samples, samples,
    ship_weight_at,
};
use crate::solver::{
    best_shot, clear, combinations, hit_cells, lemma_filter_no_duplicates, lemma_hit_cells, open_placements,
    open_ships, shows, solved, solved_in, stranded, CellState, Method, SolveResult, MC_ATTEMPTS,
};
use vstd::prelude::*;
use vstd::relations::injective_on;
use vstd::seq_lib::seq_to_set_is_finite;
use vstd::set_lib::{lemma_map_size, lemma_set_subset_finite};

verus! {

/// The arrangements of ships of the given lengths that are consistent with the
/// evidence.
pub open spec fn arrangements(
    cfg: &GameConfig,
    states: Seq<CellState>,
    lens: Seq<usize>,
) -> Set<Seq<Seq<usize>>> {
    Set::new(|a: Seq<Seq<usize>>| consistent(cfg, states, lens, a))
}

/// The given lengths, in another order, the longest first.
pub open spec fn longest_first_of(lens: Seq<usize>, remaining: Seq<usize>) -> bool {
    &&& lens.to_multiset() == remaining.to_multiset()
    &&& forall|i: int, j: int| 0 <= i < j < lens.len() ==> lens[i] >= lens[j]
}

/// Some cell is an open hit.
pub open spec fn hit_somewhere(states: Seq<CellState>) -> bool {
    exists|c: int| 0 <= c < states.len() && #[trigger] states[c] == CellState::Hit
}

/// The places of a ship of the given length on its own: straight runs on cells
/// that may hold a remaining ship.
pub open spec fn places(cfg: &GameConfig, states: Seq<CellState>, len: usize) -> Set<Seq<usize>> {
    Set::new(
        |p: Seq<usize>|
            straight(cfg.width as int, cfg.height as int, len as int, p) && all_may_hold(
                cfg.width as int,
                cfg.gap_rule,
                states,
                p,
            ),
    )
}

/// The product of the numbers of places of the first `k` ships.
pub open spec fn ways(cfg: &GameConfig, states: Seq<CellState>, lens: Seq<usize>, k: nat) -> nat
    decreases k,
{
    if k == 0 {
        1
    } else {
        ways(cfg, states, lens, (k - 1) as nat) * places(cfg, states, lens[k - 1]).len()
    }
}

/// The fleets that the engine finds stand for the consistent arrangements, one
/// for each.
pub proof fn lemma_fleets_are_arrangements(
    cfg: &GameConfig,
    states: Seq<CellState>,
    lens: Seq<usize>,
)
    requires
        cfg.fits(),
        states.len() == cfg.size(),
    ensures
        arrangements(cfg, states, lens).finite(),
        fleets(cfg, open_ships(cfg, states, lens), hit_cells(states)).len() == arrangements(
            cfg,
            states,
            lens,
        ).len(),
        forall|c: usize| #[trigger]
            count_at(
                open_ships(cfg, states, lens),
                fleets(cfg, open_ships(cfg, states, lens), hit_cells(states)),
                c,
            ) == arrangements(cfg, states, lens).filter(|a: Seq<Seq<usize>>| covered(a, c)).len(),
{
    let ships = open_ships(cfg, states, lens);
    let found = fleets(cfg, ships, hit_cells(states));
    let all = arrangements(cfg, states, lens);
    let to = |f: Seq<int>| arrangement(ships, f);
    lemma_fleets_finite(cfg, ships, hit_cells(states));
    assert(injective_on(to, found)) by {
        assert forall|f: Seq<int>, g: Seq<int>|
            found.contains(f) && found.contains(g) && #[trigger] to(f) == #[trigger] to(
                g,
            ) implies f == g by {
            lemma_arrangements_distinct(cfg, states, lens, f, g);
        }
    }
    assert(found.map(to) =~= all) by {
        assert forall|a: Seq<Seq<usize>>| found.map(to).contains(a) <==> all.contains(a) by {
            lemma_arrangements(cfg, states, lens, a);
            if all.contains(a) {
                let f = choose|f: Seq<int>| #[trigger]
                    found.contains(f) && arrangement(ships, f) == a;
                assert(to(f) == a);
            }
            if found.map(to).contains(a) {
                let f = choose|f: Seq<int>| #[trigger] found.contains(f) && to(f) == a;
                assert(counted(cfg, states, lens, a));
            }
        }
    }
    lemma_map_size(found, all, to);
    assert forall|c: usize| #[trigger]
        count_at(ships, found, c) == all.filter(|a: Seq<Seq<usize>>| covered(a, c)).len() by {
        let p = |f: Seq<int>| occupies(ships, f, c);
        let q = |a: Seq<Seq<usize>>| covered(a, c);
        let on = found.filter(p);
        let off = all.filter(q);
        lemma_set_subset_finite(found, on);
        assert forall|f: Seq<int>| #[trigger] found.contains(f) implies p(f) == q(to(f)) by {
            lemma_occupies_covered(ships, f, c);
        }
        assert(injective_on(to, on)) by {
            assert forall|f: Seq<int>, g: Seq<int>|
                on.contains(f) && on.contains(g) && #[trigger] to(f) == #[trigger] to(
                    g,
                ) implies f == g by {
                assert(found.contains(f) && found.contains(g));
            }
        }
        assert(on.map(to) =~= off) by {
            assert forall|a: Seq<Seq<usize>>| on.map(to).contains(a) <==> off.contains(a) by {
                if off.contains(a) {
                    assert(found.map(to).contains(a));
                    let f = choose|f: Seq<int>| #[trigger] found.contains(f) && to(f) == a;
                    assert(on.contains(f));
                }
                if on.map(to).contains(a) {
                    let f = choose|f: Seq<int>| #[trigger] on.contains(f) && to(f) == a;
                    assert(found.contains(f));
                    assert(found.map(to).contains(a));
                }
            }
        }
        lemma_map_size(on, off, to);
    }
}

/// A fleet occupies the cells that its arrangement covers.
pub proof fn lemma_occupies_covered(ships: Seq<Seq<Seq<usize>>>, f: Seq<int>, c: usize)
    ensures
        occupies(ships, f, c) == covered(arrangement(ships, f), c),
{
    let a = arrangement(ships, f);
    if occupies(ships, f, c) {
        let i = choose|i: int| 0 <= i < f.len() && ships[i][#[trigger] f[i]].contains(c);
        assert(a[i].contains(c));
    }
    if covered(a, c) {
        let i = choose|i: int| 0 <= i < a.len() && (#[trigger] a[i]).contains(c);
        assert(ships[i][f[i]].contains(c));
    }
}

proof fn lemma_places(cfg: &GameConfig, states: Seq<CellState>, len: usize)
    requires
        cfg.fits(),
    ensures
        places(cfg, states, len).finite(),
        places(cfg, states, len).len() == open_placements(cfg, states, len as int).len(),
{
    let open = open_placements(cfg, states, len as int);
    lemma_placements_distinct(cfg, len as int);
    lemma_filter_no_duplicates(
        placement_list(cfg, len as int),
        |p: Seq<usize>| clear(cfg, states, p),
    );
    open.unique_seq_to_set();
    seq_to_set_is_finite(open);
    assert(open.to_set() =~= places(cfg, states, len)) by {
        assert forall|p: Seq<usize>| open.to_set().contains(p) <==> places(
            cfg,
            states,
            len,
        ).contains(p) by {
            lemma_open_placement(cfg, states, len as int, p);
        }
    }
}

proof fn lemma_ways(cfg: &GameConfig, states: Seq<CellState>, lens: Seq<usize>, k: nat)
    requires
        cfg.fits(),
        k <= lens.len(),
    ensures
        ways(cfg, states, lens, k) == combinations(open_ships(cfg, states, lens), k),
    decreases k,
{
    if k > 0 {
        lemma_ways(cfg, states, lens, (k - 1) as nat);
        lemma_places(cfg, states, lens[k - 1]);
    }
}

proof fn lemma_stranded_ways(ships: Seq<Seq<Seq<usize>>>, i: int, k: nat)
    requires
        0 <= i < k <= ships.len(),
        ships[i].len() == 0,
    ensures
        combinations(ships, k) == 0,
    decreases k,
{
    if i < k - 1 {
        lemma_stranded_ways(ships, i, (k - 1) as nat);
        assert(0 * ships[k - 1].len() == 0);
    } else {
        assert(combinations(ships, (k - 1) as nat) * 0 == 0);
    }
}

/// Which engine answers. With no ship left there is nothing to compute. Where
/// some cell is an open hit, or the ships have at most two million ways to lie on
/// their own, the consistent arrangements are enumerated: without one the
/// evidence is contradictory, and more than four million are sampled instead.
/// Everything else is sampled.
pub proof fn lemma_method(
    cfg: &GameConfig,
    states: Seq<CellState>,
    remaining: Seq<usize>,
    lens: Seq<usize>,
    r: SolveResult,
)
    requires
        cfg.fits(),
        states.len() == cfg.size(),
        longest_first_of(lens, remaining),
        solved(cfg, states, remaining, r),
    ensures
        r.method == (if remaining.len() == 0 {
            Method::Trivial
        } else if hit_somewhere(states) || ways(cfg, states, lens, lens.len()) <= 2_000_000 {
            let n = arrangements(cfg, states, lens).len();
            if n == 0 {
                Method::Trivial
            } else if n <= 4_000_000 {
                Method::Exact
            } else {
                Method::MonteCarlo
            }
        } else {
            Method::MonteCarlo
        }),
{
    lemma_descending(remaining, lens);
    let ships = open_ships(cfg, states, lens);
    let hits = hit_cells(states);
    lemma_fleets_are_arrangements(cfg, states, lens);
    lemma_fleets_finite(cfg, ships, hits);
    lemma_ways(cfg, states, lens, lens.len());
    lemma_hit_cells(states);
    assert(hit_somewhere(states) <==> hits.len() > 0) by {
        if hit_somewhere(states) {
            let c = choose|c: int| 0 <= c < states.len() && #[trigger] states[c] == CellState::Hit;
            assert(hits.contains(c as usize));
        }
        if hits.len() > 0 {
            assert(hits.contains(hits[0]));
            assert(states[hits[0] as int] == CellState::Hit);
        }
    }
    if stranded(ships) {
        let i = choose|i: int| 0 <= i < ships.len() && (#[trigger] ships[i]).len() == 0;
        lemma_stranded_ways(ships, i, ships.len());
        let found = fleets(cfg, ships, hits);
        assert forall|f: Seq<int>| !found.contains(f) by {
            if found.contains(f) {
                assert(0 <= f[i] < ships[i].len());
            }
        }
        assert(found =~= Set::empty());
    }
}

/// An exact heatmap counts the consistent arrangements: all of them, and at each
/// unknown cell those that cover it.
pub proof fn lemma_exact_counts(
    cfg: &GameConfig,
    states: Seq<CellState>,
    remaining: Seq<usize>,
    lens: Seq<usize>,
    r: SolveResult,
)
    requires
        cfg.fits(),
        states.len() == cfg.size(),
        longest_first_of(lens, remaining),
        solved(cfg, states, remaining, r),
        r.method == Method::Exact,
    ensures
        r.configs == arrangements(cfg, states, lens).len(),
        r.total == r.configs,
        r.counts@.len() == states.len(),
        forall|c: int|
            #![trigger r.counts@[c]]
            0 <= c < states.len() ==> r.counts@[c] == (if states[c] == CellState::Unknown {
                arrangements(cfg, states, lens).filter(
                    |a: Seq<Seq<usize>>| covered(a, c as usize),
                ).len()
            } else {
                0
            }),
{
    lemma_descending(remaining, lens);
    lemma_fleets_are_arrangements(cfg, states, lens);
    let ships = open_ships(cfg, states, lens);
    let found = fleets(cfg, ships, hit_cells(states));
    assert forall|c: int|
        #![trigger r.counts@[c]]
        0 <= c < states.len() implies r.counts@[c] == (if states[c] == CellState::Unknown {
        arrangements(cfg, states, lens).filter(|a: Seq<Seq<usize>>| covered(a, c as usize)).len()
    } else {
        0
    }) by {
        let k = c as usize;
        assert(r.counts@[k as int] == r.counts@[c]);
        assert(count_at(ships, found, k) == arrangements(cfg, states, lens).filter(
            |a: Seq<Seq<usize>>| covered(a, k),
        ).len());
    }
}

/// Where some cell is an open hit, ships remain and the consistent arrangements
/// are at least one and at most four million, the answer is exact: it counts them
/// all.
pub proof fn lemma_hits_make_exact(
    cfg: &GameConfig,
    states: Seq<CellState>,
    remaining: Seq<usize>,
    lens: Seq<usize>,
    r: SolveResult,
    c: int,
)
    requires
        cfg.fits(),
        states.len() == cfg.size(),
        longest_first_of(lens, remaining),
        solved(cfg, states, remaining, r),
        0 <= c < states.len(),
        states[c] == CellState::Hit,
        remaining.len() > 0,
        1 <= arrangements(cfg, states, lens).len() <= 4_000_000,
    ensures
        r.method == Method::Exact,
        r.configs == arrangements(cfg, states, lens).len(),
{
    assert(hit_somewhere(states));
    lemma_method(cfg, states, remaining, lens, r);
    lemma_exact_counts(cfg, states, remaining, lens, r);
}

/// An answer that is neither exact nor sampled shows nothing.
pub proof fn lemma_nothing_shown(
    cfg: &GameConfig,
    states: Seq<CellState>,
    remaining: Seq<usize>,
    r: SolveResult,
)
    requires
        states.len() == cfg.size(),
        solved(cfg, states, remaining, r),
        r.method == Method::Trivial,
    ensures
        r.configs == 0,
        r.total == 0,
        r.counts@.len() == states.len(),
        forall|c: int| 0 <= c < states.len() ==> #[trigger] r.counts@[c] == 0,
        r.best_cell is None,
        r.best_count == 0,
{
}

/// The recommended shot is at an unknown cell, none has a higher count and none
/// before it as high a count; without one no unknown cell has a count.
pub proof fn lemma_recommended(
    cfg: &GameConfig,
    states: Seq<CellState>,
    remaining: Seq<usize>,
    r: SolveResult,
)
    requires
        cfg.fits(),
        states.len() == cfg.size(),
        solved(cfg, states, remaining, r),
    ensures
        match r.best_cell {
            Some(b) => {
                &&& b < states.len()
                &&& states[b as int] == CellState::Unknown
                &&& r.best_count == r.counts@[b as int] > 0
                &&& forall|c: int|
                    0 <= c < states.len() ==> #[trigger] r.counts@[c] <= r.counts@[b as int]
                &&& forall|c: int| 0 <= c < b ==> #[trigger] r.counts@[c] < r.counts@[b as int]
            },
            None => {
                &&& r.best_count == 0
                &&& forall|c: int| 0 <= c < states.len() ==> #[trigger] r.counts@[c] == 0
            },
        },
{
    assert forall|c: int|
        0 <= c < states.len() && states[c] != CellState::Unknown implies #[trigger] r.counts@[c]
        == 0 by {
        lemma_known_cells(cfg, states, remaining, r, c);
    }
}

/// The best shot of any heatmap: an unknown cell with a count, no unknown cell has a
/// higher one, and none before it as high a one. There is none exactly when no
/// unknown cell has a count.
pub proof fn lemma_best_of_counts(
    states: Seq<CellState>,
    counts: Seq<u64>,
    best_cell: Option<usize>,
    best_count: u64,
)
    requires
        states.len() <= usize::MAX,
        best_shot(states, counts, best_cell, best_count),
    ensures
        best_cell is None <==> forall|c: int|
            #![trigger counts[c]]
            0 <= c < states.len() && states[c] == CellState::Unknown ==> counts[c] == 0,
        best_cell is None ==> best_count == 0,
        best_cell matches Some(b) ==> {
            &&& b < states.len()
            &&& states[b as int] == CellState::Unknown
            &&& best_count == counts[b as int]
            &&& forall|c: int|
                #![trigger counts[c]]
                0 <= c < states.len() && states[c] == CellState::Unknown ==> counts[c]
                    <= counts[b as int] && (c < b ==> counts[c] < counts[b as int])
        },
{
}

/// A cell that may hold no remaining ship is in no open placement and has count
/// zero, however the heatmap is computed: a miss, a sunk cell, and under the gap
/// rule every cell near any sunk cell but an open hit.
pub proof fn lemma_no_ship_there(
    cfg: &GameConfig,
    states: Seq<CellState>,
    remaining: Seq<usize>,
    lens: Seq<usize>,
    r: SolveResult,
    c: int,
)
    requires
        cfg.fits(),
        states.len() == cfg.size(),
        longest_first_of(lens, remaining),
        solved(cfg, states, remaining, r),
        0 <= c < states.len(),
        !may_hold(cfg.width as int, cfg.gap_rule, states, c),
    ensures
        r.counts@[c] == 0,
        r.best_cell != Some(c as usize),
        forall|i: int, j: int|
            #![trigger open_ships(cfg, states, lens)[i][j]]
            0 <= i < lens.len() && 0 <= j < open_ships(cfg, states, lens)[i].len()
                ==> !open_ships(cfg, states, lens)[i][j].contains(c as usize),
{
    lemma_descending(remaining, lens);
    let ships = open_ships(cfg, states, lens);
    let hits = hit_cells(states);
    let k = c as usize;
    assert forall|i: int, j: int|
        #![trigger ships[i][j]]
        0 <= i < lens.len() && 0 <= j < ships[i].len() implies !ships[i][j].contains(k) by {
        let p = ships[i][j];
        assert(ships[i] == open_placements(cfg, states, lens[i] as int));
        assert(ships[i].contains(p));
        lemma_open_placement(cfg, states, lens[i] as int, p);
        if p.contains(k) {
            let m = choose|m: int| 0 <= m < p.len() && p[m] == k;
            assert(may_hold(cfg.width as int, cfg.gap_rule, states, p[m] as int));
        }
    }
    let batches = choose|batches: nat|
        1 <= batches && #[trigger] solved_in(cfg, states, remaining, batches, r);
    assert(r.counts@[k as int] == r.counts@[c]);
    if r.method == Method::Exact {
        let found = fleets(cfg, ships, hits);
        let p = |f: Seq<int>| occupies(ships, f, k);
        assert(found.filter(p) =~= Set::empty()) by {
            assert forall|f: Seq<int>| !found.filter(p).contains(f) by {
                if found.filter(p).contains(f) {
                    let i = choose|i: int|
                        0 <= i < f.len() && ships[i][#[trigger] f[i]].contains(k);
                    assert(!ships[i][f[i]].contains(k));
                }
            }
        }
    } else if r.method == Method::MonteCarlo {
        let grid = choose|grid: Seq<u64>| #[trigger]
            estimates(
                cfg,
                ships,
                hits,
                MC_ATTEMPTS,
                batches,
                grid,
                r.configs,
                r.total,
            ) && shows(states, grid, r.counts@);
        let per = attempts_per_batch(MC_ATTEMPTS, batches);
        let s = samples(cfg, ships, hits, per, batches);
        assert(grid[k as int] == grid[c]);
        assert forall|i: int| 0 <= i < s.len() implies !occupies(ships, #[trigger] s[i], k) by {
            lemma_samples(cfg, ships, hits, per, batches, i);
            if occupies(ships, s[i], k) {
                let m = choose|m: int|
                    0 <= m < s[i].len() && ships[m][#[trigger] s[i][m]].contains(k);
                assert(!ships[m][s[i][m]].contains(k));
            }
        }
        lemma_count_none(ships, s, k);
        lemma_weight_none(ships, hits, ships.len(), k);
    }
}

/// Under the gap rule no remaining ship lies in the moat of any sunk cell: a cell
/// near it that is not an open hit is in no open placement, and its count is zero
/// whichever engine answers.
pub proof fn lemma_moat(
    cfg: &GameConfig,
    states: Seq<CellState>,
    remaining: Seq<usize>,
    lens: Seq<usize>,
    r: SolveResult,
    s: int,
    c: int,
)
    requires
        cfg.fits(),
        cfg.gap_rule,
        states.len() == cfg.size(),
        longest_first_of(lens, remaining),
        solved(cfg, states, remaining, r),
        0 <= s < states.len(),
        0 <= c < states.len(),
        states[s] == CellState::Sunk,
        states[c] != CellState::Hit,
        near(cfg.width as int, s, c),
    ensures
        r.counts@[c] == 0,
        r.best_cell != Some(c as usize),
        forall|len: int, p: Seq<usize>|
            #![trigger open_placements(cfg, states, len).contains(p)]
            open_placements(cfg, states, len).contains(p) ==> !p.contains(c as usize),
{
    assert(!may_hold(cfg.width as int, cfg.gap_rule, states, c));
    lemma_no_ship_there(cfg, states, remaining, lens, r, c);
    assert forall|len: int, p: Seq<usize>|
        #![trigger open_placements(cfg, states, len).contains(p)]
        open_placements(cfg, states, len).contains(p) implies !p.contains(c as usize) by {
        lemma_open_placement(cfg, states, len, p);
        if p.contains(c as usize) {
            let k = choose|k: int| 0 <= k < p.len() && p[k] == c as usize;
            assert(may_hold(cfg.width as int, cfg.gap_rule, states, p[k] as int));
        }
    }
}

/// The open placements of each ship are its straight runs on cells that may hold
/// it, along the rows first and then along the columns.
pub proof fn lemma_open_ships(
    cfg: &GameConfig,
    states: Seq<CellState>,
    lens: Seq<usize>,
    i: int,
)
    requires
        cfg.fits(),
        0 <= i < lens.len(),
    ensures
        open_ships(cfg, states, lens).len() == lens.len(),
        in_order(cfg.width as int, open_ships(cfg, states, lens)[i]),
        forall|p: Seq<usize>| #[trigger]
            open_ships(cfg, states, lens)[i].contains(p) <==> straight(
                cfg.width as int,
                cfg.height as int,
                lens[i] as int,
                p,
            ) && all_may_hold(cfg.width as int, cfg.gap_rule, states, p),
{
    let len = lens[i] as int;
    assert(open_ships(cfg, states, lens)[i] == open_placements(cfg, states, len));
    lemma_placement_order(cfg, len);
    lemma_filter_in_order(
        cfg.width as int,
        placement_list(cfg, len),
        |p: Seq<usize>| clear(cfg, states, p),
    );
    assert forall|p: Seq<usize>| #[trigger]
        open_ships(cfg, states, lens)[i].contains(p) <==> straight(
            cfg.width as int,
            cfg.height as int,
            len,
            p,
        ) && all_may_hold(cfg.width as int, cfg.gap_rule, states, p) by {
        lemma_open_placement(cfg, states, len, p);
    }
}

/// A fleet is one placement of each ship, any two separate, that cover the hits.
pub proof fn lemma_fleet_plainly(
    cfg: &GameConfig,
    ships: Seq<Seq<Seq<usize>>>,
    hits: Seq<usize>,
    f: Seq<int>,
)
    ensures
        fleets(cfg, ships, hits).contains(f) <==> {
            &&& f.len() == ships.len()
            &&& forall|i: int|
                #![trigger ships[i]]
                #![trigger f[i]]
                0 <= i < f.len() ==> 0 <= f[i] < ships[i].len()
            &&& forall|i: int, j: int|
                #![trigger ships[i], ships[j]]
                #![trigger f[i], f[j]]
                0 <= i < j < f.len() ==> separate(
                    cfg.width as int,
                    cfg.gap_rule,
                    ships[i][f[i]],
                    ships[j][f[j]],
                )
            &&& forall|k: int|
                0 <= k < hits.len() ==> covered(arrangement(ships, f), #[trigger] hits[k])
        },
{
    assert forall|i: int, j: int|
        #![trigger f[i], f[j]]
        0 <= i < j < f.len() implies (compatible(
        cfg,
        ships[i][f[i]],
        ships[j][f[j]],
    ) <==> separate(cfg.width as int, cfg.gap_rule, ships[i][f[i]], ships[j][f[j]])) by {
        lemma_compatible_separate(cfg, ships[i][f[i]], ships[j][f[j]]);
    }
    assert forall|k: int| 0 <= k < hits.len() implies (occupies(ships, f, #[trigger] hits[k])
        <==> covered(arrangement(ships, f), hits[k])) by {
        lemma_occupies_covered(ships, f, hits[k]);
    }
    let found = fleets(cfg, ships, hits);
    if found.contains(f) {
        assert forall|i: int|
            #![trigger ships[i]]
            #![trigger f[i]]
            0 <= i < f.len() implies 0 <= f[i] < ships[i].len() by {}
        assert forall|i: int, j: int|
            #![trigger ships[i], ships[j]]
            #![trigger f[i], f[j]]
            0 <= i < j < f.len() implies separate(
            cfg.width as int,
            cfg.gap_rule,
            ships[i][f[i]],
            ships[j][f[j]],
        ) by {
            assert(compatible(cfg, ships[i][f[i]], ships[j][f[j]]));
        }
    }
}

/// The count at a cell is the number of the fleets that cover it.
pub proof fn lemma_count_plainly(ships: Seq<Seq<Seq<usize>>>, s: Set<Seq<int>>, c: usize)
    ensures
        count_at(ships, s, c) == s.filter(
            |f: Seq<int>| covered(arrangement(ships, f), c),
        ).len(),
{
    assert(s.filter(|f: Seq<int>| occupies(ships, f, c)) =~= s.filter(
        |f: Seq<int>| covered(arrangement(ships, f), c),
    )) by {
        assert forall|f: Seq<int>| occupies(ships, f, c) == #[trigger] covered(
            arrangement(ships, f),
            c,
        ) by {
            lemma_occupies_covered(ships, f, c);
        }
    }
}

proof fn lemma_count_none(ships: Seq<Seq<Seq<usize>>>, s: Seq<Seq<int>>, c: usize)
    requires
        forall|i: int| 0 <= i < s.len() ==> !occupies(ships, #[trigger] s[i], c),
    ensures
        count_in(ships, s, c) == 0,
    decreases s.len(),
{
    if s.len() > 0 {
        let t = s.drop_last();
        assert forall|i: int| 0 <= i < t.len() implies !occupies(ships, #[trigger] t[i], c) by {
            assert(t[i] == s[i]);
        }
        lemma_count_none(ships, t, c);
        assert(s[s.len() - 1] == s.last());
    }
}

proof fn lemma_weight_none(ships: Seq<Seq<Seq<usize>>>, hits: Seq<usize>, m: nat, c: usize)
    requires
        m <= ships.len(),
        forall|i: int, j: int|
            #![trigger ships[i][j]]
            0 <= i < ships.len() && 0 <= j < ships[i].len() ==> !ships[i][j].contains(c),
    ensures
        fleet_weight_at(ships, hits, m, c) == 0,
    decreases m,
{
    if m > 0 {
        lemma_weight_none(ships, hits, (m - 1) as nat, c);
        lemma_ship_weight_none(ships, hits, m - 1, ships[m - 1].len(), c);
    }
}

proof fn lemma_ship_weight_none(
    ships: Seq<Seq<Seq<usize>>>,
    hits: Seq<usize>,
    i: int,
    k: nat,
    c: usize,
)
    requires
        0 <= i < ships.len(),
        k <= ships[i].len(),
        forall|i: int, j: int|
            #![trigger ships[i][j]]
            0 <= i < ships.len() && 0 <= j < ships[i].len() ==> !ships[i][j].contains(c),
    ensures
        ship_weight_at(ships[i], hits, k, c) == 0,
    decreases k,
{
    if k > 0 {
        lemma_ship_weight_none(ships, hits, i, (k - 1) as nat, c);
        assert(!ships[i][k - 1].contains(c));
    }
}

} // verus!
