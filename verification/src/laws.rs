//! Laws of heatmaps and of the actions of a game.

use crate::board::GameConfig;
use crate::evidence::{is_path, lemma_linked, linked, revealed, run, without};
use crate::fleet::{fleets, is_fleet, lemma_count_bounded, lemma_prefix_finite, occupies, with_prefix};
use crate::game::{lcg, AppView, Mode};
use crate::geometry::{compatible, lemma_placements_distinct, placement_list};
use crate::layout::{lemma_placing_lens, placing, ship_lens, Placing};
use crate::order::descending;
use crate::outside::seeded_state;
use crate::plain::{
    all_may_hold, lemma_blocked_plainly, lemma_compatible_separate, lemma_placements_straight,
    may_hold, separate, straight,
};
use crate::sampling::{
    attempts_per_batch, estimates, lemma_count_in_bounded, lemma_fleet_weight_at_bounded,
    lemma_samples, samples,
};
use crate::solver::{
    blocked, clear, hit_cells, lemma_filter_no_duplicates, lemma_hit_cells,
    open_placements, open_ships, prefers_exact, shows, solved, solved_in, CellState, Method, SolveResult, MC_ATTEMPTS,
};
use vstd::prelude::*;
use vstd::seq_lib::group_to_multiset_ensures;
use vstd::set_lib::{lemma_set_subset_finite, lemma_subset_equality};

verus! {

/// Probabilities lie between zero and one: no count exceeds the total, and so
/// neither does the best. The total is the number of configurations unless that
/// is zero.
pub proof fn lemma_probability_range(
    cfg: &GameConfig,
    states: Seq<CellState>,
    remaining: Seq<usize>,
    r: SolveResult,
)
    requires
        states.len() == cfg.size(),
        cfg.fits(),
        solved(cfg, states, remaining, r),
    ensures
        forall|c: int| 0 <= c < states.len() ==> #[trigger] r.counts@[c] <= r.total,
        r.best_count <= r.total,
        r.configs > 0 ==> r.total == r.configs,
{
    let ships = open_ships(cfg, states, descending(remaining));
    let hits = hit_cells(states);
    let batches = choose|batches: nat|
        1 <= batches && #[trigger] solved_in(cfg, states, remaining, batches, r);
    assert forall|c: int| 0 <= c < states.len() implies #[trigger] r.counts@[c] <= r.total by {
        let k = c as usize;
        assert(r.counts@[k as int] == r.counts@[c]);
        if r.method == Method::Exact {
            lemma_fleets_finite(cfg, ships, hits);
            lemma_count_bounded(ships, fleets(cfg, ships, hits), k);
        } else if r.method == Method::MonteCarlo {
            let grid = choose|grid: Seq<u64>| #[trigger]
                estimates(
                    cfg,
                    ships,
                    hits,
                    MC_ATTEMPTS,
                    batches,
                    grid,
                    r.configs,
                    r.total,
                ) && shows(states, grid, r.counts@);
            let s = samples(cfg, ships, hits, attempts_per_batch(MC_ATTEMPTS, batches), batches);
            assert(grid[k as int] == grid[c]);
            lemma_count_in_bounded(ships, s, k);
            lemma_fleet_weight_at_bounded(ships, hits, ships.len(), k);
        }
    }
}

/// The fleets that explain the hits are finitely many.
pub proof fn lemma_fleets_finite(
    cfg: &GameConfig,
    ships: Seq<Seq<Seq<usize>>>,
    hits: Seq<usize>,
)
    ensures
        fleets(cfg, ships, hits).finite(),
{
    let none = Seq::<int>::empty();
    lemma_prefix_finite(cfg, ships, hits, none);
    assert(fleets(cfg, ships, hits) =~= with_prefix(cfg, ships, hits, none)) by {
        assert forall|g: Seq<int>| none.is_prefix_of(g) by {
            assert(g.subrange(0, 0) =~= none);
        }
    }
}

/// A cell of which something is known has probability zero and is never
/// recommended.
pub proof fn lemma_known_cells(
    cfg: &GameConfig,
    states: Seq<CellState>,
    remaining: Seq<usize>,
    r: SolveResult,
    c: int,
)
    requires
        states.len() == cfg.size(),
        cfg.fits(),
        solved(cfg, states, remaining, r),
        0 <= c < states.len(),
        states[c] != CellState::Unknown,
    ensures
        r.counts@[c] == 0,
        r.best_cell != Some(c as usize),
{
    let k = c as usize;
    assert(r.counts@[k as int] == r.counts@[c]);
}

/// Contradictory evidence: where no fleet explains it, no configuration is
/// enumerated and no sample accepted, and the result is not called exact. Where
/// the exact engine is asked, it is trivial, and nothing is recommended.
pub proof fn lemma_contradiction(
    cfg: &GameConfig,
    states: Seq<CellState>,
    remaining: Seq<usize>,
    r: SolveResult,
)
    requires
        solved(cfg, states, remaining, r),
        forall|f: Seq<int>|
            !#[trigger] fleets(
                cfg,
                open_ships(cfg, states, descending(remaining)),
                hit_cells(states),
            ).contains(f),
    ensures
        r.configs == 0,
        r.method != Method::Exact,
        prefers_exact(open_ships(cfg, states, descending(remaining)), hit_cells(states)) ==> {
            r.method == Method::Trivial && r.best_cell is None
        },
{
    let ships = open_ships(cfg, states, descending(remaining));
    let hits = hit_cells(states);
    let found = fleets(cfg, ships, hits);
    assert(found =~= Set::empty());
    let batches = choose|batches: nat|
        1 <= batches && #[trigger] solved_in(cfg, states, remaining, batches, r);
    if r.method == Method::MonteCarlo {
        let per = attempts_per_batch(MC_ATTEMPTS, batches);
        if samples(cfg, ships, hits, per, batches).len() > 0 {
            lemma_samples(cfg, ships, hits, per, batches, 0);
            assert(found.contains(samples(cfg, ships, hits, per, batches)[0]));
        }
    }
}

/// The exact engine tells certainty: a cell's count is zero exactly when no
/// fleet that explains the evidence lies on it, and it is the number of
/// configurations exactly when every such fleet does.
pub proof fn lemma_exact_certainty(
    cfg: &GameConfig,
    states: Seq<CellState>,
    remaining: Seq<usize>,
    r: SolveResult,
    c: usize,
)
    requires
        states.len() == cfg.size(),
        cfg.fits(),
        solved(cfg, states, remaining, r),
        r.method == Method::Exact,
        c < states.len(),
        states[c as int] == CellState::Unknown,
    ensures
        ({
            let ships = open_ships(cfg, states, descending(remaining));
            let found = fleets(cfg, ships, hit_cells(states));
            &&& r.counts@[c as int] == 0 <==> forall|f: Seq<int>| #[trigger]
                found.contains(f) ==> !occupies(ships, f, c)
            &&& r.counts@[c as int] == r.configs <==> forall|f: Seq<int>| #[trigger]
                found.contains(f) ==> occupies(ships, f, c)
        }),
{
    let ships = open_ships(cfg, states, descending(remaining));
    let found = fleets(cfg, ships, hit_cells(states));
    lemma_fleets_finite(cfg, ships, hit_cells(states));
    let p = |f: Seq<int>| occupies(ships, f, c);
    let on = found.filter(p);
    lemma_set_subset_finite(found, on);
    assert(r.counts@[c as int] == on.len());
    if on.len() == 0 {
        assert forall|f: Seq<int>| #[trigger] found.contains(f) implies !occupies(ships, f, c) by {
            if p(f) {
                assert(on.contains(f));
            }
        }
    }
    if forall|f: Seq<int>| #[trigger] found.contains(f) ==> !occupies(ships, f, c) {
        assert(on =~= Set::empty());
    }
    if forall|f: Seq<int>| #[trigger] found.contains(f) ==> occupies(ships, f, c) {
        assert(on =~= found);
    }
    if on.len() == found.len() {
        lemma_subset_equality(on, found);
        assert forall|f: Seq<int>| #[trigger] found.contains(f) implies occupies(ships, f, c) by {
            assert(on.contains(f));
        }
    }
}

/// The cells of each ship of a fleet.
pub open spec fn arrangement(ships: Seq<Seq<Seq<usize>>>, f: Seq<int>) -> Seq<Seq<usize>> {
    Seq::new(f.len(), |i: int| ships[i][f[i]])
}

/// Ships of the given lengths that are consistent with the evidence: each is a
/// straight run of cells of the board that may hold a remaining ship, any two are
/// separate, and every open hit is covered.
pub open spec fn consistent(
    cfg: &GameConfig,
    states: Seq<CellState>,
    lens: Seq<usize>,
    a: Seq<Seq<usize>>,
) -> bool {
    &&& a.len() == lens.len()
    &&& forall|i: int|
        #![trigger a[i]]
        0 <= i < a.len() ==> {
            &&& straight(cfg.width as int, cfg.height as int, lens[i] as int, a[i])
            &&& all_may_hold(cfg.width as int, cfg.gap_rule, states, a[i])
        }
    &&& forall|i: int, j: int|
        #![trigger a[i], a[j]]
        0 <= i < j < a.len() ==> separate(cfg.width as int, cfg.gap_rule, a[i], a[j])
    &&& forall|c: int|
        #![trigger states[c]]
        0 <= c < states.len() && states[c] == CellState::Hit ==> covered(a, c as usize)
}

/// Some ship lies on the cell.
pub open spec fn covered(a: Seq<Seq<usize>>, c: usize) -> bool {
    exists|i: int| 0 <= i < a.len() && (#[trigger] a[i]).contains(c)
}

/// One of the fleets that explain the evidence is the arrangement.
pub open spec fn counted(
    cfg: &GameConfig,
    states: Seq<CellState>,
    lens: Seq<usize>,
    a: Seq<Seq<usize>>,
) -> bool {
    let ships = open_ships(cfg, states, lens);
    exists|f: Seq<int>| #[trigger]
        fleets(cfg, ships, hit_cells(states)).contains(f) && arrangement(ships, f) == a
}

/// The fleets that the exact engine counts are the arrangements of the remaining
/// ships that are consistent with the evidence: every such arrangement is one of
/// them and every one is such an arrangement.
pub proof fn lemma_arrangements(
    cfg: &GameConfig,
    states: Seq<CellState>,
    lens: Seq<usize>,
    a: Seq<Seq<usize>>,
)
    requires
        cfg.fits(),
        states.len() == cfg.size(),
    ensures
        consistent(cfg, states, lens, a) <==> counted(cfg, states, lens, a),
{
    let ships = open_ships(cfg, states, lens);
    let hits = hit_cells(states);
    let found = fleets(cfg, ships, hits);
    lemma_hit_cells(states);
    if consistent(cfg, states, lens, a) {
        let f = Seq::new(
            a.len(),
            |i: int| choose|j: int| 0 <= j < ships[i].len() && ships[i][j] == a[i],
        );
        assert forall|i: int| 0 <= i < f.len() implies 0 <= #[trigger] f[i] < ships[i].len()
            && ships[i][f[i]] == a[i] by {
            lemma_open_placement(cfg, states, lens[i] as int, a[i]);
            assert(ships[i] == open_placements(cfg, states, lens[i] as int));
            let j = choose|j: int| 0 <= j < ships[i].len() && ships[i][j] == a[i];
            assert(0 <= j < ships[i].len() && ships[i][j] == a[i]);
        }
        assert forall|i: int, j: int|
            #![trigger f[i], f[j]]
            0 <= i < j < f.len() implies compatible(cfg, ships[i][f[i]], ships[j][f[j]]) by {
            lemma_compatible_separate(cfg, a[i], a[j]);
        }
        assert forall|k: int| 0 <= k < hits.len() implies occupies(ships, f, #[trigger] hits[k]) by {
            assert(hits.contains(hits[k]));
            assert(states[hits[k] as int] == CellState::Hit);
            let i = choose|i: int| 0 <= i < a.len() && (#[trigger] a[i]).contains(hits[k]);
            assert(ships[i][f[i]] == a[i]);
        }
        assert(is_fleet(cfg, ships, hits, f));
        assert(found.contains(f));
        assert(arrangement(ships, f) =~= a);
    }
    if counted(cfg, states, lens, a) {
        let f = choose|f: Seq<int>| #[trigger] found.contains(f) && arrangement(ships, f) == a;
        assert forall|i: int|
            #![trigger a[i]]
            #![trigger lens[i]]
            0 <= i < a.len() implies straight(
            cfg.width as int,
            cfg.height as int,
            lens[i] as int,
            a[i],
        ) && all_may_hold(cfg.width as int, cfg.gap_rule, states, a[i]) by {
            assert(0 <= f[i] < ships[i].len());
            assert(a[i] == ships[i][f[i]]);
            assert(ships[i].contains(a[i]));
            lemma_open_placement(cfg, states, lens[i] as int, a[i]);
        }
        assert forall|i: int, j: int|
            #![trigger a[i], a[j]]
            0 <= i < j < a.len() implies separate(
            cfg.width as int,
            cfg.gap_rule,
            a[i],
            a[j],
        ) by {
            assert(compatible(cfg, ships[i][f[i]], ships[j][f[j]]));
            lemma_compatible_separate(cfg, a[i], a[j]);
        }
        assert forall|c: int|
            #![trigger states[c]]
            0 <= c < states.len() && states[c] == CellState::Hit implies covered(
            a,
            c as usize,
        ) by {
            assert(hits.contains(c as usize));
            let k = choose|k: int| 0 <= k < hits.len() && hits[k] == c as usize;
            assert(occupies(ships, f, hits[k]));
            let i = choose|i: int| 0 <= i < f.len() && ships[i][#[trigger] f[i]].contains(hits[k]);
            assert(a[i].contains(c as usize));
        }
    }
}

/// No arrangement is counted twice.
pub proof fn lemma_arrangements_distinct(
    cfg: &GameConfig,
    states: Seq<CellState>,
    lens: Seq<usize>,
    f: Seq<int>,
    g: Seq<int>,
)
    requires
        cfg.fits(),
        fleets(cfg, open_ships(cfg, states, lens), hit_cells(states)).contains(f),
        fleets(cfg, open_ships(cfg, states, lens), hit_cells(states)).contains(g),
        arrangement(open_ships(cfg, states, lens), f) == arrangement(
            open_ships(cfg, states, lens),
            g,
        ),
    ensures
        f == g,
{
    let ships = open_ships(cfg, states, lens);
    assert forall|i: int| 0 <= i < f.len() implies f[i] == g[i] by {
        let list = placement_list(cfg, lens[i] as int);
        let pred = |p: Seq<usize>| clear(cfg, states, p);
        lemma_placements_distinct(cfg, lens[i] as int);
        lemma_filter_no_duplicates(list, pred);
        assert(ships[i] == list.filter(pred));
        assert(arrangement(ships, f)[i] == arrangement(ships, g)[i]);
    }
    assert(f =~= g);
}

/// The open placements of a ship are the straight runs of its length on cells that
/// may hold a remaining ship.
pub proof fn lemma_open_placement(
    cfg: &GameConfig,
    states: Seq<CellState>,
    len: int,
    p: Seq<usize>,
)
    requires
        cfg.fits(),
    ensures
        open_placements(cfg, states, len).contains(p) <==> straight(
            cfg.width as int,
            cfg.height as int,
            len,
            p,
        ) && all_may_hold(cfg.width as int, cfg.gap_rule, states, p),
{
    let list = placement_list(cfg, len);
    let pred = |p: Seq<usize>| clear(cfg, states, p);
    lemma_placements_straight(cfg, len, p);
    assert(clear(cfg, states, p) <==> all_may_hold(cfg.width as int, cfg.gap_rule, states, p)) by {
        assert forall|i: int| 0 <= i < p.len() implies (blocked(cfg, states, #[trigger] p[i] as int)
            <==> !may_hold(cfg.width as int, cfg.gap_rule, states, p[i] as int)) by {
            lemma_blocked_plainly(cfg, states, p[i] as int);
        }
    }
    if open_placements(cfg, states, len).contains(p) {
        list.lemma_filter_contains_rev(pred, p);
    }
    if list.contains(p) && clear(cfg, states, p) {
        let k = choose|k: int| 0 <= k < list.len() && list[k] == p;
        assert(pred(list[k]));
        list.lemma_filter_contains(pred, k);
    }
}

/// Turning a ship twice leaves it as it was.
pub proof fn lemma_rotated_twice(v: AppView)
    ensures
        v.rotated().rotated() == v,
{
}

/// A mark that moves on three times is what it was, with the shots counted.
pub proof fn lemma_cycled_thrice(v: AppView, cell: int)
    requires
        0 <= cell < v.states.len(),
    ensures
        v.cycled(cell).cycled(cell).cycled(cell) == (AppView {
            shots: revealed(v.states) as u32,
            dirty: true,
            ..v
        }),
{
    let w = v.cycled(cell).cycled(cell).cycled(cell);
    assert(w.states =~= v.states);
}

/// A shot at a cell of which something is known changes nothing; so a second
/// shot at a cell changes nothing.
pub proof fn lemma_fired_twice(v: AppView, cell: int)
    requires
        0 <= cell < v.states.len(),
        v.true_board is Some,
    ensures
        v.states[cell] != CellState::Unknown ==> v.fired(cell) == v,
        v.fired(cell).fired(cell) == v.fired(cell),
{
}

/// Removing a number that is in a list and adding it again gives back the
/// list, in another order.
pub proof fn lemma_without(v: Seq<usize>, x: usize)
    ensures
        v.contains(x) ==> without(v, x).to_multiset().insert(x) == v.to_multiset(),
        v.contains(x) ==> without(v, x).to_multiset() == v.to_multiset().remove(x),
        !v.contains(x) ==> without(v, x) == v,
{
    broadcast use group_to_multiset_ensures;

    v.index_of_first_ensures(x);
    if v.contains(x) {
        let i = v.index_of_first(x)->0;
        assert(v[i] == x);
        assert(v.remove(i).to_multiset() == v.to_multiset().remove(x));
        assert(v.to_multiset().count(x) > 0);
        assert(v.to_multiset().remove(x).insert(x) =~= v.to_multiset());
    }
}

/// Undoing a sunk ship: where a run of hits as long as a remaining ship was
/// sunk and no other sunk cell shares an edge with it, the sink tool turns it
/// back into hits and the ship back into a remaining one.
pub proof fn lemma_sink_undone(v: AppView, cell: int)
    requires
        v.states.len() == v.cfg.size(),
        v.cfg.fits(),
        0 <= cell < v.states.len(),
        v.states[cell] == CellState::Hit,
        v.remaining.contains(run(&v.cfg, v.states, CellState::Hit, cell).len() as usize),
        forall|a: int, b: int|
            #![trigger v.states[a], v.states[b]]
            0 <= a < v.states.len() && 0 <= b < v.states.len() && v.states[a] == CellState::Sunk
                && run(&v.cfg, v.states, CellState::Hit, cell).contains(b)
                ==> !v.cfg.edge_touching(b, a),
    ensures
        ({
            let w = v.sink_toggled(cell).sink_toggled(cell);
            &&& w.states == v.states
            &&& w.remaining.to_multiset() == v.remaining.to_multiset()
        }),
{
    let cells = run(&v.cfg, v.states, CellState::Hit, cell);
    let once = v.sink_toggled(cell);
    let twice = once.sink_toggled(cell);
    let sunk = once.states;
    assert(linked(&v.cfg, v.states, CellState::Hit, cell, cell)) by {
        let path = seq![cell];
        assert(is_path(&v.cfg, v.states, CellState::Hit, path));
        assert(path.last() == cell);
    }
    assert(cells.contains(cell));
    assert(sunk[cell] == CellState::Sunk);
    let again = run(&v.cfg, sunk, CellState::Sunk, cell);
    assert forall|c: int| cells.contains(c) <==> again.contains(c) by {
        if cells.contains(c) {
            let path = choose|path: Seq<int>| #[trigger]
                is_path(&v.cfg, v.states, CellState::Hit, path) && path[0] == cell && path.last()
                    == c;
            assert forall|i: int| 0 <= i < path.len() implies cells.contains(#[trigger] path[i]) by {
                lemma_path_prefix(&v.cfg, v.states, CellState::Hit, path, i);
            }
            assert(is_path(&v.cfg, sunk, CellState::Sunk, path));
        }
        if again.contains(c) {
            let path = choose|path: Seq<int>| #[trigger]
                is_path(&v.cfg, sunk, CellState::Sunk, path) && path[0] == cell && path.last()
                    == c;
            lemma_path_stays(v, cell, path);
        }
    }
    assert(again =~= cells);
    assert(twice.states =~= v.states) by {
        assert forall|c: int| 0 <= c < v.states.len() implies twice.states[c] == v.states[c] by {
            if cells.contains(c) {
                lemma_linked(&v.cfg, v.states, CellState::Hit, cell, c);
            }
        }
    }
    let len = cells.len() as usize;
    lemma_without(v.remaining, len);
    assert(twice.remaining.to_multiset() == v.remaining.to_multiset()) by {
        broadcast use group_to_multiset_ensures;

        assert(twice.remaining == without(v.remaining, len).push(len));
    }
}

/// Every cell on a path hangs together with its start.
proof fn lemma_path_prefix(
    cfg: &GameConfig,
    states: Seq<CellState>,
    target: CellState,
    path: Seq<int>,
    i: int,
)
    requires
        is_path(cfg, states, target, path),
        0 <= i < path.len(),
    ensures
        linked(cfg, states, target, path[0], path[i]),
{
    let part = path.take(i + 1);
    assert(is_path(cfg, states, target, part)) by {
        assert forall|a: int, b: int|
            #![trigger part[a], part[b]]
            0 <= a && b == a + 1 && b < part.len() implies cfg.edge_touching(part[a], part[b]) by {
            assert(part[a] == path[a] && part[b] == path[b]);
        }
        assert forall|a: int|
            #![trigger part[a]]
            0 <= a < part.len() implies 0 <= part[a] < states.len() && states[part[a]] == target by {
            assert(part[a] == path[a]);
        }
    }
    assert(part[0] == path[0] && part.last() == path[i]);
}

/// A path of sunk cells from a freshly sunk run stays in the run.
proof fn lemma_path_stays(v: AppView, cell: int, path: Seq<int>)
    requires
        0 <= cell < v.states.len(),
        v.states[cell] == CellState::Hit,
        is_path(&v.cfg, v.sink_toggled(cell).states, CellState::Sunk, path),
        path[0] == cell,
        run(&v.cfg, v.states, CellState::Hit, cell).contains(cell),
        forall|a: int, b: int|
            #![trigger v.states[a], v.states[b]]
            0 <= a < v.states.len() && 0 <= b < v.states.len() && v.states[a] == CellState::Sunk
                && run(&v.cfg, v.states, CellState::Hit, cell).contains(b)
                ==> !v.cfg.edge_touching(b, a),
    ensures
        run(&v.cfg, v.states, CellState::Hit, cell).contains(path.last()),
    decreases path.len(),
{
    let cells = run(&v.cfg, v.states, CellState::Hit, cell);
    let sunk = v.sink_toggled(cell).states;
    if path.len() > 1 {
        let n = path.len() as int;
        let rest = path.drop_last();
        assert(is_path(&v.cfg, sunk, CellState::Sunk, rest)) by {
            assert forall|a: int, b: int|
                #![trigger rest[a], rest[b]]
                0 <= a && b == a + 1 && b < rest.len() implies v.cfg.edge_touching(
                rest[a],
                rest[b],
            ) by {
                assert(rest[a] == path[a] && rest[b] == path[b]);
            }
            assert forall|a: int|
                #![trigger rest[a]]
                0 <= a < rest.len() implies 0 <= rest[a] < sunk.len() && sunk[rest[a]]
                == CellState::Sunk by {
                assert(rest[a] == path[a]);
            }
        }
        lemma_path_stays(v, cell, rest);
        let (a, b) = (path[n - 2], path[n - 1]);
        assert(rest.last() == a);
        assert(v.cfg.edge_touching(a, b));
        assert(sunk[b] == CellState::Sunk);
        if !cells.contains(b) {
            assert(v.states[b] == CellState::Sunk);
            lemma_linked(&v.cfg, v.states, CellState::Hit, cell, a);
            assert(v.states[a] == CellState::Hit);
            assert(false);
        }
    }
}

/// A fleet placed by hand is the fleet of the rules: while the ships on the
/// board are the first of the fleet, so they are after the next try, and when
/// play begins they are all of it.
pub proof fn lemma_hand_placed(v: AppView, anchor: int)
    requires
        v.mode == Mode::Setup,
        v.place_idx <= v.cfg.ships@.len(),
        v.cfg.ships@.len() <= usize::MAX,
        v.in_order(),
    ensures
        ({
            let w = v.ship_tried(anchor);
            &&& w.cfg == v.cfg
            &&& w.in_order()
            &&& w.mode == Mode::Play ==> (w.true_board matches Some(ships) && ship_lens(ships)
                == w.cfg.ships@)
        }),
{
    let w = v.ship_tried(anchor);
    let fleet = v.cfg.ships@;
    if w.setup_ships != v.setup_ships {
        assert(ship_lens(w.setup_ships) =~= ship_lens(v.setup_ships).push(
            fleet[v.place_idx as int],
        ));
        assert(fleet.take(v.place_idx + 1) =~= fleet.take(v.place_idx as int).push(
            fleet[v.place_idx as int],
        ));
    }
    assert(fleet.take(fleet.len() as int) =~= fleet);
}

/// A fleet completed at random is the fleet of the rules.
pub proof fn lemma_rest_randomized(v: AppView)
    requires
        v.mode == Mode::Setup,
        v.place_idx <= v.cfg.ships@.len(),
        v.cfg.ships@.len() <= usize::MAX,
        v.in_order(),
    ensures
        ({
            let w = v.rest_randomized();
            w.mode == Mode::Play ==> (w.true_board matches Some(ships) && ship_lens(ships)
                == v.cfg.ships@)
        }),
{
    let rest = v.cfg.ships@.skip(v.place_idx as int);
    let start = Placing {
        ships: v.setup_ships,
        stuck: false,
        state: seeded_state(lcg(v.seed_counter)),
    };
    lemma_placing_lens(&v.cfg, rest, rest.len(), start);
    let end = placing(&v.cfg, rest, rest.len(), start);
    if !end.stuck {
        assert(rest.take(rest.len() as int) =~= rest);
        assert(v.cfg.ships@.take(v.place_idx as int) + rest =~= v.cfg.ships@);
    }
}

} // verus!
