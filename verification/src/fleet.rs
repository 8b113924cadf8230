//! Arrangements of a whole fleet, as mathematics.
//!
//! `ships[i]` lists the placements that ship `i` may take. A fleet is a
//! sequence of picks: `f[i]` is the index of the placement that ship `i` takes.

use crate::board::{views, GameConfig};
use crate::geometry::{compatible, lemma_touching_symmetric, on_board, placeable};
use vstd::prelude::*;
use vstd::set_lib::{lemma_len_subset, lemma_set_disjoint_lens, lemma_set_subset_finite};

verus! {

/// The placements behind nested vectors.
pub open spec fn ships_view(v: Seq<Vec<Vec<usize>>>) -> Seq<Seq<Seq<usize>>> {
    v.map_values(|s: Vec<Vec<usize>>| views(s@))
}

/// Every placement of every ship consists of distinct cells of the board.
pub open spec fn all_on_board(cfg: &GameConfig, ships: Seq<Seq<Seq<usize>>>) -> bool {
    forall|i: int, j: int|
        #![trigger ships[i][j]]
        0 <= i < ships.len() && 0 <= j < ships[i].len() ==> on_board(cfg, ships[i][j])
}

/// The first ships of a fleet, each with one of its placements, none of them
/// in the way of another.
pub open spec fn stands(cfg: &GameConfig, ships: Seq<Seq<Seq<usize>>>, f: Seq<int>) -> bool {
    &&& f.len() <= ships.len()
    &&& forall|i: int| 0 <= i < f.len() ==> 0 <= #[trigger] f[i] < ships[i].len()
    &&& forall|i: int, j: int|
        #![trigger f[i], f[j]]
        0 <= i < j < f.len() ==> compatible(cfg, ships[i][f[i]], ships[j][f[j]])
}

/// Some ship of the fleet lies on the cell `c`.
pub open spec fn occupies(ships: Seq<Seq<Seq<usize>>>, f: Seq<int>, c: usize) -> bool {
    exists|i: int| 0 <= i < f.len() && ships[i][#[trigger] f[i]].contains(c)
}

/// Every cell of `hits` is occupied by the fleet.
pub open spec fn covers(ships: Seq<Seq<Seq<usize>>>, f: Seq<int>, hits: Seq<usize>) -> bool {
    forall|k: int| 0 <= k < hits.len() ==> occupies(ships, f, #[trigger] hits[k])
}

/// A whole fleet that explains the hits.
pub open spec fn is_fleet(
    cfg: &GameConfig,
    ships: Seq<Seq<Seq<usize>>>,
    hits: Seq<usize>,
    f: Seq<int>,
) -> bool {
    &&& f.len() == ships.len()
    &&& stands(cfg, ships, f)
    &&& covers(ships, f, hits)
}

/// All the whole fleets that explain the hits.
pub open spec fn fleets(
    cfg: &GameConfig,
    ships: Seq<Seq<Seq<usize>>>,
    hits: Seq<usize>,
) -> Set<Seq<int>> {
    Set::new(|f: Seq<int>| is_fleet(cfg, ships, hits, f))
}

/// How many of the given fleets lie on the cell `c`.
pub open spec fn count_at(
    ships: Seq<Seq<Seq<usize>>>,
    s: Set<Seq<int>>,
    c: usize,
) -> nat {
    s.filter(|f: Seq<int>| occupies(ships, f, c)).len()
}

/// The fleets of `fleets` that begin with the picks `f`.
pub open spec fn with_prefix(
    cfg: &GameConfig,
    ships: Seq<Seq<Seq<usize>>>,
    hits: Seq<usize>,
    f: Seq<int>,
) -> Set<Seq<int>> {
    Set::new(|g: Seq<int>| is_fleet(cfg, ships, hits, g) && f.is_prefix_of(g))
}

/// The fleets that begin with `f` and whose next pick is below `j`.
pub open spec fn with_next(
    cfg: &GameConfig,
    ships: Seq<Seq<Seq<usize>>>,
    hits: Seq<usize>,
    f: Seq<int>,
    j: int,
) -> Set<Seq<int>> {
    Set::new(
        |g: Seq<int>|
            is_fleet(cfg, ships, hits, g) && f.is_prefix_of(g) && f.len() < g.len() && g[f.len() as int] < j,
    )
}

/// `occ` marks the cells that the picks `f` lie on.
pub open spec fn marks(
    cfg: &GameConfig,
    occ: Seq<bool>,
    ships: Seq<Seq<Seq<usize>>>,
    f: Seq<int>,
) -> bool {
    &&& occ.len() == cfg.size()
    &&& forall|c: usize|
        #![trigger occupies(ships, f, c)]
        c < cfg.size() ==> (occ[c as int] <==> occupies(ships, f, c))
}

/// The total length of the ships from the `i`-th on.
pub open spec fn cells_from(lens: Seq<usize>, i: int) -> int
    decreases lens.len() - i,
{
    if 0 <= i < lens.len() {
        lens[i] + cells_from(lens, i + 1)
    } else {
        0
    }
}

/// Each placement of ship `i` has `lens[i]` cells.
pub open spec fn sized(ships: Seq<Seq<Seq<usize>>>, lens: Seq<usize>) -> bool {
    &&& ships.len() == lens.len()
    &&& forall|i: int, j: int|
        #![trigger ships[i][j]]
        0 <= i < ships.len() && 0 <= j < ships[i].len() ==> ships[i][j].len() == lens[i]
}

/// The fleets with a next pick below `j + 1` are those with one below `j` and
/// those that pick `j` next.
pub proof fn lemma_next_splits(
    cfg: &GameConfig,
    ships: Seq<Seq<Seq<usize>>>,
    hits: Seq<usize>,
    f: Seq<int>,
    j: int,
)
    requires
        f.len() < ships.len(),
    ensures
        with_next(cfg, ships, hits, f, j + 1) == with_next(cfg, ships, hits, f, j).union(
            with_prefix(cfg, ships, hits, f.push(j)),
        ),
        with_next(cfg, ships, hits, f, j).disjoint(with_prefix(cfg, ships, hits, f.push(j))),
{
    let a = with_next(cfg, ships, hits, f, j + 1);
    let b = with_next(cfg, ships, hits, f, j);
    let p = with_prefix(cfg, ships, hits, f.push(j));
    assert forall|g: Seq<int>| a.contains(g) <==> b.union(p).contains(g) by {
        if a.contains(g) && !b.contains(g) {
            assert(g[f.len() as int] == j);
            assert(g.take((f.len() + 1) as int) =~= f.push(j)) by {
                assert(g.take(f.len() as int) == f);
                assert forall|k: int| 0 <= k < f.len() implies g[k] == f[k] by {
                    assert(g.take(f.len() as int)[k] == f[k]);
                }
            }
        }
        if p.contains(g) {
            let q = f.push(j);
            assert(g.take(q.len() as int) == q);
            assert(g.take(f.len() as int) =~= f) by {
                assert forall|k: int| 0 <= k < f.len() implies g[k] == f[k] by {
                    assert(g.take(q.len() as int)[k] == q[k]);
                }
            }
            assert(g.take(q.len() as int)[f.len() as int] == j);
        }
    }
    assert(a =~= b.union(p));
    assert forall|g: Seq<int>| b.contains(g) implies !p.contains(g) by {
        if p.contains(g) {
            let q = f.push(j);
            assert(g.take(q.len() as int) == q);
            assert(g.take(q.len() as int)[f.len() as int] == j);
        }
    }
}

/// No fleet picks below zero, and every fleet picks one of its placements.
pub proof fn lemma_next_ends(
    cfg: &GameConfig,
    ships: Seq<Seq<Seq<usize>>>,
    hits: Seq<usize>,
    f: Seq<int>,
)
    requires
        f.len() < ships.len(),
    ensures
        with_next(cfg, ships, hits, f, 0) == Set::<Seq<int>>::empty(),
        with_next(cfg, ships, hits, f, ships[f.len() as int].len() as int) == with_prefix(
            cfg,
            ships,
            hits,
            f,
        ),
{
    assert(with_next(cfg, ships, hits, f, 0) =~= Set::<Seq<int>>::empty());
    assert(with_next(cfg, ships, hits, f, ships[f.len() as int].len() as int) =~= with_prefix(
        cfg,
        ships,
        hits,
        f,
    ));
}

/// Picks that name a whole fleet are the one fleet that begins with them.
pub proof fn lemma_whole(
    cfg: &GameConfig,
    ships: Seq<Seq<Seq<usize>>>,
    hits: Seq<usize>,
    f: Seq<int>,
)
    requires
        f.len() == ships.len(),
    ensures
        with_prefix(cfg, ships, hits, f) == (if is_fleet(cfg, ships, hits, f) {
            Set::<Seq<int>>::empty().insert(f)
        } else {
            Set::<Seq<int>>::empty()
        }),
{
    let p = with_prefix(cfg, ships, hits, f);
    assert forall|g: Seq<int>| p.contains(g) implies g == f by {
        assert(g.take(f.len() as int) =~= g);
    }
    assert(f.take(f.len() as int) =~= f);
    if is_fleet(cfg, ships, hits, f) {
        assert(p =~= Set::<Seq<int>>::empty().insert(f));
    } else {
        assert(p =~= Set::<Seq<int>>::empty());
    }
}

/// Picks that stand in each other's way begin no fleet.
pub proof fn lemma_blocked_prefix(
    cfg: &GameConfig,
    ships: Seq<Seq<Seq<usize>>>,
    hits: Seq<usize>,
    f: Seq<int>,
)
    requires
        !stands(cfg, ships, f),
    ensures
        with_prefix(cfg, ships, hits, f) == Set::<Seq<int>>::empty(),
{
    assert forall|g: Seq<int>| !with_prefix(cfg, ships, hits, f).contains(g) by {
        if with_prefix(cfg, ships, hits, f).contains(g) {
            assert forall|k: int| 0 <= k < f.len() implies g[k] == f[k] by {
                assert(g.take(f.len() as int)[k] == f[k]);
            }
            assert(stands(cfg, ships, f));
        }
    }
    assert(with_prefix(cfg, ships, hits, f) =~= Set::<Seq<int>>::empty());
}

proof fn lemma_next_finite(
    cfg: &GameConfig,
    ships: Seq<Seq<Seq<usize>>>,
    hits: Seq<usize>,
    f: Seq<int>,
    j: nat,
)
    requires
        f.len() < ships.len(),
    ensures
        with_next(cfg, ships, hits, f, j as int).finite(),
    decreases ships.len() - f.len(), 0nat, j,
{
    if j == 0 {
        lemma_next_ends(cfg, ships, hits, f);
    } else {
        lemma_next_finite(cfg, ships, hits, f, (j - 1) as nat);
        lemma_prefix_finite(cfg, ships, hits, f.push(j - 1));
        lemma_next_splits(cfg, ships, hits, f, j - 1);
    }
}

/// Finitely many fleets begin with given picks.
pub proof fn lemma_prefix_finite(
    cfg: &GameConfig,
    ships: Seq<Seq<Seq<usize>>>,
    hits: Seq<usize>,
    f: Seq<int>,
)
    requires
        f.len() <= ships.len(),
    ensures
        with_prefix(cfg, ships, hits, f).finite(),
    decreases ships.len() - f.len(), 1nat, 0nat,
{
    if f.len() == ships.len() {
        lemma_whole(cfg, ships, hits, f);
    } else {
        lemma_next_ends(cfg, ships, hits, f);
        lemma_next_finite(cfg, ships, hits, f, ships[f.len() as int].len());
    }
}

/// Splitting a set of fleets splits its size and its counts.
pub proof fn lemma_split_counts(
    ships: Seq<Seq<Seq<usize>>>,
    a: Set<Seq<int>>,
    b: Set<Seq<int>>,
    c: usize,
)
    requires
        a.finite(),
        b.finite(),
        a.disjoint(b),
    ensures
        a.union(b).len() == a.len() + b.len(),
        count_at(ships, a.union(b), c) == count_at(ships, a, c) + count_at(ships, b, c),
{
    let p = |f: Seq<int>| occupies(ships, f, c);
    lemma_set_disjoint_lens(a, b);
    assert(a.union(b).filter(p) =~= a.filter(p).union(b.filter(p)));
    lemma_set_subset_finite(a, a.filter(p));
    lemma_set_subset_finite(b, b.filter(p));
    lemma_set_disjoint_lens(a.filter(p), b.filter(p));
}

/// No cell is counted more often than there are fleets.
pub proof fn lemma_count_bounded(ships: Seq<Seq<Seq<usize>>>, s: Set<Seq<int>>, c: usize)
    requires
        s.finite(),
    ensures
        count_at(ships, s, c) <= s.len(),
{
    let p = |f: Seq<int>| occupies(ships, f, c);
    lemma_set_subset_finite(s, s.filter(p));
    lemma_len_subset(s.filter(p), s);
}

/// An empty set counts nothing, and a single fleet counts its own cells.
pub proof fn lemma_count_base(ships: Seq<Seq<Seq<usize>>>, f: Seq<int>, c: usize)
    ensures
        Set::<Seq<int>>::empty().len() == 0,
        count_at(ships, Set::<Seq<int>>::empty(), c) == 0,
        Set::<Seq<int>>::empty().insert(f).len() == 1,
        count_at(ships, Set::<Seq<int>>::empty().insert(f), c) == (if occupies(ships, f, c) {
            1nat
        } else {
            0nat
        }),
{
    let p = |f: Seq<int>| occupies(ships, f, c);
    assert(Set::<Seq<int>>::empty().filter(p) =~= Set::empty());
    let one = Set::<Seq<int>>::empty().insert(f);
    if occupies(ships, f, c) {
        assert(one.filter(p) =~= one);
    } else {
        assert(one.filter(p) =~= Set::empty());
    }
}

/// A pick adds the cells of its placement.
pub proof fn lemma_occupies_push(ships: Seq<Seq<Seq<usize>>>, f: Seq<int>, j: int, c: usize)
    requires
        f.len() < ships.len(),
    ensures
        occupies(ships, f.push(j), c) <==> occupies(ships, f, c) || ships[f.len() as int][j].contains(
            c,
        ),
{
    let g = f.push(j);
    if occupies(ships, g, c) {
        let i = choose|i: int| 0 <= i < g.len() && ships[i][#[trigger] g[i]].contains(c);
        if i < f.len() {
            assert(f[i] == g[i]);
        }
    }
    if occupies(ships, f, c) {
        let i = choose|i: int| 0 <= i < f.len() && ships[i][#[trigger] f[i]].contains(c);
        assert(g[i] == f[i]);
    }
    if ships[f.len() as int][j].contains(c) {
        assert(g[f.len() as int] == j);
    }
}

/// A placement may be added to the marked cells exactly when it is in the way
/// of none of the picks.
pub proof fn lemma_placeable(
    cfg: &GameConfig,
    occ: Seq<bool>,
    ships: Seq<Seq<Seq<usize>>>,
    f: Seq<int>,
    j: int,
)
    requires
        f.len() < ships.len(),
        cfg.fits(),
        0 <= j < ships[f.len() as int].len(),
        all_on_board(cfg, ships),
        stands(cfg, ships, f),
        marks(cfg, occ, ships, f),
    ensures
        placeable(cfg, occ, ships[f.len() as int][j]) <==> stands(cfg, ships, f.push(j)),
{
    let p = ships[f.len() as int][j];
    let g = f.push(j);
    if placeable(cfg, occ, p) {
        assert forall|i: int, k: int|
            #![trigger g[i], g[k]]
            0 <= i < k < g.len() implies compatible(cfg, ships[i][g[i]], ships[k][g[k]]) by {
            assert(g[i] == f[i]);
            if k < f.len() {
                assert(g[k] == f[k]);
            } else {
                let q = ships[i][g[i]];
                assert forall|a: int, b: int|
                    #![trigger q[a], p[b]]
                    0 <= a < q.len() && 0 <= b < p.len() implies cfg.apart(
                    q[a] as int,
                    p[b] as int,
                ) by {
                    assert(on_board(cfg, q));
                    assert(q.contains(q[a]));
                    assert(occupies(ships, f, q[a]));
                    assert(occ[q[a] as int]);
                    lemma_touching_symmetric(cfg, q[a] as int, p[b] as int);
                }
            }
        }
        assert forall|i: int| 0 <= i < g.len() implies 0 <= #[trigger] g[i] < ships[i].len() by {
            if i < f.len() {
                assert(g[i] == f[i]);
            }
        }
    }
    if stands(cfg, ships, g) {
        assert forall|b: int, o: int|
            #![trigger p[b], occ[o]]
            0 <= b < p.len() && 0 <= o < occ.len() && occ[o] implies cfg.apart(p[b] as int, o) by {
            let c = o as usize;
            assert(occupies(ships, f, c));
            let i = choose|i: int| 0 <= i < f.len() && ships[i][#[trigger] f[i]].contains(c);
            let q = ships[i][f[i]];
            assert(g[i] == f[i] && g[f.len() as int] == j);
            assert(compatible(cfg, q, p));
            let a = choose|a: int| 0 <= a < q.len() && q[a] == c;
            assert(cfg.apart(q[a] as int, p[b] as int));
            lemma_touching_symmetric(cfg, q[a] as int, p[b] as int);
        }
    }
}

/// The cells of the ships of a fleet from the `i`-th on.
pub open spec fn tail_cells(ships: Seq<Seq<Seq<usize>>>, g: Seq<int>, i: int) -> Set<usize>
    decreases g.len() - i,
{
    if 0 <= i < g.len() {
        ships[i][g[i]].to_set().union(tail_cells(ships, g, i + 1))
    } else {
        Set::empty()
    }
}

/// The ships from the `i`-th on have at most as many cells as their lengths add
/// up to, and each of their cells is among them.
pub proof fn lemma_tail_cells(
    ships: Seq<Seq<Seq<usize>>>,
    lens: Seq<usize>,
    g: Seq<int>,
    i: int,
)
    requires
        0 <= i <= g.len(),
        g.len() == ships.len(),
        sized(ships, lens),
        forall|k: int| 0 <= k < g.len() ==> 0 <= #[trigger] g[k] < ships[k].len(),
    ensures
        tail_cells(ships, g, i).finite(),
        tail_cells(ships, g, i).len() <= cells_from(lens, i),
        forall|k: int, c: usize|
            i <= k < g.len() && #[trigger] ships[k][g[k]].contains(c) ==> tail_cells(
                ships,
                g,
                i,
            ).contains(c),
    decreases g.len() - i,
{
    if i < g.len() {
        lemma_tail_cells(ships, lens, g, i + 1);
        let p = ships[i][g[i]];
        p.lemma_cardinality_of_set();
        vstd::seq_lib::seq_to_set_is_finite(p);
        vstd::set_lib::lemma_len_union(p.to_set(), tail_cells(ships, g, i + 1));
    }
}

/// The ships of a fleet that stands have exactly as many cells as their lengths
/// add up to, and what they occupy is their cells.
pub proof fn lemma_standing_cells(
    cfg: &GameConfig,
    ships: Seq<Seq<Seq<usize>>>,
    lens: Seq<usize>,
    g: Seq<int>,
    i: int,
)
    requires
        0 <= i <= g.len(),
        g.len() == ships.len(),
        sized(ships, lens),
        all_on_board(cfg, ships),
        stands(cfg, ships, g),
    ensures
        tail_cells(ships, g, i).finite(),
        tail_cells(ships, g, i).len() == cells_from(lens, i),
        forall|c: usize| #[trigger]
            tail_cells(ships, g, i).contains(c) ==> exists|k: int|
                i <= k < g.len() && ships[k][#[trigger] g[k]].contains(c),
    decreases g.len() - i,
{
    if i < g.len() {
        lemma_standing_cells(cfg, ships, lens, g, i + 1);
        let p = ships[i][g[i]];
        let tail = tail_cells(ships, g, i + 1);
        assert(on_board(cfg, p));
        p.unique_seq_to_set();
        vstd::seq_lib::seq_to_set_is_finite(p);
        assert(p.to_set().disjoint(tail)) by {
            assert forall|c: usize| !(p.to_set().contains(c) && tail.contains(c)) by {
                if p.to_set().contains(c) && tail.contains(c) {
                    let k = choose|k: int|
                        i + 1 <= k < g.len() && ships[k][#[trigger] g[k]].contains(c);
                    let q = ships[k][g[k]];
                    assert(compatible(cfg, p, q));
                    let a = choose|a: int| 0 <= a < p.len() && p[a] == c;
                    let b = choose|b: int| 0 <= b < q.len() && q[b] == c;
                    assert(cfg.apart(p[a] as int, q[b] as int));
                }
            }
        }
        lemma_set_disjoint_lens(p.to_set(), tail);
        assert forall|c: usize| #[trigger]
            tail_cells(ships, g, i).contains(c) implies exists|k: int|
            i <= k < g.len() && ships[k][#[trigger] g[k]].contains(c) by {
            if p.to_set().contains(c) {
                assert(ships[i][g[i]].contains(c));
            }
        }
    }
}

/// When more hits are uncovered than the remaining ships have cells, the picks
/// begin no fleet that explains the hits.
pub proof fn lemma_hopeless(
    cfg: &GameConfig,
    ships: Seq<Seq<Seq<usize>>>,
    lens: Seq<usize>,
    hits: Seq<usize>,
    f: Seq<int>,
    uncovered: Set<usize>,
)
    requires
        f.len() <= ships.len(),
        sized(ships, lens),
        uncovered.finite(),
        uncovered.len() > cells_from(lens, f.len() as int),
        forall|h: usize| #[trigger]
            uncovered.contains(h) ==> hits.contains(h) && !occupies(ships, f, h),
    ensures
        with_prefix(cfg, ships, hits, f) == Set::<Seq<int>>::empty(),
{
    assert forall|g: Seq<int>| !with_prefix(cfg, ships, hits, f).contains(g) by {
        if with_prefix(cfg, ships, hits, f).contains(g) {
            let n = f.len() as int;
            lemma_tail_cells(ships, lens, g, n);
            assert(uncovered.subset_of(tail_cells(ships, g, n))) by {
                assert forall|h: usize| #[trigger] uncovered.contains(h) implies tail_cells(
                    ships,
                    g,
                    n,
                ).contains(h) by {
                    let k = choose|k: int| 0 <= k < hits.len() && hits[k] == h;
                    assert(occupies(ships, g, hits[k]));
                    let i = choose|i: int| 0 <= i < g.len() && ships[i][#[trigger] g[i]].contains(h);
                    if i < n {
                        assert(g.take(n)[i] == f[i]);
                        assert(ships[i][f[i]].contains(h));
                    }
                }
            }
            lemma_len_subset(uncovered, tail_cells(ships, g, n));
        }
    }
    assert(with_prefix(cfg, ships, hits, f) =~= Set::<Seq<int>>::empty());
}

} // verus!
