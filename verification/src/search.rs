//! Exact enumeration of the fleets that are consistent with the evidence.

use crate::board::{can_place, GameConfig};
use crate::fleet::{
    all_on_board, cells_from, count_at, covers, fleets, is_fleet, lemma_blocked_prefix,
    lemma_count_base, lemma_count_bounded, lemma_hopeless, lemma_next_ends, lemma_next_splits,
    lemma_occupies_push, lemma_placeable, lemma_prefix_finite, lemma_split_counts, lemma_whole,
    marks, occupies, ships_view, sized, stands, with_next, with_prefix,
};
use crate::geometry::{on_board, placeable};
use crate::outside::{parallel_map, worker_count};
use vstd::prelude::*;
use vstd::set_lib::lemma_len_subset;

verus! {

/// What the search is given: placements of distinct board cells, `lens[i]` of
/// them for ship `i`, and distinct hits on the board.
pub open spec fn searchable(
    cfg: &GameConfig,
    ships: Seq<Seq<Seq<usize>>>,
    lens: Seq<usize>,
    hits: Seq<usize>,
) -> bool {
    &&& cfg.fits()
    &&& all_on_board(cfg, ships)
    &&& sized(ships, lens)
    &&& on_board(cfg, hits)
}

/// Sets the marks of the given cells to `value`.
pub(crate) fn set_marks(occ: &mut Vec<bool>, cells: &[usize], value: bool)
    requires
        forall|i: int| 0 <= i < cells@.len() ==> #[trigger] cells@[i] < old(occ)@.len(),
    ensures
        final(occ)@.len() == old(occ)@.len(),
        forall|c: usize|
            #![trigger final(occ)@[c as int]]
            c < old(occ)@.len() ==> final(occ)@[c as int] == (if cells@.contains(c) {
                value
            } else {
                old(occ)@[c as int]
            }),
{
    let mut k: usize = 0;
    while k < cells.len()
        invariant
            k <= cells@.len(),
            occ@.len() == old(occ)@.len(),
            forall|i: int| 0 <= i < cells@.len() ==> #[trigger] cells@[i] < occ@.len(),
            forall|c: usize|
                #![trigger occ@[c as int]]
                c < occ@.len() ==> occ@[c as int] == (if cells@.take(k as int).contains(c) {
                    value
                } else {
                    old(occ)@[c as int]
                }),
        decreases cells@.len() - k,
    {
        let ghost before = cells@.take(k as int);
        let ghost after = cells@.take(k + 1);
        let cell = cells[k];
        let ghost prev = occ@;
        occ[cell] = value;
        assert forall|c: usize|
            #![trigger occ@[c as int]]
            c < occ@.len() implies occ@[c as int] == (if after.contains(c) {
            value
        } else {
            old(occ)@[c as int]
        }) by {
            assert(after =~= before.push(cell));
            assert(after[k as int] == cell);
            if before.contains(c) {
                let i = choose|i: int| 0 <= i < before.len() && before[i] == c;
                assert(after[i] == c);
            }
            assert(c == cell || occ@[c as int] == prev[c as int]);
        }
        k += 1;
    }
    assert(cells@.take(k as int) =~= cells@);
}

/// Adds one to the count of each of the given cells.
pub(crate) fn add_one_at(local: &mut Vec<u64>, cells: &Vec<usize>)
    requires
        cells@.no_duplicates(),
        forall|i: int| 0 <= i < cells@.len() ==> #[trigger] cells@[i] < old(local)@.len(),
        forall|i: int|
            0 <= i < cells@.len() ==> old(local)@[#[trigger] cells@[i] as int] < u64::MAX,
    ensures
        final(local)@.len() == old(local)@.len(),
        forall|c: usize|
            #![trigger final(local)@[c as int]]
            c < old(local)@.len() ==> final(local)@[c as int] == old(local)@[c as int] + (
            if cells@.contains(c) {
                1int
            } else {
                0int
            }),
{
    let mut k: usize = 0;
    while k < cells.len()
        invariant
            k <= cells@.len(),
            cells@.no_duplicates(),
            local@.len() == old(local)@.len(),
            forall|i: int| 0 <= i < cells@.len() ==> #[trigger] cells@[i] < local@.len(),
            forall|i: int|
                0 <= i < cells@.len() ==> old(local)@[#[trigger] cells@[i] as int] < u64::MAX,
            forall|c: usize|
                #![trigger local@[c as int]]
                c < local@.len() ==> local@[c as int] == old(local)@[c as int] + (if cells@.take(
                    k as int,
                ).contains(c) {
                    1int
                } else {
                    0int
                }),
        decreases cells@.len() - k,
    {
        let ghost before = cells@.take(k as int);
        let ghost after = cells@.take(k + 1);
        let cell = cells[k];
        let ghost prev = local@;
        assert(!before.contains(cell)) by {
            if before.contains(cell) {
                let i = choose|i: int| 0 <= i < before.len() && before[i] == cell;
                assert(cells@[i] == cells@[k as int]);
            }
        }
        assert(local@[cell as int] == old(local)@[cell as int]);
        local[cell] = local[cell] + 1;
        assert forall|c: usize|
            #![trigger local@[c as int]]
            c < local@.len() implies local@[c as int] == old(local)@[c as int] + (
        if after.contains(c) {
            1int
        } else {
            0int
        }) by {
            assert(after =~= before.push(cell));
            assert(after[k as int] == cell);
            if before.contains(c) {
                let i = choose|i: int| 0 <= i < before.len() && before[i] == c;
                assert(after[i] == c);
            }
            assert(c == cell || local@[c as int] == prev[c as int]);
        }
        k += 1;
    }
    assert(cells@.take(k as int) =~= cells@);
}

/// Are all the hits marked?
pub(crate) fn all_marked(occ: &Vec<bool>, hits: &[usize]) -> (r: bool)
    requires
        forall|k: int| 0 <= k < hits@.len() ==> #[trigger] hits@[k] < occ@.len(),
    ensures
        r <==> forall|k: int| 0 <= k < hits@.len() ==> occ@[#[trigger] hits@[k] as int],
{
    let mut k: usize = 0;
    while k < hits.len()
        invariant
            k <= hits@.len(),
            forall|i: int| 0 <= i < hits@.len() ==> #[trigger] hits@[i] < occ@.len(),
            forall|i: int| 0 <= i < k ==> occ@[#[trigger] hits@[i] as int],
        decreases hits@.len() - k,
    {
        if !occ[hits[k]] {
            return false;
        }
        k += 1;
    }
    true
}

/// How many of the (distinct) hits are not marked? The count is that of the
/// set `unmarked`.
fn count_unmarked(occ: &Vec<bool>, hits: &[usize]) -> (r: usize)
    requires
        hits@.no_duplicates(),
        forall|k: int| 0 <= k < hits@.len() ==> #[trigger] hits@[k] < occ@.len(),
    ensures
        unmarked(occ@, hits@).finite(),
        r == unmarked(occ@, hits@).len(),
{
    let mut k: usize = 0;
    let mut n: usize = 0;
    assert(unmarked(occ@, hits@.take(0)) =~= Set::empty());
    while k < hits.len()
        invariant
            k <= hits@.len(),
            n <= k,
            hits@.no_duplicates(),
            forall|i: int| 0 <= i < hits@.len() ==> #[trigger] hits@[i] < occ@.len(),
            unmarked(occ@, hits@.take(k as int)).finite(),
            n == unmarked(occ@, hits@.take(k as int)).len(),
        decreases hits@.len() - k,
    {
        let ghost before = hits@.take(k as int);
        let ghost after = hits@.take(k + 1);
        let h = hits[k];
        proof {
            assert(after =~= before.push(h));
            assert(after[k as int] == h);
            if before.contains(h) {
                let i = choose|i: int| 0 <= i < before.len() && before[i] == h;
                assert(hits@[i] == hits@[k as int]);
            }
            assert forall|c: usize| after.contains(c) <==> before.contains(c) || c == h by {
                if before.contains(c) {
                    let i = choose|i: int| 0 <= i < before.len() && before[i] == c;
                    assert(after[i] == c);
                }
            }
            if occ@[h as int] {
                assert(unmarked(occ@, after) =~= unmarked(occ@, before));
            } else {
                assert(unmarked(occ@, after) =~= unmarked(occ@, before).insert(h));
            }
        }
        if !occ[h] {
            n += 1;
        }
        k += 1;
    }
    assert(hits@.take(k as int) =~= hits@);
    n
}

/// The hits whose cell is not marked.
pub open spec fn unmarked(occ: Seq<bool>, hits: Seq<usize>) -> Set<usize> {
    Set::new(|h: usize| hits.contains(h) && !occ[h as int])
}

/// Counts the fleets that begin with the picks `f`, of which `occ` marks and
/// `placed` lists the cells: each is added to `local_count`, and to `local` at
/// each of its cells. Stops and returns false when the count would exceed
/// `limit`. Leaves `occ` and `placed` as they were.
fn backtrack(
    cfg: &GameConfig,
    placements: &[Vec<Vec<usize>>],
    idx: usize,
    occ: &mut Vec<bool>,
    placed: &mut Vec<usize>,
    local: &mut Vec<u64>,
    local_count: &mut u64,
    hits: &[usize],
    rem_cells: &[usize],
    limit: u64,
    Ghost(lens): Ghost<Seq<usize>>,
    Ghost(f): Ghost<Seq<int>>,
) -> (r: bool)
    requires
        searchable(cfg, ships_view(placements@), lens, hits@),
        rem_cells@.len() == placements@.len(),
        forall|i: int|
            0 <= i < placements@.len() ==> #[trigger] rem_cells@[i] == cells_from(lens, i),
        idx <= placements@.len(),
        f.len() == idx,
        stands(cfg, ships_view(placements@), f),
        marks(cfg, old(occ)@, ships_view(placements@), f),
        old(placed)@.no_duplicates(),
        forall|c: usize| #[trigger]
            old(placed)@.contains(c) <==> occupies(ships_view(placements@), f, c),
        old(local)@.len() == cfg.size(),
        forall|c: int| 0 <= c < cfg.size() ==> #[trigger] old(local)@[c] <= *old(local_count),
        *old(local_count) <= limit,
    ensures
        final(occ)@ == old(occ)@,
        final(placed)@ == old(placed)@,
        final(local)@.len() == cfg.size(),
        r <==> *old(local_count) + with_prefix(cfg, ships_view(placements@), hits@, f).len()
            <= limit,
        r ==> *final(local_count) == *old(local_count) + with_prefix(
            cfg,
            ships_view(placements@),
            hits@,
            f,
        ).len(),
        r ==> forall|c: usize|
            #![trigger final(local)@[c as int]]
            c < cfg.size() ==> final(local)@[c as int] == old(local)@[c as int] + count_at(
                ships_view(placements@),
                with_prefix(cfg, ships_view(placements@), hits@, f),
                c,
            ),
        r ==> forall|c: int| 0 <= c < cfg.size() ==> #[trigger] final(local)@[c] <= *final(local_count),
        !r ==> *final(local_count) == limit,
    decreases placements@.len() - idx,
{
    let ghost ships = ships_view(placements@);
    let ghost all = with_prefix(cfg, ships, hits@, f);
    proof {
        lemma_prefix_finite(cfg, ships, hits@, f);
    }
    if idx == placements.len() {
        // A full fleet is placed: accept only if every open hit is covered.
        proof {
            lemma_whole(cfg, ships, hits@, f);
            assert forall|c: usize| true implies #[trigger] count_at(ships, all, c) == (
            if is_fleet(cfg, ships, hits@, f) && occupies(ships, f, c) {
                1nat
            } else {
                0nat
            }) by {
                lemma_count_base(ships, f, c);
            }
            lemma_count_base(ships, f, 0);
        }
        let covered = all_marked(occ, hits);
        assert(covered <==> covers(ships, f, hits@)) by {
            if covered {
                assert forall|k: int| 0 <= k < hits@.len() implies occupies(
                    ships,
                    f,
                    #[trigger] hits@[k],
                ) by {
                    assert(occ@[hits@[k] as int]);
                }
            }
            if covers(ships, f, hits@) {
                assert forall|k: int| 0 <= k < hits@.len() implies occ@[#[trigger] hits@[k] as int] by {
                    assert(occupies(ships, f, hits@[k]));
                }
            }
        }
        if !covered {
            return true;
        }
        if *local_count >= limit {
            return false;
        }
        assert forall|i: int| 0 <= i < placed@.len() implies #[trigger] placed@[i] < local@.len() by {
            assert(placed@.contains(placed@[i]));
            let k = choose|k: int| 0 <= k < f.len() && ships[k][#[trigger] f[k]].contains(placed@[i]);
            assert(on_board(cfg, ships[k][f[k]]));
        }
        add_one_at(local, placed);
        *local_count = *local_count + 1;
        return true;
    }
    // Prune: if more open hits are uncovered than the remaining ships can
    // possibly cover, this branch is hopeless.
    let uncovered = count_unmarked(occ, hits);
    if uncovered > rem_cells[idx] {
        proof {
            assert forall|h: usize| #[trigger] unmarked(occ@, hits@).contains(h) implies !occupies(
                ships,
                f,
                h,
            ) by {
                let k = choose|k: int| 0 <= k < hits@.len() && hits@[k] == h;
                assert(hits@[k] < cfg.size());
            }
            lemma_hopeless(cfg, ships, lens, hits@, f, unmarked(occ@, hits@));
            assert forall|c: usize| true implies #[trigger] count_at(ships, all, c) == 0 by {
                lemma_count_base(ships, f, c);
            }
            lemma_count_base(ships, f, 0);
        }
        return true;
    }
    let total: usize = placements[idx].len();
    let mut j: usize = 0;
    proof {
        lemma_next_ends(cfg, ships, hits@, f);
        assert forall|c: usize| true implies #[trigger] count_at(
            ships,
            with_next(cfg, ships, hits@, f, 0),
            c,
        ) == 0 by {
            lemma_count_base(ships, f, c);
        }
        lemma_count_base(ships, f, 0);
    }
    while j < total
        invariant
            searchable(cfg, ships, lens, hits@),
            ships == ships_view(placements@),
            rem_cells@.len() == placements@.len(),
            forall|i: int|
                0 <= i < placements@.len() ==> #[trigger] rem_cells@[i] == cells_from(lens, i),
            idx < placements@.len(),
            f.len() == idx,
            total == placements@[idx as int]@.len(),
            j <= total,
            stands(cfg, ships, f),
            marks(cfg, occ@, ships, f),
            placed@.no_duplicates(),
            forall|c: usize| #[trigger] placed@.contains(c) <==> occupies(ships, f, c),
            occ@ == old(occ)@,
            placed@ == old(placed)@,
            local@.len() == cfg.size(),
            forall|c: int| 0 <= c < cfg.size() ==> #[trigger] local@[c] <= *local_count,
            *local_count <= limit,
            all == with_prefix(cfg, ships, hits@, f),
            all.finite(),
            with_next(cfg, ships, hits@, f, j as int).finite(),
            *local_count == *old(local_count) + with_next(cfg, ships, hits@, f, j as int).len(),
            forall|c: usize|
                #![trigger local@[c as int]]
                c < cfg.size() ==> local@[c as int] == old(local)@[c as int] + count_at(
                    ships,
                    with_next(cfg, ships, hits@, f, j as int),
                    c,
                ),
        decreases total - j,
    {
        let p = &placements[idx][j];
        let ghost g = f.push(j as int);
        let ghost here = with_next(cfg, ships, hits@, f, j as int);
        let ghost sub = with_prefix(cfg, ships, hits@, g);
        let ghost next = with_next(cfg, ships, hits@, f, j + 1);
        proof {
            assert(ships[idx as int][j as int] == p@);
            assert(on_board(cfg, p@));
            lemma_placeable(cfg, occ@, ships, f, j as int);
            lemma_next_splits(cfg, ships, hits@, f, j as int);
            lemma_prefix_finite(cfg, ships, hits@, g);
            lemma_split_counts(ships, here, sub, 0);
            assert forall|c: usize| true implies #[trigger] count_at(ships, next, c) == count_at(
                ships,
                here,
                c,
            ) + count_at(ships, sub, c) by {
                lemma_split_counts(ships, here, sub, c);
            }
            assert(next.subset_of(all));
            lemma_len_subset(next, all);
        }
        if can_place(cfg, occ, p) {
            let ghost occ0 = occ@;
            let ghost placed0 = placed@;
            let ghost local0 = local@;
            let ghost count0 = *local_count;
            let base: usize = placed.len();
            set_marks(occ, p, true);
            append_cells(placed, p);
            proof {
                assert forall|c: usize|
                    #![trigger occupies(ships, g, c)]
                    c < cfg.size() implies (occ@[c as int] <==> occupies(ships, g, c)) by {
                    lemma_occupies_push(ships, f, j as int, c);
                    assert(occupies(ships, f, c) <==> occ0[c as int]);
                }
                assert forall|a: int, b: int|
                    0 <= a < placed@.len() && 0 <= b < placed@.len() && a != b implies placed@[a]
                    != placed@[b] by {
                    lemma_disjoint_append(cfg, ships, f, occ0, placed0, p@, a, b);
                }
                assert forall|c: usize| #[trigger] placed@.contains(c) <==> occupies(ships, g, c) by {
                    lemma_occupies_push(ships, f, j as int, c);
                    vstd::seq_lib::lemma_seq_concat_contains_all_elements(placed0, p@, c);
                }
            }
            let ok = backtrack(
                cfg,
                placements,
                idx + 1,
                occ,
                placed,
                local,
                local_count,
                hits,
                rem_cells,
                limit,
                Ghost(lens),
                Ghost(g),
            );
            set_marks(occ, p, false);
            placed.truncate(base);
            proof {
                assert forall|c: int| 0 <= c < occ0.len() implies occ@[c] == occ0[c] by {
                    assert(occ@[(c as usize) as int] == (if p@.contains(c as usize) {
                        false
                    } else {
                        occ0[c]
                    }));
                    if p@.contains(c as usize) && occ0[c] {
                        let i = choose|i: int| 0 <= i < p@.len() && p@[i] == c as usize;
                        assert(cfg.apart(p@[i] as int, c));
                    }
                }
                assert(occ@ =~= occ0);
                assert(placed@ =~= placed0);
            }
            if !ok {
                return false;
            }
        } else {
            proof {
                lemma_blocked_prefix(cfg, ships, hits@, g);
                assert forall|c: usize| true implies #[trigger] count_at(ships, sub, c) == 0 by {
                    lemma_count_base(ships, f, c);
                }
                lemma_count_base(ships, f, 0);
            }
        }
        j += 1;
    }
    true
}

/// Appends the cells of a placement.
pub(crate) fn append_cells(placed: &mut Vec<usize>, cells: &Vec<usize>)
    ensures
        final(placed)@ == old(placed)@ + cells@,
{
    let mut k: usize = 0;
    assert(old(placed)@ + cells@.take(0) =~= old(placed)@);
    while k < cells.len()
        invariant
            k <= cells@.len(),
            placed@ == old(placed)@ + cells@.take(k as int),
        decreases cells@.len() - k,
    {
        placed.push(cells[k]);
        k += 1;
        assert(placed@ =~= old(placed)@ + cells@.take(k as int));
    }
    assert(cells@.take(k as int) =~= cells@);
}

/// Cells listed for the picks and cells of a placement that may be added to
/// them are different.
pub(crate) proof fn lemma_disjoint_append(
    cfg: &GameConfig,
    ships: Seq<Seq<Seq<usize>>>,
    f: Seq<int>,
    occ: Seq<bool>,
    placed: Seq<usize>,
    p: Seq<usize>,
    a: int,
    b: int,
)
    requires
        marks(cfg, occ, ships, f),
        placed.no_duplicates(),
        forall|c: usize| #[trigger] placed.contains(c) <==> occupies(ships, f, c),
        on_board(cfg, p),
        placeable(cfg, occ, p),
        0 <= a < placed.len() + p.len(),
        0 <= b < placed.len() + p.len(),
        a != b,
    ensures
        (placed + p)[a] != (placed + p)[b],
{
    let n = placed.len() as int;
    if a < n && b >= n || b < n && a >= n {
        let (i, k) = if a < n {
            (a, b - n)
        } else {
            (b, a - n)
        };
        if placed[i] == p[k] {
            let c = placed[i];
            assert(placed.contains(c));
            assert(c < cfg.size());
            assert(occ[c as int]);
            assert(cfg.apart(p[k] as int, c as int));
        }
    }
}

/// What a branch of the search finds: the number of the fleets that give the
/// first ship its placement `i0` and how many of them lie on each cell, or
/// nothing when there are more of them than `limit`.
pub open spec fn branch_finds(
    cfg: &GameConfig,
    ships: Seq<Seq<Seq<usize>>>,
    hits: Seq<usize>,
    i0: int,
    limit: u64,
    r: Option<(Vec<u64>, u64)>,
) -> bool {
    let found = with_prefix(cfg, ships, hits, seq![i0]);
    match r {
        None => found.len() > limit,
        Some((grid, count)) => {
            &&& found.len() <= limit
            &&& count == found.len()
            &&& grid@.len() == cfg.size()
            &&& forall|c: usize|
                #![trigger grid@[c as int]]
                c < cfg.size() ==> grid@[c as int] == count_at(ships, found, c)
        },
    }
}

/// Enumerates the fleets in which the first ship takes its placement `i0`.
fn branch(
    cfg: &GameConfig,
    placements: &[Vec<Vec<usize>>],
    i0: usize,
    hits: &[usize],
    rem_cells: &[usize],
    limit: u64,
    Ghost(lens): Ghost<Seq<usize>>,
) -> (r: Option<(Vec<u64>, u64)>)
    requires
        searchable(cfg, ships_view(placements@), lens, hits@),
        rem_cells@.len() == placements@.len(),
        forall|i: int|
            0 <= i < placements@.len() ==> #[trigger] rem_cells@[i] == cells_from(lens, i),
        placements@.len() > 0,
        i0 < placements@[0]@.len(),
    ensures
        branch_finds(cfg, ships_view(placements@), hits@, i0 as int, limit, r),
{
    let ghost ships = ships_view(placements@);
    let ghost none = Seq::<int>::empty();
    let ghost f = seq![i0 as int];
    let n = cfg.cells();
    let p0 = &placements[0][i0];
    let mut occ: Vec<bool> = vec![false; n];
    let mut placed: Vec<usize> = Vec::with_capacity(64);
    let mut local: Vec<u64> = vec![0u64; n];
    let mut local_count: u64 = 0;
    proof {
        assert(ships[0][i0 as int] == p0@);
        assert(on_board(cfg, p0@));
        assert(f =~= none.push(i0 as int));
    }
    set_marks(&mut occ, p0, true);
    append_cells(&mut placed, p0);
    proof {
        assert forall|c: usize|
            #![trigger occupies(ships, f, c)]
            c < cfg.size() implies (occ@[c as int] <==> occupies(ships, f, c)) by {
            lemma_occupies_push(ships, none, i0 as int, c);
        }
        assert(placed@ =~= p0@);
        assert forall|c: usize| #[trigger] placed@.contains(c) <==> occupies(ships, f, c) by {
            lemma_occupies_push(ships, none, i0 as int, c);
        }
    }
    let ok = backtrack(
        cfg,
        placements,
        1,
        &mut occ,
        &mut placed,
        &mut local,
        &mut local_count,
        hits,
        rem_cells,
        limit,
        Ghost(lens),
        Ghost(f),
    );
    if ok {
        Some((local, local_count))
    } else {
        None
    }
}

/// The total length of the ships from each ship on.
fn remaining_cells(lens: &[usize]) -> (r: Vec<usize>)
    requires
        cells_from(lens@, 0) <= usize::MAX,
    ensures
        r@.len() == lens@.len(),
        forall|i: int| 0 <= i < lens@.len() ==> #[trigger] r@[i] == cells_from(lens@, i),
{
    let n = lens.len();
    let mut rem: Vec<usize> = vec![0usize; n];
    let mut after: usize = 0;
    let mut i: usize = n;
    while i > 0
        invariant
            i <= n,
            n == lens@.len(),
            cells_from(lens@, 0) <= usize::MAX,
            after == cells_from(lens@, i as int),
            rem@.len() == n,
            forall|k: int| i <= k < n ==> #[trigger] rem@[k] == cells_from(lens@, k),
        decreases i,
    {
        i -= 1;
        proof {
            lemma_cells_from_decreasing(lens@, 0, i as int);
        }
        after = after + lens[i];
        rem[i] = after;
    }
    rem
}

proof fn lemma_cells_from_decreasing(lens: Seq<usize>, i: int, j: int)
    requires
        0 <= i <= j <= lens.len(),
    ensures
        0 <= cells_from(lens, j) <= cells_from(lens, i),
    decreases lens.len() - i,
{
    if i < j {
        lemma_cells_from_decreasing(lens, i + 1, j);
    } else if i < lens.len() {
        lemma_cells_from_decreasing(lens, i + 1, i + 1);
    }
}

/// Exact enumeration. Returns `(occupancy_counts, total_configs)`, or `None` if
/// there are more than `cap` configs (callers should fall back to
/// Monte-Carlo).
///
/// The fan-out: every placement of ship 0 is an independent branch that
/// recursively places the rest; each branch accumulates its own occupancy grid,
/// and the grids are summed. Branches run in parallel, a round of them at a
/// time, and no round is started once the cap is exceeded.
pub fn exact(
    cfg: &GameConfig,
    placements: &[Vec<Vec<usize>>],
    hits: &[usize],
    lens: &[usize],
    cap: u64,
) -> (r: Option<(Vec<u64>, u64)>)
    requires
        searchable(cfg, ships_view(placements@), lens@, hits@),
        placements@.len() > 0,
        cells_from(lens@, 0) <= usize::MAX,
    ensures
        r is None <==> fleets(cfg, ships_view(placements@), hits@).len() > cap,
        r matches Some((grid, total)) ==> {
            &&& total == fleets(cfg, ships_view(placements@), hits@).len()
            &&& grid@.len() == cfg.size()
            &&& forall|c: usize|
                #![trigger grid@[c as int]]
                c < cfg.size() ==> grid@[c as int] == count_at(
                    ships_view(placements@),
                    fleets(cfg, ships_view(placements@), hits@),
                    c,
                )
        },
{
    let ghost ships = ships_view(placements@);
    let ghost none = Seq::<int>::empty();
    let ghost all = fleets(cfg, ships, hits@);
    let n = cfg.cells();
    let rem_cells = remaining_cells(lens);
    let mut grid: Vec<u64> = vec![0u64; n];
    let mut total: u64 = 0;
    let branches: usize = placements[0].len();
    let round: usize = at_least_one(worker_count());
    let mut start: usize = 0;
    proof {
        lemma_next_ends(cfg, ships, hits@, none);
        lemma_prefix_finite(cfg, ships, hits@, none);
        assert(with_prefix(cfg, ships, hits@, none) =~= all) by {
            assert forall|g: Seq<int>| is_fleet(cfg, ships, hits@, g) implies none.is_prefix_of(g) by {
                assert(g.take(0) =~= none);
            }
        }
        assert forall|c: usize| true implies #[trigger] count_at(
            ships,
            with_next(cfg, ships, hits@, none, 0),
            c,
        ) == 0 by {
            lemma_count_base(ships, none, c);
        }
        lemma_count_base(ships, none, 0);
    }
    while start < branches
        invariant
            searchable(cfg, ships, lens@, hits@),
            ships == ships_view(placements@),
            none == Seq::<int>::empty(),
            all == with_prefix(cfg, ships, hits@, none),
            all.finite(),
            n == cfg.size(),
            rem_cells@.len() == placements@.len(),
            forall|i: int|
                0 <= i < placements@.len() ==> #[trigger] rem_cells@[i] == cells_from(lens@, i),
            placements@.len() > 0,
            branches == placements@[0]@.len(),
            round > 0,
            start <= branches,
            total <= cap,
            grid@.len() == n,
            with_next(cfg, ships, hits@, none, start as int).finite(),
            total == with_next(cfg, ships, hits@, none, start as int).len(),
            forall|c: usize|
                #![trigger grid@[c as int]]
                c < n ==> grid@[c as int] == count_at(
                    ships,
                    with_next(cfg, ships, hits@, none, start as int),
                    c,
                ),
            all == fleets(cfg, ships, hits@),
        decreases branches - start,
    {
        let m: usize = if round < branches - start {
            round
        } else {
            branches - start
        };
        let limit: u64 = cap - total;
        let ghost first = start;
        let one_branch = |k: usize| -> (r: Option<(Vec<u64>, u64)>)
            requires
                start + k < branches,
            ensures
                branch_finds(cfg, ships_view(placements@), hits@, start + k, limit, r),
            {
                branch(
                    cfg,
                    placements,
                    start + k,
                    hits,
                    rem_cells.as_slice(),
                    limit,
                    Ghost(lens@),
                )
            };
        let parts = parallel_map(m, one_branch);
        let mut k: usize = 0;
        while k < m
            invariant
                ships == ships_view(placements@),
                none == Seq::<int>::empty(),
                all == with_prefix(cfg, ships, hits@, none),
                all == fleets(cfg, ships, hits@),
                all.finite(),
                n == cfg.size(),
                cfg.fits(),
                placements@.len() > 0,
                branches == placements@[0]@.len(),
                parts@.len() == m,
                start == first + k,
                first + m <= branches,
                k <= m,
                limit <= cap,
                total <= cap,
                cap - total <= limit,
                forall|i: int|
                    0 <= i < m ==> branch_finds(
                        cfg,
                        ships,
                        hits@,
                        first + i,
                        limit,
                        #[trigger] parts@[i],
                    ),
                grid@.len() == n,
                with_next(cfg, ships, hits@, none, start as int).finite(),
                total == with_next(cfg, ships, hits@, none, start as int).len(),
                forall|c: usize|
                    #![trigger grid@[c as int]]
                    c < n ==> grid@[c as int] == count_at(
                        ships,
                        with_next(cfg, ships, hits@, none, start as int),
                        c,
                    ),
            decreases m - k,
        {
            let ghost here = with_next(cfg, ships, hits@, none, start as int);
            let ghost sub = with_prefix(cfg, ships, hits@, seq![start as int]);
            let ghost next = with_next(cfg, ships, hits@, none, start + 1);
            proof {
                assert(seq![start as int] =~= none.push(start as int));
                lemma_next_splits(cfg, ships, hits@, none, start as int);
                lemma_prefix_finite(cfg, ships, hits@, seq![start as int]);
                lemma_split_counts(ships, here, sub, 0);
                assert forall|c: usize| true implies #[trigger] count_at(ships, next, c)
                    == count_at(ships, here, c) + count_at(ships, sub, c) by {
                    lemma_split_counts(ships, here, sub, c);
                }
                assert(next.subset_of(all));
                lemma_len_subset(next, all);
                assert(branch_finds(cfg, ships, hits@, first + k, limit, parts@[k as int]));
            }
            match &parts[k] {
                None => {
                    return None;
                },
                Some((part, count)) => {
                    if *count > cap - total {
                        return None;
                    }
                    proof {
                        assert forall|c: usize| c < n implies #[trigger] grid@[c as int]
                            + part@[c as int] <= u64::MAX by {
                            lemma_count_bounded(ships, next, c);
                        }
                    }
                    add_grids(&mut grid, part);
                    total = total + *count;
                },
            }
            start += 1;
            k += 1;
        }
    }
    Some((grid, total))
}

/// Adds the second grid to the first, cell by cell.
pub(crate) fn add_grids(a: &mut Vec<u64>, b: &Vec<u64>)
    requires
        old(a)@.len() == b@.len(),
        forall|c: usize|
            c < b@.len() ==> #[trigger] old(a)@[c as int] + b@[c as int] <= u64::MAX,
    ensures
        final(a)@.len() == old(a)@.len(),
        forall|c: usize|
            #![trigger final(a)@[c as int]]
            c < b@.len() ==> final(a)@[c as int] == old(a)@[c as int] + b@[c as int],
{
    let mut i: usize = 0;
    while i < b.len()
        invariant
            i <= b@.len(),
            a@.len() == b@.len(),
            a@.len() == old(a)@.len(),
            forall|c: usize|
                c < b@.len() ==> #[trigger] old(a)@[c as int] + b@[c as int] <= u64::MAX,
            forall|c: usize|
                #![trigger a@[c as int]]
                c < b@.len() ==> a@[c as int] == old(a)@[c as int] + (if c < i {
                    b@[c as int] as int
                } else {
                    0int
                }),
        decreases b@.len() - i,
    {
        assert(a@[i as int] == old(a)@[i as int]);
        a[i] = a[i] + b[i];
        i += 1;
    }
}

/// The larger of `n` and one.
pub(crate) fn at_least_one(n: usize) -> (r: usize)
    ensures
        r == (if n > 1 {
            n
        } else {
            1
        }),
{
    if n > 1 {
        n
    } else {
        1
    }
}

} // verus!
