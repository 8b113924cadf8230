//! Monte-Carlo occupancy estimates.
//!
//! A sample places the ships one after another, each at a uniformly random
//! placement among those that are still possible (reservoir sampling, a single
//! pass). Samples that leave an open hit uncovered are rejected.

use crate::board::{can_place, GameConfig};
use crate::fleet::{
    all_on_board, covers, is_fleet, lemma_occupies_push, lemma_placeable, marks, occupies,
    ships_view, stands,
};
use crate::geometry::on_board;
use crate::outside::{
    draw, draw_below, parallel_map, rng_state, seeded_rng, seeded_state, worker_count,
};
use crate::search::{
    add_grids, add_one_at, all_marked, append_cells, at_least_one, lemma_disjoint_append, set_marks,
};
use rand::rngs::StdRng;
use vstd::prelude::*;

verus! {

/// A reservoir of size one: the placement kept so far, how many possible
/// placements were seen, and the state of the random generator.
pub struct Reservoir {
    pub kept: Option<int>,
    pub seen: nat,
    pub state: Seq<u8>,
}

/// What the reservoir holds after the first `k` placements of the next ship.
/// The `n`-th possible placement replaces the one kept when a number drawn
/// below `n` is zero.
pub open spec fn reservoir(
    cfg: &GameConfig,
    ships: Seq<Seq<Seq<usize>>>,
    f: Seq<int>,
    k: nat,
    state: Seq<u8>,
) -> Reservoir
    decreases k,
{
    if k == 0 {
        Reservoir { kept: None, seen: 0, state }
    } else {
        let prev = reservoir(cfg, ships, f, (k - 1) as nat, state);
        if stands(cfg, ships, f.push(k - 1)) {
            let drawn = draw(prev.state, (prev.seen + 1) as u32);
            Reservoir {
                kept: if drawn.0 == 0 {
                    Some(k - 1)
                } else {
                    prev.kept
                },
                seen: prev.seen + 1,
                state: drawn.1,
            }
        } else {
            prev
        }
    }
}

/// The picks of the first `k` ships, or nothing when a ship found no possible
/// placement, and the state of the random generator then.
pub open spec fn drawn_fleet(
    cfg: &GameConfig,
    ships: Seq<Seq<Seq<usize>>>,
    k: nat,
    state: Seq<u8>,
) -> (Option<Seq<int>>, Seq<u8>)
    decreases k,
{
    if k == 0 {
        (Some(Seq::empty()), state)
    } else {
        let prev = drawn_fleet(cfg, ships, (k - 1) as nat, state);
        match prev.0 {
            None => prev,
            Some(f) => {
                let r = reservoir(cfg, ships, f, ships[k - 1].len(), prev.1);
                match r.kept {
                    None => (None, r.state),
                    Some(j) => (Some(f.push(j)), r.state),
                }
            },
        }
    }
}

/// The accepted samples of `attempts` attempts, and the state of the random
/// generator after them.
pub open spec fn accepted(
    cfg: &GameConfig,
    ships: Seq<Seq<Seq<usize>>>,
    hits: Seq<usize>,
    attempts: nat,
    state: Seq<u8>,
) -> (Seq<Seq<int>>, Seq<u8>)
    decreases attempts,
{
    if attempts == 0 {
        (Seq::empty(), state)
    } else {
        let prev = accepted(cfg, ships, hits, (attempts - 1) as nat, state);
        let drawn = drawn_fleet(cfg, ships, ships.len(), prev.1);
        match drawn.0 {
            Some(f) if covers(ships, f, hits) => (prev.0.push(f), drawn.1),
            _ => (prev.0, drawn.1),
        }
    }
}

/// The seed of batch `b` of a run with so many hits and ships.
pub open spec fn seed_of_batch(b: u64, hits: u64, ships: u64) -> u64 {
    0x9E3779B97F4A7C15u64 ^ b.wrapping_mul(0x100000001B3u64) ^ hits.wrapping_mul(
        0x2545F4914F6CDD1Du64,
    ) ^ ships.wrapping_mul(31u64)
}

/// The accepted samples of the first `batches` batches, batch by batch.
pub open spec fn samples(
    cfg: &GameConfig,
    ships: Seq<Seq<Seq<usize>>>,
    hits: Seq<usize>,
    per: nat,
    batches: nat,
) -> Seq<Seq<int>>
    decreases batches,
{
    if batches == 0 {
        Seq::empty()
    } else {
        samples(cfg, ships, hits, per, (batches - 1) as nat) + batch_samples(
            cfg,
            ships,
            hits,
            per,
            (batches - 1) as u64,
        )
    }
}

/// The accepted samples of batch `b`.
pub open spec fn batch_samples(
    cfg: &GameConfig,
    ships: Seq<Seq<Seq<usize>>>,
    hits: Seq<usize>,
    per: nat,
    b: u64,
) -> Seq<Seq<int>> {
    accepted(
        cfg,
        ships,
        hits,
        per,
        seeded_state(seed_of_batch(b, hits.len() as u64, ships.len() as u64)),
    ).0
}

/// How many of the samples lie on the cell `c`.
pub open spec fn count_in(ships: Seq<Seq<Seq<usize>>>, s: Seq<Seq<int>>, c: usize) -> nat
    decreases s.len(),
{
    if s.len() == 0 {
        0
    } else {
        count_in(ships, s.drop_last(), c) + (if occupies(ships, s.last(), c) {
            1nat
        } else {
            0nat
        })
    }
}

/// A placement counts four times when it lies on a hit, else once.
pub open spec fn weight(p: Seq<usize>, hits: Seq<usize>) -> nat {
    if exists|k: int| 0 <= k < hits.len() && p.contains(#[trigger] hits[k]) {
        4
    } else {
        1
    }
}

/// The weight of the first `k` placements of a ship.
pub open spec fn ship_weight(ship: Seq<Seq<usize>>, hits: Seq<usize>, k: nat) -> nat
    decreases k,
{
    if k == 0 {
        0
    } else {
        ship_weight(ship, hits, (k - 1) as nat) + weight(ship[k - 1], hits)
    }
}

/// The weight of those of the first `k` placements of a ship that lie on `c`.
pub open spec fn ship_weight_at(
    ship: Seq<Seq<usize>>,
    hits: Seq<usize>,
    k: nat,
    c: usize,
) -> nat
    decreases k,
{
    if k == 0 {
        0
    } else {
        ship_weight_at(ship, hits, (k - 1) as nat, c) + (if ship[k - 1].contains(c) {
            weight(ship[k - 1], hits)
        } else {
            0
        })
    }
}

/// The weight of all the placements of the first `m` ships.
pub open spec fn fleet_weight(ships: Seq<Seq<Seq<usize>>>, hits: Seq<usize>, m: nat) -> nat
    decreases m,
{
    if m == 0 {
        0
    } else {
        fleet_weight(ships, hits, (m - 1) as nat) + ship_weight(
            ships[m - 1],
            hits,
            ships[m - 1].len(),
        )
    }
}

/// The weight of those placements of the first `m` ships that lie on `c`.
pub open spec fn fleet_weight_at(
    ships: Seq<Seq<Seq<usize>>>,
    hits: Seq<usize>,
    m: nat,
    c: usize,
) -> nat
    decreases m,
{
    if m == 0 {
        0
    } else {
        fleet_weight_at(ships, hits, (m - 1) as nat, c) + ship_weight_at(
            ships[m - 1],
            hits,
            ships[m - 1].len(),
            c,
        )
    }
}

/// How many attempts each of the batches makes.
pub open spec fn attempts_per_batch(attempts: u64, batches: nat) -> nat {
    if attempts as nat / batches >= 1 {
        attempts as nat / batches
    } else {
        1
    }
}

/// An estimate of how often each cell is occupied.
pub struct Estimate {
    /// How many of the accepted samples lie on each cell; when none was accepted,
    /// the weight of the placements that lie on it.
    pub grid: Vec<u64>,
    /// Samples accepted.
    pub accepted: u64,
    /// What the grid is to be divided by: the samples accepted, or the weight of
    /// all placements.
    pub total: u64,
}

/// The estimate of a run of `batches` batches: the number of accepted samples
/// and how many of them lie on each cell, or, when no sample was accepted, the
/// weights of the placements.
pub open spec fn estimates(
    cfg: &GameConfig,
    ships: Seq<Seq<Seq<usize>>>,
    hits: Seq<usize>,
    attempts: u64,
    batches: nat,
    grid: Seq<u64>,
    accepted: u64,
    total: u64,
) -> bool {
    let s = samples(cfg, ships, hits, attempts_per_batch(attempts, batches), batches);
    &&& grid.len() == cfg.size()
    &&& accepted == s.len()
    &&& s.len() > 0 ==> {
        &&& total == s.len()
        &&& forall|c: usize|
            #![trigger grid[c as int]]
            c < cfg.size() ==> grid[c as int] == count_in(ships, s, c)
    }
    &&& s.len() == 0 ==> {
        &&& total == fleet_weight(ships, hits, ships.len())
        &&& forall|c: usize|
            #![trigger grid[c as int]]
            c < cfg.size() ==> grid[c as int] == fleet_weight_at(ships, hits, ships.len(), c)
    }
}

/// What the sampler is given: placements of distinct board cells, no more of
/// them for a ship than its counter can count, and hits on the board.
pub open spec fn sampleable(
    cfg: &GameConfig,
    ships: Seq<Seq<Seq<usize>>>,
    hits: Seq<usize>,
) -> bool {
    &&& cfg.fits()
    &&& all_on_board(cfg, ships)
    &&& forall|i: int| 0 <= i < ships.len() ==> (#[trigger] ships[i]).len() <= u32::MAX
    &&& forall|k: int| 0 <= k < hits.len() ==> #[trigger] hits[k] < cfg.size()
}

proof fn lemma_reservoir_seen(
    cfg: &GameConfig,
    ships: Seq<Seq<Seq<usize>>>,
    f: Seq<int>,
    k: nat,
    state: Seq<u8>,
)
    ensures
        reservoir(cfg, ships, f, k, state).seen <= k,
        reservoir(cfg, ships, f, k, state).kept matches Some(j) ==> 0 <= j < k && stands(
            cfg,
            ships,
            f.push(j),
        ),
    decreases k,
{
    if k > 0 {
        lemma_reservoir_seen(cfg, ships, f, (k - 1) as nat, state);
    }
}

/// The picks drawn for a whole fleet stand together.
pub proof fn lemma_drawn_fleet(
    cfg: &GameConfig,
    ships: Seq<Seq<Seq<usize>>>,
    k: nat,
    state: Seq<u8>,
)
    requires
        k <= ships.len(),
    ensures
        drawn_fleet(cfg, ships, k, state).0 matches Some(f) ==> f.len() == k && stands(
            cfg,
            ships,
            f,
        ),
    decreases k,
{
    if k > 0 {
        lemma_drawn_fleet(cfg, ships, (k - 1) as nat, state);
        let prev = drawn_fleet(cfg, ships, (k - 1) as nat, state);
        if let Some(f) = prev.0 {
            lemma_reservoir_seen(cfg, ships, f, ships[k - 1].len(), prev.1);
        }
    }
}

/// Once a ship found no place, the attempt has failed and draws no more.
proof fn lemma_dead_end(
    cfg: &GameConfig,
    ships: Seq<Seq<Seq<usize>>>,
    i: nat,
    k: nat,
    state: Seq<u8>,
)
    requires
        i <= k,
        drawn_fleet(cfg, ships, i, state).0 is None,
    ensures
        drawn_fleet(cfg, ships, k, state) == drawn_fleet(cfg, ships, i, state),
    decreases k,
{
    if i < k {
        lemma_dead_end(cfg, ships, i, (k - 1) as nat, state);
    }
}

/// One step of the reservoir: a candidate whose draw is zero replaces what was
/// kept.
pub fn reservoir_step(kept: Option<usize>, candidate: usize, drawn: u32) -> (r: Option<usize>)
    ensures
        r == (if drawn == 0 {
            Some(candidate)
        } else {
            kept
        }),
{
    if drawn == 0 {
        Some(candidate)
    } else {
        kept
    }
}

spec fn as_pick(j: Option<usize>) -> Option<int> {
    match j {
        Some(j) => Some(j as int),
        None => None,
    }
}

/// Reservoir-samples one possible placement of a ship in a single pass.
fn pick_placement(
    cfg: &GameConfig,
    ship: &Vec<Vec<usize>>,
    occ: &Vec<bool>,
    rng: &mut StdRng,
    Ghost(ships): Ghost<Seq<Seq<Seq<usize>>>>,
    Ghost(f): Ghost<Seq<int>>,
) -> (r: Option<usize>)
    requires
        cfg.fits(),
        all_on_board(cfg, ships),
        f.len() < ships.len(),
        ships[f.len() as int] == crate::board::views(ship@),
        ship@.len() <= u32::MAX,
        stands(cfg, ships, f),
        marks(cfg, occ@, ships, f),
    ensures
        ({
            let end = reservoir(cfg, ships, f, ship@.len(), rng_state(*old(rng)));
            as_pick(r) == end.kept && rng_state(*final(rng)) == end.state
        }),
{
    let mut chosen: Option<usize> = None;
    let mut seen: u32 = 0;
    let mut k: usize = 0;
    let ghost start = rng_state(*rng);
    while k < ship.len()
        invariant
            cfg.fits(),
            all_on_board(cfg, ships),
            f.len() < ships.len(),
            ships[f.len() as int] == crate::board::views(ship@),
            ship@.len() <= u32::MAX,
            stands(cfg, ships, f),
            marks(cfg, occ@, ships, f),
            k <= ship@.len(),
            ({
                let now = reservoir(cfg, ships, f, k as nat, start);
                now.kept == as_pick(chosen) && now.seen == seen && now.state == rng_state(*rng)
            }),
        decreases ship@.len() - k,
    {
        let p = &ship[k];
        proof {
            assert(ships[f.len() as int][k as int] == p@);
            assert(on_board(cfg, p@));
            lemma_placeable(cfg, occ@, ships, f, k as int);
            lemma_reservoir_seen(cfg, ships, f, k as nat, start);
        }
        if can_place(cfg, occ, p) {
            seen += 1;
            let drawn = draw_below(rng, seen);
            chosen = reservoir_step(chosen, k, drawn);
        }
        k += 1;
    }
    chosen
}

/// Draws a whole fleet onto an empty board. Returns false when a ship found no
/// possible placement.
fn draw_fleet(
    cfg: &GameConfig,
    placements: &[Vec<Vec<usize>>],
    occ: &mut Vec<bool>,
    placed: &mut Vec<usize>,
    rng: &mut StdRng,
) -> (r: bool)
    requires
        cfg.fits(),
        all_on_board(cfg, ships_view(placements@)),
        forall|i: int|
            0 <= i < placements@.len() ==> (#[trigger] ships_view(placements@)[i]).len() <= u32::MAX,
        old(occ)@.len() == cfg.size(),
        forall|c: int| 0 <= c < cfg.size() ==> !#[trigger] old(occ)@[c],
        old(placed)@.len() == 0,
    ensures
        ({
            let end = drawn_fleet(
                cfg,
                ships_view(placements@),
                placements@.len(),
                rng_state(*old(rng)),
            );
            &&& rng_state(*final(rng)) == end.1
            &&& r <==> end.0 is Some
            &&& end.0 matches Some(f) ==> {
                &&& marks(cfg, final(occ)@, ships_view(placements@), f)
                &&& forall|c: usize| #[trigger]
                    final(placed)@.contains(c) <==> occupies(ships_view(placements@), f, c)
            }
        }),
        final(occ)@.len() == cfg.size(),
        on_board(cfg, final(placed)@),
        forall|c: usize|
            c < cfg.size() ==> (final(occ)@[c as int] <==> #[trigger] final(placed)@.contains(c)),
{
    let ghost ships = ships_view(placements@);
    let ghost start = rng_state(*rng);
    let ghost mut f = Seq::<int>::empty();
    let mut i: usize = 0;
    assert(marks(cfg, occ@, ships, f));
    while i < placements.len()
        invariant
            ships == ships_view(placements@),
            cfg.fits(),
            all_on_board(cfg, ships),
            forall|i: int| 0 <= i < placements@.len() ==> (#[trigger] ships[i]).len() <= u32::MAX,
            i <= placements@.len(),
            f.len() == i,
            stands(cfg, ships, f),
            start == rng_state(*old(rng)),
            drawn_fleet(cfg, ships, i as nat, start) == (Some(f), rng_state(*rng)),
            marks(cfg, occ@, ships, f),
            on_board(cfg, placed@),
            forall|c: usize| #[trigger] placed@.contains(c) <==> occupies(ships, f, c),
        decreases placements@.len() - i,
    {
        let ship = &placements[i];
        assert(ships[i as int] == crate::board::views(ship@));
        let ghost before = rng_state(*rng);
        let chosen = pick_placement(cfg, ship, occ, rng, Ghost(ships), Ghost(f));
        proof {
            lemma_reservoir_seen(cfg, ships, f, ship@.len(), before);
            assert(drawn_fleet(cfg, ships, (i + 1) as nat, start) == (match as_pick(chosen) {
                None => (None, rng_state(*rng)),
                Some(j) => (Some(f.push(j)), rng_state(*rng)),
            }));
        }
        match chosen {
            None => {
                proof {
                    lemma_dead_end(cfg, ships, (i + 1) as nat, placements@.len(), start);
                }
                return false;
            },
            Some(j) => {
                let p = &ship[j];
                let ghost g = f.push(j as int);
                let ghost occ0 = occ@;
                let ghost placed0 = placed@;
                proof {
                    assert(ships[i as int][j as int] == p@);
                    assert(on_board(cfg, p@));
                    lemma_placeable(cfg, occ@, ships, f, j as int);
                }
                set_marks(occ, p, true);
                append_cells(placed, p);
                proof {
                    assert forall|c: usize|
                        #![trigger occupies(ships, g, c)]
                        c < cfg.size() implies (occ@[c as int] <==> occupies(ships, g, c)) by {
                        lemma_occupies_push(ships, f, j as int, c);
                        assert(occupies(ships, f, c) <==> occ0[c as int]);
                    }
                    assert forall|a: int, b: int|
                        0 <= a < placed@.len() && 0 <= b < placed@.len() && a
                            != b implies placed@[a] != placed@[b] by {
                        lemma_disjoint_append(cfg, ships, f, occ0, placed0, p@, a, b);
                    }
                    assert forall|c: usize| #[trigger] placed@.contains(c) <==> occupies(
                        ships,
                        g,
                        c,
                    ) by {
                        lemma_occupies_push(ships, f, j as int, c);
                        vstd::seq_lib::lemma_seq_concat_contains_all_elements(placed0, p@, c);
                    }
                    f = g;
                }
            },
        }
        i += 1;
    }
    true
}

/// The seed of batch `b` of a run with so many hits and ships. It depends on
/// nothing else, so that runs are stable.
pub fn batch_seed(b: u64, hits: u64, ships: u64) -> (r: u64)
    ensures
        r == seed_of_batch(b, hits, ships),
{
    0x9E3779B97F4A7C15u64 ^ b.wrapping_mul(0x100000001B3) ^ hits.wrapping_mul(0x2545F4914F6CDD1D)
        ^ ships.wrapping_mul(31)
}

/// No cell is counted more often than there are samples.
pub proof fn lemma_count_in_bounded(ships: Seq<Seq<Seq<usize>>>, s: Seq<Seq<int>>, c: usize)
    ensures
        count_in(ships, s, c) <= s.len(),
    decreases s.len(),
{
    if s.len() > 0 {
        lemma_count_in_bounded(ships, s.drop_last(), c);
    }
}

proof fn lemma_count_in_push(
    ships: Seq<Seq<Seq<usize>>>,
    s: Seq<Seq<int>>,
    f: Seq<int>,
    c: usize,
)
    ensures
        count_in(ships, s.push(f), c) == count_in(ships, s, c) + (if occupies(ships, f, c) {
            1nat
        } else {
            0nat
        }),
{
    assert(s.push(f).drop_last() =~= s);
}

proof fn lemma_count_in_concat(
    ships: Seq<Seq<Seq<usize>>>,
    s: Seq<Seq<int>>,
    t: Seq<Seq<int>>,
    c: usize,
)
    ensures
        count_in(ships, s + t, c) == count_in(ships, s, c) + count_in(ships, t, c),
    decreases t.len(),
{
    if t.len() == 0 {
        assert(s + t =~= s);
    } else {
        lemma_count_in_concat(ships, s, t.drop_last(), c);
        assert((s + t).drop_last() =~= s + t.drop_last());
        assert((s + t).last() == t.last());
    }
}

/// Every attempt accepts at most one sample, and every accepted sample is a
/// whole fleet that explains the hits.
pub proof fn lemma_accepted(
    cfg: &GameConfig,
    ships: Seq<Seq<Seq<usize>>>,
    hits: Seq<usize>,
    attempts: nat,
    state: Seq<u8>,
)
    ensures
        accepted(cfg, ships, hits, attempts, state).0.len() <= attempts,
        forall|i: int|
            #![trigger accepted(cfg, ships, hits, attempts, state).0[i]]
            0 <= i < accepted(cfg, ships, hits, attempts, state).0.len() ==> is_fleet(
                cfg,
                ships,
                hits,
                accepted(cfg, ships, hits, attempts, state).0[i],
            ),
    decreases attempts,
{
    if attempts > 0 {
        lemma_accepted(cfg, ships, hits, (attempts - 1) as nat, state);
        let prev = accepted(cfg, ships, hits, (attempts - 1) as nat, state);
        lemma_drawn_fleet(cfg, ships, ships.len(), prev.1);
    }
}

/// Runs one batch of `per` attempts.
fn sample_batch(
    cfg: &GameConfig,
    placements: &[Vec<Vec<usize>>],
    hits: &[usize],
    per: u64,
    b: u64,
) -> (r: (Vec<u64>, u64))
    requires
        sampleable(cfg, ships_view(placements@), hits@),
    ensures
        ({
            let s = batch_samples(cfg, ships_view(placements@), hits@, per as nat, b);
            &&& r.1 == s.len()
            &&& s.len() <= per
            &&& r.0@.len() == cfg.size()
            &&& forall|c: usize|
                #![trigger r.0@[c as int]]
                c < cfg.size() ==> r.0@[c as int] == count_in(ships_view(placements@), s, c)
        }),
{
    let ghost ships = ships_view(placements@);
    let n = cfg.cells();
    let mut rng = seeded_rng(batch_seed(b, hits.len() as u64, placements.len() as u64));
    let ghost start = rng_state(rng);
    let mut local: Vec<u64> = vec![0u64; n];
    let mut count: u64 = 0;
    let mut occ: Vec<bool> = vec![false; n];
    let mut placed: Vec<usize> = Vec::with_capacity(64);
    let mut t: u64 = 0;
    while t < per
        invariant
            ships == ships_view(placements@),
            sampleable(cfg, ships, hits@),
            t <= per,
            n == cfg.size(),
            local@.len() == n,
            occ@.len() == n,
            on_board(cfg, placed@),
            forall|c: usize|
                c < cfg.size() ==> (occ@[c as int] <==> #[trigger] placed@.contains(c)),
            rng_state(rng) == accepted(cfg, ships, hits@, t as nat, start).1,
            count == accepted(cfg, ships, hits@, t as nat, start).0.len(),
            count <= t,
            forall|c: usize|
                #![trigger local@[c as int]]
                c < n ==> local@[c as int] == count_in(
                    ships,
                    accepted(cfg, ships, hits@, t as nat, start).0,
                    c,
                ),
        decreases per - t,
    {
        let ghost prev = accepted(cfg, ships, hits@, t as nat, start);
        let ghost next = accepted(cfg, ships, hits@, (t + 1) as nat, start);
        set_marks(&mut occ, placed.as_slice(), false);
        assert forall|c: int| 0 <= c < cfg.size() implies !#[trigger] occ@[c] by {
            assert(occ@[(c as usize) as int] == occ@[c]);
            assert(placed@.contains(c as usize) || !placed@.contains(c as usize));
        }
        placed.clear();
        let ok = draw_fleet(cfg, placements, &mut occ, &mut placed, &mut rng);
        let ghost drawn = drawn_fleet(cfg, ships, ships.len(), prev.1);
        let good = ok && all_marked(&occ, hits);
        proof {
            if let Some(f) = drawn.0 {
                if good {
                    assert forall|k: int| 0 <= k < hits@.len() implies occupies(
                        ships,
                        f,
                        #[trigger] hits@[k],
                    ) by {
                        assert(occ@[hits@[k] as int]);
                    }
                    assert(covers(ships, f, hits@));
                }
                if covers(ships, f, hits@) {
                    assert forall|k: int| 0 <= k < hits@.len() implies occ@[#[trigger] hits@[k] as int] by {
                        assert(occupies(ships, f, hits@[k]));
                    }
                    assert(good);
                }
            }
        }
        if good {
            proof {
                assert forall|i: int| 0 <= i < placed@.len() implies local@[#[trigger] placed@[i] as int]
                    < u64::MAX by {
                    lemma_count_in_bounded(ships, prev.0, placed@[i]);
                    assert(local@[placed@[i] as int] == count_in(ships, prev.0, placed@[i]));
                }
            }
            let ghost local0 = local@;
            add_one_at(&mut local, &placed);
            count += 1;
            proof {
                let f = drawn.0.unwrap();
                assert forall|c: usize|
                    #![trigger local@[c as int]]
                    c < n implies local@[c as int] == count_in(ships, next.0, c) by {
                    lemma_count_in_push(ships, prev.0, f, c);
                    assert(local0[c as int] == count_in(ships, prev.0, c));
                    assert(placed@.contains(c) <==> occupies(ships, f, c));
                }
            }
        } else {
            assert(next.0 == prev.0);
        }
        t += 1;
    }
    (local, count)
}

proof fn lemma_samples_bounded(
    cfg: &GameConfig,
    ships: Seq<Seq<Seq<usize>>>,
    hits: Seq<usize>,
    per: nat,
    batches: nat,
)
    ensures
        samples(cfg, ships, hits, per, batches).len() <= per * batches,
    decreases batches,
{
    if batches > 0 {
        lemma_samples_bounded(cfg, ships, hits, per, (batches - 1) as nat);
        lemma_accepted(
            cfg,
            ships,
            hits,
            per,
            seeded_state(seed_of_batch((batches - 1) as u64, hits.len() as u64, ships.len() as u64)),
        );
        assert(per * batches == per * (batches - 1) + per) by (nonlinear_arith)
            requires
                batches > 0,
        ;
    } else {
        assert(per * batches == 0) by (nonlinear_arith)
            requires
                batches == 0,
        ;
    }
}

/// Every sample is a whole fleet that explains the hits.
pub proof fn lemma_samples(
    cfg: &GameConfig,
    ships: Seq<Seq<Seq<usize>>>,
    hits: Seq<usize>,
    per: nat,
    batches: nat,
    i: int,
)
    requires
        0 <= i < samples(cfg, ships, hits, per, batches).len(),
    ensures
        is_fleet(cfg, ships, hits, samples(cfg, ships, hits, per, batches)[i]),
    decreases batches,
{
    let before = samples(cfg, ships, hits, per, (batches - 1) as nat);
    if i < before.len() {
        lemma_samples(cfg, ships, hits, per, (batches - 1) as nat, i);
    } else {
        lemma_accepted(
            cfg,
            ships,
            hits,
            per,
            seeded_state(seed_of_batch((batches - 1) as u64, hits.len() as u64, ships.len() as u64)),
        );
    }
}


/// The weight of a placement.
fn placement_weight(p: &Vec<usize>, hits: &[usize]) -> (r: u64)
    ensures
        r == weight(p@, hits@),
{
    let mut k: usize = 0;
    while k < hits.len()
        invariant
            k <= hits@.len(),
            forall|i: int| 0 <= i < k ==> !p@.contains(#[trigger] hits@[i]),
        decreases hits@.len() - k,
    {
        if contains_cell(p, hits[k]) {
            return 4;
        }
        k += 1;
    }
    1
}

/// Does the list hold the cell?
pub(crate) fn contains_cell(p: &Vec<usize>, c: usize) -> (r: bool)
    ensures
        r == p@.contains(c),
{
    let mut i: usize = 0;
    while i < p.len()
        invariant
            i <= p@.len(),
            forall|k: int| 0 <= k < i ==> p@[k] != c,
        decreases p@.len() - i,
    {
        if p[i] == c {
            return true;
        }
        i += 1;
    }
    false
}

/// Adds `w` to the count of each of the given cells.
fn add_weight_at(grid: &mut Vec<u64>, cells: &Vec<usize>, w: u64)
    requires
        cells@.no_duplicates(),
        forall|i: int| 0 <= i < cells@.len() ==> #[trigger] cells@[i] < old(grid)@.len(),
        forall|i: int|
            0 <= i < cells@.len() ==> old(grid)@[#[trigger] cells@[i] as int] + w <= u64::MAX,
    ensures
        final(grid)@.len() == old(grid)@.len(),
        forall|c: usize|
            #![trigger final(grid)@[c as int]]
            c < old(grid)@.len() ==> final(grid)@[c as int] == old(grid)@[c as int] + (
            if cells@.contains(c) {
                w as int
            } else {
                0int
            }),
{
    let mut k: usize = 0;
    while k < cells.len()
        invariant
            k <= cells@.len(),
            cells@.no_duplicates(),
            grid@.len() == old(grid)@.len(),
            forall|i: int| 0 <= i < cells@.len() ==> #[trigger] cells@[i] < grid@.len(),
            forall|i: int|
                0 <= i < cells@.len() ==> old(grid)@[#[trigger] cells@[i] as int] + w <= u64::MAX,
            forall|c: usize|
                #![trigger grid@[c as int]]
                c < grid@.len() ==> grid@[c as int] == old(grid)@[c as int] + (if cells@.take(
                    k as int,
                ).contains(c) {
                    w as int
                } else {
                    0int
                }),
        decreases cells@.len() - k,
    {
        let ghost before = cells@.take(k as int);
        let ghost after = cells@.take(k + 1);
        let cell = cells[k];
        let ghost prev = grid@;
        assert(!before.contains(cell)) by {
            if before.contains(cell) {
                let i = choose|i: int| 0 <= i < before.len() && before[i] == cell;
                assert(cells@[i] == cells@[k as int]);
            }
        }
        assert(grid@[cell as int] == old(grid)@[cell as int]);
        grid[cell] = grid[cell] + w;
        assert forall|c: usize|
            #![trigger grid@[c as int]]
            c < grid@.len() implies grid@[c as int] == old(grid)@[c as int] + (if after.contains(c) {
            w as int
        } else {
            0int
        }) by {
            assert(after =~= before.push(cell));
            assert(after[k as int] == cell);
            if before.contains(c) {
                let i = choose|i: int| 0 <= i < before.len() && before[i] == c;
                assert(after[i] == c);
            }
            assert(c == cell || grid@[c as int] == prev[c as int]);
        }
        k += 1;
    }
    assert(cells@.take(k as int) =~= cells@);
}

proof fn lemma_ship_weight_grows(ship: Seq<Seq<usize>>, hits: Seq<usize>, k: nat, m: nat)
    requires
        k <= m,
    ensures
        ship_weight(ship, hits, k) <= ship_weight(ship, hits, m),
    decreases m,
{
    if k < m {
        lemma_ship_weight_grows(ship, hits, k, (m - 1) as nat);
    }
}

proof fn lemma_fleet_weight_grows(ships: Seq<Seq<Seq<usize>>>, hits: Seq<usize>, k: nat, m: nat)
    requires
        k <= m,
    ensures
        fleet_weight(ships, hits, k) <= fleet_weight(ships, hits, m),
    decreases m,
{
    if k < m {
        lemma_fleet_weight_grows(ships, hits, k, (m - 1) as nat);
    }
}

proof fn lemma_ship_weight_at_bounded(
    ship: Seq<Seq<usize>>,
    hits: Seq<usize>,
    k: nat,
    c: usize,
)
    ensures
        ship_weight_at(ship, hits, k, c) <= ship_weight(ship, hits, k),
    decreases k,
{
    if k > 0 {
        lemma_ship_weight_at_bounded(ship, hits, (k - 1) as nat, c);
    }
}

/// The weight on a cell is part of the whole weight.
pub proof fn lemma_fleet_weight_at_bounded(
    ships: Seq<Seq<Seq<usize>>>,
    hits: Seq<usize>,
    m: nat,
    c: usize,
)
    ensures
        fleet_weight_at(ships, hits, m, c) <= fleet_weight(ships, hits, m),
    decreases m,
{
    if m > 0 {
        lemma_fleet_weight_at_bounded(ships, hits, (m - 1) as nat, c);
        lemma_ship_weight_at_bounded(ships[m - 1], hits, ships[m - 1].len(), c);
    }
}

/// A crude per-ship density, biased toward placements that touch a hit: the
/// weights of the placements, cell by cell and in all.
pub fn placement_density(
    cfg: &GameConfig,
    placements: &[Vec<Vec<usize>>],
    hits: &[usize],
) -> (r: (Vec<u64>, u64))
    requires
        cfg.fits(),
        all_on_board(cfg, ships_view(placements@)),
        fleet_weight(ships_view(placements@), hits@, placements@.len()) <= u64::MAX,
    ensures
        r.0@.len() == cfg.size(),
        r.1 == fleet_weight(ships_view(placements@), hits@, placements@.len()),
        forall|c: usize|
            #![trigger r.0@[c as int]]
            c < cfg.size() ==> r.0@[c as int] == fleet_weight_at(
                ships_view(placements@),
                hits@,
                placements@.len(),
                c,
            ),
{
    let ghost ships = ships_view(placements@);
    let n = cfg.cells();
    let mut grid: Vec<u64> = vec![0u64; n];
    let mut total: u64 = 0;
    let mut i: usize = 0;
    while i < placements.len()
        invariant
            ships == ships_view(placements@),
            all_on_board(cfg, ships),
            fleet_weight(ships, hits@, placements@.len()) <= u64::MAX,
            i <= placements@.len(),
            grid@.len() == cfg.size(),
            total == fleet_weight(ships, hits@, i as nat),
            forall|c: usize|
                #![trigger grid@[c as int]]
                c < cfg.size() ==> grid@[c as int] == fleet_weight_at(ships, hits@, i as nat, c),
        decreases placements@.len() - i,
    {
        let ship = &placements[i];
        let ghost sv = ships[i as int];
        let ghost base = fleet_weight(ships, hits@, i as nat);
        proof {
            assert(sv == crate::board::views(ship@));
            lemma_fleet_weight_grows(ships, hits@, (i + 1) as nat, placements@.len());
        }
        let mut j: usize = 0;
        while j < ship.len()
            invariant
                ships == ships_view(placements@),
                all_on_board(cfg, ships),
                i < placements@.len(),
                sv == ships[i as int],
                sv == crate::board::views(ship@),
                base == fleet_weight(ships, hits@, i as nat),
                base + ship_weight(sv, hits@, sv.len()) <= u64::MAX,
                j <= ship@.len(),
                grid@.len() == cfg.size(),
                total == base + ship_weight(sv, hits@, j as nat),
                forall|c: usize|
                    #![trigger grid@[c as int]]
                    c < cfg.size() ==> grid@[c as int] == fleet_weight_at(
                        ships,
                        hits@,
                        i as nat,
                        c,
                    ) + ship_weight_at(sv, hits@, j as nat, c),
            decreases ship@.len() - j,
        {
            let p = &ship[j];
            let w = placement_weight(p, hits);
            proof {
                assert(sv[j as int] == p@);
                assert(ships[i as int][j as int] == p@);
                assert(on_board(cfg, p@));
                lemma_ship_weight_grows(sv, hits@, (j + 1) as nat, sv.len());
                assert forall|k: int| 0 <= k < p@.len() implies grid@[#[trigger] p@[k] as int] + w
                    <= u64::MAX by {
                    lemma_fleet_weight_at_bounded(ships, hits@, i as nat, p@[k]);
                    lemma_ship_weight_at_bounded(sv, hits@, j as nat, p@[k]);
                }
            }
            add_weight_at(&mut grid, p, w);
            total = total + w;
            j += 1;
        }
        i += 1;
    }
    (grid, total)
}

/// Monte-Carlo occupancy estimate. The attempts are divided into one batch per
/// worker thread, each with its own seeded generator. If no sample was accepted
/// (rare: hits normally route to the exact engine), the grid is the placement
/// density, so that the heatmap is still usable.
///
/// The number of worker threads, and with it the number of batches, is the
/// machine's; everything else is settled by the arguments.
pub fn monte_carlo(
    cfg: &GameConfig,
    placements: &[Vec<Vec<usize>>],
    hits: &[usize],
    attempts: u64,
) -> (r: Estimate)
    requires
        sampleable(cfg, ships_view(placements@), hits@),
        fleet_weight(ships_view(placements@), hits@, placements@.len()) <= u64::MAX,
    ensures
        exists|batches: nat|
            1 <= batches && #[trigger] estimates(
                cfg,
                ships_view(placements@),
                hits@,
                attempts,
                batches,
                r.grid@,
                r.accepted,
                r.total,
            ),
{
    let batches = at_least_one(worker_count());
    run_batches(cfg, placements, hits, attempts, batches)
}

/// The Monte-Carlo estimate of a run of the given number of batches.
pub fn run_batches(
    cfg: &GameConfig,
    placements: &[Vec<Vec<usize>>],
    hits: &[usize],
    attempts: u64,
    batches: usize,
) -> (r: Estimate)
    requires
        sampleable(cfg, ships_view(placements@), hits@),
        fleet_weight(ships_view(placements@), hits@, placements@.len()) <= u64::MAX,
        1 <= batches,
    ensures
        estimates(
            cfg,
            ships_view(placements@),
            hits@,
            attempts,
            batches as nat,
            r.grid@,
            r.accepted,
            r.total,
        ),
{
    let ghost ships = ships_view(placements@);
    let n = cfg.cells();
    let share: u64 = attempts / (batches as u64);
    let per: u64 = if share > 1 {
        share
    } else {
        1
    };
    let ghost bound = per as nat * batches as nat;
    proof {
        let a = attempts as nat;
        let b = batches as nat;
        vstd::arithmetic::div_mod::lemma_fundamental_div_mod(a as int, b as int);
        assert(per as nat * b <= u64::MAX) by (nonlinear_arith)
            requires
                a <= u64::MAX,
                b <= u64::MAX,
                per as nat == 1 || (a == b * (a / b) + a % b && per as nat == a / b && 0 <= a % b),
        ;
        assert(per == attempts_per_batch(attempts, batches as nat));
    }
    let one_batch = |b: usize| -> (r: (Vec<u64>, u64))
        ensures
            ({
                let s = batch_samples(cfg, ships_view(placements@), hits@, per as nat, b as u64);
                &&& r.1 == s.len()
                &&& r.0@.len() == cfg.size()
                &&& forall|c: usize|
                    #![trigger r.0@[c as int]]
                    c < cfg.size() ==> r.0@[c as int] == count_in(ships_view(placements@), s, c)
            }),
        { sample_batch(cfg, placements, hits, per, b as u64) };
    let parts = parallel_map(batches, one_batch);
    let mut grid: Vec<u64> = vec![0u64; n];
    let mut total: u64 = 0;
    let mut b: usize = 0;
    while b < batches
        invariant
            ships == ships_view(placements@),
            cfg.fits(),
            n == cfg.size(),
            b <= batches,
            parts@.len() == batches,
            bound == per as nat * batches as nat,
            bound <= u64::MAX,
            forall|i: int|
                #![trigger parts@[i]]
                0 <= i < batches ==> {
                    let s = batch_samples(cfg, ships, hits@, per as nat, i as u64);
                    &&& parts@[i].1 == s.len()
                    &&& parts@[i].0@.len() == cfg.size()
                    &&& forall|c: usize|
                        #![trigger parts@[i].0@[c as int]]
                        c < cfg.size() ==> parts@[i].0@[c as int] == count_in(ships, s, c)
                },
            grid@.len() == n,
            total == samples(cfg, ships, hits@, per as nat, b as nat).len(),
            forall|c: usize|
                #![trigger grid@[c as int]]
                c < n ==> grid@[c as int] == count_in(
                    ships,
                    samples(cfg, ships, hits@, per as nat, b as nat),
                    c,
                ),
        decreases batches - b,
    {
        let ghost prev = samples(cfg, ships, hits@, per as nat, b as nat);
        let ghost next = samples(cfg, ships, hits@, per as nat, (b + 1) as nat);
        let ghost here = batch_samples(cfg, ships, hits@, per as nat, b as u64);
        proof {
            assert(next == prev + here);
            lemma_samples_bounded(cfg, ships, hits@, per as nat, (b + 1) as nat);
            assert(per as nat * (b + 1) as nat <= bound) by (nonlinear_arith)
                requires
                    bound == per as nat * batches as nat,
                    b + 1 <= batches,
            ;
            assert(parts@[b as int].1 == here.len());
            assert forall|c: usize| c < n implies #[trigger] grid@[c as int]
                + parts@[b as int].0@[c as int] == count_in(ships, next, c) by {
                lemma_count_in_concat(ships, prev, here, c);
            }
            assert forall|c: usize| c < n implies #[trigger] grid@[c as int]
                + parts@[b as int].0@[c as int] <= u64::MAX by {
                lemma_count_in_bounded(ships, next, c);
            }
        }
        add_grids(&mut grid, &parts[b].0);
        total = total + parts[b].1;
        b += 1;
    }
    if total == 0 {
        let (grid, total) = placement_density(cfg, placements, hits);
        Estimate { grid, accepted: 0, total }
    } else {
        Estimate { grid, accepted: total, total }
    }
}

} // verus!
